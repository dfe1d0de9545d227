use coalition_game::{next_permutation, random_permutation, SimpleRng};

#[test]
fn next_permutation_steps_in_order() {
    let mut p = vec![0u8, 1, 2];
    let mut seen = vec![p.clone()];
    while next_permutation(&mut p) {
        seen.push(p.clone());
    }
    assert_eq!(
        seen,
        vec![
            vec![0, 1, 2],
            vec![0, 2, 1],
            vec![1, 0, 2],
            vec![1, 2, 0],
            vec![2, 0, 1],
            vec![2, 1, 0],
        ]
    );
    // The last order is left unchanged.
    assert_eq!(p, vec![2, 1, 0]);
}

#[test]
fn next_permutation_counts_factorial() {
    let mut p: Vec<u8> = (0..5).collect();
    let mut count = 1;
    while next_permutation(&mut p) {
        count += 1;
    }
    assert_eq!(count, 120);
}

#[test]
fn next_permutation_with_repeated_items() {
    let mut p = vec![1u8, 1, 2];
    assert!(next_permutation(&mut p));
    assert_eq!(p, vec![1, 2, 1]);
    assert!(next_permutation(&mut p));
    assert_eq!(p, vec![2, 1, 1]);
    assert!(!next_permutation(&mut p));
    assert_eq!(p, vec![2, 1, 1]);
}

#[test]
fn next_permutation_short_inputs() {
    let mut empty: Vec<u8> = vec![];
    assert!(!next_permutation(&mut empty));
    let mut one = vec![7u8];
    assert!(!next_permutation(&mut one));
    assert_eq!(one, vec![7]);
}

#[test]
fn next_permutation_middle_step() {
    let mut p = vec![1u8, 3, 4, 2, 0];
    assert!(next_permutation(&mut p));
    assert_eq!(p, vec![1, 4, 0, 2, 3]);
}

#[test]
fn rng_zero_seed_is_one() {
    let mut a = SimpleRng::new(0);
    let mut b = SimpleRng::new(1);
    assert_eq!(a.next_u64(), b.next_u64());
}

#[test]
fn rng_step_value() {
    let mut r = SimpleRng::new(1);
    let expected = 6364136223846793005u64.wrapping_add(1442695040888963407);
    assert_eq!(r.next_u64(), expected);
    let second = expected
        .wrapping_mul(6364136223846793005)
        .wrapping_add(1442695040888963407);
    assert_eq!(r.next_usize(10), (second % 10) as usize);
}

#[test]
fn random_permutation_is_a_permutation() {
    let mut rng = SimpleRng::new(42);
    for n in 0..12u8 {
        let mut p = random_permutation(n, &mut rng);
        assert_eq!(p.len(), n as usize);
        p.sort();
        assert_eq!(p, (0..n).collect::<Vec<u8>>());
    }
}

#[test]
fn random_permutation_is_reproducible() {
    let mut a = SimpleRng::new(7);
    let mut b = SimpleRng::new(7);
    for _ in 0..5 {
        assert_eq!(random_permutation(6, &mut a), random_permutation(6, &mut b));
    }
}

#[test]
fn random_permutation_first_draw() {
    // With seed 1 the first draw for position 0 of 3 items picks
    // index next % 3.
    let mut rng = SimpleRng::new(1);
    let p = random_permutation(3, &mut rng);
    let mut state = 1u64;
    let mut expected = vec![0u8, 1, 2];
    for i in 0..3usize {
        state = state
            .wrapping_mul(6364136223846793005)
            .wrapping_add(1442695040888963407);
        let j = i + (state % (3 - i) as u64) as usize;
        expected.swap(i, j);
    }
    assert_eq!(p, expected);
}

#[test]
fn enumeration_visits_every_order_once_in_increasing_order() {
    let mut p: Vec<u8> = (0..4).collect();
    let mut seen = vec![p.clone()];
    while next_permutation(&mut p) {
        seen.push(p.clone());
    }
    assert_eq!(seen.len(), 24);
    for w in seen.windows(2) {
        assert!(w[0] < w[1]);
    }
    let mut sorted = seen.clone();
    sorted.dedup();
    assert_eq!(sorted.len(), 24);
    assert_eq!(seen.last().unwrap(), &vec![3, 2, 1, 0]);
}
