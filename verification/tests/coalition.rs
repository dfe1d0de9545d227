use coalition_game::Coalition;

#[test]
fn empty_and_grand() {
    let e = Coalition::empty(3);
    let g = Coalition::grand(3);
    assert!(e.is_empty());
    assert!(g.is_grand());
    assert_eq!(e.count(), 0);
    assert_eq!(g.count(), 3);
}

#[test]
fn singleton() {
    let s = Coalition::singleton(4, 2);
    assert_eq!(s.count(), 1);
    assert!(s.contains(2));
    assert!(!s.contains(0));
}

#[test]
fn from_indices() {
    let c = Coalition::from_indices(4, &[0, 2, 3]);
    assert_eq!(c.count(), 3);
    assert!(c.contains(0));
    assert!(!c.contains(1));
    assert!(c.contains(2));
    assert!(c.contains(3));
}

#[test]
fn set_operations() {
    let a = Coalition::from_indices(3, &[0, 1]);
    let b = Coalition::from_indices(3, &[1, 2]);
    let union = a | b;
    assert_eq!(union.count(), 3);
    assert!(union.is_grand());

    let inter = a & b;
    assert_eq!(inter.count(), 1);
    assert!(inter.contains(1));

    let diff = a - b;
    assert_eq!(diff.count(), 1);
    assert!(diff.contains(0));
}

#[test]
fn subset_superset() {
    let a = Coalition::from_indices(3, &[0]);
    let b = Coalition::from_indices(3, &[0, 1]);
    assert!(a.is_subset_of(&b));
    assert!(b.is_superset_of(&a));
    assert!(!a.is_superset_of(&b));
    assert!(a.is_strict_subset_of(&b));
}

#[test]
fn all_coalitions_count() {
    let all: Vec<_> = Coalition::all(3);
    assert_eq!(all.len(), 8);
}

#[test]
fn of_size_count() {
    let pairs: Vec<_> = Coalition::of_size(4, 2);
    assert_eq!(pairs.len(), 6); // C(4,2)
}

#[test]
fn players_iterator() {
    let c = Coalition::from_indices(5, &[1, 3, 4]);
    let players: Vec<u8> = c.players();
    assert_eq!(players, vec![1, 3, 4]);
}

#[test]
fn insert_and_remove() {
    let mut c = Coalition::empty(4);
    c.insert(1);
    c.insert(3);
    assert_eq!(c.count(), 2);
    assert!(c.contains(1));
    assert!(c.contains(3));
    c.remove(1);
    assert_eq!(c.count(), 1);
    assert!(!c.contains(1));
}

#[test]
fn bitmask_roundtrip() {
    let c = Coalition::from_mask(5, 0b10110);
    assert_eq!(c.mask(), 0b10110);
    let c2 = Coalition::from_mask(c.num_players(), c.mask());
    assert_eq!(c, c2);
}

// ---------------------------------------------------------------------------
// Further cases.
// ---------------------------------------------------------------------------

#[test]
fn grand_masks() {
    assert_eq!(Coalition::grand(0).mask(), 0);
    assert_eq!(Coalition::grand(5).mask(), 0b11111);
    assert_eq!(Coalition::grand(63).mask(), u64::MAX >> 1);
    assert_eq!(Coalition::grand(63).count(), 63);
    assert!(Coalition::grand(0).is_empty());
    assert!(Coalition::grand(0).is_grand());
}

#[test]
fn singleton_high_player() {
    let s = Coalition::singleton(64, 63);
    assert_eq!(s.mask(), 1u64 << 63);
    assert_eq!(s.count(), 1);
    assert!(s.contains(63));
}

#[test]
fn count_of_full_mask() {
    assert_eq!(Coalition::from_mask(64, u64::MAX).count(), 64);
    assert_eq!(Coalition::from_mask(64, 0b1011_0001).count(), 4);
}

#[test]
fn from_indices_repeated_and_empty() {
    let c = Coalition::from_indices(4, &[2, 2, 0]);
    assert_eq!(c.mask(), 0b101);
    let e = Coalition::from_indices(4, &[]);
    assert!(e.is_empty());
}

#[test]
fn insert_then_remove_restores() {
    let c = Coalition::from_indices(6, &[0, 4]);
    let mut d = c;
    d.insert(2);
    assert_eq!(d.mask(), 0b10101);
    d.remove(2);
    assert_eq!(d, c);
    let mut e = c;
    e.insert(4);
    assert_eq!(e, c);
    e.remove(5);
    assert_eq!(e, c);
}

#[test]
fn subset_is_reflexive_and_transitive() {
    let a = Coalition::from_indices(4, &[1]);
    let b = Coalition::from_indices(4, &[1, 2]);
    let c = Coalition::from_indices(4, &[0, 1, 2]);
    assert!(a.is_subset_of(&a));
    assert!(!a.is_strict_subset_of(&a));
    assert!(a.is_subset_of(&b) && b.is_subset_of(&c) && a.is_subset_of(&c));
    assert!(!c.is_subset_of(&b));
}

#[test]
fn set_operation_masks() {
    let a = Coalition::from_mask(4, 0b0110);
    let b = Coalition::from_mask(4, 0b1100);
    assert_eq!((a | b).mask(), 0b1110);
    assert_eq!((a & b).mask(), 0b0100);
    assert_eq!((a - b).mask(), 0b0010);
    assert_eq!((b - a).mask(), 0b1000);
}

#[test]
fn all_is_ordered_by_mask() {
    let all = Coalition::all(2);
    let masks: Vec<u64> = all.iter().map(|c| c.mask()).collect();
    assert_eq!(masks, vec![0, 1, 2, 3]);
    assert!(all.iter().all(|c| c.num_players() == 2));
    assert_eq!(Coalition::all(0).len(), 1);
}

#[test]
fn of_size_members() {
    let triples = Coalition::of_size(4, 3);
    let masks: Vec<u64> = triples.iter().map(|c| c.mask()).collect();
    assert_eq!(masks, vec![0b0111, 0b1011, 0b1101, 0b1110]);
    assert_eq!(Coalition::of_size(3, 0).len(), 1);
    assert_eq!(Coalition::of_size(3, 4).len(), 0);
}

#[test]
fn players_of_empty_and_grand() {
    assert_eq!(Coalition::empty(3).players(), Vec::<u8>::new());
    assert_eq!(Coalition::grand(4).players(), vec![0, 1, 2, 3]);
    // Bits beyond the universe are not players.
    assert_eq!(Coalition::from_mask(2, 0b111).players(), vec![0, 1]);
}

fn binomial(n: u64, k: u64) -> u64 {
    if k > n {
        return 0;
    }
    let mut r = 1u64;
    for i in 0..k {
        r = r * (n - i) / (i + 1);
    }
    r
}

#[test]
fn of_size_counts_are_binomial() {
    for n in 0..=10u8 {
        let mut total = 0;
        for k in 0..=n + 1 {
            let len = Coalition::of_size(n, k).len();
            assert_eq!(len as u64, binomial(n as u64, k as u64));
            total += len;
        }
        assert_eq!(total, 1usize << n);
    }
}

#[test]
fn union_and_intersection_membership() {
    let a = Coalition::from_indices(6, &[0, 2, 5]);
    let b = Coalition::from_indices(6, &[2, 3]);
    for i in 0..6u8 {
        assert_eq!((a | b).contains(i), a.contains(i) || b.contains(i));
        assert_eq!((a & b).contains(i), a.contains(i) && b.contains(i));
        assert_eq!((a - b).contains(i), a.contains(i) && !b.contains(i));
    }
}

#[test]
fn debug_text_lists_members() {
    assert_eq!(Coalition::from_indices(5, &[1, 3, 4]).debug_string(), "Coalition{1,3,4}");
    assert_eq!(Coalition::empty(3).debug_string(), "Coalition{}");
    assert_eq!(Coalition::singleton(64, 63).debug_string(), "Coalition{63}");
    assert_eq!(Coalition::from_indices(20, &[0, 9, 10, 19]).debug_string(), "Coalition{0,9,10,19}");
    // Bits beyond the universe are not players.
    assert_eq!(Coalition::from_mask(2, 0b111).debug_string(), "Coalition{0,1}");
}

#[test]
fn players_from_mask_high_bits() {
    let c = Coalition::from_mask(64, (1u64 << 63) | 1);
    assert_eq!(c.players(), vec![0, 63]);
}

#[test]
fn strict_subset_of_same_mask_other_universe() {
    let a = Coalition::from_mask(3, 0b011);
    let b = Coalition::from_mask(4, 0b011);
    assert!(!a.is_strict_subset_of(&b));
}
