use coalition_game::{CoalitionStructure, StabilityAnalysis};

#[test]
fn grand_structure() {
    let s = CoalitionStructure::grand(3);
    assert_eq!(s.n(), 3);
    assert_eq!(s.num_groups(), 1);
    assert_eq!(s.groups().to_vec(), vec![vec![0, 1, 2]]);
    assert_eq!(s.group_of(2), 0);
}

#[test]
fn singleton_structure() {
    let s = CoalitionStructure::singleton(3);
    assert_eq!(s.num_groups(), 3);
    assert_eq!(s.groups().to_vec(), vec![vec![0], vec![1], vec![2]]);
    assert_eq!(s.group_of(1), 1);
}

#[test]
fn new_structure_and_group_of() {
    let groups = vec![vec![0, 1], vec![2, 3]];
    assert!(CoalitionStructure::is_valid_partition(4, &groups));
    let s = CoalitionStructure::new(4, groups);
    assert_eq!(s.num_groups(), 2);
    assert_eq!(s.group_of(0), 0);
    assert_eq!(s.group_of(3), 1);
}

#[test]
fn invalid_partitions_are_detected() {
    // Missing player.
    assert!(!CoalitionStructure::is_valid_partition(3, &vec![vec![0, 1]]));
    // Duplicate player.
    assert!(!CoalitionStructure::is_valid_partition(3, &vec![vec![0, 1], vec![1, 2]]));
    // Repeated inside one group.
    assert!(!CoalitionStructure::is_valid_partition(2, &vec![vec![0, 0, 1]]));
    // Out of range.
    assert!(!CoalitionStructure::is_valid_partition(2, &vec![vec![0, 1, 2]]));
    // Empty groups are allowed.
    assert!(CoalitionStructure::is_valid_partition(2, &vec![vec![], vec![1, 0]]));
    assert!(CoalitionStructure::is_valid_partition(0, &vec![]));
}

#[test]
fn move_between_groups() {
    let s = CoalitionStructure::new(4, vec![vec![0, 1], vec![2, 3]]);
    let m = s.with_move(1, 0, 1);
    assert_eq!(m.groups().to_vec(), vec![vec![0], vec![2, 3, 1]]);
    assert_eq!(m.group_of(1), 1);
    // The emptied group disappears.
    let m2 = m.with_move(0, 0, 1);
    assert_eq!(m2.groups().to_vec(), vec![vec![2, 3, 1, 0]]);
    assert_eq!(m2.num_groups(), 1);
}

#[test]
fn leave_to_own_group() {
    let s = CoalitionStructure::grand(3);
    let l = s.with_leave(1, 0);
    assert_eq!(l.groups().to_vec(), vec![vec![0, 2], vec![1]]);
    assert_eq!(l.group_of(1), 1);
    assert_eq!(l.group_of(2), 0);
}

#[test]
fn clone_keeps_groups() {
    let s = CoalitionStructure::new(3, vec![vec![2], vec![0, 1]]);
    let c = s.clone();
    assert_eq!(c.groups().to_vec(), s.groups().to_vec());
    assert_eq!(c.n(), 3);
}

#[test]
fn stability_analysis_players() {
    let a = StabilityAnalysis::new(4);
    assert_eq!(a.n(), 4);
}

#[test]
fn moves_keep_a_partition() {
    let s = CoalitionStructure::new(5, vec![vec![4, 0], vec![], vec![1, 2, 3]]);
    for player in 0..5u8 {
        let from = s.group_of(player);
        for to in 0..s.num_groups() {
            let m = s.with_move(player, from, to);
            assert!(CoalitionStructure::is_valid_partition(5, &m.groups().to_vec()));
            assert!(m.groups().iter().all(|g| !g.is_empty()));
            assert!(m.groups()[m.group_of(player)].contains(&player));
        }
        let l = s.with_leave(player, from);
        assert!(CoalitionStructure::is_valid_partition(5, &l.groups().to_vec()));
        assert_eq!(l.groups().last().unwrap(), &vec![player]);
    }
}

#[test]
fn move_within_same_group() {
    let s = CoalitionStructure::new(3, vec![vec![0, 1, 2]]);
    let m = s.with_move(0, 0, 0);
    assert_eq!(m.groups().to_vec(), vec![vec![1, 2, 0]]);
}
