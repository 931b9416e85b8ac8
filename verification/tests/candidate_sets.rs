use wavefunctioncollapse::candidate::SuperState;
use wavefunctioncollapse::entropy::EntropyIndex;

#[test]
fn from_builds_exact_membership() {
    let ss = SuperState::from(&vec![2usize, 0, 2], 4);
    assert_eq!(ss.count(), 2);
    assert!(ss.contains(0));
    assert!(!ss.contains(1));
    assert!(ss.contains(2));
    assert!(!ss.contains(3));
    assert_eq!(ss.states(), vec![0, 2]);
}

#[test]
fn full_holds_every_tile() {
    let ss = SuperState::full(3);
    assert_eq!(ss.count(), 3);
    assert_eq!(ss.states(), vec![0, 1, 2]);
}

#[test]
fn intersect_is_pointwise() {
    let a = SuperState::from(&vec![0usize, 1, 3], 5);
    let b = SuperState::from(&vec![1usize, 2, 3], 5);
    let c = a.intersect(&b);
    assert_eq!(c.count(), 2);
    assert_eq!(c.states(), vec![1, 3]);
}

#[test]
fn intersect_can_empty() {
    let a = SuperState::from(&vec![0usize, 2], 4);
    let b = SuperState::from(&vec![1usize, 3], 4);
    let c = a.intersect(&b);
    assert_eq!(c.count(), 0);
    assert_eq!(c.states(), Vec::<usize>::new());
}

#[test]
fn state_returns_first_member() {
    let ss = SuperState::from(&vec![3usize, 1], 4);
    assert_eq!(ss.state(), 1);
}

#[test]
fn collapse_picks_member_by_rank() {
    let mut ss = SuperState::from(&vec![0usize, 2, 4], 5);
    // rank 4 modulo cardinality 3 is 1: the second member in order, 2
    ss.collapse(4);
    assert_eq!(ss.count(), 1);
    assert_eq!(ss.states(), vec![2]);
}

#[test]
fn collapse_rank_zero_is_first_member() {
    let mut ss = SuperState::from(&vec![0usize, 2, 4], 5);
    ss.collapse(3);
    assert_eq!(ss.states(), vec![0]);
}

#[test]
fn entropy_pick_returns_unique_low_entropy_cell() {
    // nine cells, all in the top bucket 4; then exactly one cell with
    // cardinality 2, the rest resolved (bucket 1) or still full
    let mut idx = EntropyIndex::new(9, 4);
    for c in [0usize, 1, 2, 4, 6, 8] {
        idx.record(c, 4, 1);
    }
    idx.record(3, 4, 2);
    assert_eq!(idx.pick_lowest_entropy(), Some(3));
}

#[test]
fn entropy_pick_scans_buckets_upward() {
    let mut idx = EntropyIndex::new(9, 4);
    idx.record(5, 4, 2);
    idx.record(7, 4, 3);
    assert_eq!(idx.pick_lowest_entropy(), Some(5));
    assert_eq!(idx.pick_lowest_entropy(), Some(7));
    // both picked cells are reserved in bucket 1; the rest are full
    assert_eq!(idx.pick_lowest_entropy(), Some(0));
}

#[test]
fn entropy_pick_skips_resolved_and_contradicted() {
    let mut idx = EntropyIndex::new(3, 3);
    idx.record(0, 3, 1);
    idx.record(1, 3, 0);
    assert_eq!(idx.pick_lowest_entropy(), Some(2));
    assert_eq!(idx.pick_lowest_entropy(), None);
}
