use native_connectome::members::{ascending_members, ascending_pair_members, insert_all};
use std::collections::BTreeSet;

#[test]
fn members_come_smallest_first() {
    let mut set = BTreeSet::new();
    insert_all(&mut set, &[5, 1, 9, 1, 0]);
    assert_eq!(ascending_members(&set), vec![0, 1, 5, 9]);
    assert_eq!(ascending_members(&BTreeSet::new()), Vec::<usize>::new());
}

#[test]
fn pairs_come_by_the_first_node_and_then_the_second() {
    let set: BTreeSet<(usize, usize)> = [(2, 3), (0, 9), (2, 1), (0, 4)].into_iter().collect();
    assert_eq!(ascending_pair_members(&set), vec![(0, 4), (0, 9), (2, 1), (2, 3)]);
}
