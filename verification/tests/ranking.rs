use hotspot::ranking::rank;

#[test]
fn rank_of_nothing_is_empty() {
    assert!(rank(&Vec::new()).is_empty());
}

#[test]
fn rank_puts_the_higher_count_first() {
    assert_eq!(rank(&vec![1, 5, 3]), vec![1, 2, 0]);
    assert_eq!(rank(&vec![9, 8, 7]), vec![0, 1, 2]);
    assert_eq!(rank(&vec![7, 8, 9]), vec![2, 1, 0]);
}

#[test]
fn rank_keeps_equal_counts_in_their_order() {
    assert_eq!(rank(&vec![2, 2, 2]), vec![0, 1, 2]);
    assert_eq!(rank(&vec![1, 3, 1, 3, 2]), vec![1, 3, 4, 0, 2]);
    assert_eq!(rank(&vec![u32::MAX, 0, u32::MAX]), vec![0, 2, 1]);
}
