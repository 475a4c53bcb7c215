use entropy_conservation::order::stable_order;

#[test]
fn stable_order_sorts_by_key() {
    assert_eq!(stable_order(&vec![30, 10, 20]), vec![1, 2, 0]);
}

#[test]
fn stable_order_keeps_ties_in_index_order() {
    assert_eq!(stable_order(&vec![5, 1, 5, 1, 0]), vec![4, 1, 3, 0, 2]);
}

#[test]
fn stable_order_of_nothing() {
    assert!(stable_order(&Vec::new()).is_empty());
}

#[test]
fn stable_order_matches_std_stable_sort() {
    let keys: Vec<u64> = (0..100u64).map(|i| (i * 37 + 11) % 13).collect();
    let mut expected: Vec<usize> = (0..keys.len()).collect();
    expected.sort_by_key(|&i| keys[i]);
    assert_eq!(stable_order(&keys), expected);
}

#[test]
fn stable_order_extreme_keys() {
    assert_eq!(stable_order(&vec![u64::MAX, 0, u64::MAX, 1]), vec![1, 3, 0, 2]);
}
