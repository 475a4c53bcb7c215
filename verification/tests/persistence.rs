use entropy_conservation::persistence::ComponentMerges;

/// Order-preserving integer key of a distance; infinite distances have none.
fn order_key(d: f64) -> Option<u64> {
    if d.is_infinite() {
        None
    } else if d.is_nan() {
        Some(u64::MAX)
    } else {
        let d = if d == 0.0 { 0.0 } else { d };
        let bits = d.to_bits();
        Some(if bits >> 63 == 1 { !bits } else { bits | (1u64 << 63) })
    }
}

fn keys(dist: &[f64]) -> Vec<Option<u64>> {
    dist.iter().map(|&d| order_key(d)).collect()
}

#[test]
fn betti_number_single_component() {
    let dist = vec![
        0.0, 0.1, 0.2,
        0.1, 0.0, 0.15,
        0.2, 0.15, 0.0,
    ];
    let pd = ComponentMerges::from_edge_keys(&keys(&dist), 3);
    assert_eq!(pd.betti_numbers[0], 1, "connected graph → β₀ = 1");
}

#[test]
fn betti_number_two_components() {
    let inf = f64::INFINITY;
    let dist = vec![
        0.0, 0.5, inf,
        0.5, 0.0, inf,
        inf, inf, 0.0,
    ];
    let pd = ComponentMerges::from_edge_keys(&keys(&dist), 3);
    assert_eq!(pd.betti_numbers[0], 2, "two components → β₀ = 2");
}

#[test]
fn empty_diagram() {
    let pd = ComponentMerges::from_edge_keys(&keys(&[]), 0);
    assert!(pd.merges.is_empty());
}

#[test]
fn merges_follow_filtration_order() {
    let dist = vec![
        0.0, 0.1, 0.2,
        0.1, 0.0, 0.15,
        0.2, 0.15, 0.0,
    ];
    let pd = ComponentMerges::from_edge_keys(&keys(&dist), 3);
    assert_eq!(pd.merges, vec![(0, 1), (1, 2)]);
    assert_eq!(pd.betti_numbers, vec![1, 1]);
}

#[test]
fn infinite_edges_never_merge() {
    let inf = f64::INFINITY;
    let dist = vec![
        0.0, 0.5, inf,
        0.5, 0.0, inf,
        inf, inf, 0.0,
    ];
    let pd = ComponentMerges::from_edge_keys(&keys(&dist), 3);
    assert_eq!(pd.merges, vec![(0, 1)]);
    assert_eq!(pd.betti_numbers, vec![2, 0], "one edge, no cycle");
}

#[test]
fn equal_keys_keep_pair_order() {
    let dist = vec![
        0.0, 1.0, 1.0, 1.0,
        1.0, 0.0, 1.0, 1.0,
        1.0, 1.0, 0.0, 1.0,
        1.0, 1.0, 1.0, 0.0,
    ];
    let pd = ComponentMerges::from_edge_keys(&keys(&dist), 4);
    assert_eq!(pd.merges, vec![(0, 1), (0, 2), (0, 3)]);
    assert_eq!(pd.betti_numbers, vec![1, 3]);
}

#[test]
fn short_matrix_reads_missing_as_infinite() {
    // Only the first row exists: pairs (1, 2) and beyond are missing.
    let dist = vec![0.0, 2.0, 1.0];
    let pd = ComponentMerges::from_edge_keys(&keys(&dist), 3);
    assert_eq!(pd.merges, vec![(0, 2), (0, 1)]);
    assert_eq!(pd.betti_numbers, vec![1, 0]);
}

#[test]
fn single_point_and_pair() {
    let one = ComponentMerges::from_edge_keys(&keys(&[0.0]), 1);
    assert!(one.merges.is_empty());
    assert_eq!(one.betti_numbers, vec![1]);
    let inf = f64::INFINITY;
    let two = ComponentMerges::from_edge_keys(&keys(&[0.0, inf, inf, 0.0]), 2);
    assert!(two.merges.is_empty());
    assert_eq!(two.betti_numbers, vec![2, 0]);
}

#[test]
fn negative_keys_order_before_positive() {
    let dist = vec![
        0.0, 3.0, -1.0,
        3.0, 0.0, 2.0,
        -1.0, 2.0, 0.0,
    ];
    let pd = ComponentMerges::from_edge_keys(&keys(&dist), 3);
    assert_eq!(pd.merges, vec![(0, 2), (1, 2)]);
    assert_eq!(pd.betti_numbers, vec![1, 1], "a triangle has one cycle");
}
