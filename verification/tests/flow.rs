use entropy_conservation::flow::{group_edges, module_index, sorted_modules};

fn names(v: &[&str]) -> Vec<String> {
    v.iter().map(|s| s.to_string()).collect()
}

#[test]
fn modules_sorted_and_distinct() {
    let m = sorted_modules(&names(&["parser", "ast", "ast", "typeck", "typeck", "parser"]));
    assert_eq!(m, names(&["ast", "parser", "typeck"]));
}

#[test]
fn modules_of_no_flows_is_empty() {
    assert!(sorted_modules(&Vec::new()).is_empty());
}

#[test]
fn modules_ordered_by_bytes() {
    let m = sorted_modules(&names(&["b", "B", "ab", "a", "é", "z"]));
    assert_eq!(m, names(&["B", "a", "ab", "b", "z", "é"]));
    let mut expected = m.clone();
    expected.sort();
    assert_eq!(m, expected);
}

#[test]
fn index_of_module() {
    let m = names(&["A", "B", "C"]);
    assert_eq!(module_index(&m, &"B".to_string()), Some(1));
    assert_eq!(module_index(&m, &"D".to_string()), None);
    let dup = names(&["A", "B", "A"]);
    assert_eq!(module_index(&dup, &"A".to_string()), Some(2));
}

fn pair(a: &str, b: &str) -> (String, String) {
    (a.to_string(), b.to_string())
}

#[test]
fn group_edges_merges_duplicates() {
    let pairs = vec![pair("A", "B"), pair("B", "C"), pair("A", "B"), pair("B", "A"), pair("B", "C")];
    let (edges, group) = group_edges(&pairs);
    assert_eq!(edges, vec![pair("A", "B"), pair("B", "C"), pair("B", "A")]);
    assert_eq!(group, vec![0, 1, 0, 2, 1]);
}

#[test]
fn group_edges_of_nothing() {
    let (edges, group) = group_edges(&Vec::new());
    assert!(edges.is_empty());
    assert!(group.is_empty());
}
