use entropy_conservation::union_find::UnionFind;

#[test]
fn new_sets_are_singletons() {
    let mut uf = UnionFind::new(4);
    for i in 0..4 {
        assert_eq!(uf.find(i), i);
    }
}

#[test]
fn union_merges_and_reports() {
    let mut uf = UnionFind::new(5);
    assert!(uf.union(0, 1));
    assert!(uf.union(3, 4));
    assert!(!uf.union(1, 0), "already in one class");
    assert_eq!(uf.find(0), uf.find(1));
    assert_eq!(uf.find(3), uf.find(4));
    assert_ne!(uf.find(0), uf.find(3));
    assert_eq!(uf.find(2), 2);
    assert!(uf.union(1, 4));
    let r = uf.find(0);
    for i in [1, 3, 4] {
        assert_eq!(uf.find(i), r);
    }
    assert_ne!(uf.find(2), r);
}

#[test]
fn union_by_rank_keeps_higher_root() {
    let mut uf = UnionFind::new(3);
    assert!(uf.union(0, 1));
    let r = uf.find(0);
    assert!(uf.union(2, 0));
    assert_eq!(uf.find(2), r, "the deeper tree's root stays the representative");
}

#[test]
fn long_chain_finds_one_root() {
    let n = 200;
    let mut uf = UnionFind::new(n);
    for i in 1..n {
        assert!(uf.union(i - 1, i));
    }
    let r = uf.find(0);
    for i in 0..n {
        assert_eq!(uf.find(i), r);
    }
}

#[test]
fn equal_ranks_keep_first_root() {
    let mut uf = UnionFind::new(4);
    assert!(uf.union(0, 1));
    assert!(uf.union(2, 3));
    assert!(uf.union(0, 2));
    assert_eq!(uf.find(3), 0, "on equal ranks a's root survives");
    for i in 0..4 {
        assert_eq!(uf.find(i), 0);
    }
}

#[test]
fn lower_rank_goes_under_higher() {
    let mut uf = UnionFind::new(3);
    assert!(uf.union(0, 1));
    assert!(uf.union(2, 1));
    assert_eq!(uf.find(2), 0, "root 2 of rank 0 goes under root 0 of rank 1");
    assert!(!uf.union(1, 2));
}
