use algorithms::union_find::UnionFind;

#[test]
fn test_union_find() {
    let mut uf = UnionFind::new(10);

    uf.merge_tree(0, 1);
    uf.merge_tree(1, 2);

    uf.merge_tree(3, 4);

    uf.merge_tree(5, 6);

    uf.merge_tree(7, 8);
    uf.merge_tree(8, 9);

    assert!(uf.is_same(0, 2));
    assert!(uf.is_same(1, 2));
    assert!(uf.is_same(0, 1));

    assert!(uf.is_same(3, 4));
    assert!(uf.is_same(4, 3));

    assert!(uf.is_same(5, 6));

    assert!(uf.is_same(7, 9));
    assert!(uf.is_same(8, 9));
    assert!(uf.is_same(7, 8));

    assert!(!uf.is_same(0, 3));
    assert!(!uf.is_same(5, 8));
    assert!(!uf.is_same(2, 7));
    assert!(!uf.is_same(4, 9));
    assert!(!uf.is_same(1, 6));

    uf.merge_tree(0, 9);
    assert!(uf.is_same(0, 9));
    assert!(uf.is_same(1, 9));
    assert!(uf.is_same(2, 7));
    assert!(uf.is_same(1, 8));
    assert!(uf.is_same(2, 8));
    assert!(uf.is_same(0, 1));
    assert!(uf.is_same(8, 9));
}

#[test]
fn fresh_sets_are_separate() {
    let mut uf = UnionFind::new(3);
    assert!(uf.is_same(1, 1));
    assert!(!uf.is_same(0, 1));
    uf.merge_tree(2, 2);
    assert!(!uf.is_same(1, 2));
    uf.merge_tree(0, 2);
    uf.merge_tree(2, 0);
    assert!(uf.is_same(2, 0));
    assert!(!uf.is_same(0, 1));
}
