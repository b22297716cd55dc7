use comp_prog_lib::data_structure::unionfind;

#[test]
fn random_unite() {
    let size = 5;
    let mut uf = unionfind::UnionFind::new(size);

    uf.unite(1, 2);
    uf.unite(3, 2);
    assert!(uf.same(0, 0));
    assert!(uf.same(1, 2));
    assert!(uf.same(1, 3));
    assert!(uf.same(2, 3));
    assert!(!uf.same(0, 1));
    assert!(!uf.same(0, 4));

    uf.unite(2, 4);
    assert!(uf.same(1, 4));
    assert!(uf.same(2, 4));
    assert!(uf.same(3, 4));
    assert!(!uf.same(0, 1));
    assert!(!uf.same(0, 4));
}

#[test]
fn unite_reports_whether_sets_were_apart() {
    let mut uf = unionfind::UnionFind::new(4);
    assert!(uf.unite(0, 1));
    assert!(!uf.unite(1, 0));
    assert!(uf.unite(2, 3));
    assert!(uf.unite(0, 3));
    assert!(!uf.unite(1, 2));
}

#[test]
fn root_size_counts_members() {
    let mut uf = unionfind::UnionFind::new(6);
    for x in 0..6 {
        assert_eq!(uf.size(x), 1);
    }
    uf.unite(0, 1);
    uf.unite(2, 1);
    uf.unite(4, 5);
    let r = uf.root(2);
    assert_eq!(uf.size(r), 3);
    let r = uf.root(5);
    assert_eq!(uf.size(r), 2);
    assert_eq!(uf.size(3), 1);
    uf.unite(5, 0);
    let r = uf.root(4);
    assert_eq!(uf.size(r), 5);
}
