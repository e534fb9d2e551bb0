use mst_graph::edge::Edge;
use mst_graph::union_find::UnionFind;

#[test]
fn new_elements_are_singletons() {
    let mut uf = UnionFind::new(4);
    for i in 0..4 {
        assert_eq!(uf.find(i), i);
    }
}

#[test]
fn union_merges_two_classes() {
    let mut uf = UnionFind::new(5);
    assert!(uf.union(1, 2));
    assert_eq!(uf.find(1), uf.find(2));
    assert_ne!(uf.find(1), uf.find(3));
}

#[test]
fn union_of_joined_classes_reports_false() {
    let mut uf = UnionFind::new(5);
    assert!(uf.union(1, 2));
    assert!(!uf.union(2, 1));
    assert!(!uf.union(1, 1));
}

#[test]
fn union_is_transitive() {
    let mut uf = UnionFind::new(6);
    assert!(uf.union(0, 1));
    assert!(uf.union(1, 2));
    assert!(uf.union(4, 5));
    assert_eq!(uf.find(0), uf.find(2));
    assert_ne!(uf.find(2), uf.find(4));
    assert!(uf.union(2, 4));
    assert_eq!(uf.find(0), uf.find(5));
}

#[test]
fn find_is_stable_between_unions() {
    let mut uf = UnionFind::new(8);
    uf.union(3, 4);
    uf.union(4, 5);
    let r1 = uf.find(3);
    let r2 = uf.find(3);
    assert_eq!(r1, r2);
    assert_eq!(uf.find(5), r1);
}

#[test]
fn edge_new_keeps_fields() {
    let e = Edge::new(2, 7, -4);
    assert_eq!(e.u, 2);
    assert_eq!(e.v, 7);
    assert_eq!(e.w, -4);
}

#[test]
fn edge_default_is_zero() {
    let e = Edge::default();
    assert_eq!((e.u, e.v, e.w), (0, 0, 0));
}
