use mini_egraph::util::{Id, UnionFind};

fn class_members(uf: &UnionFind, id: Id) -> Vec<usize> {
    let mut out: Vec<usize> = Vec::new();
    let mut iter = uf.class_of(id);
    while let Some(i) = iter.next() {
        out.push(i.usize());
    }
    out.sort_unstable();
    out
}

#[test]
fn class_of_singleton() {
    let mut uf = UnionFind::default();
    let a = uf.mkset();
    assert_eq!(class_members(&uf, a), vec![a.usize()]);
}

#[test]
fn class_of_after_unions() {
    let mut uf = UnionFind::default();
    let a = uf.mkset();
    let b = uf.mkset();
    let c = uf.mkset();
    let d = uf.mkset();

    uf.union(a, b);
    uf.union(c, d);
    uf.union(b, c);

    assert_eq!(class_members(&uf, a), vec![0, 1, 2, 3]);
    assert_eq!(class_members(&uf, d), vec![0, 1, 2, 3]);
}

#[test]
fn reparent_same_class_is_noop() {
    let mut uf = UnionFind::default();
    let a = uf.mkset();
    let b = uf.mkset();

    uf.union(a, b);
    let before = class_members(&uf, a);
    uf.reparent(a, b);
    let after = class_members(&uf, a);
    assert_eq!(before, after);
}

#[test]
fn union_counts_classes_and_find_mut_compresses() {
    let mut uf = UnionFind::default();
    let ids: Vec<Id> = (0..5).map(|_| uf.mkset()).collect();
    assert_eq!(uf.len(), 5);
    assert_eq!(uf.n_classes(), 5);
    assert!(uf.union(ids[0], ids[1]));
    assert!(uf.union(ids[1], ids[2]));
    assert!(!uf.union(ids[0], ids[2]));
    assert_eq!(uf.n_classes(), 3);
    // union links the first representative under the second
    assert_eq!(uf.find(ids[0]), ids[2]);
    assert!(uf.are_eq(ids[0], ids[2]));
    assert!(!uf.are_eq(ids[0], ids[3]));
    assert_eq!(uf.find_mut(ids[0]), ids[2]);
    assert!(uf.arg_eq_mut(ids[1], ids[0]));
    assert!(uf.is_leader(ids[2]));
    assert!(!uf.is_leader(ids[0]));
    assert!(uf.is_leader(ids[4]));
}

#[test]
fn reparent_merges_without_counting() {
    let mut uf = UnionFind::default();
    let a = uf.mkset();
    let b = uf.mkset();
    uf.reparent(a, b);
    assert!(uf.are_eq(a, b));
    assert_eq!(uf.find(a), b);
    assert_eq!(uf.n_classes(), 2);
    // the ring starts at the new representative, then the absorbed class
    let mut iter = uf.class_of(a);
    assert_eq!(iter.next(), Some(b));
    assert_eq!(iter.next(), Some(a));
    assert_eq!(iter.next(), None);
}

#[test]
fn id_conversions() {
    assert_eq!(Id::new(7).usize(), 7);
    assert_eq!(Id::new(7), Id(7));
}
