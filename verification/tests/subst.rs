use mini_egraph::util::keyed;
use mini_egraph::util::{subst, Id, Subst, Symbol};

#[test]
fn mod_subst_join_rejects_conflict() {
    let left = subst("x", 0);
    let right = subst("x", 1);
    assert!(left.join(&right).is_none());
}

#[test]
fn subst_with_binds_once() {
    let x = Symbol::new("x");
    let s = Subst::singleton(x, Id::new(3));
    assert_eq!(s.get(x), Some(Id::new(3)));
    assert_eq!(s.with(x, Id::new(3)), Some(s.clone()));
    assert!(s.with(x, Id::new(4)).is_none());
    let y = Symbol::new("y");
    let t = s.with(y, Id::new(5)).unwrap();
    assert_eq!(t.get(y), Some(Id::new(5)));
    assert_eq!(t.index(x), Id::new(3));
    assert_eq!(Subst::default().get(x), None);
}

#[test]
fn subst_join_merges_and_equality_ignores_order() {
    let xy = subst("x", 0).join(&subst("y", 1)).unwrap();
    let yx = subst("y", 1).join(&subst("x", 0)).unwrap();
    assert_eq!(xy, yx);
    assert_ne!(xy, subst("x", 0));
    let again = xy.clone().join(&subst("x", 0)).unwrap();
    assert_eq!(again, xy);
}

#[test]
fn subst_add_merges_compatible_bindings() {
    let left = keyed::subst("x", 0);
    let added = left.add(Symbol::new("y"), Id::new(1));
    let expected = keyed::subst("x", 0).join(&keyed::subst("y", 1)).unwrap();

    assert_eq!(added, expected);
}

#[test]
fn util_subst_join_rejects_conflict() {
    let left = keyed::subst("x", 0);
    let right = keyed::subst("x", 1);
    assert!(left.join(&right).is_none());
}

#[test]
fn keyed_with_replaces_binding() {
    let x = Symbol::new("x");
    let s = keyed::Subst::singleton(x, Id::new(1)).with(x, Id::new(2));
    assert_eq!(s.get(x), Some(Id::new(2)));
    assert_eq!(s.index(x), Id::new(2));
    assert_eq!(s.get(Symbol::new("zz")), None);
    assert_eq!(s.add(x, Id::new(2)), s);
    assert_ne!(s, keyed::Subst::default());
}

#[test]
fn join_with_puts_the_separator_between_items() {
    let items = vec!["a".to_string(), "b".to_string(), "c".to_string()];
    assert_eq!(mini_egraph::util::join_with(&items, ", "), "a, b, c");
    assert_eq!(mini_egraph::util::join_with(&vec![], ", "), "");
    assert_eq!(mini_egraph::util::join_with(&vec!["x".to_string()], "-"), "x");
}

#[test]
fn subst_equality_ignores_binding_order() {
    let x = Symbol::new("x");
    let y = Symbol::new("y");
    let xy = Subst::singleton(x, Id::new(1)).with(y, Id::new(2)).unwrap();
    let yx = Subst::singleton(y, Id::new(2)).with(x, Id::new(1)).unwrap();
    assert_eq!(xy, yx);
    let other = Subst::singleton(y, Id::new(3)).with(x, Id::new(1)).unwrap();
    assert_ne!(xy, other);
}

#[test]
fn subst_join_has_the_empty_substitution_as_unit() {
    let s = subst("x", 4).join(&subst("y", 5)).unwrap();
    assert_eq!(s.clone().join(&Subst::default()), Some(s.clone()));
    assert_eq!(Subst::default().join(&s), Some(s.clone()));
}

#[test]
fn subst_join_commutes() {
    let a = subst("x", 1).join(&subst("z", 7)).unwrap();
    let b = subst("y", 2).join(&subst("z", 7)).unwrap();
    assert_eq!(a.clone().join(&b), b.clone().join(&a));
    let c = subst("z", 8);
    assert!(a.clone().join(&c).is_none());
    assert!(c.join(&a).is_none());
}
