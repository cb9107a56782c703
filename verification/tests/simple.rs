use mini_egraph::simple::rewrite::rules_checked;
use mini_egraph::simple::{EGraph, Node};
use mini_egraph::util::sexp::sexp;
use mini_egraph::util::{Id, Symbol};

#[test]
fn simple_test_rebuild() {
    let mut eg = EGraph::default();
    let b = eg.add("b");
    let c = eg.add("c");
    let f1 = eg.add("(f a b)");
    let f2 = eg.add("(f a c)");

    eg.union(b, c);
    assert!(!eg.uf().are_eq(f1, f2));

    eg.rebuild();
    assert!(eg.uf().are_eq(f1, f2));
}

#[test]
fn simple_test_match() {
    let mut eg = EGraph::default();
    let f1 = eg.add("(f a a)");
    let f2 = eg.add("(f b b)");
    let f3 = eg.add("(f a b)");

    eg.union(f1, f2);
    eg.union(f2, f3);
    eg.rebuild();

    let fxx_matches = eg.ematch(&sexp("(f x x)"), f1);
    assert_eq!(fxx_matches.len(), 2);

    let fxy_matches = eg.ematch(&sexp("(f x y)"), f1);
    assert_eq!(fxy_matches.len(), 3);
}

#[test]
fn test_ac_rewriting() {
    let mut eg = EGraph::default();

    let n: u32 = 5;
    let atoms = (0..n).map(|i| format!("x{}", i));
    let f = |acc: String, x: String| format!("(f {acc} {x})");
    let input = atoms.clone().reduce(f).unwrap();
    let goal = atoms.rev().reduce(f).unwrap();

    let input = eg.add(&input);
    let goal = eg.add(&goal);
    let rws = [
        (sexp("(f (f x y) z)"), sexp("(f x (f y z))")),
        (sexp("(f x y)"), sexp("(f y x)")),
    ];

    eg.rewrite_to_fixed(&rws);

    assert!(eg.uf().are_eq(input, goal));

    assert_eq!(eg.uf().n_classes(), 2usize.pow(n) - 1);
}

#[test]
fn add_node_hashconses() {
    let mut eg = EGraph::default();
    let a = eg.add_node(Node(Symbol::new("a"), vec![]));
    let a2 = eg.add("a");
    assert_eq!(a, a2);
    let fa = eg.add_node(Node(Symbol::new("f"), vec![a]));
    assert_eq!(eg.add("(f a)"), fa);
    assert_ne!(fa, a);
}

#[test]
fn union_reports_whether_classes_were_distinct() {
    let mut eg = EGraph::default();
    let a = eg.add("a");
    let b = eg.add("b");
    assert!(eg.union(a, b));
    assert!(!eg.union(b, a));
    assert!(eg.uf().are_eq(a, b));
    assert_eq!(eg.uf().n_classes(), 1);
}

#[test]
fn canonicalize_node_uses_representatives() {
    let mut eg = EGraph::default();
    let a = eg.add("a");
    let b = eg.add("b");
    eg.union(a, b);
    let root = eg.uf().find(a);
    let node = eg.canonicalize_node(&Node(Symbol::new("g"), vec![a, b]));
    assert_eq!(node.1, vec![root, root]);
}

#[test]
fn nodes_in_class_after_rebuild() {
    let mut eg = EGraph::default();
    let a = eg.add("a");
    let b = eg.add("b");
    assert!(eg.nodes_in_class(a).is_empty());
    eg.union(a, b);
    eg.rebuild();
    let nodes = eg.nodes_in_class(b);
    assert_eq!(nodes.len(), 2);
    assert!(nodes.iter().any(|n| n.0 == Symbol::new("a")));
    assert!(nodes.iter().any(|n| n.0 == Symbol::new("b")));
}

#[test]
fn ematch_binds_variable_to_class() {
    let mut eg = EGraph::default();
    let a = eg.add("a");
    let fa = eg.add("(f a)");
    eg.rebuild();
    let ms = eg.ematch(&sexp("(f x)"), fa);
    assert_eq!(ms.len(), 1);
    assert_eq!(ms[0].get(Symbol::new("x")), Some(eg.uf().find(a)));
    assert!(eg.ematch(&sexp("(g x)"), fa).is_empty());
}

#[test]
fn instantiate_adds_instance() {
    let mut eg = EGraph::default();
    let a = eg.add("a");
    eg.rebuild();
    let ms = eg.ematch(&sexp("x"), a);
    assert_eq!(ms.len(), 1);
    let r = eg.instantiate(&sexp("(h x x)"), &ms[0]);
    assert_eq!(eg.add("(h a a)"), r);
    let same = eg.instantiate(&sexp("x"), &ms[0]);
    assert_eq!(same, a);
}

#[test]
fn rewrite_merges_instances() {
    let mut eg = EGraph::default();
    let fab = eg.add("(f a b)");
    let fba = eg.add("(f b a)");
    eg.rebuild();
    assert!(!eg.uf().are_eq(fab, fba));
    eg.rewrite(&[(sexp("(f x y)"), sexp("(f y x)"))]);
    eg.rebuild();
    assert!(eg.uf().are_eq(fab, fba));
}

#[test]
fn rebuild_is_idempotent() {
    let mut eg = EGraph::default();
    let b = eg.add("b");
    let c = eg.add("c");
    eg.add("(f b)");
    eg.add("(f c)");
    eg.union(b, c);
    eg.rebuild();
    let classes = eg.uf().n_classes();
    eg.rebuild();
    assert_eq!(eg.uf().n_classes(), classes);
    assert_eq!(classes, 2);
    let unused: Id = Id::new(0);
    assert_eq!(unused.usize(), 0);
}

#[test]
fn rebuild_merges_only_what_congruence_forces() {
    let mut eg = EGraph::default();
    let a = eg.add("a");
    let b = eg.add("b");
    let c = eg.add("c");
    let fa = eg.add("(f a)");
    let fb = eg.add("(f b)");
    let fc = eg.add("(f c)");
    let gfa = eg.add("(g (f a))");
    let gfb = eg.add("(g (f b))");
    eg.union(a, b);
    eg.rebuild();
    assert!(eg.uf().are_eq(fa, fb));
    assert!(eg.uf().are_eq(gfa, gfb));
    assert!(!eg.uf().are_eq(fa, fc));
    assert!(!eg.uf().are_eq(a, c));
    assert!(!eg.uf().are_eq(fa, gfa));
    // a, b | c | f a, f b | f c | g (f a), g (f b)
    assert_eq!(eg.uf().n_classes(), 5);
    assert_eq!(eg.node_count(), 6);
}

#[test]
fn instantiate_reuses_an_existing_node() {
    let mut eg = EGraph::default();
    let fa = eg.add("(f a)");
    let a = eg.add("a");
    let n = eg.uf().len();
    let s = mini_egraph::util::subst("x", a.usize());
    assert_eq!(eg.instantiate(&sexp("(f x)"), &s), fa);
    assert_eq!(eg.uf().len(), n);
}

#[test]
fn rebuild_counts_classes_and_fills_the_class_map() {
    let mut eg = EGraph::default();
    let b = eg.add("b");
    let c = eg.add("c");
    let f1 = eg.add("(f a b)");
    let f2 = eg.add("(f a c)");
    eg.union(b, c);
    eg.rebuild();
    assert!(eg.uf().are_eq(f1, f2));
    assert!(eg.uf().are_eq(b, c));
    assert!(!eg.uf().are_eq(f1, b));
    assert_eq!(eg.uf().n_classes(), 3);
    assert_eq!(eg.nodes_in_class(b).len(), 2);
    assert_eq!(eg.nodes_in_class(f1).len(), 1);
}

#[test]
fn rewrite_then_rebuild_leaves_instances_in_place() {
    let mut eg = EGraph::default();
    let fab = eg.add("(f a b)");
    eg.add("(f b a)");
    eg.rebuild();
    let rw = (sexp("(f x y)"), sexp("(f y x)"));
    eg.rewrite(&[rw]);
    eg.rebuild();
    let ms = eg.ematch(&sexp("(f x y)"), fab);
    let n = eg.uf().len();
    for m in &ms {
        let r = eg.instantiate(&sexp("(f y x)"), m);
        assert!(eg.uf().are_eq(r, fab));
    }
    assert_eq!(eg.uf().len(), n);
}

#[test]
fn has_atom_heads_checks_every_list() {
    assert!(mini_egraph::simple::has_atom_heads(&sexp("(f a (g b))")));
    assert!(!mini_egraph::simple::has_atom_heads(&sexp("(f a ((g) b))")));
    assert!(mini_egraph::simple::has_atom_heads(&sexp("a")));
}

#[test]
fn rules_checked_refuses_unbound_right_side_variables() {
    let good = [(sexp("(f x y)"), sexp("(f y x)"))];
    assert!(rules_checked(&good));
    let unbound = [(sexp("(f x y)"), sexp("(f y z)"))];
    assert!(!rules_checked(&unbound));
    let bad_head = [(sexp("(f x y)"), sexp("((f) y x)"))];
    assert!(!rules_checked(&bad_head));
}
