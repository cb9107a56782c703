use mini_egraph::Pattern::{App, Var};
use mini_egraph::{EGraph, Pattern};

#[test]
fn lib_test_rebuild() {
    let mut eg = EGraph::default();
    let a = eg.add("a", vec![]);
    let b = eg.add("b", vec![]);
    let c = eg.add("c", vec![]);
    let f1 = eg.add("f", vec![a, b]);
    let f2 = eg.add("f", vec![a, c]);

    eg.union(b, c);
    assert!(!eg.is_eq(f1, f2));

    eg.rebuild();
    assert!(eg.is_eq(f1, f2));
}

#[test]
fn lib_test_match() {
    let mut eg = EGraph::default();
    let a = eg.add("a", vec![]);
    let b = eg.add("b", vec![]);

    let f1 = eg.add("f", vec![a, a]);
    let f2 = eg.add("f", vec![b, b]);
    let f3 = eg.add("f", vec![a, b]);

    eg.union(f1, f2);
    eg.union(f2, f3);
    eg.rebuild();

    let pat_fxx = App("f".to_string(), vec![Var("x".to_string()), Var("x".to_string())]);
    let pat_fxy = App("f".to_string(), vec![Var("x".to_string()), Var("y".to_string())]);

    let fxx_matches = eg.ematch(&pat_fxx, f1);
    assert_eq!(fxx_matches.len(), 2);

    let fxy_matches = eg.ematch(&pat_fxy, f1);
    assert_eq!(fxy_matches.len(), 3);
}

#[test]
fn add_returns_root_and_hashconses() {
    let mut eg = EGraph::default();
    let a = eg.add("a", vec![]);
    let a2 = eg.add("a", vec![]);
    assert_eq!(a, a2);
    assert_eq!(a, 0);
    let fa = eg.add("f", vec![a]);
    assert_eq!(fa, 1);
    assert_eq!(eg.find(fa), fa);
}

#[test]
fn union_points_root_to_root() {
    let mut eg = EGraph::default();
    let a = eg.add("a", vec![]);
    let b = eg.add("b", vec![]);
    let c = eg.add("c", vec![]);
    eg.union(a, b);
    assert_eq!(eg.find(a), b);
    eg.union(c, a);
    assert_eq!(eg.find(c), b);
    assert!(eg.is_eq(a, c));
    let fa = eg.add("f", vec![a]);
    let fc = eg.add("f", vec![c]);
    assert_eq!(fa, fc);
}

#[test]
fn nodes_in_class_lists_members() {
    let mut eg = EGraph::default();
    let a = eg.add("a", vec![]);
    let b = eg.add("b", vec![]);
    let c = eg.add("c", vec![]);
    assert_eq!(eg.nodes_in_class(a).len(), 1);
    eg.union(a, b);
    assert_eq!(eg.nodes_in_class(a).len(), 2);
    assert_eq!(eg.nodes_in_class(c).len(), 1);
}

#[test]
fn ematch_keeps_substitution_for_other_heads() {
    let mut eg = EGraph::default();
    let a = eg.add("a", vec![]);
    let fa = eg.add("f", vec![a]);
    let g = eg.add("g", vec![]);
    eg.union(fa, g);
    eg.rebuild();
    let pat = Pattern::App("f".to_string(), vec![Pattern::Var("x".to_string())]);
    // One match from the f node, and the substitution passed through
    // unchanged for the g node of the class.
    let ms = eg.ematch(&pat, fa);
    assert_eq!(ms.len(), 2);
    let var = eg.ematch(&Pattern::Var("y".to_string()), a);
    assert_eq!(var.len(), 1);
    assert_eq!(var[0].get(&"y".to_string()), Some(&a));
}

#[test]
fn lib_rebuild_merges_only_what_congruence_forces() {
    let mut eg = EGraph::default();
    let a = eg.add("a", vec![]);
    let b = eg.add("b", vec![]);
    let c = eg.add("c", vec![]);
    let fa = eg.add("f", vec![a]);
    let fb = eg.add("f", vec![b]);
    let fc = eg.add("f", vec![c]);
    let gfa = eg.add("g", vec![fa]);
    let gfb = eg.add("g", vec![fb]);
    eg.union(a, b);
    eg.rebuild();
    assert!(eg.is_eq(fa, fb));
    assert!(eg.is_eq(gfa, gfb));
    assert!(!eg.is_eq(fa, fc));
    assert!(!eg.is_eq(a, c));
    assert!(!eg.is_eq(fa, gfa));
    assert!(!eg.is_eq(gfa, c));
}

#[test]
fn ematch_with_extends_a_given_substitution() {
    let mut eg = EGraph::default();
    let a = eg.add("a", vec![]);
    let b = eg.add("b", vec![]);
    let fa = eg.add("f", vec![a]);
    let pat = Pattern::App("f".to_string(), vec![Pattern::Var("x".to_string())]);
    let bound_a = eg.ematch_with(&pat, fa, &vec![("x".to_string(), a)]).unwrap();
    assert_eq!(bound_a.len(), 1);
    let bound_b = eg.ematch_with(&pat, fa, &vec![("x".to_string(), b)]).unwrap();
    assert_eq!(bound_b.len(), 0);
    assert!(eg.ematch_with(&pat, fa, &vec![("x".to_string(), 99)]).is_none());
}

#[test]
fn add_names_nodes_by_their_text() {
    let mut eg = EGraph::default();
    let a = eg.add("a", vec![]);
    let b = eg.add("b", vec![]);
    assert_ne!(a, b);
    assert_eq!(eg.add("a", vec![]), a);
}
