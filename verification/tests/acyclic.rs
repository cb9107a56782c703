use mini_egraph::acyclic::{Context, Expr};
use mini_egraph::util::{subst, Id, Sexp, Symbol};

#[test]
fn add_hashconses_equal_expressions() {
    let mut ctx = Context::default();
    let x1 = ctx.add("x");
    let x2 = ctx.add("x");
    assert_eq!(x1, x2);
}

#[test]
fn insert_list_is_left_assoc() {
    let mut ctx = Context::default();
    let fab = ctx.add("(f a b)");
    let fab2 = ctx.add("((f a) b)");
    let fab3 = ctx.add("(f (a b))");
    assert_eq!(fab, fab2);
    assert_ne!(fab, fab3);
}

#[test]
fn matches_repeated_var_enforces_same_target() {
    let mut ctx = Context::default();

    let pat = ctx.add("(?x ?x)");

    let a = ctx.add("a");
    let aa = ctx.add("(a a)");
    let ab = ctx.add("(a b)");

    let aa_matches = ctx.matches(pat, aa);
    assert_eq!(aa_matches, vec![subst("?x", a.usize())]);

    let ab_matches = ctx.matches(pat, ab);
    assert!(ab_matches.is_empty());
}

#[test]
fn matches_exact_const_needs_equal_target() {
    let mut ctx = Context::default();
    let a = ctx.add("a");
    let b = ctx.add("b");

    assert_eq!(ctx.matches(a, a).len(), 1);
    assert!(ctx.matches(a, b).is_empty());
}

#[test]
fn simple_rewriting() {
    let mut ctx = Context::default();

    // reassociate n things
    let n = 5;
    let atoms: Vec<Id> = (0..n).map(|i| ctx.add(&format!("x{}", i))).collect();
    let f_sym = Symbol::new("f");
    let mut f = |a: Id, b: Id| ctx.call(f_sym, &[a, b]);
    let iter = atoms.iter().cloned();
    let input = iter.clone().reduce(|a, b| f(a, b)).unwrap();
    let goal = iter.rev().reduce(|b, a| f(a, b)).unwrap();

    let lhs = ctx.add("(f (f ?x ?y) ?z)");
    let rhs = ctx.add("(f ?x (f ?y ?z))");

    let c_lhs = ctx.add("(f ?x ?y)");
    let c_rhs = ctx.add("(f ?y ?x)");

    for _ in 0..n {
        // rewrite everywhere
        for id in ctx.ids() {
            ctx.rewrite(id, lhs, rhs);
            ctx.rewrite(id, c_lhs, c_rhs);
        }
    }
    let extracted = ctx.extract(input, 9);
    assert!(!extracted.is_empty());

    assert_eq!(ctx.uf().find(input), ctx.uf().find(goal));
}

#[test]
fn add_sexp_distinguishes_variables_and_constants() {
    let mut ctx = Context::default();
    let x = ctx.add("?x");
    let c = ctx.add("c");
    assert!(matches!(ctx.get(x), Expr::Var(_)));
    assert!(matches!(ctx.get(c), Expr::Const(_)));
    let fc = ctx.add("(f c)");
    match ctx.get(fc) {
        Expr::Pair(head, arg) => {
            assert!(matches!(ctx.get(head), Expr::Const(_)));
            assert_eq!(arg, c);
        }
        other => panic!("expected a pair, got {:?}", other),
    }
}

#[test]
fn union_adds_a_union_node_above_both() {
    let mut ctx = Context::default();
    let a = ctx.add("a");
    let b = ctx.add("b");
    let u = ctx.union(a, b);
    assert_eq!(u, Id(2));
    assert_eq!(ctx.get(u), Expr::Union(a, b));
    assert_eq!(ctx.uf().find(a), u);
    assert_eq!(ctx.uf().find(b), u);
    // already merged: nothing new
    assert_eq!(ctx.union(b, a), u);
    assert_eq!(ctx.ids().len(), 3);
    // a union target matches either side
    assert_eq!(ctx.matches(a, u).len(), 1);
    let v = ctx.add("?v");
    assert_eq!(ctx.matches(v, u), vec![subst("?v", 2)]);
}

#[test]
fn call_curries_arguments() {
    let mut ctx = Context::default();
    let a = ctx.add("a");
    let b = ctx.add("b");
    let fab = ctx.call(Symbol::new("f"), &[a, b]);
    assert_eq!(fab, ctx.add("(f a b)"));
    let f = ctx.call(Symbol::new("f"), &[]);
    assert_eq!(f, ctx.add("f"));
}

#[test]
fn instantiate_builds_the_substituted_term() {
    let mut ctx = Context::default();
    let pat = ctx.add("(g ?x c)");
    let a = ctx.add("a");
    let s = subst("?x", a.usize());
    let r = ctx.instantiate(pat, &s);
    assert_eq!(r, ctx.add("(g a c)"));
    // a constant pattern instantiates to itself
    let c = ctx.add("c");
    assert_eq!(ctx.instantiate(c, &s), c);
}

#[test]
fn matches_with_filters_conflicts() {
    let mut ctx = Context::default();
    let x = ctx.add("?x");
    let a = ctx.add("a");
    let b = ctx.add("b");
    assert_eq!(ctx.matches_with(x, a, subst("?x", a.usize())).len(), 1);
    assert!(ctx.matches_with(x, a, subst("?x", b.usize())).is_empty());
}

fn render(s: &Sexp) -> String {
    match s {
        Sexp::Atom(a) => a.as_str().to_string(),
        Sexp::List(items) => {
            let parts: Vec<String> = items.iter().map(render).collect();
            format!("({})", parts.join(" "))
        }
    }
}

#[test]
fn extract_unfolds_pairs_and_unions() {
    let mut ctx = Context::default();
    let a = ctx.add("a");
    let b = ctx.add("b");
    let fa = ctx.add("(f a)");
    // f is id 2, (f a) is id 3
    assert_eq!(fa, Id(3));
    let out: Vec<String> = ctx.extract(fa, 1).iter().map(render).collect();
    assert_eq!(out, vec!["(2 0)".to_string()]);
    let out: Vec<String> = ctx.extract(fa, 2).iter().map(render).collect();
    assert_eq!(out, vec!["(f a)".to_string()]);
    let gfa = ctx.add("(g (f a) b)");
    let out: Vec<String> = ctx.extract(gfa, 4).iter().map(render).collect();
    assert_eq!(out, vec!["(g (f a) b)".to_string()]);
    let u = ctx.union(a, b);
    let both: Vec<String> = ctx.extract(u, 1).iter().map(render).collect();
    assert_eq!(both, vec!["a".to_string(), "b".to_string()]);
    let shallow: Vec<String> = ctx.extract(fa, 0).iter().map(render).collect();
    assert_eq!(shallow, vec!["3".to_string()]);
}

#[test]
fn call_reuses_an_existing_application() {
    let mut ctx = Context::default();
    let a = ctx.add("a");
    let b = ctx.add("b");
    let fab = ctx.add("(f a b)");
    let n = ctx.ids().len();
    assert_eq!(ctx.call(Symbol::new("f"), &[a, b]), fab);
    assert_eq!(ctx.ids().len(), n);
}

#[test]
fn instantiate_reuses_an_existing_instance() {
    let mut ctx = Context::default();
    let px = ctx.add("(f ?x)");
    let a = ctx.add("a");
    let fa = ctx.add("(f a)");
    let s = subst("?x", a.usize());
    let n = ctx.ids().len();
    assert_eq!(ctx.instantiate(px, &s), fa);
    assert_eq!(ctx.ids().len(), n);
}

#[test]
fn matches_skips_an_unreached_union_in_the_pattern() {
    let mut ctx = Context::default();
    let f = ctx.add("f");
    let x = ctx.add("x");
    let y = ctx.add("y");
    let u = ctx.add_expr(Expr::Union(x, y));
    let pat = ctx.add_expr(Expr::Pair(f, u));
    let g = ctx.add("g");
    assert!(ctx.matches(pat, g).is_empty());
}

#[test]
fn extract_names_deep_ids_in_decimal() {
    let mut ctx = Context::default();
    let mut last = ctx.add("a0");
    for i in 1..12 {
        last = ctx.add(&format!("a{}", i));
    }
    assert_eq!(last, Id(11));
    let shallow: Vec<String> = ctx.extract(last, 0).iter().map(render).collect();
    assert_eq!(shallow, vec!["11".to_string()]);
}
