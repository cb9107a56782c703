//! E-matching, instantiation and rewriting on the simple e-graph.
use vstd::prelude::*;

use crate::simple::{
    add_node_spec, add_term, all_heads_are_atoms, args_below, canon, canonical_entry, class_map_ok, class_nodes, find_entry, grows, heads_are_atoms,
    lemma_class_nodes, lemma_find_entry, nodes_with_value, lemma_terms_size_prefix, lemma_terms_size_split, node_views, nodes_below, represents, term_size,
    terms_size, congruence_above, congruent_under, has_atom_heads, lemma_canon_same_mod, rebuilt_entries, same_mod, EGraph, Node, NodeV,
};
use crate::util::unionfind::{coarser, lemma_coarser_trans, merge_classes};
use crate::util::sexp::{deep_seq, lemma_deep_list, lex_from, parse, parsed_tree, parses, shape, shape_seq, tokens, tokens_seq, Tree};
use crate::util::subst::{lookup, with_spec};
use crate::util::{append, Id, Sexp, SexpV, Subst, Symbol};

verus! {

/// The binding lists of a list of substitutions.
pub open spec fn substs_view(v: Seq<Subst>) -> Seq<Seq<(Symbol, Id)>> {
    Seq::new(v.len(), |i: int| v[i]@)
}

/// The matches of `pat` in the class of `c` that extend `s`, in the order
/// in which `ematch` finds them. An atom is a variable: it binds to `c`.
/// A list matches each node of the class (as the class map `cm` lists them)
/// whose symbol is the head of the list and whose arity is that of the rest.
pub open spec fn match_pat(
    cm: Seq<(u32, Seq<NodeV>)>,
    cls: Seq<nat>,
    pat: SexpV,
    c: Id,
    s: Seq<(Symbol, Id)>,
) -> Seq<Seq<(Symbol, Id)>>
    decreases pat, 0nat, 0nat,
{
    match pat {
        SexpV::Atom(name) => match with_spec(s, name, c) {
            Some(s2) => seq![s2],
            None => Seq::empty(),
        },
        SexpV::List(items) => if items.len() > 0 {
            match_nodes(cm, cls, items, class_nodes(cm, cls[c@ as int] as u32), s)
        } else {
            Seq::empty()
        },
    }
}

/// The matches of the list pattern `items` against each of `nodes` in turn,
/// concatenated.
pub open spec fn match_nodes(
    cm: Seq<(u32, Seq<NodeV>)>,
    cls: Seq<nat>,
    items: Seq<SexpV>,
    nodes: Seq<NodeV>,
    s: Seq<(Symbol, Id)>,
) -> Seq<Seq<(Symbol, Id)>>
    decreases items, 2nat, nodes.len(),
{
    if nodes.len() == 0 || items.len() == 0 {
        Seq::empty()
    } else {
        let n = nodes.last();
        match_nodes(cm, cls, items, nodes.drop_last(), s) + if items[0] is Atom && n.0 == items[0]->Atom_0 && n.1.len()
            + 1 == items.len() {
            match_args(cm, cls, items.subrange(1, items.len() as int), n.1, seq![s])
        } else {
            Seq::empty()
        }
    }
}

/// Matches the argument patterns `pats` against the classes `ids`, left to
/// right, starting from the partial matches `todo`.
pub open spec fn match_args(
    cm: Seq<(u32, Seq<NodeV>)>,
    cls: Seq<nat>,
    pats: Seq<SexpV>,
    ids: Seq<Id>,
    todo: Seq<Seq<(Symbol, Id)>>,
) -> Seq<Seq<(Symbol, Id)>>
    decreases pats, 1nat, 0nat,
{
    if pats.len() == 0 || ids.len() == 0 {
        todo
    } else {
        match_args(
            cm,
            cls,
            pats.subrange(1, pats.len() as int),
            ids.subrange(1, ids.len() as int),
            match_each(cm, cls, pats[0], ids[0], todo),
        )
    }
}

/// The matches of `pat` in the class of `c` that extend each of `todo`,
/// concatenated.
pub open spec fn match_each(
    cm: Seq<(u32, Seq<NodeV>)>,
    cls: Seq<nat>,
    pat: SexpV,
    c: Id,
    todo: Seq<Seq<(Symbol, Id)>>,
) -> Seq<Seq<(Symbol, Id)>>
    decreases pat, 1nat, todo.len(),
{
    if todo.len() == 0 {
        Seq::empty()
    } else {
        match_each(cm, cls, pat, c, todo.drop_last()) + match_pat(cm, cls, pat, c, todo.last())
    }
}

/// How a pattern matched: a variable was bound, or a list matched through
/// the node of the class at the given index, each argument taking the
/// substitution from one entry of the list of substitutions to the next in
/// the way given for it.
pub enum MatchWay {
    Bind,
    Through(int, Seq<Seq<(Symbol, Id)>>, Seq<MatchWay>),
}

/// `w` is a way of extending `s` to `t` so that the pattern `pat` matches
/// the class of `c`: a variable is bound to `c` (or already is); a list
/// whose head is the symbol `f` matches through a node of the class with
/// symbol `f` and one argument per remaining item, each item matching the
/// corresponding argument in turn.
pub open spec fn matched(
    cm: Seq<(u32, Seq<NodeV>)>,
    cls: Seq<nat>,
    pat: SexpV,
    c: Id,
    s: Seq<(Symbol, Id)>,
    t: Seq<(Symbol, Id)>,
    w: MatchWay,
) -> bool
    decreases pat, 0nat, 0nat,
{
    match pat {
        SexpV::Atom(x) => with_spec(s, x, c) == Some(t),
        SexpV::List(items) => match w {
            MatchWay::Through(k, subs, ways) => {
                let nodes = class_nodes(cm, cls[c@ as int] as u32);
                &&& items.len() > 0
                &&& items[0] is Atom
                &&& 0 <= k < nodes.len()
                &&& nodes[k].0 == items[0]->Atom_0
                &&& nodes[k].1.len() + 1 == items.len()
                &&& subs.len() == items.len()
                &&& ways.len() == items.len()
                &&& subs[0] == s
                &&& subs.last() == t
                &&& args_matched(cm, cls, items, 1, nodes[k].1, subs, ways)
            },
            MatchWay::Bind => false,
        },
    }
}

/// Each item of `items` from `i` on matches the class `ids[j - 1]` of its
/// position `j`, taking `subs[j - 1]` to `subs[j]` in the way `ways[j]`.
pub open spec fn args_matched(
    cm: Seq<(u32, Seq<NodeV>)>,
    cls: Seq<nat>,
    items: Seq<SexpV>,
    i: int,
    ids: Seq<Id>,
    subs: Seq<Seq<(Symbol, Id)>>,
    ways: Seq<MatchWay>,
) -> bool
    decreases items, 1nat, items.len() - i,
{
    if i < 1 || i >= items.len() {
        true
    } else {
        &&& matched(cm, cls, items[i], ids[i - 1], subs[i - 1], subs[i], ways[i])
        &&& args_matched(cm, cls, items, i + 1, ids, subs, ways)
    }
}

proof fn lemma_each_complete(
    cm: Seq<(u32, Seq<NodeV>)>,
    cls: Seq<nat>,
    pat: SexpV,
    c: Id,
    todo: Seq<Seq<(Symbol, Id)>>,
    s0: Seq<(Symbol, Id)>,
    s1: Seq<(Symbol, Id)>,
)
    requires
        todo.contains(s0),
        match_pat(cm, cls, pat, c, s0).contains(s1),
    ensures
        match_each(cm, cls, pat, c, todo).contains(s1),
    decreases todo.len(),
{
    let left = match_each(cm, cls, pat, c, todo.drop_last());
    let right = match_pat(cm, cls, pat, c, todo.last());
    assert(match_each(cm, cls, pat, c, todo) == left + right);
    let j = choose|j: int| 0 <= j < todo.len() && todo[j] == s0;
    if j < todo.len() - 1 {
        assert(todo.drop_last()[j] == s0);
        lemma_each_complete(cm, cls, pat, c, todo.drop_last(), s0, s1);
        let x = choose|x: int| 0 <= x < left.len() && left[x] == s1;
        assert((left + right)[x] == s1);
    } else {
        let x = choose|x: int| 0 <= x < right.len() && right[x] == s1;
        assert((left + right)[left.len() + x] == s1);
    }
}

proof fn lemma_args_complete(
    cm: Seq<(u32, Seq<NodeV>)>,
    cls: Seq<nat>,
    items: Seq<SexpV>,
    i: int,
    ids: Seq<Id>,
    subs: Seq<Seq<(Symbol, Id)>>,
    ways: Seq<MatchWay>,
    todo: Seq<Seq<(Symbol, Id)>>,
)
    requires
        1 <= i <= items.len(),
        ids.len() + 1 == items.len(),
        subs.len() == items.len(),
        ways.len() == items.len(),
        todo.contains(subs[i - 1]),
        args_matched(cm, cls, items, i, ids, subs, ways),
    ensures
        match_args(cm, cls, items.subrange(i, items.len() as int), ids.subrange(i - 1, ids.len() as int), todo).contains(subs.last()),
    decreases items, 1nat, items.len() - i,
{
    let pats = items.subrange(i, items.len() as int);
    let rest = ids.subrange(i - 1, ids.len() as int);
    if i == items.len() {
        assert(pats.len() == 0);
    } else {
        assert(decreases_to!(items => items[i]));
        lemma_pat_complete(cm, cls, items[i], ids[i - 1], subs[i - 1], subs[i], ways[i]);
        assert(pats[0] == items[i]);
        assert(rest[0] == ids[i - 1]);
        lemma_each_complete(cm, cls, items[i], ids[i - 1], todo, subs[i - 1], subs[i]);
        let todo2 = match_each(cm, cls, pats[0], rest[0], todo);
        lemma_args_complete(cm, cls, items, i + 1, ids, subs, ways, todo2);
        assert(pats.subrange(1, pats.len() as int) =~= items.subrange(i + 1, items.len() as int));
        assert(rest.subrange(1, rest.len() as int) =~= ids.subrange(i, ids.len() as int));
    }
}

proof fn lemma_nodes_complete(
    cm: Seq<(u32, Seq<NodeV>)>,
    cls: Seq<nat>,
    items: Seq<SexpV>,
    nodes: Seq<NodeV>,
    k: int,
    subs: Seq<Seq<(Symbol, Id)>>,
    ways: Seq<MatchWay>,
)
    requires
        items.len() > 0,
        items[0] is Atom,
        0 <= k < nodes.len(),
        nodes[k].0 == items[0]->Atom_0,
        nodes[k].1.len() + 1 == items.len(),
        subs.len() == items.len(),
        ways.len() == items.len(),
        args_matched(cm, cls, items, 1, nodes[k].1, subs, ways),
    ensures
        match_nodes(cm, cls, items, nodes, subs[0]).contains(subs.last()),
    decreases items, 2nat, nodes.len(),
{
    let s = subs[0];
    let t = subs.last();
    let n = nodes.last();
    let left = match_nodes(cm, cls, items, nodes.drop_last(), s);
    let right = if items[0] is Atom && n.0 == items[0]->Atom_0 && n.1.len() + 1 == items.len() {
        match_args(cm, cls, items.subrange(1, items.len() as int), n.1, seq![s])
    } else {
        Seq::empty()
    };
    assert(match_nodes(cm, cls, items, nodes, s) == left + right);
    if k < nodes.len() - 1 {
        assert(nodes.drop_last()[k] == nodes[k]);
        lemma_nodes_complete(cm, cls, items, nodes.drop_last(), k, subs, ways);
        let x = choose|x: int| 0 <= x < left.len() && left[x] == t;
        assert((left + right)[x] == t);
    } else {
        assert(nodes[k] == n);
        assert(seq![s][0] == s);
        lemma_args_complete(cm, cls, items, 1, n.1, subs, ways, seq![s]);
        assert(n.1.subrange(0, n.1.len() as int) =~= n.1);
        let x = choose|x: int| 0 <= x < right.len() && right[x] == t;
        assert((left + right)[left.len() + x] == t);
    }
}

/// E-matching is complete: whenever `w` is a way of extending `s` to `t`
/// so that `pat` matches the class of `c` (for a list pattern, through any
/// node of the class with the pattern's head symbol and arity, its
/// arguments matched in turn), `t` is among the matches that `match_pat`,
/// and so `ematch`, returns.
pub proof fn lemma_pat_complete(
    cm: Seq<(u32, Seq<NodeV>)>,
    cls: Seq<nat>,
    pat: SexpV,
    c: Id,
    s: Seq<(Symbol, Id)>,
    t: Seq<(Symbol, Id)>,
    w: MatchWay,
)
    requires
        matched(cm, cls, pat, c, s, t, w),
    ensures
        match_pat(cm, cls, pat, c, s).contains(t),
    decreases pat, 0nat, 0nat,
{
    match pat {
        SexpV::Atom(x) => {
            assert(match_pat(cm, cls, pat, c, s)[0] == t);
        },
        SexpV::List(items) => {
            if let MatchWay::Through(k, subs, ways) = w {
                let nodes = class_nodes(cm, cls[c@ as int] as u32);
                lemma_nodes_complete(cm, cls, items, nodes, k, subs, ways);
            }
        },
    }
}

proof fn lemma_heads_item(s: Seq<SexpV>, i: int)
    requires
        all_heads_are_atoms(s),
        0 <= i < s.len(),
    ensures
        heads_are_atoms(s[i]),
    decreases s.len(),
{
    if i < s.len() - 1 {
        lemma_heads_item(s.drop_last(), i);
    }
}

proof fn lemma_terms_size_item(s: Seq<SexpV>, i: int)
    requires
        0 <= i < s.len(),
    ensures
        term_size(s[i]) <= terms_size(s),
    decreases s.len(),
{
    if i < s.len() - 1 {
        lemma_terms_size_item(s.drop_last(), i);
    }
}

impl EGraph {
    /// All matches of `pat` in the class of `class`.
    pub fn ematch(&self, pat: &Sexp, class: Id) -> (r: Vec<Subst>)
        requires
            self.wf(),
            heads_are_atoms(pat.deep()),
            class@ < self.classes().len(),
            term_size(pat.deep()) <= usize::MAX,
        ensures
            substs_view(r@) == match_pat(self.class_map(), self.classes(), pat.deep(), class, Seq::empty()),
    {
        let s = Subst::default();
        self.ematch_rec(0, pat, class, s)
    }

    /// The matches of `pat` in the class of `class` that extend `subst`;
    /// `depth` counts the enclosing patterns.
    pub fn ematch_rec(&self, depth: usize, pat: &Sexp, class: Id, subst: Subst) -> (r: Vec<Subst>)
        requires
            self.wf(),
            heads_are_atoms(pat.deep()),
            class@ < self.classes().len(),
            depth + term_size(pat.deep()) <= usize::MAX,
        ensures
            substs_view(r@) == match_pat(self.class_map(), self.classes(), pat.deep(), class, subst@),
        decreases pat, 1nat,
    {
        let ghost cm = self.class_map();
        let ghost cls = self.classes();
        proof {
            self.lemma_classes_facts();
        }
        match pat {
            Sexp::Atom(name) => {
                let mut r: Vec<Subst> = Vec::new();
                match subst.with(*name, class) {
                    Some(s) => {
                        r.push(s);
                        proof {
                            assert(substs_view(r@) =~= seq![s@]);
                        }
                    },
                    None => {
                        proof {
                            assert(substs_view(r@) =~= Seq::<Seq<(Symbol, Id)>>::empty());
                        }
                    },
                }
                r
            },
            Sexp::List(items) => {
                proof {
                    lemma_deep_list(pat);
                }
                let ghost dv = deep_seq(items@);
                let f = match &items[0] {
                    Sexp::Atom(f) => *f,
                    Sexp::List(_) => {
                        proof {
                            assert(dv[0] is Atom);
                        }
                        return Vec::new();
                    },
                };
                proof {
                    assert(dv[0] == SexpV::Atom(f));
                    assert(all_heads_are_atoms(dv));
                }
                let nodes = self.nodes_in_class(class);
                let ghost nv = node_views(nodes@);
                let ghost pats = dv.subrange(1, dv.len() as int);
                let mut results: Vec<Subst> = Vec::new();
                let mut i: usize = 0;
                proof {
                    assert(nv.take(0) =~= Seq::<NodeV>::empty());
                    assert(substs_view(results@) =~= Seq::<Seq<(Symbol, Id)>>::empty());
                }
                while i < nodes.len()
                    invariant
                        self.wf(),
                        cm == self.class_map(),
                        cls == self.classes(),
                        *pat == Sexp::List(*items),
                        dv == deep_seq(items@),
                        pat.deep() == SexpV::List(dv),
                        dv.len() > 0,
                        dv[0] == SexpV::Atom(f),
                        all_heads_are_atoms(dv),
                        pats == dv.subrange(1, dv.len() as int),
                        depth + term_size(pat.deep()) <= usize::MAX,
                        nv == node_views(nodes@),
                        nv == class_nodes(cm, cls[class@ as int] as u32),
                        nodes_below(nv, cls.len()),
                        i <= nodes@.len(),
                        substs_view(results@) == match_nodes(cm, cls, dv, nv.take(i as int), subst@),
                    decreases nodes@.len() - i,
                {
                    let node = &nodes[i];
                    proof {
                        assert(nv.take(i + 1).drop_last() =~= nv.take(i as int));
                        assert(nv.take(i + 1).last() == nv[i as int]);
                        assert(nv[i as int] == node@);
                    }
                    if node.0 == f && node.1.len() == items.len() - 1 {
                        let todo = self.match_node_args(depth, pat, items, node, &subst);
                        let ghost before = results@;
                        results = append(results, todo);
                        proof {
                            assert(substs_view(results@) =~= substs_view(before) + substs_view(todo@));
                        }
                    } else {
                        proof {
                            assert(match_nodes(cm, cls, dv, nv.take(i + 1), subst@) =~= match_nodes(
                                cm,
                                cls,
                                dv,
                                nv.take(i as int),
                                subst@,
                            ));
                        }
                    }
                    i = i + 1;
                }
                proof {
                    assert(nv.take(i as int) =~= nv);
                }
                results
            },
        }
    }
}



impl EGraph {
    /// The matches of the arguments of the list pattern `pat` against the
    /// arguments of `node`, starting from `subst`.
    fn match_node_args(&self, depth: usize, pat: &Sexp, items: &Vec<Sexp>, node: &Node, subst: &Subst) -> (r: Vec<Subst>)
        requires
            self.wf(),
            *pat == Sexp::List(*items),
            heads_are_atoms(pat.deep()),
            depth + term_size(pat.deep()) <= usize::MAX,
            node@.1.len() + 1 == items@.len(),
            args_below(node@.1, self.classes().len()),
        ensures
            substs_view(r@) == match_args(
                self.class_map(),
                self.classes(),
                deep_seq(items@).subrange(1, items@.len() as int),
                node@.1,
                seq![subst@],
            ),
        decreases pat, 0nat,
    {
        let ghost cm = self.class_map();
        let ghost cls = self.classes();
        proof {
            lemma_deep_list(pat);
        }
        let ghost dv = deep_seq(items@);
        let ghost pats = dv.subrange(1, dv.len() as int);
        let ghost ids = node@.1;
        let mut todo: Vec<Subst> = Vec::new();
        todo.push(subst.clone());
        let m = node.1.len();
        let mut j: usize = 0;
        proof {
            assert(substs_view(todo@) =~= seq![subst@]);
            assert(pats.skip(0) =~= pats);
            assert(ids.skip(0) =~= ids);
            assert(all_heads_are_atoms(dv));
            assert(term_size(pat.deep()) == 1 + terms_size(dv));
        }
        while j < m
            invariant
                self.wf(),
                cm == self.class_map(),
                cls == self.classes(),
                *pat == Sexp::List(*items),
                dv == deep_seq(items@),
                pat.deep() == SexpV::List(dv),
                all_heads_are_atoms(dv),
                depth + 1 + terms_size(dv) <= usize::MAX,
                pats == dv.subrange(1, dv.len() as int),
                ids == node@.1,
                m == ids.len(),
                dv.len() == m + 1,
                args_below(ids, cls.len()),
                j <= m,
                match_args(cm, cls, pats, ids, seq![subst@]) == match_args(
                    cm,
                    cls,
                    pats.skip(j as int),
                    ids.skip(j as int),
                    substs_view(todo@),
                ),
            decreases m - j,
        {
            let pa = &items[j + 1];
            let na = node.1[j];
            proof {
                assert(pats.skip(j as int)[0] == dv[j + 1]);
                assert(ids.skip(j as int)[0] == na);
                assert(pats.skip(j as int).subrange(1, pats.skip(j as int).len() as int) =~= pats.skip(j + 1));
                assert(ids.skip(j as int).subrange(1, ids.skip(j as int).len() as int) =~= ids.skip(j + 1));
                lemma_heads_item(dv, j + 1);
                lemma_terms_size_item(dv, j + 1);
                assert(dv[j + 1] == items@[j + 1].deep());
                assert(na@ < cls.len());
            }
            let ghost tv = substs_view(todo@);
            let mut next: Vec<Subst> = Vec::new();
            let mut t: usize = 0;
            proof {
                assert(tv.take(0) =~= Seq::<Seq<(Symbol, Id)>>::empty());
                assert(substs_view(next@) =~= Seq::<Seq<(Symbol, Id)>>::empty());
            }
            while t < todo.len()
                invariant
                    self.wf(),
                    cm == self.class_map(),
                    cls == self.classes(),
                    *pat == Sexp::List(*items),
                    pa == &items@[j + 1],
                    j + 1 < items@.len(),
                    heads_are_atoms(pa.deep()),
                    depth + 1 + term_size(pa.deep()) <= usize::MAX,
                    na@ < cls.len(),
                    tv == substs_view(todo@),
                    t <= todo@.len(),
                    substs_view(next@) == match_each(cm, cls, pa.deep(), na, tv.take(t as int)),
                decreases todo@.len() - t,
            {
                proof {
                    let q: int = j + 1;
                    assert(pat->List_0 == *items);
                    assert(decreases_to!(*pat => pat->List_0));
                    assert(decreases_to!(*items => items@));
                    assert(decreases_to!(items@ => items@[q]));
                }
                let s = todo[t].clone();
                let r = self.ematch_rec(depth + 1, pa, na, s);
                let ghost before = next@;
                next = append(next, r);
                proof {
                    assert(tv.take(t + 1).drop_last() =~= tv.take(t as int));
                    assert(tv.take(t + 1).last() == s@);
                    assert(substs_view(next@) =~= substs_view(before) + substs_view(r@));
                }
                t = t + 1;
            }
            proof {
                assert(tv.take(t as int) =~= tv);
            }
            todo = next;
            j = j + 1;
        }
        proof {
            assert(pats.skip(m as int).len() == 0);
        }
        todo
    }
}

/// The instance of the pattern `v` under `s` is held in the class of `z`,
/// up to the classes `cls`: a variable by the id it is bound to, a list by
/// an entry of the table with the head symbol whose arguments hold the
/// instances of the argument patterns.
pub open spec fn holds(es: Seq<(NodeV, Id)>, cls: Seq<nat>, v: SexpV, s: Seq<(Symbol, Id)>, z: nat) -> bool
    decreases v, 0nat,
{
    &&& z < cls.len()
    &&& match v {
        SexpV::Atom(name) => lookup(s, name) matches Some(id) && id@ < cls.len() && cls[id@ as int] == cls[z as int],
        SexpV::List(items) => items.len() > 0 && some_entry_holds(es, es.len() as int, cls, items, s, z),
    }
}

/// One of the first `n` entries of `es` holds the instance of the list
/// pattern `items` under `s` in the class of `z`.
pub open spec fn some_entry_holds(
    es: Seq<(NodeV, Id)>,
    n: int,
    cls: Seq<nat>,
    items: Seq<SexpV>,
    s: Seq<(Symbol, Id)>,
    z: nat,
) -> bool
    decreases items, n + 1,
{
    if n <= 0 || n > es.len() {
        false
    } else {
        some_entry_holds(es, n - 1, cls, items, s, z) || entry_holds(es, cls, items, s, es[n - 1], z)
    }
}

/// The entry `e` holds the instance of the list pattern `items` under `s`
/// in the class of `z`.
pub open spec fn entry_holds(
    es: Seq<(NodeV, Id)>,
    cls: Seq<nat>,
    items: Seq<SexpV>,
    s: Seq<(Symbol, Id)>,
    e: (NodeV, Id),
    z: nat,
) -> bool
    decreases items, 0nat,
{
    &&& items.len() > 0
    &&& items[0] is Atom
    &&& e.0.0 == items[0]->Atom_0
    &&& e.0.1.len() + 1 == items.len()
    &&& e.1@ < cls.len()
    &&& z < cls.len()
    &&& cls[e.1@ as int] == cls[z as int]
    &&& holds_all(es, cls, items.subrange(1, items.len() as int), s, e.0.1)
}

/// Some entry holds the instance exactly when one of the first `n` does.
pub proof fn lemma_some_entry(
    es: Seq<(NodeV, Id)>,
    n: int,
    cls: Seq<nat>,
    items: Seq<SexpV>,
    s: Seq<(Symbol, Id)>,
    z: nat,
)
    requires
        0 <= n <= es.len(),
    ensures
        some_entry_holds(es, n, cls, items, s, z) <==> exists|j: int|
            0 <= j < n && #[trigger] entry_holds(es, cls, items, s, es[j], z),
    decreases n,
{
    if n > 0 {
        lemma_some_entry(es, n - 1, cls, items, s, z);
        if exists|j: int| 0 <= j < n && #[trigger] entry_holds(es, cls, items, s, es[j], z) {
            let j = choose|j: int| 0 <= j < n && #[trigger] entry_holds(es, cls, items, s, es[j], z);
            if j < n - 1 {
                assert(exists|j2: int| 0 <= j2 < n - 1 && #[trigger] entry_holds(es, cls, items, s, es[j2], z));
            }
            assert(some_entry_holds(es, n, cls, items, s, z));
        }
        if some_entry_holds(es, n, cls, items, s, z) {
            if some_entry_holds(es, n - 1, cls, items, s, z) {
                let j = choose|j: int| 0 <= j < n - 1 && #[trigger] entry_holds(es, cls, items, s, es[j], z);
                assert(entry_holds(es, cls, items, s, es[j], z));
            } else {
                assert(entry_holds(es, cls, items, s, es[n - 1], z));
            }
        }
    }
}

/// Each of `ids` holds the instance of the pattern at the same place in `vs`.
pub open spec fn holds_all(es: Seq<(NodeV, Id)>, cls: Seq<nat>, vs: Seq<SexpV>, s: Seq<(Symbol, Id)>, ids: Seq<Id>) -> bool
    decreases vs, 0nat,
{
    if vs.len() == 0 {
        ids.len() == 0
    } else {
        &&& ids.len() == vs.len()
        &&& holds_all(es, cls, vs.drop_last(), s, ids.drop_last())
        &&& holds(es, cls, vs.last(), s, ids.last()@)
    }
}

/// Every variable of the pattern `v` (an atom; the head of a list is a
/// symbol) is bound in `s` to an id below `n`.
pub open spec fn vars_bound(v: SexpV, s: Seq<(Symbol, Id)>, n: nat) -> bool
    decreases v,
{
    match v {
        SexpV::Atom(name) => lookup(s, name) matches Some(id) && id@ < n,
        SexpV::List(items) => items.len() > 0 && all_vars_bound(items.subrange(1, items.len() as int), s, n),
    }
}

/// Every variable of each of `vs` is bound in `s` to an id below `n`.
pub open spec fn all_vars_bound(vs: Seq<SexpV>, s: Seq<(Symbol, Id)>, n: nat) -> bool
    decreases vs,
{
    if vs.len() == 0 {
        true
    } else {
        all_vars_bound(vs.drop_last(), s, n) && vars_bound(vs.last(), s, n)
    }
}

proof fn lemma_all_vars_item(vs: Seq<SexpV>, s: Seq<(Symbol, Id)>, n: nat, i: int)
    requires
        all_vars_bound(vs, s, n),
        0 <= i < vs.len(),
    ensures
        vars_bound(vs[i], s, n),
    decreases vs.len(),
{
    if i < vs.len() - 1 {
        lemma_all_vars_item(vs.drop_last(), s, n, i);
    }
}

/// What holds stays held when entries are added and classes merge.
pub proof fn lemma_holds_mono(
    es0: Seq<(NodeV, Id)>,
    cls0: Seq<nat>,
    es1: Seq<(NodeV, Id)>,
    cls1: Seq<nat>,
    v: SexpV,
    s: Seq<(Symbol, Id)>,
    z: nat,
)
    requires
        es0.len() <= es1.len(),
        es1.subrange(0, es0.len() as int) == es0,
        coarser(cls1, cls0),
        holds(es0, cls0, v, s, z),
    ensures
        holds(es1, cls1, v, s, z),
    decreases v,
{
    if let SexpV::List(items) = v {
        lemma_some_entry(es0, es0.len() as int, cls0, items, s, z);
        lemma_some_entry(es1, es1.len() as int, cls1, items, s, z);
        let j = choose|j: int| 0 <= j < es0.len() && #[trigger] entry_holds(es0, cls0, items, s, es0[j], z);
        assert(es1[j] == es1.subrange(0, es0.len() as int)[j]);
        let e = es0[j];
        lemma_holds_all_mono(es0, cls0, es1, cls1, items.subrange(1, items.len() as int), s, e.0.1);
        assert(entry_holds(es1, cls1, items, s, es1[j], z));
    }
}

proof fn lemma_holds_all_mono(
    es0: Seq<(NodeV, Id)>,
    cls0: Seq<nat>,
    es1: Seq<(NodeV, Id)>,
    cls1: Seq<nat>,
    vs: Seq<SexpV>,
    s: Seq<(Symbol, Id)>,
    ids: Seq<Id>,
)
    requires
        es0.len() <= es1.len(),
        es1.subrange(0, es0.len() as int) == es0,
        coarser(cls1, cls0),
        holds_all(es0, cls0, vs, s, ids),
    ensures
        holds_all(es1, cls1, vs, s, ids),
    decreases vs,
{
    if vs.len() > 0 {
        lemma_holds_all_mono(es0, cls0, es1, cls1, vs.drop_last(), s, ids.drop_last());
        lemma_holds_mono(es0, cls0, es1, cls1, vs.last(), s, ids.last()@);
    }
}

/// What one id of a class holds, every id of the class holds.
proof fn lemma_holds_rep(es: Seq<(NodeV, Id)>, cls: Seq<nat>, v: SexpV, s: Seq<(Symbol, Id)>, z: nat, w: nat)
    requires
        holds(es, cls, v, s, z),
        w < cls.len(),
        cls[w as int] == cls[z as int],
    ensures
        holds(es, cls, v, s, w),
{
    if let SexpV::List(items) = v {
        lemma_some_entry(es, es.len() as int, cls, items, s, z);
        lemma_some_entry(es, es.len() as int, cls, items, s, w);
        let j = choose|j: int| 0 <= j < es.len() && #[trigger] entry_holds(es, cls, items, s, es[j], z);
        assert(entry_holds(es, cls, items, s, es[j], w));
    }
}

proof fn lemma_holds_all_rep(es: Seq<(NodeV, Id)>, cls: Seq<nat>, vs: Seq<SexpV>, s: Seq<(Symbol, Id)>, ids: Seq<Id>, ids2: Seq<Id>)
    requires
        holds_all(es, cls, vs, s, ids),
        ids2.len() == ids.len(),
        forall|k: int| 0 <= k < ids.len() ==> (#[trigger] ids2[k])@ < cls.len() && cls[ids2[k]@ as int] == cls[ids[k]@ as int],
    ensures
        holds_all(es, cls, vs, s, ids2),
    decreases vs,
{
    if vs.len() > 0 {
        lemma_holds_all_rep(es, cls, vs.drop_last(), s, ids.drop_last(), ids2.drop_last());
        let k = vs.len() - 1;
        assert(ids2[k] == ids2.last());
        lemma_holds_rep(es, cls, vs.last(), s, ids.last()@, ids2.last()@);
    }
}


proof fn lemma_vars_bound_mono(v: SexpV, s: Seq<(Symbol, Id)>, n0: nat, n1: nat)
    requires
        vars_bound(v, s, n0),
        n0 <= n1,
    ensures
        vars_bound(v, s, n1),
    decreases v, 1nat,
{
    if let SexpV::List(items) = v {
        lemma_all_vars_bound_mono(items.subrange(1, items.len() as int), s, n0, n1);
    }
}

proof fn lemma_all_vars_bound_mono(vs: Seq<SexpV>, s: Seq<(Symbol, Id)>, n0: nat, n1: nat)
    requires
        all_vars_bound(vs, s, n0),
        n0 <= n1,
    ensures
        all_vars_bound(vs, s, n1),
    decreases vs, 0nat,
{
    if vs.len() > 0 {
        lemma_all_vars_bound_mono(vs.drop_last(), s, n0, n1);
        lemma_vars_bound_mono(vs.last(), s, n0, n1);
    }
}

proof fn lemma_grows_coarser(cls1: Seq<nat>, cls0: Seq<nat>)
    requires
        cls0.len() <= cls1.len(),
        cls1.subrange(0, cls0.len() as int) == cls0,
    ensures
        coarser(cls1, cls0),
{
    assert forall|x: int, y: int|
        0 <= x < cls0.len() && 0 <= y < cls0.len() && cls0[x] == cls0[y] implies #[trigger] cls1[x] == #[trigger] cls1[y] by {
        assert(cls1[x] == cls1.subrange(0, cls0.len() as int)[x]);
        assert(cls1[y] == cls1.subrange(0, cls0.len() as int)[y]);
    }
}

/// Rebuilding keeps every instance held: when the table `es1` holds each
/// entry of `es0` canonicalized under the coarser classes `cls1`, what `es0`
/// held under `cls0` in a class, `es1` holds under `cls1` in it.
pub proof fn lemma_holds_rebuild(
    es0: Seq<(NodeV, Id)>,
    cls0: Seq<nat>,
    es1: Seq<(NodeV, Id)>,
    cls1: Seq<nat>,
    v: SexpV,
    s: Seq<(Symbol, Id)>,
    z: nat,
)
    requires
        coarser(cls1, cls0),
        cls1.len() == cls0.len(),
        cls1.len() <= u32::MAX,
        forall|i: int| 0 <= i < cls1.len() ==> #[trigger] cls1[i] < cls1.len() && cls1[cls1[i] as int] == cls1[i],
        forall|j: int| 0 <= j < es0.len() ==> args_below((#[trigger] es0[j]).0.1, cls0.len()) && es0[j].1@ < cls0.len(),
        forall|j: int|
            0 <= j < es0.len() ==> es1.contains(
                (canon(cls1, (#[trigger] es0[j]).0), Id(cls1[es0[j].1@ as int] as u32)),
            ),
        holds(es0, cls0, v, s, z),
    ensures
        holds(es1, cls1, v, s, z),
    decreases v,
{
    match v {
        SexpV::Atom(name) => {
            let id = lookup(s, name)->0;
            assert(cls0[id@ as int] == cls0[z as int]);
        },
        SexpV::List(items) => {
            lemma_some_entry(es0, es0.len() as int, cls0, items, s, z);
            let j = choose|j: int| 0 <= j < es0.len() && #[trigger] entry_holds(es0, cls0, items, s, es0[j], z);
            let e = es0[j];
            let pats = items.subrange(1, items.len() as int);
            lemma_holds_all_index(es0, cls0, pats, s, e.0.1);
            let c = canon(cls1, e.0);
            let e2 = (c, Id(cls1[e.1@ as int] as u32));
            assert(es1.contains(e2));
            let y = choose|y: int| 0 <= y < es1.len() && es1[y] == e2;
            assert forall|k: int| 0 <= k < pats.len() implies #[trigger] holds(es1, cls1, pats[k], s, c.1[k]@) by {
                assert(holds(es0, cls0, pats[k], s, e.0.1[k]@));
                assert(pats[k] == items[k + 1]);
                assert(decreases_to!(v => items));
                assert(decreases_to!(items => items[k + 1]));
                lemma_holds_rebuild(es0, cls0, es1, cls1, pats[k], s, e.0.1[k]@);
                assert(e.0.1[k]@ < cls1.len());
                assert(c.1[k] == Id(cls1[e.0.1[k]@ as int] as u32));
                lemma_holds_rep(es1, cls1, pats[k], s, e.0.1[k]@, c.1[k]@);
            }
            lemma_holds_all_index(es1, cls1, pats, s, c.1);
            assert(cls0[e.1@ as int] == cls0[z as int]);
            assert(entry_holds(es1, cls1, items, s, es1[y], z));
            lemma_some_entry(es1, es1.len() as int, cls1, items, s, z);
        },
    }
}

/// Building the instance of the pattern `v` under `s`: a variable is the
/// id it is bound to and changes nothing; a list instantiates its arguments
/// left to right, then adds its node as `add_node_spec` does. The table and
/// classes afterwards, and the id of the instance.
pub open spec fn inst_term(es: Seq<(NodeV, Id)>, cls: Seq<nat>, v: SexpV, s: Seq<(Symbol, Id)>) -> (
    Seq<(NodeV, Id)>,
    Seq<nat>,
    nat,
)
    decreases v,
{
    match v {
        SexpV::Atom(name) => match lookup(s, name) {
            Some(id) => (es, cls, id@),
            None => (es, cls, 0),
        },
        SexpV::List(items) => if items.len() > 0 && items[0] is Atom {
            let t = inst_terms(es, cls, items.drop_first(), s);
            add_node_spec(t.0, t.1, (items[0]->Atom_0, t.2))
        } else {
            (es, cls, 0)
        },
    }
}

/// Building the instances of the patterns `ps` under `s`, in order.
pub open spec fn inst_terms(es: Seq<(NodeV, Id)>, cls: Seq<nat>, ps: Seq<SexpV>, s: Seq<(Symbol, Id)>) -> (
    Seq<(NodeV, Id)>,
    Seq<nat>,
    Seq<Id>,
)
    decreases ps,
{
    if ps.len() == 0 {
        (es, cls, Seq::empty())
    } else {
        let t = inst_terms(es, cls, ps.drop_last(), s);
        let u = inst_term(t.0, t.1, ps.last(), s);
        (u.0, u.1, t.2.push(Id(u.2 as u32)))
    }
}

/// The e-graph (table, classes) while matches are applied, with the pairs
/// of (match class, instance id) merged so far.
pub type ApplyState = (Seq<(NodeV, Id)>, Seq<nat>, Seq<(nat, nat)>);

/// Applying one match: the instance of `rhs` under `s` is built, and its
/// class is merged into that of `c`.
pub open spec fn apply_one(st: ApplyState, rhs: SexpV, c: Id, s: Seq<(Symbol, Id)>) -> ApplyState {
    let t = inst_term(st.0, st.1, rhs, s);
    (t.0, merge_classes(t.1, t.1[c@ as int], t.1[t.2 as int]), st.2.push((c@, t.2)))
}

/// Applying the matches `ss` of one row, in order.
pub open spec fn apply_substs(st: ApplyState, rhs: SexpV, c: Id, ss: Seq<Seq<(Symbol, Id)>>) -> ApplyState
    decreases ss.len(),
{
    if ss.len() == 0 {
        st
    } else {
        apply_one(apply_substs(st, rhs, c, ss.drop_last()), rhs, c, ss.last())
    }
}

/// Applying the matches of the rows `rows`, row by row, each with the right
/// side of its rule.
pub open spec fn apply_rows(st: ApplyState, rows: Seq<MatchRow>, rhss: Seq<SexpV>) -> ApplyState
    decreases rows.len(),
{
    if rows.len() == 0 {
        st
    } else {
        let last = rows.last();
        apply_substs(apply_rows(st, rows.drop_last(), rhss), rhss[last.0 as int], last.1, last.2)
    }
}

/// The e-graph as `rewrite_to_fixed` sees it between rounds: table,
/// classes and class map.
pub type RoundState = (Seq<(NodeV, Id)>, Seq<nat>, Seq<(u32, Seq<NodeV>)>);

/// `b` is what rebuilding makes of the table `es` under the classes `cls`:
/// exactly the entries of `es` canonicalized, the least congruence over
/// them above `cls`, and its class map.
pub open spec fn rebuilt_from(es: Seq<(NodeV, Id)>, cls: Seq<nat>, b: RoundState) -> bool {
    &&& forall|j: int|
        0 <= j < es.len() ==> b.0.contains((canon(b.1, (#[trigger] es[j]).0), Id(b.1[es[j].1@ as int] as u32)))
    &&& forall|a: int| 0 <= a < b.0.len() ==> rebuilt_entries(es, b.1).contains(#[trigger] b.0[a])
    &&& congruence_above(b.1, cls, es)
    &&& forall|q: Seq<nat>| #[trigger] congruence_above(q, cls, es) ==> coarser(q, b.1)
    &&& class_map_ok(b.2, b.0, b.1)
}

/// Rebuilding a second time merges nothing: when `e1` holds what
/// rebuilding makes of `e0`, and `e2` what rebuilding makes of `e1`, two
/// ids share a class in `e2` exactly when they share one in `e1`.
pub proof fn lemma_rebuild_twice(e0: EGraph, e1: EGraph, e2: EGraph)
    requires
        e0.wf(),
        e1.wf(),
        rebuilt_from(e0.entries(), e0.classes(), (e1.entries(), e1.classes(), e1.class_map())),
        rebuilt_from(e1.entries(), e1.classes(), (e2.entries(), e2.classes(), e2.class_map())),
    ensures
        e2.classes().len() == e1.classes().len(),
        forall|x: int, y: int|
            0 <= x < e1.classes().len() && 0 <= y < e1.classes().len() ==> (#[trigger] e2.classes()[x]
                == #[trigger] e2.classes()[y]) == (e1.classes()[x] == e1.classes()[y]),
{
    e0.lemma_entries();
    e1.lemma_classes_facts();
    let es = e0.entries();
    let c1 = e1.classes();
    let es1 = e1.entries();
    let c2 = e2.classes();
    assert(congruent_under(c1, es1)) by {
        assert forall|i: int, j: int|
            0 <= i < es1.len() && 0 <= j < es1.len() && #[trigger] same_mod(c1, es1[i].0, es1[j].0) implies c1[es1[i].1@ as int]
                == c1[es1[j].1@ as int] by {
            let r = rebuilt_entries(es, c1);
            assert(r.contains(es1[i]));
            assert(r.contains(es1[j]));
            let a = choose|a: int| 0 <= a < r.len() && r[a] == es1[i];
            let b = choose|b: int| 0 <= b < r.len() && r[b] == es1[j];
            let na = es[a].0;
            let nb = es[b].0;
            lemma_canon_same_mod(c1, na);
            lemma_canon_same_mod(c1, nb);
            assert(es1[i].0 == canon(c1, na));
            assert(es1[j].0 == canon(c1, nb));
            assert(same_mod(c1, na, nb)) by {
                assert forall|k: int| 0 <= k < na.1.len() implies c1[(#[trigger] na.1[k])@ as int] == c1[nb.1[k]@ as int] by {
                    assert(c1[canon(c1, na).1[k]@ as int] == c1[na.1[k]@ as int]);
                    assert(c1[canon(c1, nb).1[k]@ as int] == c1[nb.1[k]@ as int]);
                    assert(c1[es1[i].0.1[k]@ as int] == c1[es1[j].0.1[k]@ as int]);
                }
            }
            assert(c1[es[a].1@ as int] == c1[es[b].1@ as int]);
            assert(es1[i].1 == Id(c1[es[a].1@ as int] as u32));
            assert(es1[j].1 == Id(c1[es[b].1@ as int] as u32));
        }
    }
    assert(congruence_above(c1, c1, es1));
    assert(coarser(c1, c2));
    assert(coarser(c2, c1));
}

/// `b` is one round after `a`: every match of the rules in `a` rewritten,
/// then rebuilt.
pub open spec fn round_from(a: RoundState, b: RoundState, rws: Seq<(Sexp, Sexp)>) -> bool {
    let st = rewritten(a.0, a.1, a.2, rws);
    rebuilt_from(st.0, st.1, b)
}

/// The rounds of `rewrite_to_fixed` from the table `es` and classes `cls`:
/// a first rebuild, then one round after another.
pub open spec fn rounds(es: Seq<(NodeV, Id)>, cls: Seq<nat>, trace: Seq<RoundState>, rws: Seq<(Sexp, Sexp)>) -> bool {
    &&& trace.len() > 0
    &&& rebuilt_from(es, cls, trace[0])
    &&& forall|i: int| 0 <= i < trace.len() - 1 ==> round_from(#[trigger] trace[i], trace[i + 1], rws)
}

/// One more round extends a run of rounds.
proof fn lemma_rounds_push(
    es: Seq<(NodeV, Id)>,
    cls: Seq<nat>,
    trace: Seq<RoundState>,
    nb: RoundState,
    rws: Seq<(Sexp, Sexp)>,
)
    requires
        rounds(es, cls, trace, rws),
        round_from(trace.last(), nb, rws),
    ensures
        rounds(es, cls, trace.push(nb), rws),
{
    let t = trace.push(nb);
    assert forall|i: int| 0 <= i < t.len() - 1 implies round_from(#[trigger] t[i], t[i + 1], rws) by {
        if i < trace.len() - 1 {
            assert(t[i] == trace[i] && t[i + 1] == trace[i + 1]);
        } else {
            assert(t[i] == trace.last());
        }
    }
    assert(t[0] == trace[0]);
}

/// Every collected match, rule by rule and class by class, rewritten from
/// the e-graph (`es`, `cls`): its table, classes and merged pairs.
pub open spec fn rewritten(
    es: Seq<(NodeV, Id)>,
    cls: Seq<nat>,
    cm: Seq<(u32, Seq<NodeV>)>,
    rws: Seq<(Sexp, Sexp)>,
) -> ApplyState {
    apply_rows((es, cls, Seq::empty()), all_rows(cm, cls, lhs_views(rws), rws.len() as int), rhs_views(rws))
}

/// Building an instance only appends ids, each in a class of its own.
proof fn lemma_inst_term_fresh(es: Seq<(NodeV, Id)>, cls: Seq<nat>, v: SexpV, s: Seq<(Symbol, Id)>)
    ensures
        ({
            let t = inst_term(es, cls, v, s);
            &&& cls.len() <= t.1.len()
            &&& t.1.subrange(0, cls.len() as int) == cls
            &&& forall|i: int| cls.len() <= i < t.1.len() ==> #[trigger] t.1[i] == i
        }),
    decreases v, 1nat,
{
    if let SexpV::List(items) = v {
        if items.len() > 0 && items[0] is Atom {
            lemma_inst_terms_fresh(es, cls, items.drop_first(), s);
            let t = inst_terms(es, cls, items.drop_first(), s);
            lemma_add_node_spec_fresh(t.0, t.1, (items[0]->Atom_0, t.2));
            let u = inst_term(es, cls, v, s);
            assert(u.1.subrange(0, cls.len() as int) =~= cls) by {
                assert(u.1.subrange(0, cls.len() as int) =~= u.1.subrange(0, t.1.len() as int).subrange(0, cls.len() as int));
            }
            assert forall|i: int| cls.len() <= i < u.1.len() implies #[trigger] u.1[i] == i by {
                if i < t.1.len() {
                    assert(u.1[i] == u.1.subrange(0, t.1.len() as int)[i]);
                }
            }
        } else {
            assert(cls.subrange(0, cls.len() as int) =~= cls);
        }
    } else {
        assert(cls.subrange(0, cls.len() as int) =~= cls);
    }
}

proof fn lemma_inst_terms_fresh(es: Seq<(NodeV, Id)>, cls: Seq<nat>, ps: Seq<SexpV>, s: Seq<(Symbol, Id)>)
    ensures
        ({
            let t = inst_terms(es, cls, ps, s);
            &&& cls.len() <= t.1.len()
            &&& t.1.subrange(0, cls.len() as int) == cls
            &&& forall|i: int| cls.len() <= i < t.1.len() ==> #[trigger] t.1[i] == i
        }),
    decreases ps, 0nat,
{
    if ps.len() == 0 {
        assert(cls.subrange(0, cls.len() as int) =~= cls);
    } else {
        lemma_inst_terms_fresh(es, cls, ps.drop_last(), s);
        let t = inst_terms(es, cls, ps.drop_last(), s);
        lemma_inst_term_fresh(t.0, t.1, ps.last(), s);
        let u = inst_term(t.0, t.1, ps.last(), s);
        assert(u.1.subrange(0, cls.len() as int) =~= cls) by {
            assert(u.1.subrange(0, cls.len() as int) =~= u.1.subrange(0, t.1.len() as int).subrange(0, cls.len() as int));
        }
        assert forall|i: int| cls.len() <= i < u.1.len() implies #[trigger] u.1[i] == i by {
            if i < t.1.len() {
                assert(u.1[i] == u.1.subrange(0, t.1.len() as int)[i]);
            }
        }
    }
}

proof fn lemma_add_node_spec_fresh(es: Seq<(NodeV, Id)>, cls: Seq<nat>, n: NodeV)
    ensures
        ({
            let t = add_node_spec(es, cls, n);
            &&& cls.len() <= t.1.len()
            &&& t.1.subrange(0, cls.len() as int) == cls
            &&& forall|i: int| cls.len() <= i < t.1.len() ==> #[trigger] t.1[i] == i
        }),
{
    assert(cls.subrange(0, cls.len() as int) =~= cls);
    assert(cls.push(cls.len()).subrange(0, cls.len() as int) =~= cls);
}

/// `q` puts each pair of `pairs` in one class.
pub open spec fn merges_pairs(q: Seq<nat>, pairs: Seq<(nat, nat)>) -> bool {
    forall|k: int| 0 <= k < pairs.len() ==> q[(#[trigger] pairs[k]).0 as int] == q[pairs[k].1 as int]
}

/// Merging two ids that `q` puts in one class keeps `q` coarser.
proof fn lemma_merge_below(q: Seq<nat>, cls: Seq<nat>, a: int, b: int)
    requires
        coarser(q, cls),
        0 <= a < cls.len(),
        0 <= b < cls.len(),
        q[a] == q[b],
    ensures
        coarser(q, merge_classes(cls, cls[a], cls[b])),
{
    let m = merge_classes(cls, cls[a], cls[b]);
    assert forall|x: int, y: int| 0 <= x < m.len() && 0 <= y < m.len() && m[x] == m[y] implies #[trigger] q[x] == #[trigger] q[y] by {
        if cls[x] == cls[a] {
            assert(q[x] == q[a]);
        }
        if cls[y] == cls[a] {
            assert(q[y] == q[a]);
        }
        if cls[x] == cls[b] {
            assert(q[x] == q[b]);
        }
        if cls[y] == cls[b] {
            assert(q[y] == q[b]);
        }
    }
}

/// Appending ids each in a class of its own keeps `q` coarser, when `q`
/// covers them.
proof fn lemma_fresh_below(q: Seq<nat>, cls1: Seq<nat>, cls2: Seq<nat>)
    requires
        coarser(q, cls1),
        cls1.len() <= cls2.len(),
        cls2.len() <= q.len(),
        cls2.subrange(0, cls1.len() as int) == cls1,
        forall|i: int| 0 <= i < cls1.len() ==> #[trigger] cls1[i] < cls1.len(),
        forall|i: int| cls1.len() <= i < cls2.len() ==> #[trigger] cls2[i] == i,
    ensures
        coarser(q, cls2),
{
    assert forall|x: int, y: int|
        0 <= x < cls2.len() && 0 <= y < cls2.len() && cls2[x] == cls2[y] implies #[trigger] q[x] == #[trigger] q[y] by {
        if x < cls1.len() {
            assert(cls2[x] == cls1[x]);
        }
        if y < cls1.len() {
            assert(cls2[y] == cls1[y]);
        }
    }
}

/// Every entry of the table is canonical under `cls`.
pub open spec fn canonical_table(es: Seq<(NodeV, Id)>, cls: Seq<nat>) -> bool {
    forall|j: int| 0 <= j < es.len() ==> canonical_entry(cls, #[trigger] es[j])
}

/// In a canonical table with distinct nodes, the node `f(args)` whose
/// arguments are in the classes of the instances of the argument patterns
/// is, canonicalized, the entry that holds the instance of the list pattern
/// `dv`; so it is found in the class of any class that holds it.
proof fn lemma_reuse_node(
    es: Seq<(NodeV, Id)>,
    cls: Seq<nat>,
    dv: Seq<SexpV>,
    f: Symbol,
    args: Seq<Id>,
    s: Seq<(Symbol, Id)>,
    c2: nat,
)
    requires
        canonical_table(es, cls),
        forall|i: int, j: int| 0 <= i < j < es.len() ==> (#[trigger] es[i]).0 != (#[trigger] es[j]).0,
        forall|i: int| 0 <= i < cls.len() ==> #[trigger] cls[i] < cls.len(),
        cls.len() < u32::MAX,
        dv.len() >= 1,
        dv[0] == SexpV::Atom(f),
        args.len() + 1 == dv.len(),
        forall|j: int| 0 <= j < args.len() ==> (#[trigger] args[j])@ < cls.len(),
        forall|j: int, c: nat|
            0 <= j < args.len() && #[trigger] holds(es, cls, dv.subrange(1, dv.len() as int)[j], s, c) ==> cls[args[j]@ as int]
                == cls[c as int],
        holds(es, cls, SexpV::List(dv), s, c2),
    ensures
        find_entry(es, canon(cls, (f, args))) matches Some(v) && v@ < cls.len() && cls[v@ as int] == cls[c2 as int],
{
    let pats = dv.subrange(1, dv.len() as int);
    lemma_some_entry(es, es.len() as int, cls, dv, s, c2);
    let x = choose|x: int| 0 <= x < es.len() && #[trigger] entry_holds(es, cls, dv, s, es[x], c2);
    let e = es[x];
    lemma_holds_all_index(es, cls, pats, s, e.0.1);
    let c = canon(cls, (f, args));
    assert(canonical_entry(cls, e));
    assert(e.0.1 =~= c.1) by {
        assert forall|j: int| 0 <= j < args.len() implies e.0.1[j] == c.1[j] by {
            assert(holds(es, cls, pats[j], s, e.0.1[j]@));
            assert(cls[args[j]@ as int] == cls[e.0.1[j]@ as int]);
            assert(cls[(e.0.1[j])@ as int] == e.0.1[j]@);
        }
    }
    assert(e.0 == c);
    lemma_find_entry(es, c);
    match find_entry(es, c) {
        Some(v) => {
            let i = choose|i: int| 0 <= i < es.len() && es[i] == (c, v);
            if i < x {
                assert(es[i].0 != es[x].0);
            } else if x < i {
                assert(es[x].0 != es[i].0);
            }
        },
        None => {
            assert(es[x].0 != c);
        },
    }
}

impl EGraph {
    /// Adds the instance of `pattern` under `subst`: a variable is the id it
    /// is bound to, a list the node of its head symbol applied to the
    /// instances of the rest. Returns the id of its class.
    #[verifier::rlimit(40)]
    pub fn instantiate(&mut self, pattern: &Sexp, subst: &Subst) -> (r: Id)
        requires
            old(self).wf(),
            heads_are_atoms(pattern.deep()),
            vars_bound(pattern.deep(), subst@, old(self).classes().len()),
            old(self).classes().len() + term_size(pattern.deep()) + 1 < u32::MAX,
        ensures
            final(self).wf(),
            final(self).class_map() == old(self).class_map(),
            grows(final(self).entries(), final(self).classes(), old(self).entries(), old(self).classes()),
            final(self).classes().len() <= old(self).classes().len() + term_size(pattern.deep()),
            holds(final(self).entries(), final(self).classes(), pattern.deep(), subst@, r@),
            pattern.deep() matches SexpV::Atom(name) ==> lookup(subst@, name) == Some(r),
            pattern.deep() is List ==> final(self).classes()[r@ as int] == r@,
            final(self).class_count() + old(self).classes().len() == old(self).class_count() + final(self).classes().len(),
            final(self).entries().len() + old(self).classes().len() == old(self).entries().len() + final(self).classes().len(),
            (final(self).entries(), final(self).classes(), r@) == inst_term(
                old(self).entries(),
                old(self).classes(),
                pattern.deep(),
                subst@,
            ),
            canonical_table(old(self).entries(), old(self).classes()) ==> forall|c: nat|
                #[trigger] holds(old(self).entries(), old(self).classes(), pattern.deep(), subst@, c) ==> {
                    &&& final(self).entries() == old(self).entries()
                    &&& final(self).classes() == old(self).classes()
                    &&& final(self).classes()[r@ as int] == old(self).classes()[c as int]
                },
        decreases pattern,
    {
        proof {
            self.lemma_classes_facts();
        }
        match pattern {
            Sexp::Atom(name) => {
                let r = subst.index(*name);
                proof {
                    assert(self.entries().subrange(0, self.entries().len() as int) =~= self.entries());
                    assert(self.classes().subrange(0, self.classes().len() as int) =~= self.classes());
                }
                r
            },
            Sexp::List(items) => {
                proof {
                    lemma_deep_list(pattern);
                }
                let ghost dv = deep_seq(items@);
                let ghost pats = dv.subrange(1, dv.len() as int);
                let ghost es0 = self.entries();
                let ghost cls0 = self.classes();
                let f = match &items[0] {
                    Sexp::Atom(f) => *f,
                    Sexp::List(_) => {
                        proof {
                            assert(dv[0] is Atom);
                        }
                        return Id(0);
                    },
                };
                let mut args: Vec<Id> = Vec::new();
                let mut k: usize = 1;
                let ghost mut reuse: bool = false;
                let ghost mut cz: nat = 0;
                let ghost mut xi: int = 0;
                proof {
                    assert(pats.take(0) =~= Seq::<SexpV>::empty());
                    assert(self.entries().subrange(0, es0.len() as int) =~= es0);
                    assert(self.classes().subrange(0, cls0.len() as int) =~= cls0);
                    lemma_terms_size_split(dv);
                    assert(pats =~= dv.drop_first());
                    assert(all_heads_are_atoms(dv));
                    if canonical_table(es0, cls0) && exists|c: nat| holds(es0, cls0, pattern.deep(), subst@, c) {
                        reuse = true;
                        cz = choose|c: nat| holds(es0, cls0, pattern.deep(), subst@, c);
                        lemma_some_entry(es0, es0.len() as int, cls0, dv, subst@, cz);
                        xi = choose|x: int| 0 <= x < es0.len() && #[trigger] entry_holds(es0, cls0, dv, subst@, es0[x], cz);
                        lemma_holds_all_index(es0, cls0, pats, subst@, es0[xi].0.1);
                    }
                }
                while k < items.len()
                    invariant
                        self.wf(),
                        *pattern == Sexp::List(*items),
                        dv == deep_seq(items@),
                        pats == dv.subrange(1, dv.len() as int),
                        pattern.deep() == SexpV::List(dv),
                        dv.len() >= 1,
                        dv[0] == SexpV::Atom(f),
                        all_heads_are_atoms(dv),
                        all_vars_bound(pats, subst@, cls0.len()),
                        cls0.len() + term_size(pattern.deep()) + 1 < u32::MAX,
                        term_size(pattern.deep()) == 1 + term_size(dv[0]) + terms_size(pats),
                        1 <= k <= items@.len(),
                        args@.len() == k - 1,
                        self.class_map() == old(self).class_map(),
                        es0 == old(self).entries(),
                        cls0 == old(self).classes(),
                        grows(self.entries(), self.classes(), es0, cls0),
                        self.class_count() + cls0.len() == old(self).class_count() + self.classes().len(),
                        self.entries().len() + cls0.len() == es0.len() + self.classes().len(),
                        self.classes().len() <= cls0.len() + terms_size(pats.take(k - 1)),
                        holds_all(self.entries(), self.classes(), pats.take(k - 1), subst@, args@),
                        forall|j: int| 0 <= j < args@.len() ==> (#[trigger] args@[j])@ < self.classes().len(),
                        reuse ==> canonical_table(es0, cls0),
                        reuse ==> 0 <= xi < es0.len() && es0[xi].0.1.len() == pats.len(),
                        reuse ==> forall|j: int| 0 <= j < pats.len() ==> #[trigger] holds(es0, cls0, pats[j], subst@, es0[xi].0.1[j]@),
                        reuse ==> self.entries() == es0 && self.classes() == cls0,
                        reuse ==> forall|j: int, c: nat|
                            0 <= j < args@.len() && #[trigger] holds(es0, cls0, pats[j], subst@, c) ==> cls0[args@[j]@ as int]
                                == cls0[c as int],
                        (self.entries(), self.classes(), args@) == inst_terms(es0, cls0, pats.take(k - 1), subst@),
                    decreases items@.len() - k,
                {
                    let ghost es1 = self.entries();
                    let ghost cls1 = self.classes();
                    proof {
                        lemma_heads_item(dv, k as int);
                        lemma_terms_size_prefix(pats, k - 1);
                        lemma_terms_size_prefix(pats, k as int);
                        assert(pats[k - 1] == dv[k as int]);
                        assert(dv[k as int] == items@[k as int].deep());
                        lemma_all_vars_item(pats, subst@, cls0.len(), k - 1);
                        lemma_vars_bound_mono(pats[k - 1], subst@, cls0.len(), cls1.len());
                        let q: int = k as int;
                        assert(pattern->List_0 == *items);
                        assert(decreases_to!(*pattern => pattern->List_0));
                        assert(decreases_to!(*items => items@));
                        assert(decreases_to!(items@ => items@[q]));
                    }
                    let a = self.instantiate(&items[k], subst);
                    proof {
                        lemma_grows_coarser(self.classes(), cls1);
                        lemma_holds_all_mono(es1, cls1, self.entries(), self.classes(), pats.take(k - 1), subst@, args@);
                        assert(self.entries().subrange(0, es0.len() as int) =~= es0) by {
                            assert(self.entries().subrange(0, es0.len() as int) =~= self.entries().subrange(
                                0,
                                es1.len() as int,
                            ).subrange(0, es0.len() as int));
                        }
                        assert(self.classes().subrange(0, cls0.len() as int) =~= cls0) by {
                            assert(self.classes().subrange(0, cls0.len() as int) =~= self.classes().subrange(
                                0,
                                cls1.len() as int,
                            ).subrange(0, cls0.len() as int));
                        }
                    }
                    let ghost before = args@;
                    proof {
                        if reuse {
                            assert(holds(es1, cls1, items@[k as int].deep(), subst@, es0[xi].0.1[k - 1]@));
                        }
                    }
                    args.push(a);
                    proof {
                        assert(pats.take(k as int).drop_last() =~= pats.take(k - 1));
                        assert(pats.take(k as int).last() == items@[k as int].deep());
                        assert(args@ =~= before.push(Id(a@ as u32)));
                        assert((self.entries(), self.classes(), args@) == inst_terms(es0, cls0, pats.take(k as int), subst@));
                        if reuse {
                            assert forall|j: int, c: nat|
                                0 <= j < args@.len() && #[trigger] holds(es0, cls0, pats[j], subst@, c) implies cls0[args@[j]@ as int]
                                    == cls0[c as int] by {
                                if j < k - 1 {
                                    assert(args@[j] == before[j]);
                                } else {
                                    assert(args@[j] == a);
                                    assert(pats[j] == items@[k as int].deep());
                                }
                            }
                        }
                        let t = pats.take(k as int);
                        assert(t.drop_last() =~= pats.take(k - 1));
                        assert(t.last() == pats[k - 1]);
                        assert(args@.drop_last() =~= before);
                        assert(args@.last() == a);
                        assert(holds_all(self.entries(), self.classes(), t, subst@, args@));
                    }
                    k = k + 1;
                }
                proof {
                    assert(pats.take(k - 1) =~= pats);
                    self.lemma_classes_facts();
                    self.lemma_entry_facts();
                }
                let ghost es2 = self.entries();
                let ghost cls2 = self.classes();
                let node = Node(f, args);
                proof {
                    lemma_find_entry(es2, node@);
                    assert(args_below(node@.1, cls2.len()));
                }
                proof {
                    if reuse {
                        self.lemma_entry_facts();
                        assert(pats == dv.subrange(1, dv.len() as int));
                        assert forall|c2: nat| #[trigger] holds(es0, cls0, pattern.deep(), subst@, c2) implies (find_entry(
                            es0,
                            canon(cls0, node@),
                        ) matches Some(v) && v@ < cls0.len() && cls0[v@ as int] == cls0[c2 as int]) by {
                            lemma_reuse_node(es0, cls0, dv, f, args@, subst@, c2);
                        }
                    }
                }
                let r = self.add_node(node);
                proof {
                    self.lemma_classes_facts();
                    let c = canon(cls2, node@);
                    let es3 = self.entries();
                    let cls3 = self.classes();
                    assert(c.1.len() == node@.1.len());
                    match find_entry(es2, c) {
                        Some(v) => {
                            lemma_find_entry(es2, c);
                            let i = choose|i: int| 0 <= i < es2.len() && es2[i] == (c, v);
                            assert(v@ < cls2.len());
                            assert forall|q: int| 0 <= q < node@.1.len() implies (#[trigger] c.1[q])@ < cls2.len()
                                && cls2[c.1[q]@ as int] == cls2[node@.1[q]@ as int] by {
                                assert(node@.1[q]@ < cls2.len());
                            }
                            lemma_holds_all_rep(es2, cls2, pats, subst@, node@.1, c.1);
                            assert(dv.subrange(1, dv.len() as int) == pats);
                            assert(entry_holds(es3, cls3, dv, subst@, es3[i], r@));
                            lemma_some_entry(es3, es3.len() as int, cls3, dv, subst@, r@);
                            assert(es3.subrange(0, es2.len() as int) =~= es2);
                            assert(cls3.subrange(0, cls2.len() as int) =~= cls2);
                        },
                        None => {
                            let n = cls2.len();
                            assert(es3.subrange(0, es2.len() as int) =~= es2);
                            assert(cls3.subrange(0, cls2.len() as int) =~= cls2);
                            lemma_grows_coarser(cls3, cls2);
                            lemma_holds_all_mono(es2, cls2, es3, cls3, pats, subst@, node@.1);
                            assert forall|q: int| 0 <= q < node@.1.len() implies (#[trigger] c.1[q])@ < cls3.len()
                                && cls3[c.1[q]@ as int] == cls3[node@.1[q]@ as int] by {
                                let a = node@.1[q]@ as int;
                                assert(a < cls2.len());
                                assert(cls3[a] == cls2[a]);
                                assert(cls3[cls2[a] as int] == cls2[cls2[a] as int]);
                            }
                            lemma_holds_all_rep(es3, cls3, pats, subst@, node@.1, c.1);
                            let i = es2.len() as int;
                            assert(es3[i] == (c, Id(n as u32)));
                            assert(entry_holds(es3, cls3, dv, subst@, es3[i], r@));
                            lemma_some_entry(es3, es3.len() as int, cls3, dv, subst@, r@);
                        },
                    }
                    assert(self.entries().subrange(0, es0.len() as int) =~= es0) by {
                        assert(self.entries().subrange(0, es0.len() as int) =~= self.entries().subrange(
                            0,
                            es2.len() as int,
                        ).subrange(0, es0.len() as int));
                    }
                    assert(self.classes().subrange(0, cls0.len() as int) =~= cls0) by {
                        assert(self.classes().subrange(0, cls0.len() as int) =~= self.classes().subrange(
                            0,
                            cls2.len() as int,
                        ).subrange(0, cls0.len() as int));
                    }
                    assert(holds(es3, cls3, SexpV::List(dv), subst@, r@));
                }
                r
            },
        }
    }
}


/// The variables of the pattern `v`: its atoms, but for the heads of lists.
pub open spec fn pat_vars(v: SexpV) -> Set<Symbol>
    decreases v, 1nat,
{
    match v {
        SexpV::Atom(name) => set![name],
        SexpV::List(items) => if items.len() > 0 {
            pats_vars(items.subrange(1, items.len() as int))
        } else {
            Set::empty()
        },
    }
}

/// The variables of the patterns `vs`.
pub open spec fn pats_vars(vs: Seq<SexpV>) -> Set<Symbol>
    decreases vs, 0nat,
{
    if vs.len() == 0 {
        Set::empty()
    } else {
        pat_vars(vs[0]).union(pats_vars(vs.subrange(1, vs.len() as int)))
    }
}

/// `s` binds every name of `a`, and binds names only to ids below `n`.
pub open spec fn binds(s: Seq<(Symbol, Id)>, a: Set<Symbol>, n: nat) -> bool {
    &&& forall|x: Symbol| a.contains(x) ==> #[trigger] lookup(s, x) is Some
    &&& forall|i: int| 0 <= i < s.len() ==> (#[trigger] s[i]).1@ < n
}

/// Each of `ms` binds every name of `a`, only to ids below `n`.
pub open spec fn all_bind(ms: Seq<Seq<(Symbol, Id)>>, a: Set<Symbol>, n: nat) -> bool {
    forall|i: int| 0 <= i < ms.len() ==> binds(#[trigger] ms[i], a, n)
}

proof fn lemma_lookup_push(s: Seq<(Symbol, Id)>, b: (Symbol, Id), x: Symbol)
    ensures
        lookup(s.push(b), x) == if lookup(s, x) is Some {
            lookup(s, x)
        } else if b.0 == x {
            Some(b.1)
        } else {
            None
        },
    decreases s.len(),
{
    if s.len() == 0 {
        assert(s.push(b).drop_first() =~= Seq::<(Symbol, Id)>::empty());
        assert(lookup(Seq::<(Symbol, Id)>::empty(), x) is None);
    } else {
        assert(s.push(b)[0] == s[0]);
        assert(s.push(b).drop_first() =~= s.drop_first().push(b));
        lemma_lookup_push(s.drop_first(), b, x);
    }
}

proof fn lemma_lookup_in(s: Seq<(Symbol, Id)>, x: Symbol)
    ensures
        lookup(s, x) matches Some(id) ==> exists|i: int| 0 <= i < s.len() && s[i] == (x, id),
    decreases s.len(),
{
    if s.len() > 0 && s[0].0 != x {
        lemma_lookup_in(s.drop_first(), x);
        if let Some(id) = lookup(s, x) {
            let i = choose|i: int| 0 <= i < s.drop_first().len() && s.drop_first()[i] == (x, id);
            assert(s[i + 1] == (x, id));
        }
    }
}

proof fn lemma_with_binds(s: Seq<(Symbol, Id)>, name: Symbol, c: Id, a: Set<Symbol>, n: nat)
    requires
        binds(s, a, n),
        c@ < n,
    ensures
        with_spec(s, name, c) matches Some(r) ==> binds(r, a.union(set![name]), n),
{
    if let Some(r) = with_spec(s, name, c) {
        if lookup(s, name) is None {
            assert forall|x: Symbol| a.union(set![name]).contains(x) implies #[trigger] lookup(r, x) is Some by {
                lemma_lookup_push(s, (name, c), x);
            }
            assert forall|i: int| 0 <= i < r.len() implies (#[trigger] r[i]).1@ < n by {
                if i < s.len() {
                    assert(r[i] == s[i]);
                }
            }
        }
    }
}

proof fn lemma_class_nodes_below(cm: Seq<(u32, Seq<NodeV>)>, key: u32, n: nat)
    requires
        forall|i: int| 0 <= i < cm.len() ==> nodes_below((#[trigger] cm[i]).1, n),
    ensures
        nodes_below(class_nodes(cm, key), n),
    decreases cm.len(),
{
    if cm.len() > 0 && cm[0].0 != key {
        assert forall|i: int| 0 <= i < cm.drop_first().len() implies nodes_below((#[trigger] cm.drop_first()[i]).1, n) by {
            assert(cm.drop_first()[i] == cm[i + 1]);
        }
        lemma_class_nodes_below(cm.drop_first(), key, n);
    } else if cm.len() > 0 {
        assert(nodes_below(cm[0].1, n));
    }
}

/// Every match of `pat` extending `s` keeps what `s` binds, binds every
/// variable of `pat`, and binds only class ids.
pub proof fn lemma_match_pat_binds(
    cm: Seq<(u32, Seq<NodeV>)>,
    cls: Seq<nat>,
    pat: SexpV,
    c: Id,
    s: Seq<(Symbol, Id)>,
    a: Set<Symbol>,
    n: nat,
)
    requires
        binds(s, a, n),
        c@ < n,
        forall|i: int| 0 <= i < cm.len() ==> nodes_below((#[trigger] cm[i]).1, n),
    ensures
        all_bind(match_pat(cm, cls, pat, c, s), a.union(pat_vars(pat)), n),
    decreases pat, 0nat, 0nat,
{
    match pat {
        SexpV::Atom(name) => {
            lemma_with_binds(s, name, c, a, n);
        },
        SexpV::List(items) => {
            if items.len() > 0 {
                let nodes = class_nodes(cm, cls[c@ as int] as u32);
                lemma_class_nodes_below(cm, cls[c@ as int] as u32, n);
                lemma_match_nodes_binds(cm, cls, items, nodes, s, a, n);
            }
        },
    }
}

proof fn lemma_match_nodes_binds(
    cm: Seq<(u32, Seq<NodeV>)>,
    cls: Seq<nat>,
    items: Seq<SexpV>,
    nodes: Seq<NodeV>,
    s: Seq<(Symbol, Id)>,
    a: Set<Symbol>,
    n: nat,
)
    requires
        binds(s, a, n),
        items.len() > 0,
        nodes_below(nodes, n),
        forall|i: int| 0 <= i < cm.len() ==> nodes_below((#[trigger] cm[i]).1, n),
    ensures
        all_bind(match_nodes(cm, cls, items, nodes, s), a.union(pats_vars(items.subrange(1, items.len() as int))), n),
    decreases items, 2nat, nodes.len(),
{
    if nodes.len() > 0 {
        let nd = nodes.last();
        assert(nodes_below(nodes.drop_last(), n)) by {
            assert forall|j: int| 0 <= j < nodes.drop_last().len() implies args_below((#[trigger] nodes.drop_last()[j]).1, n) by {
                assert(nodes.drop_last()[j] == nodes[j]);
            }
        }
        lemma_match_nodes_binds(cm, cls, items, nodes.drop_last(), s, a, n);
        let left = match_nodes(cm, cls, items, nodes.drop_last(), s);
        let b = a.union(pats_vars(items.subrange(1, items.len() as int)));
        if items[0] is Atom && nd.0 == items[0]->Atom_0 && nd.1.len() + 1 == items.len() {
            assert(args_below(nd.1, n)) by {
                assert(nd == nodes[nodes.len() - 1]);
            }
            assert(all_bind(seq![s], a, n)) by {
                assert forall|i: int| 0 <= i < seq![s].len() implies binds(#[trigger] seq![s][i], a, n) by {
                    assert(seq![s][i] == s);
                }
            }
            lemma_match_args_binds(cm, cls, items.subrange(1, items.len() as int), nd.1, seq![s], a, n);
            let right = match_args(cm, cls, items.subrange(1, items.len() as int), nd.1, seq![s]);
            assert forall|i: int| 0 <= i < (left + right).len() implies binds(#[trigger] (left + right)[i], b, n) by {
                if i < left.len() {
                    assert((left + right)[i] == left[i]);
                } else {
                    assert((left + right)[i] == right[i - left.len()]);
                }
            }
        } else {
            assert(match_nodes(cm, cls, items, nodes, s) =~= left);
        }
    }
}

proof fn lemma_match_args_binds(
    cm: Seq<(u32, Seq<NodeV>)>,
    cls: Seq<nat>,
    pats: Seq<SexpV>,
    ids: Seq<Id>,
    todo: Seq<Seq<(Symbol, Id)>>,
    a: Set<Symbol>,
    n: nat,
)
    requires
        all_bind(todo, a, n),
        pats.len() == ids.len(),
        args_below(ids, n),
        forall|i: int| 0 <= i < cm.len() ==> nodes_below((#[trigger] cm[i]).1, n),
    ensures
        all_bind(match_args(cm, cls, pats, ids, todo), a.union(pats_vars(pats)), n),
    decreases pats, 1nat, 0nat,
{
    if pats.len() == 0 {
        assert(a.union(pats_vars(pats)) =~= a);
    } else {
        lemma_match_each_binds(cm, cls, pats[0], ids[0], todo, a, n);
        let mid = match_each(cm, cls, pats[0], ids[0], todo);
        let rest = pats.subrange(1, pats.len() as int);
        let irest = ids.subrange(1, ids.len() as int);
        assert(args_below(irest, n)) by {
            assert forall|k: int| 0 <= k < irest.len() implies (#[trigger] irest[k])@ < n by {
                assert(irest[k] == ids[k + 1]);
            }
        }
        lemma_match_args_binds(cm, cls, rest, irest, mid, a.union(pat_vars(pats[0])), n);
        assert(a.union(pat_vars(pats[0])).union(pats_vars(rest)) =~= a.union(pats_vars(pats)));
    }
}

proof fn lemma_match_each_binds(
    cm: Seq<(u32, Seq<NodeV>)>,
    cls: Seq<nat>,
    pat: SexpV,
    c: Id,
    todo: Seq<Seq<(Symbol, Id)>>,
    a: Set<Symbol>,
    n: nat,
)
    requires
        all_bind(todo, a, n),
        c@ < n,
        forall|i: int| 0 <= i < cm.len() ==> nodes_below((#[trigger] cm[i]).1, n),
    ensures
        all_bind(match_each(cm, cls, pat, c, todo), a.union(pat_vars(pat)), n),
    decreases pat, 1nat, todo.len(),
{
    if todo.len() > 0 {
        assert(all_bind(todo.drop_last(), a, n)) by {
            assert forall|i: int| 0 <= i < todo.drop_last().len() implies binds(#[trigger] todo.drop_last()[i], a, n) by {
                assert(todo.drop_last()[i] == todo[i]);
            }
        }
        lemma_match_each_binds(cm, cls, pat, c, todo.drop_last(), a, n);
        assert(binds(todo.last(), a, n)) by {
            assert(todo.last() == todo[todo.len() - 1]);
        }
        lemma_match_pat_binds(cm, cls, pat, c, todo.last(), a, n);
        let left = match_each(cm, cls, pat, c, todo.drop_last());
        let right = match_pat(cm, cls, pat, c, todo.last());
        let b = a.union(pat_vars(pat));
        assert forall|i: int| 0 <= i < (left + right).len() implies binds(#[trigger] (left + right)[i], b, n) by {
            if i < left.len() {
                assert((left + right)[i] == left[i]);
            } else {
                assert((left + right)[i] == right[i - left.len()]);
            }
        }
    }
}

proof fn lemma_pats_vars_item(vs: Seq<SexpV>, i: int)
    requires
        0 <= i < vs.len(),
    ensures
        pat_vars(vs[i]).subset_of(pats_vars(vs)),
    decreases vs.len(),
{
    if i > 0 {
        let rest = vs.subrange(1, vs.len() as int);
        lemma_pats_vars_item(rest, i - 1);
        assert(rest[i - 1] == vs[i]);
    }
}

proof fn lemma_all_vars_from_items(vs: Seq<SexpV>, s: Seq<(Symbol, Id)>, n: nat)
    requires
        forall|i: int| 0 <= i < vs.len() ==> vars_bound(#[trigger] vs[i], s, n),
    ensures
        all_vars_bound(vs, s, n),
    decreases vs.len(),
{
    if vs.len() > 0 {
        assert forall|i: int| 0 <= i < vs.drop_last().len() implies vars_bound(#[trigger] vs.drop_last()[i], s, n) by {
            assert(vs.drop_last()[i] == vs[i]);
        }
        lemma_all_vars_from_items(vs.drop_last(), s, n);
        assert(vars_bound(vs[vs.len() - 1], s, n));
    }
}

/// A substitution that binds every variable of `v` to a class id
/// instantiates `v`.
pub proof fn lemma_binds_vars_bound(v: SexpV, s: Seq<(Symbol, Id)>, a: Set<Symbol>, n: nat)
    requires
        binds(s, a, n),
        heads_are_atoms(v),
        pat_vars(v).subset_of(a),
    ensures
        vars_bound(v, s, n),
    decreases v,
{
    match v {
        SexpV::Atom(name) => {
            assert(a.contains(name));
            assert(lookup(s, name) is Some);
            lemma_lookup_in(s, name);
            let id = lookup(s, name)->Some_0;
            let i = choose|i: int| 0 <= i < s.len() && s[i] == (name, id);
            assert(s[i].1@ < n);

        },
        SexpV::List(items) => {
            if items.len() > 0 {
                let sub = items.subrange(1, items.len() as int);
                assert forall|i: int| 0 <= i < sub.len() implies vars_bound(#[trigger] sub[i], s, n) by {
                    lemma_pats_vars_item(sub, i);
                    lemma_heads_item(items, i + 1);
                    assert(sub[i] == items[i + 1]);
                    assert(decreases_to!(v => items));
                    assert(decreases_to!(items => sub));
                    assert(decreases_to!(sub => sub[i]));
                    lemma_binds_vars_bound(sub[i], s, a, n);
                }
                lemma_all_vars_from_items(sub, s, n);
            }
        },
    }
}

/// A rewrite rule: a left side to match and a right side to instantiate.
pub type Rewrite = (Sexp, Sexp);

/// A row of the matches that `rewrite` collects: the rule, the class, and
/// the matches of the rule's left side in that class.
pub type MatchRow = (nat, Id, Seq<Seq<(Symbol, Id)>>);

/// The left sides of the rules.
pub open spec fn lhs_views(rws: Seq<(Sexp, Sexp)>) -> Seq<SexpV> {
    Seq::new(rws.len(), |q: int| rws[q].0.deep())
}

/// The right sides of the rules.
pub open spec fn rhs_views(rws: Seq<(Sexp, Sexp)>) -> Seq<SexpV> {
    Seq::new(rws.len(), |q: int| rws[q].1.deep())
}

/// The sizes of the right sides of the rules.
pub open spec fn rhs_sizes(rws: Seq<(Sexp, Sexp)>) -> Seq<nat> {
    Seq::new(rws.len(), |q: int| term_size(rws[q].1.deep()))
}

/// The rows of rule `q`, whose left side is `lhs`, for the first `k` classes
/// of the class map.
pub open spec fn rule_rows(cm: Seq<(u32, Seq<NodeV>)>, cls: Seq<nat>, q: nat, lhs: SexpV, k: int) -> Seq<MatchRow>
    decreases k,
{
    if k <= 0 || k > cm.len() {
        Seq::empty()
    } else {
        rule_rows(cm, cls, q, lhs, k - 1).push(
            (q, Id(cm[k - 1].0), match_pat(cm, cls, lhs, Id(cm[k - 1].0), Seq::empty())),
        )
    }
}

/// The rows of the first `q` rules, rule by rule, each class by class.
pub open spec fn all_rows(cm: Seq<(u32, Seq<NodeV>)>, cls: Seq<nat>, lhss: Seq<SexpV>, q: int) -> Seq<MatchRow>
    decreases q,
{
    if q <= 0 || q > lhss.len() {
        Seq::empty()
    } else {
        all_rows(cm, cls, lhss, q - 1) + rule_rows(cm, cls, (q - 1) as nat, lhss[q - 1], cm.len() as int)
    }
}

/// The classes that instantiating the right sides for `rows` may add.
pub open spec fn rows_work(rows: Seq<MatchRow>, sizes: Seq<nat>) -> nat
    decreases rows.len(),
{
    if rows.len() == 0 {
        0
    } else {
        rows_work(rows.drop_last(), sizes) + rows.last().2.len() * sizes[rows.last().0 as int]
    }
}

proof fn lemma_rows_work_prefix(rows: Seq<MatchRow>, sizes: Seq<nat>, a: int)
    requires
        0 <= a <= rows.len(),
    ensures
        rows_work(rows.take(a), sizes) <= rows_work(rows, sizes),
        a < rows.len() ==> rows_work(rows.take(a + 1), sizes) == rows_work(rows.take(a), sizes) + rows[a].2.len()
            * sizes[rows[a].0 as int],
    decreases rows.len(),
{
    if a < rows.len() {
        assert(rows.take(a + 1).drop_last() =~= rows.take(a));
        assert(rows.take(a + 1).last() == rows[a]);
    }
    if a == rows.len() {
        assert(rows.take(a) =~= rows);
    } else {
        lemma_rows_work_prefix(rows.drop_last(), sizes, a);
        assert(rows.drop_last().take(a) =~= rows.take(a));
    }
}

/// The rows collected so far, as values.
pub open spec fn rows_view(v: Seq<(usize, Id, Vec<Subst>)>) -> Seq<MatchRow> {
    Seq::new(v.len(), |i: int| (v[i].0 as nat, v[i].1, substs_view(v[i].2@)))
}

proof fn lemma_rule_rows_shape(cm: Seq<(u32, Seq<NodeV>)>, cls: Seq<nat>, q: nat, lhs: SexpV, k: int, x: int)
    requires
        0 <= k <= cm.len(),
        0 <= x < rule_rows(cm, cls, q, lhs, k).len(),
    ensures
        rule_rows(cm, cls, q, lhs, k).len() == k,
        rule_rows(cm, cls, q, lhs, k)[x] == (q, Id(cm[x].0), match_pat(cm, cls, lhs, Id(cm[x].0), Seq::empty())),
    decreases k,
{
    lemma_rule_rows_len(cm, cls, q, lhs, k);
    lemma_rule_rows_len(cm, cls, q, lhs, k - 1);
    if x < k - 1 {
        lemma_rule_rows_shape(cm, cls, q, lhs, k - 1, x);
    }
}

proof fn lemma_rule_rows_len(cm: Seq<(u32, Seq<NodeV>)>, cls: Seq<nat>, q: nat, lhs: SexpV, k: int)
    requires
        0 <= k <= cm.len(),
    ensures
        rule_rows(cm, cls, q, lhs, k).len() == k,
    decreases k,
{
    if k > 0 {
        lemma_rule_rows_len(cm, cls, q, lhs, k - 1);
    }
}

proof fn lemma_all_rows_shape(cm: Seq<(u32, Seq<NodeV>)>, cls: Seq<nat>, lhss: Seq<SexpV>, qn: int, x: int)
    requires
        0 <= qn <= lhss.len(),
        0 <= x < all_rows(cm, cls, lhss, qn).len(),
    ensures
        exists|q: int, k: int|
            0 <= q < qn && 0 <= k < cm.len() && all_rows(cm, cls, lhss, qn)[x] == (
                q as nat,
                Id(cm[k].0),
                match_pat(cm, cls, lhss[q], Id(cm[k].0), Seq::empty()),
            ),
    decreases qn,
{
    let left = all_rows(cm, cls, lhss, qn - 1);
    let right = rule_rows(cm, cls, (qn - 1) as nat, lhss[qn - 1], cm.len() as int);
    lemma_rule_rows_len(cm, cls, (qn - 1) as nat, lhss[qn - 1], cm.len() as int);
    if x < left.len() {
        lemma_all_rows_shape(cm, cls, lhss, qn - 1, x);
        assert(all_rows(cm, cls, lhss, qn)[x] == left[x]);
    } else {
        let k = x - left.len();
        lemma_rule_rows_shape(cm, cls, (qn - 1) as nat, lhss[qn - 1], cm.len() as int, k);
        assert(all_rows(cm, cls, lhss, qn)[x] == right[k]);
    }
}

/// Every match collected for rewriting binds only class ids.
proof fn lemma_row_binds(cm: Seq<(u32, Seq<NodeV>)>, cls: Seq<nat>, lhss: Seq<SexpV>, qn: int, x: int, y: int)
    requires
        0 <= qn <= lhss.len(),
        0 <= x < all_rows(cm, cls, lhss, qn).len(),
        0 <= y < all_rows(cm, cls, lhss, qn)[x].2.len(),
        forall|i: int| 0 <= i < cm.len() ==> nodes_below((#[trigger] cm[i]).1, cls.len()),
        forall|i: int| 0 <= i < cm.len() ==> (#[trigger] cm[i]).0 < cls.len(),
    ensures
        binds(all_rows(cm, cls, lhss, qn)[x].2[y], pat_vars(lhss[all_rows(cm, cls, lhss, qn)[x].0 as int]), cls.len()),
{
    lemma_all_rows_shape(cm, cls, lhss, qn, x);
    let (q, k) = choose|q: int, k: int|
        0 <= q < qn && 0 <= k < cm.len() && all_rows(cm, cls, lhss, qn)[x] == (
            q as nat,
            Id(cm[k].0),
            match_pat(cm, cls, lhss[q], Id(cm[k].0), Seq::empty()),
        );
    assert(cm[k].0 < cls.len());
    assert(binds(Seq::<(Symbol, Id)>::empty(), Set::<Symbol>::empty(), cls.len()));
    lemma_match_pat_binds(cm, cls, lhss[q], Id(cm[k].0), Seq::empty(), Set::empty(), cls.len());
    let ms = match_pat(cm, cls, lhss[q], Id(cm[k].0), Seq::empty());
    assert(binds(ms[y], Set::<Symbol>::empty().union(pat_vars(lhss[q])), cls.len()));
    assert(Set::<Symbol>::empty().union(pat_vars(lhss[q])) =~= pat_vars(lhss[q]));
}

/// Rule `q` of `rws` is well formed for rewriting: both sides are
/// patterns whose lists start with an atom.
pub open spec fn rule_ok(rws: Seq<(Sexp, Sexp)>, q: int) -> bool {
    &&& heads_are_atoms(rws[q].0.deep())
    &&& heads_are_atoms(rws[q].1.deep())
    &&& term_size(rws[q].0.deep()) <= usize::MAX
}

/// Every match in `rows` binds every variable of the right side of its rule.
pub open spec fn rows_bind_rhs(rows: Seq<MatchRow>, rws: Seq<(Sexp, Sexp)>) -> bool {
    forall|a: int, b: int, x: Symbol|
        0 <= a < rows.len() && 0 <= b < rows[a].2.len() && pat_vars(rhs_views(rws)[rows[a].0 as int]).contains(x)
            ==> #[trigger] lookup(#[trigger] rows[a].2[b], x) is Some
}

impl EGraph {
    /// The matches of every left side in every class of the class map, rule
    /// by rule, each class in the order of the class map.
    pub fn collect_matches(&self, rewrites: &[(Sexp, Sexp)]) -> (all: Vec<(usize, Id, Vec<Subst>)>)
        requires
            self.wf(),
            forall|q: int| 0 <= q < rewrites@.len() ==> #[trigger] rule_ok(rewrites@, q),
        ensures
            rows_view(all@) == all_rows(self.class_map(), self.classes(), lhs_views(rewrites@), rewrites@.len() as int),
            forall|i: int| 0 <= i < all@.len() ==> (#[trigger] all@[i]).0 < rewrites@.len() && all@[i].1@ < self.classes().len(),
    {
        let ghost cm = self.class_map();
        let ghost cls0 = self.classes();
        let ghost es0 = self.entries();
        let ghost lhss = lhs_views(rewrites@);
        proof {
            self.lemma_classes_facts();
            assert forall|q: int|
                0 <= q < rewrites@.len() implies heads_are_atoms((#[trigger] rewrites@[q]).0.deep()) && term_size(
                rewrites@[q].0.deep(),
            ) <= usize::MAX by {
                assert(rule_ok(rewrites@, q));
            }
        }
        let mut all: Vec<(usize, Id, Vec<Subst>)> = Vec::new();
        let nk = self.class_map_len();
        let mut q: usize = 0;
        proof {
            assert(rows_view(all@) =~= all_rows(cm, cls0, lhss, 0));
        }
        while q < rewrites.len()
            invariant
                self.wf(),
                cm == self.class_map(),
                cls0 == self.classes(),
                es0 == self.entries(),
                lhss == lhs_views(rewrites@),
                nk == cm.len(),
                q <= rewrites@.len(),
                forall|q: int|
                    0 <= q < rewrites@.len() ==> heads_are_atoms((#[trigger] rewrites@[q]).0.deep()) && term_size(
                        rewrites@[q].0.deep(),
                    ) <= usize::MAX,
                forall|i: int| 0 <= i < cm.len() ==> (#[trigger] cm[i]).0 < cls0.len(),
                rows_view(all@) == all_rows(cm, cls0, lhss, q as int),
                forall|i: int| 0 <= i < all@.len() ==> (#[trigger] all@[i]).0 < rewrites@.len() && all@[i].1@ < cls0.len(),
            decreases rewrites@.len() - q,
        {
            let mut k: usize = 0;
            let ghost base = rows_view(all@);
            proof {
                assert(rows_view(all@) =~= base + rule_rows(cm, cls0, q as nat, lhss[q as int], 0));
            }
            while k < nk
                invariant
                    self.wf(),
                    cm == self.class_map(),
                    cls0 == self.classes(),
                    lhss == lhs_views(rewrites@),
                    nk == cm.len(),
                    q < rewrites@.len(),
                    k <= nk,
                    heads_are_atoms(rewrites@[q as int].0.deep()),
                    term_size(rewrites@[q as int].0.deep()) <= usize::MAX,
                    forall|i: int| 0 <= i < cm.len() ==> (#[trigger] cm[i]).0 < cls0.len(),
                    rows_view(all@) == base + rule_rows(cm, cls0, q as nat, lhss[q as int], k as int),
                    forall|i: int| 0 <= i < all@.len() ==> (#[trigger] all@[i]).0 < rewrites@.len() && all@[i].1@ < cls0.len(),
                decreases nk - k,
            {
                let class = self.class_map_key(k);
                proof {
                    assert(cm[k as int].0 < cls0.len());
                }
                let ms = self.ematch(&rewrites[q].0, class);
                let ghost before = rows_view(all@);
                all.push((q, class, ms));
                proof {
                    assert(class == Id(cm[k as int].0));
                    assert(rows_view(all@) =~= before.push((q as nat, class, substs_view(ms@))));
                    assert(rule_rows(cm, cls0, q as nat, lhss[q as int], k + 1) == rule_rows(
                        cm,
                        cls0,
                        q as nat,
                        lhss[q as int],
                        k as int,
                    ).push((q as nat, class, match_pat(cm, cls0, lhss[q as int], class, Seq::empty()))));
                    assert(rows_view(all@) =~= base + rule_rows(cm, cls0, q as nat, lhss[q as int], k + 1));
                }
                k = k + 1;
            }
            proof {
                assert(all_rows(cm, cls0, lhss, q + 1) == all_rows(cm, cls0, lhss, q as int) + rule_rows(
                    cm,
                    cls0,
                    q as nat,
                    lhss[q as int],
                    cm.len() as int,
                ));
            }
            q = q + 1;
        }
        all
    }

    /// Adds the instance of the right side of its rule for every match of
    /// `all` and merges it with the class the match was found in.
    #[verifier::rlimit(40)]
    fn apply_matches(&mut self, rewrites: &[(Sexp, Sexp)], all: &Vec<(usize, Id, Vec<Subst>)>)
        requires
            old(self).wf(),
            forall|q: int| 0 <= q < rewrites@.len() ==> #[trigger] rule_ok(rewrites@, q),
            rows_view(all@) == all_rows(old(self).class_map(), old(self).classes(), lhs_views(rewrites@), rewrites@.len() as int),
            forall|i: int|
                0 <= i < all@.len() ==> (#[trigger] all@[i]).0 < rewrites@.len() && all@[i].1@ < old(self).classes().len(),
            rows_bind_rhs(rows_view(all@), rewrites@),
            old(self).classes().len() + rows_work(rows_view(all@), rhs_sizes(rewrites@)) + 1 < u32::MAX,
        ensures
            final(self).wf(),
            final(self).class_map() == old(self).class_map(),
            old(self).entries().len() <= final(self).entries().len(),
            final(self).entries().subrange(0, old(self).entries().len() as int) == old(self).entries(),
            coarser(final(self).classes(), old(self).classes()),
            final(self).class_count() + old(self).classes().len() <= old(self).class_count() + final(self).classes().len(),
            final(self).entries().len() + old(self).classes().len() == old(self).entries().len() + final(self).classes().len(),
            forall|a: int, b: int|
                0 <= a < rows_view(all@).len() && 0 <= b < rows_view(all@)[a].2.len() ==> holds(
                    final(self).entries(),
                    final(self).classes(),
                    rhs_views(rewrites@)[rows_view(all@)[a].0 as int],
                    #[trigger] rows_view(all@)[a].2[b],
                    rows_view(all@)[a].1@,
                ),
            ({
                let st = apply_rows(
                    (old(self).entries(), old(self).classes(), Seq::empty()),
                    rows_view(all@),
                    rhs_views(rewrites@),
                );
                &&& final(self).entries() == st.0
                &&& final(self).classes() == st.1
                &&& merges_pairs(final(self).classes(), st.2)
                &&& forall|q: Seq<nat>|
                    coarser(q, old(self).classes()) && final(self).classes().len() <= q.len() && #[trigger] merges_pairs(q, st.2)
                        ==> coarser(q, final(self).classes())
            }),
    {
        let ghost cm = self.class_map();
        let ghost cls0 = self.classes();
        let ghost es0 = self.entries();
        let ghost count0 = self.class_count();
        let ghost rhss = rhs_views(rewrites@);
        let ghost sizes = rhs_sizes(rewrites@);
        let ghost rows = rows_view(all@);
        proof {
            self.lemma_classes_facts();
            assert forall|q: int| 0 <= q < rewrites@.len() implies heads_are_atoms((#[trigger] rewrites@[q]).1.deep()) by {
                assert(rule_ok(rewrites@, q));
            }
            assert forall|x: int, y: int|
                0 <= x < rows.len() && 0 <= y < rows[x].2.len() implies vars_bound(
                rhss[rows[x].0 as int],
                #[trigger] rows[x].2[y],
                cls0.len(),
            ) by {
                let q = rows[x].0 as int;
                assert(q == all@[x].0);
                assert(rule_ok(rewrites@, q));
                assert(rhss[q] == rewrites@[q].1.deep());
                lemma_row_binds(cm, cls0, lhs_views(rewrites@), rewrites@.len() as int, x, y);
                let m = rows[x].2[y];
                assert(binds(m, pat_vars(lhs_views(rewrites@)[q]), cls0.len()));
                assert(binds(m, pat_vars(rhss[q]), cls0.len())) by {
                    assert forall|v: Symbol| pat_vars(rhss[q]).contains(v) implies #[trigger] lookup(m, v) is Some by {
                        assert(lookup(rows[x].2[y], v) is Some);
                    }
                }
                lemma_binds_vars_bound(rhss[q], m, pat_vars(rhss[q]), cls0.len());
            }
        }
        let ghost amv = rows_view(all@);
        let ghost init: ApplyState = (es0, cls0, Seq::empty());
        let ghost mut pairs: Seq<(nat, nat)> = Seq::empty();
        let mut a: usize = 0;
        proof {
            assert(rows_work(amv.take(0), sizes) == 0) by {
                assert(amv.take(0).len() == 0);
            }
            assert(self.entries().subrange(0, es0.len() as int) =~= es0);
            assert(cls0.subrange(0, cls0.len() as int) =~= cls0);
            lemma_grows_coarser(cls0, cls0);
        }
        while a < all.len()
            invariant
                self.wf(),
                cm == self.class_map(),
                es0.len() <= self.entries().len(),
                self.entries().subrange(0, es0.len() as int) == es0,
                coarser(self.classes(), cls0),
                self.class_count() + cls0.len() <= count0 + self.classes().len(),
                self.entries().len() + cls0.len() == es0.len() + self.classes().len(),
                amv == rows_view(all@),
                amv == rows,
                rhss == rhs_views(rewrites@),
                sizes == rhs_sizes(rewrites@),
                a <= all@.len(),
                forall|q: int| 0 <= q < rewrites@.len() ==> heads_are_atoms((#[trigger] rewrites@[q]).1.deep()),
                forall|i: int| 0 <= i < all@.len() ==> (#[trigger] all@[i]).0 < rewrites@.len() && all@[i].1@ < cls0.len(),
                forall|x: int, y: int|
                    0 <= x < rows.len() && 0 <= y < rows[x].2.len() ==> vars_bound(
                        rhss[rows[x].0 as int],
                        #[trigger] rows[x].2[y],
                        cls0.len(),
                    ),
                cls0.len() + rows_work(rows, sizes) + 1 < u32::MAX,
                self.classes().len() <= cls0.len() + rows_work(amv.take(a as int), sizes),
                forall|x: int, y: int|
                    0 <= x < a && 0 <= y < rows[x].2.len() ==> holds(
                        self.entries(),
                        self.classes(),
                        rhss[rows[x].0 as int],
                        #[trigger] rows[x].2[y],
                        rows[x].1@,
                    ),
                init == (es0, cls0, Seq::<(nat, nat)>::empty()),
                apply_rows(init, amv.take(a as int), rhss) == (self.entries(), self.classes(), pairs),
                merges_pairs(self.classes(), pairs),
                forall|k: int| 0 <= k < pairs.len() ==> (#[trigger] pairs[k]).0 < self.classes().len() && pairs[k].1 < self.classes().len(),
                forall|q: Seq<nat>|
                    coarser(q, cls0) && self.classes().len() <= q.len() && #[trigger] merges_pairs(q, pairs) ==> coarser(
                        q,
                        self.classes(),
                    ),
            decreases all@.len() - a,
        {
            let q = all[a].0;
            let class = all[a].1;
            let ghost size = sizes[q as int];
            let ghost row = amv[a as int];
            proof {
                lemma_rows_work_prefix(amv, sizes, a as int);
                lemma_rows_work_prefix(amv, sizes, a + 1);
                assert(row.0 == q as nat);
                assert(row.1 == class);
                assert(size == term_size(rewrites@[q as int].1.deep()));
            }
            let n = all[a].2.len();
            let mut b: usize = 0;
            let ghost st_a: ApplyState = (self.entries(), self.classes(), pairs);
            proof {
                assert(row.2.take(0) =~= Seq::<Seq<(Symbol, Id)>>::empty());
            }
            while b < n
                invariant
                    self.wf(),
                    cm == self.class_map(),
                    es0.len() <= self.entries().len(),
                    self.entries().subrange(0, es0.len() as int) == es0,
                    coarser(self.classes(), cls0),
                    self.class_count() + cls0.len() <= count0 + self.classes().len(),
                    self.entries().len() + cls0.len() == es0.len() + self.classes().len(),
                    amv == rows_view(all@),
                    amv == rows,
                    rhss == rhs_views(rewrites@),
                    a < all@.len(),
                    row == amv[a as int],
                    q == all@[a as int].0,
                    class == all@[a as int].1,
                    q < rewrites@.len(),
                    class@ < cls0.len(),
                    n == row.2.len(),
                    size == term_size(rewrites@[q as int].1.deep()),
                    heads_are_atoms(rewrites@[q as int].1.deep()),
                    b <= n,
                    forall|y: int| 0 <= y < row.2.len() ==> vars_bound(rhss[q as int], #[trigger] row.2[y], cls0.len()),
                    cls0.len() + rows_work(amv.take(a as int), sizes) + n * size + 1 < u32::MAX,
                    self.classes().len() <= cls0.len() + rows_work(amv.take(a as int), sizes) + b * size,
                    forall|x: int, y: int|
                        0 <= x < a && 0 <= y < rows[x].2.len() ==> holds(
                            self.entries(),
                            self.classes(),
                            rhss[rows[x].0 as int],
                            #[trigger] rows[x].2[y],
                            rows[x].1@,
                        ),
                    forall|y: int| 0 <= y < b ==> holds(self.entries(), self.classes(), rhss[q as int], #[trigger] row.2[y], class@),
                    init == (es0, cls0, Seq::<(nat, nat)>::empty()),
                    st_a == apply_rows(init, amv.take(a as int), rhss),
                    apply_substs(st_a, rhss[q as int], class, row.2.take(b as int)) == (self.entries(), self.classes(), pairs),
                    merges_pairs(self.classes(), pairs),
                    forall|k: int| 0 <= k < pairs.len() ==> (#[trigger] pairs[k]).0 < self.classes().len() && pairs[k].1 < self.classes().len(),
                    forall|qq: Seq<nat>|
                        coarser(qq, cls0) && self.classes().len() <= qq.len() && #[trigger] merges_pairs(qq, pairs) ==> coarser(
                            qq,
                            self.classes(),
                        ),
                decreases n - b,
            {
                let ghost es1 = self.entries();
                let ghost cls1 = self.classes();
                let ghost m = row.2[b as int];
                proof {
                    self.lemma_classes_facts();
                    assert(forall|i: int| 0 <= i < cls1.len() ==> #[trigger] cls1[i] < cls1.len());
                    assert(all@[a as int].2@[b as int]@ == m);
                    assert(rhss[q as int] == rewrites@[q as int].1.deep());
                    lemma_vars_bound_mono(rhss[q as int], m, cls0.len(), cls1.len());
                    assert((b + 1) * size <= n * size) by (nonlinear_arith)
                        requires
                            b + 1 <= n,
                    ;
                    assert((b + 1) * size == b * size + size) by (nonlinear_arith);
                }
                let replacement = self.instantiate(&rewrites[q].1, &all[a].2[b]);
                let ghost es2 = self.entries();
                let ghost cls2 = self.classes();
                proof {
                    assert(cls0.len() <= cls1.len());
                }
                let ghost pairs1 = pairs;
                proof {
                    self.lemma_classes_facts();
                    lemma_inst_term_fresh(es1, cls1, rhss[q as int], m);
                    assert(rhss[q as int] == rewrites@[q as int].1.deep());
                }
                self.union(class, replacement);
                proof {
                    pairs = pairs.push((class@, replacement@));
                    let cls3 = self.classes();
                    assert(merges_pairs(cls3, pairs)) by {
                        assert forall|k: int| 0 <= k < pairs.len() implies cls3[(#[trigger] pairs[k]).0 as int] == cls3[pairs[k].1 as int] by {
                            if k < pairs1.len() {
                                assert(pairs[k] == pairs1[k]);
                                assert(cls1[pairs1[k].0 as int] == cls1[pairs1[k].1 as int]);
                                assert(cls2[pairs1[k].0 as int] == cls2.subrange(0, cls1.len() as int)[pairs1[k].0 as int]);
                                assert(cls2[pairs1[k].1 as int] == cls2.subrange(0, cls1.len() as int)[pairs1[k].1 as int]);
                            }
                        }
                    }
                    assert forall|qq: Seq<nat>|
                        coarser(qq, cls0) && cls3.len() <= qq.len() && #[trigger] merges_pairs(qq, pairs) implies coarser(qq, cls3) by {
                        assert(merges_pairs(qq, pairs1)) by {
                            assert forall|k: int| 0 <= k < pairs1.len() implies qq[(#[trigger] pairs1[k]).0 as int] == qq[pairs1[k].1 as int] by {
                                assert(pairs[k] == pairs1[k]);
                            }
                        }
                        assert(coarser(qq, cls1));
                        lemma_fresh_below(qq, cls1, cls2);
                        assert(pairs[pairs1.len() as int] == (class@, replacement@));
                        lemma_merge_below(qq, cls2, class@ as int, replacement@ as int);
                    }
                    assert(row.2.take(b + 1int).drop_last() =~= row.2.take(b as int));
                    assert(row.2.take(b + 1int).last() == m);
                    assert(apply_substs(st_a, rhss[q as int], class, row.2.take(b + 1int)) == (
                        self.entries(),
                        self.classes(),
                        pairs,
                    ));
                }
                proof {
                    let cls3 = self.classes();
                    lemma_grows_coarser(cls2, cls1);
                    assert(coarser(cls3, cls2)) by {
                        assert forall|x: int, y: int|
                            0 <= x < cls2.len() && 0 <= y < cls2.len() && cls2[x] == cls2[y] implies #[trigger] cls3[x]
                                == #[trigger] cls3[y] by {
                        }
                    }
                    lemma_coarser_trans(cls3, cls2, cls1);
                    lemma_coarser_trans(cls3, cls1, cls0);
                    assert(self.entries().subrange(0, es0.len() as int) =~= es0) by {
                        assert(es2.subrange(0, es0.len() as int) =~= es2.subrange(0, es1.len() as int).subrange(
                            0,
                            es0.len() as int,
                        ));
                    }
                    assert forall|x: int, y: int|
                        0 <= x < a && 0 <= y < rows[x].2.len() implies holds(
                            self.entries(),
                            self.classes(),
                            rhss[rows[x].0 as int],
                            #[trigger] rows[x].2[y],
                            rows[x].1@,
                        ) by {
                        assert(self.entries().subrange(0, es1.len() as int) =~= es1);
                        lemma_holds_mono(es1, cls1, self.entries(), cls3, rhss[rows[x].0 as int], rows[x].2[y], rows[x].1@);
                    }
                    assert forall|y: int| 0 <= y < b + 1 implies holds(
                        self.entries(),
                        self.classes(),
                        rhss[q as int],
                        #[trigger] row.2[y],
                        class@,
                    ) by {
                        if y < b {
                            assert(self.entries().subrange(0, es1.len() as int) =~= es1);
                            lemma_holds_mono(es1, cls1, self.entries(), cls3, rhss[q as int], row.2[y], class@);
                        } else {
                            assert(self.entries().subrange(0, es2.len() as int) =~= es2);
                            lemma_holds_mono(es2, cls2, self.entries(), cls3, rhss[q as int], m, replacement@);
                            assert(cls3[class@ as int] == cls3[replacement@ as int]);
                            lemma_holds_rep(self.entries(), cls3, rhss[q as int], m, replacement@, class@);
                        }
                    }
                }
                b = b + 1;
            }
            proof {
                assert(row.2.take(n as int) =~= row.2);
                assert(amv.take(a + 1int).drop_last() =~= amv.take(a as int));
                assert(amv.take(a + 1int).last() == row);
                assert forall|x: int, y: int|
                    0 <= x < a + 1 && 0 <= y < rows[x].2.len() implies holds(
                        self.entries(),
                        self.classes(),
                        rhss[rows[x].0 as int],
                        #[trigger] rows[x].2[y],
                        rows[x].1@,
                    ) by {
                    if x == a {
                        assert(rows[x] == row);
                        assert(holds(self.entries(), self.classes(), rhss[q as int], row.2[y], class@));
                    }
                }
            }
            a = a + 1;
        }
        proof {
            assert(amv.take(all@.len() as int) =~= amv);
        }
    }

    /// Applies each rule `(lhs, rhs)` once everywhere: first collects the
    /// matches of every left side in every class of the class map, then
    /// adds the instance of the right side for each match and merges it
    /// with the class the match was found in. The table and classes are
    /// those that `rewritten` gives; the classes are the least coarsening of
    /// the old ones that puts each match's class together with its
    /// instance.
    pub fn rewrite(&mut self, rewrites: &[Rewrite])
        requires
            old(self).wf(),
            forall|q: int| 0 <= q < rewrites@.len() ==> #[trigger] rule_ok(rewrites@, q),
            rows_bind_rhs(
                all_rows(old(self).class_map(), old(self).classes(), lhs_views(rewrites@), rewrites@.len() as int),
                rewrites@,
            ),
            old(self).classes().len() + rows_work(
                all_rows(old(self).class_map(), old(self).classes(), lhs_views(rewrites@), rewrites@.len() as int),
                rhs_sizes(rewrites@),
            ) + 1 < u32::MAX,
        ensures
            final(self).wf(),
            final(self).class_map() == old(self).class_map(),
            old(self).entries().len() <= final(self).entries().len(),
            final(self).entries().subrange(0, old(self).entries().len() as int) == old(self).entries(),
            coarser(final(self).classes(), old(self).classes()),
            final(self).class_count() + old(self).classes().len() <= old(self).class_count() + final(self).classes().len(),
            final(self).entries().len() + old(self).classes().len() == old(self).entries().len() + final(self).classes().len(),
            ({
                let rows = all_rows(old(self).class_map(), old(self).classes(), lhs_views(rewrites@), rewrites@.len() as int);
                forall|a: int, b: int|
                    0 <= a < rows.len() && 0 <= b < rows[a].2.len() ==> holds(
                        final(self).entries(),
                        final(self).classes(),
                        rhs_views(rewrites@)[rows[a].0 as int],
                        #[trigger] rows[a].2[b],
                        rows[a].1@,
                    )
            }),
            ({
                let st = rewritten(old(self).entries(), old(self).classes(), old(self).class_map(), rewrites@);
                &&& final(self).entries() == st.0
                &&& final(self).classes() == st.1
                &&& merges_pairs(final(self).classes(), st.2)
                &&& forall|q: Seq<nat>|
                    coarser(q, old(self).classes()) && final(self).classes().len() <= q.len() && #[trigger] merges_pairs(q, st.2)
                        ==> coarser(q, final(self).classes())
            }),
    {
        let all = self.collect_matches(rewrites);
        self.apply_matches(rewrites, &all);
    }
}

/// Every list of the tree starts with an atom.
pub open spec fn tree_heads_are_atoms(t: Tree) -> bool
    decreases t,
{
    match t {
        Tree::Atom(_) => true,
        Tree::List(ts) => ts.len() > 0 && ts[0] is Atom && trees_heads_are_atoms(ts),
    }
}

/// Every list of each of `ts` starts with an atom.
pub open spec fn trees_heads_are_atoms(ts: Seq<Tree>) -> bool
    decreases ts,
{
    if ts.len() == 0 {
        true
    } else {
        trees_heads_are_atoms(ts.drop_last()) && tree_heads_are_atoms(ts.last())
    }
}

proof fn lemma_shape_item(vs: Seq<SexpV>, ts: Seq<Tree>, i: int)
    requires
        shape_seq(vs, ts),
        0 <= i < ts.len(),
    ensures
        shape(vs[i], ts[i]),
    decreases ts.len(),
{
    if i < ts.len() - 1 {
        lemma_shape_item(vs.drop_last(), ts.drop_last(), i);
    }
}

proof fn lemma_tree_shape(v: SexpV, t: Tree)
    requires
        shape(v, t),
    ensures
        term_size(v) <= tokens(t).len(),
        tree_heads_are_atoms(t) ==> heads_are_atoms(v),
    decreases t,
{
    if let Tree::List(ts) = t {
        if let SexpV::List(vs) = v {
            lemma_trees_shape(vs, ts);
            if tree_heads_are_atoms(t) {
                lemma_shape_item(vs, ts, 0);
            }
        }
    }
}

proof fn lemma_trees_shape(vs: Seq<SexpV>, ts: Seq<Tree>)
    requires
        shape_seq(vs, ts),
    ensures
        terms_size(vs) <= tokens_seq(ts).len(),
        trees_heads_are_atoms(ts) ==> all_heads_are_atoms(vs),
    decreases ts,
{
    if ts.len() > 0 {
        lemma_trees_shape(vs.drop_last(), ts.drop_last());
        lemma_tree_shape(vs.last(), ts.last());
    }
}

impl EGraph {
    /// Reads `s` as an s-expression and adds it (see `add_sexp`); `s` must be
    /// an s-expression whose lists all start with an atom.
    pub fn add(&mut self, s: &str) -> (r: Id)
        requires
            old(self).wf(),
            parses(s@),
            tree_heads_are_atoms(parsed_tree(s@)),
            old(self).classes().len() + lex_from(s@, 0).len() + 1 < u32::MAX,
        ensures
            final(self).wf(),
            final(self).class_map() == old(self).class_map(),
            grows(final(self).entries(), final(self).classes(), old(self).entries(), old(self).classes()),
            exists|v: SexpV|
                shape(v, parsed_tree(s@)) && #[trigger] represents(final(self).entries(), final(self).classes(), v, r@) && (
                final(self).entries(),
                final(self).classes(),
                r@,
            ) == add_term(old(self).entries(), old(self).classes(), v),
            final(self).classes()[r@ as int] == r@,
            canonical_table(old(self).entries(), old(self).classes()) ==> canonical_table(
                final(self).entries(),
                final(self).classes(),
            ),
    {
        match parse(s) {
            Ok(v) => {
                proof {
                    lemma_tree_shape(v.deep(), parsed_tree(s@));
                    let t = parsed_tree(s@);
                    assert(tokens(t) == lex_from(s@, 0));
                }
                let r = self.add_sexp(&v);
                proof {
                    assert(shape(v.deep(), parsed_tree(s@)));
                    assert(represents(self.entries(), self.classes(), v.deep(), r@));
                }
                r
            },
            Err(_) => {
                proof {
                    assert(false);
                }
                Id(0)
            },
        }
    }
}


/// Every rule of `rws` is well formed, and its right side uses only
/// variables of its left side.
pub open spec fn rules_ok(rws: Seq<(Sexp, Sexp)>) -> bool {
    forall|q: int|
        0 <= q < rws.len() ==> #[trigger] rule_ok(rws, q) && pat_vars(rws[q].1.deep()).subset_of(pat_vars(rws[q].0.deep()))
}

/// A variable of the patterns `vs` is a variable of one of them.
proof fn lemma_pats_vars_contains(vs: Seq<SexpV>, x: Symbol)
    ensures
        pats_vars(vs).contains(x) == exists|k: int| 0 <= k < vs.len() && #[trigger] pat_vars(vs[k]).contains(x),
    decreases vs.len(),
{
    if vs.len() > 0 {
        let rest = vs.subrange(1, vs.len() as int);
        lemma_pats_vars_contains(rest, x);
        if pats_vars(vs).contains(x) {
            if !pat_vars(vs[0]).contains(x) {
                let k = choose|k: int| 0 <= k < rest.len() && #[trigger] pat_vars(rest[k]).contains(x);
                assert(rest[k] == vs[k + 1]);
                assert(pat_vars(vs[k + 1]).contains(x));
            } else {
                assert(pat_vars(vs[0]).contains(x));
            }
        }
        if exists|k: int| 0 <= k < vs.len() && #[trigger] pat_vars(vs[k]).contains(x) {
            let k = choose|k: int| 0 <= k < vs.len() && #[trigger] pat_vars(vs[k]).contains(x);
            if k > 0 {
                assert(rest[k - 1] == vs[k]);
                assert(pat_vars(rest[k - 1]).contains(x));
            }
        }
    }
}

/// Whether `x` is a variable of the pattern `p`.
fn pat_has_var(p: &Sexp, x: Symbol) -> (r: bool)
    ensures
        r == pat_vars(p.deep()).contains(x),
    decreases p,
{
    proof {
        lemma_deep_list(p);
    }
    match p {
        Sexp::Atom(a) => *a == x,
        Sexp::List(items) => {
            let ghost dv = deep_seq(items@);
            if items.len() == 0 {
                return false;
            }
            let ghost sub = dv.subrange(1, dv.len() as int);
            proof {
                lemma_pats_vars_contains(sub, x);
                assert(pat_vars(p.deep()) == pats_vars(sub));
            }
            let mut i: usize = 1;
            while i < items.len()
                invariant
                    *p == Sexp::List(*items),
                    dv == deep_seq(items@),
                    sub == dv.subrange(1, dv.len() as int),
                    1 <= i <= items@.len(),
                    pat_vars(p.deep()) == pats_vars(sub),
                    pats_vars(sub).contains(x) == exists|k: int| 0 <= k < sub.len() && #[trigger] pat_vars(sub[k]).contains(x),
                    forall|k: int| 1 <= k < i ==> !(#[trigger] pat_vars(dv[k])).contains(x),
                decreases items@.len() - i,
            {
                proof {
                    assert(decreases_to!(*p => *items));
                    assert(decreases_to!(*items => items@));
                    assert(decreases_to!(items@ => items@[i as int]));
                }
                if pat_has_var(&items[i], x) {
                    proof {
                        assert(dv[i as int] == items@[i as int].deep());
                        assert(sub[i - 1] == dv[i as int]);
                        assert(pat_vars(sub[i - 1]).contains(x));
                    }
                    return true;
                }
                i = i + 1;
            }
            proof {
                assert forall|k: int| 0 <= k < sub.len() implies !(#[trigger] pat_vars(sub[k])).contains(x) by {
                    assert(sub[k] == dv[k + 1]);
                }
            }
            false
        },
    }
}

/// Whether every variable of the pattern `p` is a variable of `lhs`.
fn pat_vars_within(p: &Sexp, lhs: &Sexp) -> (r: bool)
    ensures
        r == pat_vars(p.deep()).subset_of(pat_vars(lhs.deep())),
    decreases p,
{
    proof {
        lemma_deep_list(p);
    }
    match p {
        Sexp::Atom(a) => {
            let r = pat_has_var(lhs, *a);
            proof {
                assert(pat_vars(p.deep()) == set![*a]);
            }
            r
        },
        Sexp::List(items) => {
            let ghost dv = deep_seq(items@);
            let ghost l = pat_vars(lhs.deep());
            if items.len() == 0 {
                proof {
                    assert(pat_vars(p.deep()) =~= Set::<Symbol>::empty());
                }
                return true;
            }
            let ghost sub = dv.subrange(1, dv.len() as int);
            proof {
                assert(pat_vars(p.deep()) == pats_vars(sub));
            }
            let mut i: usize = 1;
            while i < items.len()
                invariant
                    *p == Sexp::List(*items),
                    dv == deep_seq(items@),
                    sub == dv.subrange(1, dv.len() as int),
                    l == pat_vars(lhs.deep()),
                    1 <= i <= items@.len(),
                    pat_vars(p.deep()) == pats_vars(sub),
                    forall|k: int| 1 <= k < i ==> (#[trigger] pat_vars(dv[k])).subset_of(l),
                decreases items@.len() - i,
            {
                proof {
                    assert(decreases_to!(*p => *items));
                    assert(decreases_to!(*items => items@));
                    assert(decreases_to!(items@ => items@[i as int]));
                }
                if !pat_vars_within(&items[i], lhs) {
                    proof {
                        assert(dv[i as int] == items@[i as int].deep());
                        assert(sub[i - 1] == dv[i as int]);
                        let x = choose|x: Symbol| pat_vars(dv[i as int]).contains(x) && !l.contains(x);
                        lemma_pats_vars_contains(sub, x);
                        assert(pat_vars(sub[i - 1]).contains(x));
                        assert(pat_vars(p.deep()).contains(x));
                    }
                    return false;
                }
                i = i + 1;
            }
            proof {
                assert forall|x: Symbol| pat_vars(p.deep()).contains(x) implies l.contains(x) by {
                    lemma_pats_vars_contains(sub, x);
                    let k = choose|k: int| 0 <= k < sub.len() && #[trigger] pat_vars(sub[k]).contains(x);
                    assert(sub[k] == dv[k + 1]);
                    assert(pat_vars(dv[k + 1]).subset_of(l));
                }
            }
            true
        },
    }
}

/// The rules are well formed, every right side uses only variables of its
/// left side, and every left side has fewer than `u32::MAX` nodes.
pub open spec fn rules_checked_spec(rws: Seq<(Sexp, Sexp)>) -> bool {
    &&& rules_ok(rws)
    &&& forall|q: int| 0 <= q < rws.len() ==> #[trigger] term_size(rws[q].0.deep()) < u32::MAX
}

/// Checks that `rewrite_to_fixed` may be given `rws`: every list of each
/// side starts with an atom, each right side uses only variables of its
/// left side, and each left side has fewer than `u32::MAX` nodes.
pub fn rules_checked(rws: &[Rewrite]) -> (r: bool)
    ensures
        r == rules_checked_spec(rws@),
{
    let mut q: usize = 0;
    while q < rws.len()
        invariant
            q <= rws@.len(),
            forall|k: int|
                0 <= k < q ==> #[trigger] rule_ok(rws@, k) && pat_vars(rws@[k].1.deep()).subset_of(pat_vars(rws@[k].0.deep()))
                    && term_size(rws@[k].0.deep()) < u32::MAX,
        decreases rws@.len() - q,
    {
        let lhs = &rws[q].0;
        let rhs = &rws[q].1;
        let heads_l = has_atom_heads(lhs);
        let heads_r = has_atom_heads(rhs);
        let size_l = term_size_capped(lhs);
        let within = pat_vars_within(rhs, lhs);
        proof {
            assert(*lhs == rws@[q as int].0 && *rhs == rws@[q as int].1);
        }
        if !(heads_l && heads_r && size_l < 4294967295u64 && within) {
            proof {
                assert(!(rule_ok(rws@, q as int) && pat_vars(rws@[q as int].1.deep()).subset_of(pat_vars(rws@[q as int].0.deep()))
                    && term_size(rws@[q as int].0.deep()) < u32::MAX));
                if rules_checked_spec(rws@) {
                    assert(rule_ok(rws@, q as int));
                    assert(term_size(rws@[q as int].0.deep()) < u32::MAX);
                }
            }
            return false;
        }
        proof {
            assert(heads_are_atoms(rws@[q as int].0.deep()));
            assert(heads_are_atoms(rws@[q as int].1.deep()));
            assert(term_size(rws@[q as int].0.deep()) < u32::MAX);
            assert(rule_ok(rws@, q as int));
            assert(pat_vars(rws@[q as int].1.deep()).subset_of(pat_vars(rws@[q as int].0.deep())));
            assert forall|k: int|
                0 <= k < q + 1 implies #[trigger] rule_ok(rws@, k) && pat_vars(rws@[k].1.deep()).subset_of(pat_vars(rws@[k].0.deep()))
                    && term_size(rws@[k].0.deep()) < u32::MAX by {
                if k == q {
                } else {
                    assert(rule_ok(rws@, k));
                }
            }
        }
        q = q + 1;
    }
    proof {
        assert forall|k: int| 0 <= k < rws@.len() implies #[trigger] term_size(rws@[k].0.deep()) < u32::MAX by {
            assert(rule_ok(rws@, k));
        }
    }
    true
}

/// `x`, or `u32::MAX` if that is smaller.
pub open spec fn capped(x: nat) -> nat {
    if x < u32::MAX {
        x
    } else {
        u32::MAX as nat
    }
}

/// The size of the term `s` (see `term_size`), capped at `u32::MAX`.
pub fn term_size_capped(s: &Sexp) -> (r: u64)
    ensures
        r == capped(term_size(s.deep())),
    decreases s,
{
    match s {
        Sexp::Atom(_) => 1,
        Sexp::List(items) => {
            proof {
                lemma_deep_list(s);
            }
            let ghost dv = deep_seq(items@);
            let mut acc: u64 = 1;
            let mut k: usize = 0;
            proof {
                assert(dv.take(0) =~= Seq::<SexpV>::empty());
            }
            while k < items.len()
                invariant
                    dv == deep_seq(items@),
                    *s == Sexp::List(*items),
                    k <= items@.len(),
                    acc == capped(1 + terms_size(dv.take(k as int))),
                decreases items@.len() - k,
            {
                proof {
                    lemma_terms_size_prefix(dv, k as int);
                    assert(dv[k as int] == items@[k as int].deep());
                    let q: int = k as int;
                    assert(s->List_0 == *items);
                    assert(decreases_to!(*s => s->List_0));
                    assert(decreases_to!(*items => items@));
                    assert(decreases_to!(items@ => items@[q]));
                }
                let c = term_size_capped(&items[k]);
                if acc + c >= 4294967295 {
                    acc = 4294967295;
                } else {
                    acc = acc + c;
                }
                k = k + 1;
            }
            proof {
                assert(dv.take(k as int) =~= dv);
            }
            acc
        },
    }
}

/// Every match that the rules have in the class map `cm` under the classes
/// `cls` has the instance of its right side held by `es1` under `cls1`, in
/// the class it was found in.
pub open spec fn matches_held(
    cm: Seq<(u32, Seq<NodeV>)>,
    cls: Seq<nat>,
    es1: Seq<(NodeV, Id)>,
    cls1: Seq<nat>,
    rws: Seq<(Sexp, Sexp)>,
) -> bool {
    let rows = all_rows(cm, cls, lhs_views(rws), rws.len() as int);
    forall|a: int, b: int|
        0 <= a < rows.len() && 0 <= b < rows[a].2.len() ==> holds(
            es1,
            cls1,
            rhs_views(rws)[rows[a].0 as int],
            #[trigger] rows[a].2[b],
            rows[a].1@,
        )
}

/// A last round of rewriting and rebuilding went from the rebuilt e-graph
/// with entries `es0`, classes `cls0`, class map `cm0` and `count0` classes,
/// which merges at least the classes `cls_init`, to the entries `es`,
/// classes `cls` and `count` classes: the counts of nodes and of classes
/// are as they were, and every match of the rules in the e-graph the round
/// started from has its instance held in the class it was found in.
pub open spec fn round_settled(
    cls_init: Seq<nat>,
    es0: Seq<(NodeV, Id)>,
    cls0: Seq<nat>,
    cm0: Seq<(u32, Seq<NodeV>)>,
    count0: nat,
    es: Seq<(NodeV, Id)>,
    cls: Seq<nat>,
    count: nat,
    rws: Seq<(Sexp, Sexp)>,
) -> bool {
    &&& coarser(cls0, cls_init)
    &&& class_map_ok(cm0, es0, cls0)
    &&& canonical_table(es0, cls0)
    &&& coarser(cls, cls0)
    &&& es.len() == es0.len()
    &&& count == count0
    &&& matches_held(cm0, cls0, es, cls, rws)
}

/// The class ids left do not suffice for the instances that a round over
/// the class map `cm` under the classes `cls` may add.
pub open spec fn no_room(cm: Seq<(u32, Seq<NodeV>)>, cls: Seq<nat>, rws: Seq<(Sexp, Sexp)>) -> bool {
    cls.len() + rows_work(all_rows(cm, cls, lhs_views(rws), rws.len() as int), rhs_sizes(rws)) + 1 >= u32::MAX
}

impl EGraph {
    /// Whether the class ids left suffice for the instances that applying
    /// the matches `all` may add.
    fn has_room(&self, rewrites: &[(Sexp, Sexp)], all: &Vec<(usize, Id, Vec<Subst>)>) -> (r: bool)
        requires
            self.wf(),
            forall|i: int| 0 <= i < all@.len() ==> (#[trigger] all@[i]).0 < rewrites@.len(),
        ensures
            r == (self.classes().len() + rows_work(rows_view(all@), rhs_sizes(rewrites@)) + 1 < u32::MAX),
    {
        let ghost rows = rows_view(all@);
        let ghost sizes = rhs_sizes(rewrites@);
        proof {
            self.lemma_classes_facts();
            assert(rows.take(0).len() == 0);
        }
        let cap: u64 = 4294967295;
        let mut acc: u64 = self.class_ids() as u64 + 1;
        if acc >= cap {
            return false;
        }
        let mut i: usize = 0;
        while i < all.len()
            invariant
                self.wf(),
                rows == rows_view(all@),
                sizes == rhs_sizes(rewrites@),
                forall|i: int| 0 <= i < all@.len() ==> (#[trigger] all@[i]).0 < rewrites@.len(),
                cap == u32::MAX,
                i <= all@.len(),
                acc < cap,
                acc == self.classes().len() + rows_work(rows.take(i as int), sizes) + 1,
            decreases all@.len() - i,
        {
            proof {
                lemma_rows_work_prefix(rows, sizes, i as int);
                lemma_rows_work_prefix(rows, sizes, i + 1);
            }
            let cnt = all[i].2.len() as u64;
            let q = all[i].0;
            let sz = term_size_capped(&rewrites[q].1);
            let ghost size = sizes[q as int];
            proof {
                assert(rows[i as int].0 == q as nat);
                assert(rows[i as int].2.len() == cnt);
                assert(size == term_size(rewrites@[q as int].1.deep()));
            }
            let room: u64 = cap - 1 - acc;
            if sz > 0 && cnt > room / sz {
                proof {
                    assert(cnt * sz > room) by (nonlinear_arith)
                        requires
                            sz > 0,
                            cnt > room / sz,
                    ;
                    assert(cnt * size >= cnt * sz) by (nonlinear_arith)
                        requires
                            size >= sz,
                    ;
                }
                return false;
            }
            proof {
                if sz > 0 {
                    assert(cnt * sz <= room) by (nonlinear_arith)
                        requires
                            sz > 0,
                            cnt <= room / sz,
                    ;
                    if sz == cap {
                        assert(cnt == 0) by (nonlinear_arith)
                            requires
                                cnt * sz <= cap - 1 - acc,
                                sz == cap,
                                acc >= 1,
                        ;
                    }
                } else {
                    assert(term_size(rewrites@[q as int].1.deep()) >= 1) by {
                        reveal_with_fuel(term_size, 1);
                    }
                }
                assert(cnt * sz == cnt * size) by (nonlinear_arith)
                    requires
                        sz == size || cnt == 0,
                ;
            }
            acc = acc + cnt * sz;
            i = i + 1;
        }
        proof {
            assert(rows.take(i as int) =~= rows);
        }
        true
    }

    /// Rewrites until a round of `rewrite` and `rebuild` leaves the number of
    /// nodes and the number of classes as they were, or until the class ids
    /// left do not suffice for a round. Each right side may only use
    /// variables of its left side. On a stop of the first kind, every match
    /// of the last round has its instance held in the class it was found in.
    /// Whatever the stop, the result is the last of a run of `rounds`: a
    /// first rebuild, then rounds that each rewrite every match (as
    /// `rewrite` does) and rebuild, so nothing is merged that no round calls
    /// for.
    #[verifier::rlimit(50)]
    pub fn rewrite_to_fixed(&mut self, rewrites: &[Rewrite])
        requires
            old(self).wf(),
            rules_ok(rewrites@),
        ensures
            final(self).wf(),
            coarser(final(self).classes(), old(self).classes()),
            forall|j: int|
                0 <= j < final(self).entries().len() ==> canonical_entry(final(self).classes(), #[trigger] final(self).entries()[j]),
            class_map_ok(final(self).class_map(), final(self).entries(), final(self).classes()),
            (exists|es0: Seq<(NodeV, Id)>, cls0: Seq<nat>, cm0: Seq<(u32, Seq<NodeV>)>, count0: nat|
                #[trigger] round_settled(
                    old(self).classes(),
                    es0,
                    cls0,
                    cm0,
                    count0,
                    final(self).entries(),
                    final(self).classes(),
                    final(self).class_count(),
                    rewrites@,
                )) || no_room(final(self).class_map(), final(self).classes(), rewrites@),
            exists|trace: Seq<RoundState>|
                #[trigger] rounds(old(self).entries(), old(self).classes(), trace, rewrites@) && trace.last() == (
                    final(self).entries(),
                    final(self).classes(),
                    final(self).class_map(),
                ),
    {
        let ghost cls_init = self.classes();
        let ghost es_init = self.entries();
        self.rebuild();
        let ghost mut trace: Seq<RoundState> = seq![(self.entries(), self.classes(), self.class_map())];
        proof {
            assert(rounds(es_init, cls_init, trace, rewrites@));
        }
        loop
            invariant
                self.wf(),
                coarser(self.classes(), cls_init),
                cls_init == old(self).classes(),
                rules_ok(rewrites@),
                forall|j: int|
                    0 <= j < self.entries().len() ==> canonical_entry(self.classes(), #[trigger] self.entries()[j]),
                class_map_ok(self.class_map(), self.entries(), self.classes()),
                es_init == old(self).entries(),
                rounds(es_init, cls_init, trace, rewrites@),
                trace.last() == (self.entries(), self.classes(), self.class_map()),
            ensures
                rounds(es_init, cls_init, trace, rewrites@),
                trace.last() == (self.entries(), self.classes(), self.class_map()),
                self.wf(),
                coarser(self.classes(), cls_init),
                forall|j: int|
                    0 <= j < self.entries().len() ==> canonical_entry(self.classes(), #[trigger] self.entries()[j]),
                class_map_ok(self.class_map(), self.entries(), self.classes()),
                (exists|es0: Seq<(NodeV, Id)>, cls0: Seq<nat>, cm0: Seq<(u32, Seq<NodeV>)>, count0: nat|
                    #[trigger] round_settled(
                        cls_init,
                        es0,
                        cls0,
                        cm0,
                        count0,
                        self.entries(),
                        self.classes(),
                        self.class_count(),
                        rewrites@,
                    )) || no_room(self.class_map(), self.classes(), rewrites@),
            decreases u32::MAX - self.classes().len(), self.class_count(), self.entries().len(),
        {
            let ghost cls0 = self.classes();
            let ghost count0 = self.class_count();
            let ghost es0 = self.entries();
            proof {
                self.lemma_classes_facts();
            }
            let nodes_before = self.node_count();
            let classes_before = self.class_counter();
            proof {
                assert forall|q: int| 0 <= q < rewrites@.len() implies #[trigger] rule_ok(rewrites@, q) by {
                    assert(rules_ok(rewrites@));
                }
            }
            let ghost cm0 = self.class_map();
            let all = self.collect_matches(rewrites);
            if !self.has_room(rewrites, &all) {
                break;
            }
            proof {
                let rows = rows_view(all@);
                let lhss = lhs_views(rewrites@);
                let rhss = rhs_views(rewrites@);
                assert forall|a: int, b: int, x: Symbol|
                    0 <= a < rows.len() && 0 <= b < rows[a].2.len() && pat_vars(rhss[rows[a].0 as int]).contains(x) implies #[trigger] lookup(
                    #[trigger] rows[a].2[b],
                    x,
                ) is Some by {
                    let q = rows[a].0 as int;
                    assert(q == all@[a].0);
                    assert(rule_ok(rewrites@, q));
                    assert(lhss[q] == rewrites@[q].0.deep());
                    assert(rhss[q] == rewrites@[q].1.deep());
                    lemma_row_binds(self.class_map(), self.classes(), lhss, rewrites@.len() as int, a, b);
                    assert(pat_vars(lhss[q]).contains(x));
                }
            }
            self.apply_matches(rewrites, &all);
            let ghost cls1 = self.classes();
            let ghost count1 = self.class_count();
            let ghost es1 = self.entries();
            let ghost s1 = *self;
            proof {
                assert(cls0.len() <= cls1.len());
                assert(count1 + cls0.len() <= count0 + cls1.len());
                assert(es1.len() + cls0.len() == es0.len() + cls1.len());
            }
            self.rebuild();
            proof {
                let st = rewritten(es0, cls0, cm0, rewrites@);
                assert(rows_view(all@) == all_rows(cm0, cls0, lhs_views(rewrites@), rewrites@.len() as int));
                assert(es1 == st.0 && cls1 == st.1);
                let nb: RoundState = (self.entries(), self.classes(), self.class_map());
                assert(rebuilt_from(es1, cls1, nb));
                assert(trace.last() == (es0, cls0, cm0));
                assert(round_from(trace.last(), nb, rewrites@));
                lemma_rounds_push(es_init, cls_init, trace, nb, rewrites@);
                trace = trace.push(nb);
            }
            proof {
                lemma_coarser_trans(self.classes(), cls1, cls0);
                lemma_coarser_trans(self.classes(), cls0, cls_init);
                assert(self.classes().len() == cls1.len());
                assert(self.class_count() <= count1);
                assert(self.entries().len() <= es1.len());
                self.lemma_classes_facts();
            }
            if nodes_before == self.node_count() && classes_before == self.class_counter() {
                proof {
                    s1.lemma_entry_facts();
                    s1.lemma_classes_facts();
                    let rows = all_rows(cm0, cls0, lhs_views(rewrites@), rewrites@.len() as int);
                    assert(rows == rows_view(all@));
                    assert forall|a: int, b: int| 0 <= a < rows.len() && 0 <= b < rows[a].2.len() implies holds(
                        self.entries(),
                        self.classes(),
                        rhs_views(rewrites@)[rows[a].0 as int],
                        #[trigger] rows[a].2[b],
                        rows[a].1@,
                    ) by {
                        lemma_holds_rebuild(
                            es1,
                            cls1,
                            self.entries(),
                            self.classes(),
                            rhs_views(rewrites@)[rows[a].0 as int],
                            rows[a].2[b],
                            rows[a].1@,
                        );
                    }
                    assert(matches_held(cm0, cls0, self.entries(), self.classes(), rewrites@));
                    lemma_coarser_trans(cls0, cls0, cls_init);
                    assert(round_settled(
                        cls_init,
                        es0,
                        cls0,
                        cm0,
                        count0,
                        self.entries(),
                        self.classes(),
                        self.class_count(),
                        rewrites@,
                    ));
                }
                break;
            }
        }
    }
}


/// `r` keeps every binding of `s`.
pub open spec fn extends(r: Seq<(Symbol, Id)>, s: Seq<(Symbol, Id)>) -> bool {
    forall|x: Symbol| #[trigger] lookup(s, x) is Some ==> lookup(r, x) == lookup(s, x)
}

/// `r` keeps the bindings of one of `todo`.
pub open spec fn extends_one_of(r: Seq<(Symbol, Id)>, todo: Seq<Seq<(Symbol, Id)>>) -> bool {
    exists|t: int| 0 <= t < todo.len() && extends(r, #[trigger] todo[t])
}

/// What e-matching in a rebuilt e-graph relies on: the class map lists
/// each class with the nodes of its entries, ids are class ids, and every
/// class id has a representative that is its own.
pub open spec fn match_ctx(cm: Seq<(u32, Seq<NodeV>)>, es: Seq<(NodeV, Id)>, cls: Seq<nat>) -> bool {
    &&& class_map_ok(cm, es, cls)
    &&& forall|a: int, b: int| 0 <= a < b < cm.len() ==> (#[trigger] cm[a]).0 != (#[trigger] cm[b]).0
    &&& forall|x: int| 0 <= x < cls.len() ==> #[trigger] cls[x] < cls.len() && cls[cls[x] as int] == cls[x]
    &&& forall|j: int| 0 <= j < es.len() ==> (#[trigger] es[j]).1@ < cls.len() && args_below(es[j].0.1, cls.len())
}

/// `n` is the node of an entry of `es` with class id `c`.
pub open spec fn node_in(es: Seq<(NodeV, Id)>, n: NodeV, c: nat) -> bool {
    exists|j: int| 0 <= j < es.len() && (#[trigger] es[j]).0 == n && es[j].1@ == c
}

/// Each of `nodes` is the node of an entry of `es` with class id `c`.
pub open spec fn nodes_of_class(es: Seq<(NodeV, Id)>, nodes: Seq<NodeV>, c: nat) -> bool {
    forall|i: int| 0 <= i < nodes.len() ==> #[trigger] node_in(es, nodes[i], c)
}

proof fn lemma_extends_trans(a: Seq<(Symbol, Id)>, b: Seq<(Symbol, Id)>, c: Seq<(Symbol, Id)>)
    requires
        extends(a, b),
        extends(b, c),
    ensures
        extends(a, c),
{
    assert forall|x: Symbol| #[trigger] lookup(c, x) is Some implies lookup(a, x) == lookup(c, x) by {
        assert(lookup(b, x) == lookup(c, x));
    }
}

proof fn lemma_with_extends(s: Seq<(Symbol, Id)>, name: Symbol, c: Id)
    ensures
        with_spec(s, name, c) matches Some(r) ==> extends(r, s) && lookup(r, name) == Some(c),
{
    if let Some(r) = with_spec(s, name, c) {
        if lookup(s, name) is None {
            assert forall|x: Symbol| #[trigger] lookup(s, x) is Some implies lookup(r, x) == lookup(s, x) by {
                lemma_lookup_push(s, (name, c), x);
            }
            lemma_lookup_push(s, (name, c), name);
        }
    }
}

proof fn lemma_holds_all_index(es: Seq<(NodeV, Id)>, cls: Seq<nat>, vs: Seq<SexpV>, s: Seq<(Symbol, Id)>, ids: Seq<Id>)
    ensures
        holds_all(es, cls, vs, s, ids) <==> (ids.len() == vs.len() && forall|i: int|
            0 <= i < vs.len() ==> #[trigger] holds(es, cls, vs[i], s, ids[i]@)),
    decreases vs.len(),
{
    if vs.len() > 0 {
        lemma_holds_all_index(es, cls, vs.drop_last(), s, ids.drop_last());
        if ids.len() == vs.len() && forall|i: int| 0 <= i < vs.len() ==> #[trigger] holds(es, cls, vs[i], s, ids[i]@) {
            assert forall|i: int| 0 <= i < vs.drop_last().len() implies #[trigger] holds(
                es,
                cls,
                vs.drop_last()[i],
                s,
                ids.drop_last()[i]@,
            ) by {
                assert(holds(es, cls, vs[i], s, ids[i]@));
            }
            assert(holds(es, cls, vs[vs.len() - 1], s, ids[vs.len() - 1]@));
        }
        if holds_all(es, cls, vs, s, ids) {
            assert forall|i: int| 0 <= i < vs.len() implies #[trigger] holds(es, cls, vs[i], s, ids[i]@) by {
                if i < vs.len() - 1 {
                    assert(holds(es, cls, vs.drop_last()[i], s, ids.drop_last()[i]@));
                }
            }
        }
    }
}

/// What holds under a substitution holds under any that keeps its bindings.
pub proof fn lemma_holds_extend(es: Seq<(NodeV, Id)>, cls: Seq<nat>, v: SexpV, s: Seq<(Symbol, Id)>, r: Seq<(Symbol, Id)>, z: nat)
    requires
        holds(es, cls, v, s, z),
        extends(r, s),
    ensures
        holds(es, cls, v, r, z),
    decreases v,
{
    match v {
        SexpV::Atom(name) => {
            assert(lookup(s, name) is Some);
        },
        SexpV::List(items) => {
            lemma_some_entry(es, es.len() as int, cls, items, s, z);
            lemma_some_entry(es, es.len() as int, cls, items, r, z);
            let j = choose|j: int| 0 <= j < es.len() && #[trigger] entry_holds(es, cls, items, s, es[j], z);
            let sub = items.subrange(1, items.len() as int);
            assert(decreases_to!(v => items));
            assert(decreases_to!(items => sub));
            lemma_holds_all_extend(es, cls, sub, s, r, es[j].0.1);
            assert(entry_holds(es, cls, items, r, es[j], z));
        },
    }
}

proof fn lemma_holds_all_extend(
    es: Seq<(NodeV, Id)>,
    cls: Seq<nat>,
    vs: Seq<SexpV>,
    s: Seq<(Symbol, Id)>,
    r: Seq<(Symbol, Id)>,
    ids: Seq<Id>,
)
    requires
        holds_all(es, cls, vs, s, ids),
        extends(r, s),
    ensures
        holds_all(es, cls, vs, r, ids),
    decreases vs,
{
    if vs.len() > 0 {
        lemma_holds_all_extend(es, cls, vs.drop_last(), s, r, ids.drop_last());
        lemma_holds_extend(es, cls, vs.last(), s, r, ids.last()@);
    }
}

proof fn lemma_nwv_member(es: Seq<(NodeV, Id)>, c: nat, i: int)
    requires
        0 <= i < nodes_with_value(es, c).len(),
    ensures
        exists|j: int| 0 <= j < es.len() && (#[trigger] es[j]).0 == nodes_with_value(es, c)[i] && es[j].1@ == c,
    decreases es.len(),
{
    let left = nodes_with_value(es.drop_last(), c);
    if i < left.len() {
        lemma_nwv_member(es.drop_last(), c, i);
        let j = choose|j: int| 0 <= j < es.drop_last().len() && (#[trigger] es.drop_last()[j]).0 == left[i] && es.drop_last()[j].1@ == c;
        assert(es[j] == es.drop_last()[j]);
        assert(nodes_with_value(es, c)[i] == left[i]);
    } else {
        let j = es.len() - 1;
        assert(es[j] == es.last());
    }
}

proof fn lemma_class_nodes_of_root(cm: Seq<(u32, Seq<NodeV>)>, es: Seq<(NodeV, Id)>, cls: Seq<nat>, c: nat)
    requires
        match_ctx(cm, es, cls),
        c < cls.len(),
    ensures
        class_nodes(cm, cls[c as int] as u32) == nodes_with_value(es, cls[c as int]),
{
    let r = cls[c as int];
    assert(cls[r as int] == r);
    assert(r < cls.len());
    let k = choose|k: int| 0 <= k < cm.len() && (#[trigger] cm[k]).0 == r;
    lemma_class_nodes(cm, r as u32);
    assert forall|j: int| 0 <= j < k implies cm[j].0 != r as u32 by {
        assert(cm[j].0 != cm[k].0);
    }
    assert(cm[k].1 == nodes_with_value(es, cm[k].0 as nat));
}

/// Every match of `pat` in the class of `c` extending `s` keeps the
/// bindings of `s`, and the class of `c` holds the instance of `pat`
/// under it.
pub proof fn lemma_match_pat_sound(
    cm: Seq<(u32, Seq<NodeV>)>,
    es: Seq<(NodeV, Id)>,
    cls: Seq<nat>,
    pat: SexpV,
    c: Id,
    s: Seq<(Symbol, Id)>,
)
    requires
        match_ctx(cm, es, cls),
        c@ < cls.len(),
    ensures
        forall|i: int|
            0 <= i < match_pat(cm, cls, pat, c, s).len() ==> extends(#[trigger] match_pat(cm, cls, pat, c, s)[i], s) && holds(
                es,
                cls,
                pat,
                match_pat(cm, cls, pat, c, s)[i],
                c@,
            ),
    decreases pat, 0nat, 0nat,
{
    match pat {
        SexpV::Atom(name) => {
            lemma_with_extends(s, name, c);
        },
        SexpV::List(items) => {
            if items.len() > 0 {
                lemma_class_nodes_of_root(cm, es, cls, c@);
                let nodes = class_nodes(cm, cls[c@ as int] as u32);
                assert(nodes_of_class(es, nodes, cls[c@ as int])) by {
                    assert forall|i: int| 0 <= i < nodes.len() implies #[trigger] node_in(es, nodes[i], cls[c@ as int]) by {
                        lemma_nwv_member(es, cls[c@ as int], i);
                    }
                }
                lemma_match_nodes_sound(cm, es, cls, items, nodes, s, c);
                let out = match_pat(cm, cls, pat, c, s);
                assert(out == match_nodes(cm, cls, items, nodes, s));
                assert forall|i: int| 0 <= i < out.len() implies extends(#[trigger] out[i], s) && holds(es, cls, pat, out[i], c@) by {
                    assert(extends(match_nodes(cm, cls, items, nodes, s)[i], s));
                    lemma_some_entry(es, es.len() as int, cls, items, out[i], c@);
                }
            }
        },
    }
}

proof fn lemma_match_nodes_sound(
    cm: Seq<(u32, Seq<NodeV>)>,
    es: Seq<(NodeV, Id)>,
    cls: Seq<nat>,
    items: Seq<SexpV>,
    nodes: Seq<NodeV>,
    s: Seq<(Symbol, Id)>,
    c: Id,
)
    requires
        match_ctx(cm, es, cls),
        c@ < cls.len(),
        items.len() > 0,
        nodes_of_class(es, nodes, cls[c@ as int]),
    ensures
        forall|i: int|
            0 <= i < match_nodes(cm, cls, items, nodes, s).len() ==> extends(#[trigger] match_nodes(cm, cls, items, nodes, s)[i], s)
                && exists|j: int| 0 <= j < es.len() && entry_holds(es, cls, items, match_nodes(cm, cls, items, nodes, s)[i], #[trigger] es[j], c@),
    decreases items, 2nat, nodes.len(),
{
    if nodes.len() > 0 {
        let nd = nodes.last();
        assert(nodes_of_class(es, nodes.drop_last(), cls[c@ as int])) by {
            assert forall|i: int| 0 <= i < nodes.drop_last().len() implies #[trigger] node_in(es, nodes.drop_last()[i], cls[c@ as int]) by {
                assert(nodes.drop_last()[i] == nodes[i]);
                assert(node_in(es, nodes[i], cls[c@ as int]));
            }
        }
        lemma_match_nodes_sound(cm, es, cls, items, nodes.drop_last(), s, c);
        let left = match_nodes(cm, cls, items, nodes.drop_last(), s);
        let out = match_nodes(cm, cls, items, nodes, s);
        if items[0] is Atom && nd.0 == items[0]->Atom_0 && nd.1.len() + 1 == items.len() {
            let sub = items.subrange(1, items.len() as int);
            assert(nodes[nodes.len() - 1] == nd);
            let last = nodes.len() - 1;
            assert(node_in(es, nodes[last], cls[c@ as int]));
            let j = choose|j: int| 0 <= j < es.len() && (#[trigger] es[j]).0 == nodes[last] && es[j].1@ == cls[c@ as int];
            assert(args_below(nd.1, cls.len()));
            lemma_match_args_sound(cm, es, cls, sub, nd.1, seq![s]);
            let right = match_args(cm, cls, sub, nd.1, seq![s]);
            assert(out == left + right);
            assert forall|i: int| 0 <= i < out.len() implies extends(#[trigger] out[i], s) && exists|j2: int|
                0 <= j2 < es.len() && entry_holds(es, cls, items, out[i], #[trigger] es[j2], c@) by {
                if i < left.len() {
                    assert(out[i] == left[i]);
                } else {
                    let r = right[i - left.len()];
                    assert(out[i] == r);
                    assert(extends_one_of(r, seq![s]));
                    let t = choose|t: int| 0 <= t < seq![s].len() && extends(r, #[trigger] seq![s][t]);
                    assert(seq![s][t] == s);
                    lemma_holds_all_index(es, cls, sub, r, nd.1);
                    assert(cls[es[j].1@ as int] == cls[c@ as int]);
                    assert(entry_holds(es, cls, items, r, es[j], c@));
                }
            }
        } else {
            assert(out =~= left);
        }
    }
}

proof fn lemma_match_args_sound(
    cm: Seq<(u32, Seq<NodeV>)>,
    es: Seq<(NodeV, Id)>,
    cls: Seq<nat>,
    pats: Seq<SexpV>,
    ids: Seq<Id>,
    todo: Seq<Seq<(Symbol, Id)>>,
)
    requires
        match_ctx(cm, es, cls),
        pats.len() == ids.len(),
        args_below(ids, cls.len()),
    ensures
        forall|k: int|
            0 <= k < match_args(cm, cls, pats, ids, todo).len() ==> extends_one_of(#[trigger] match_args(cm, cls, pats, ids, todo)[k], todo) && forall|i: int|
                0 <= i < pats.len() ==> #[trigger] holds(es, cls, pats[i], match_args(cm, cls, pats, ids, todo)[k], ids[i]@),
    decreases pats, 1nat, 0nat,
{
    let out = match_args(cm, cls, pats, ids, todo);
    if pats.len() == 0 {
        assert forall|k: int| 0 <= k < out.len() implies extends_one_of(#[trigger] out[k], todo) by {
            assert(extends(out[k], todo[k]));
        }
    } else {
        lemma_match_each_sound(cm, es, cls, pats[0], ids[0], todo);
        let mid = match_each(cm, cls, pats[0], ids[0], todo);
        let rest = pats.subrange(1, pats.len() as int);
        let irest = ids.subrange(1, ids.len() as int);
        assert(args_below(irest, cls.len())) by {
            assert forall|k: int| 0 <= k < irest.len() implies (#[trigger] irest[k])@ < cls.len() by {
                assert(irest[k] == ids[k + 1]);
            }
        }
        lemma_match_args_sound(cm, es, cls, rest, irest, mid);
        assert(out == match_args(cm, cls, rest, irest, mid));
        assert forall|k: int| 0 <= k < out.len() implies extends_one_of(#[trigger] out[k], todo)
            && forall|i: int| 0 <= i < pats.len() ==> #[trigger] holds(es, cls, pats[i], out[k], ids[i]@) by {
            let r = out[k];
            assert(extends_one_of(r, mid));
            let u = choose|u: int| 0 <= u < mid.len() && extends(r, #[trigger] mid[u]);
            assert(extends_one_of(mid[u], todo));
            let t = choose|t: int| 0 <= t < todo.len() && extends(mid[u], #[trigger] todo[t]);
            lemma_extends_trans(r, mid[u], todo[t]);
            assert(holds(es, cls, pats[0], mid[u], ids[0]@));
            lemma_holds_extend(es, cls, pats[0], mid[u], r, ids[0]@);
            assert forall|i: int| 0 <= i < pats.len() implies #[trigger] holds(es, cls, pats[i], r, ids[i]@) by {
                if i > 0 {
                    assert(pats[i] == rest[i - 1]);
                    assert(ids[i] == irest[i - 1]);
                    assert(holds(es, cls, rest[i - 1], r, irest[i - 1]@));
                }
            }
        }
    }
}

proof fn lemma_match_each_sound(
    cm: Seq<(u32, Seq<NodeV>)>,
    es: Seq<(NodeV, Id)>,
    cls: Seq<nat>,
    pat: SexpV,
    c: Id,
    todo: Seq<Seq<(Symbol, Id)>>,
)
    requires
        match_ctx(cm, es, cls),
        c@ < cls.len(),
    ensures
        forall|k: int|
            0 <= k < match_each(cm, cls, pat, c, todo).len() ==> extends_one_of(#[trigger] match_each(cm, cls, pat, c, todo)[k], todo) && holds(
                es,
                cls,
                pat,
                match_each(cm, cls, pat, c, todo)[k],
                c@,
            ),
    decreases pat, 1nat, todo.len(),
{
    if todo.len() > 0 {
        lemma_match_each_sound(cm, es, cls, pat, c, todo.drop_last());
        lemma_match_pat_sound(cm, es, cls, pat, c, todo.last());
        let left = match_each(cm, cls, pat, c, todo.drop_last());
        let right = match_pat(cm, cls, pat, c, todo.last());
        let out = match_each(cm, cls, pat, c, todo);
        assert(out == left + right);
        assert forall|k: int| 0 <= k < out.len() implies extends_one_of(#[trigger] out[k], todo)
            && holds(es, cls, pat, out[k], c@) by {
            if k < left.len() {
                assert(out[k] == left[k]);
                assert(extends_one_of(left[k], todo.drop_last()));
                let t = choose|t: int| 0 <= t < todo.drop_last().len() && extends(left[k], #[trigger] todo.drop_last()[t]);
                assert(todo.drop_last()[t] == todo[t]);
            } else {
                assert(out[k] == right[k - left.len()]);
                assert(extends(right[k - left.len()], todo.last()));
                assert(todo.last() == todo[todo.len() - 1]);
            }
        }
    }
}

/// E-matching in a rebuilt e-graph is sound: the class of `c` holds the
/// instance of `pat` under every match that `ematch` finds there.
pub proof fn lemma_ematch_sound(eg: &EGraph, pat: SexpV, c: Id)
    requires
        eg.wf(),
        class_map_ok(eg.class_map(), eg.entries(), eg.classes()),
        c@ < eg.classes().len(),
    ensures
        forall|i: int|
            0 <= i < match_pat(eg.class_map(), eg.classes(), pat, c, Seq::empty()).len() ==> holds(
                eg.entries(),
                eg.classes(),
                pat,
                #[trigger] match_pat(eg.class_map(), eg.classes(), pat, c, Seq::empty())[i],
                c@,
            ),
{
    eg.lemma_classes_facts();
    eg.lemma_entry_facts();
    lemma_match_pat_sound(eg.class_map(), eg.entries(), eg.classes(), pat, c, Seq::empty());
}

} // verus!
