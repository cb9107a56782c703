//! A simple e-graph in the style of egg's `SymbolLang`: hash-consed nodes
//! of a function symbol applied to e-classes, a union-find over the classes,
//! and, after each rebuild, a map from every class to its nodes.
use vstd::prelude::*;

use crate::util::sexp::{deep_seq, lemma_deep_list, Sexp, SexpV};
use crate::util::subst::{lookup, with_spec, Subst};
use crate::util::unionfind::{coarser, lemma_coarser_trans, merge_classes};
use crate::util::{FxIndexMap, Id, Symbol, UnionFind};

pub mod rewrite;

verus! {

/// A node: a function symbol applied to e-classes.
#[derive(Debug, PartialEq, Eq, Hash)]
pub struct Node(pub Symbol, pub Vec<Id>);

/// The value of a node: its symbol and its arguments.
pub type NodeV = (Symbol, Seq<Id>);

impl View for Node {
    type V = (Symbol, Seq<Id>);

    open spec fn view(&self) -> (Symbol, Seq<Id>) {
        (self.0, self.1@)
    }
}

impl Clone for Node {
    fn clone(&self) -> (r: Self)
        ensures
            r@ == self@,
    {
        let mut args: Vec<Id> = Vec::new();
        let mut i: usize = 0;
        while i < self.1.len()
            invariant
                i <= self.1@.len(),
                args@ == self.1@.take(i as int),
            decreases self.1@.len() - i,
        {
            args.push(self.1[i]);
            proof {
                assert(self.1@.take(i + 1int) =~= self.1@.take(i as int).push(self.1@[i as int]));
            }
            i = i + 1;
        }
        proof {
            assert(self.1@.take(self.1@.len() as int) =~= self.1@);
        }
        Node(self.0, args)
    }
}

// ---------------------------------------------------------------------------
// The node table: canonical node keys to e-class ids.
// ---------------------------------------------------------------------------

/// A node as a key: the symbol and the argument ids as integers.
pub type NodeKey = (Symbol, Vec<u32>);

/// The entries of the node table, keys by their view, in insertion order.
pub uninterp spec fn node_table(m: FxIndexMap<(Symbol, Vec<u32>), u32>) -> Seq<((Symbol, Seq<u32>), u32)>;

pub open spec fn key_view(k: (Symbol, Vec<u32>)) -> (Symbol, Seq<u32>) {
    (k.0, k.1@)
}

/// The table has no entry with key `k`.
pub open spec fn table_lacks(t: Seq<((Symbol, Seq<u32>), u32)>, k: (Symbol, Seq<u32>)) -> bool {
    forall|i: int| 0 <= i < t.len() ==> (#[trigger] t[i]).0 != k
}

/// An empty table (`IndexMap::default`).
#[verifier::external_body]
fn nt_new() -> (r: FxIndexMap<(Symbol, Vec<u32>), u32>)
    ensures
        node_table(r) == Seq::<((Symbol, Seq<u32>), u32)>::empty(),
{
    FxIndexMap::default()
}

/// Number of entries (`IndexMap::len`).
#[verifier::external_body]
fn nt_len(m: &FxIndexMap<(Symbol, Vec<u32>), u32>) -> (r: usize)
    ensures
        r == node_table(*m).len(),
{
    m.len()
}

/// The value of key `k` (`IndexMap::get`).
#[verifier::external_body]
fn nt_get(m: &FxIndexMap<(Symbol, Vec<u32>), u32>, k: &(Symbol, Vec<u32>)) -> (r: Option<u32>)
    ensures
        r matches Some(v) ==> exists|i: int|
            0 <= i < node_table(*m).len() && #[trigger] node_table(*m)[i] == (key_view(*k), v),
        r is None ==> table_lacks(node_table(*m), key_view(*k)),
{
    m.get(k).copied()
}

/// The table with key `k` set to `v`: the first entry of `k` updated in
/// place, or a new entry at the end.
pub open spec fn table_set(t: Seq<((Symbol, Seq<u32>), u32)>, k: (Symbol, Seq<u32>), v: u32) -> Seq<((Symbol, Seq<u32>), u32)>
    decreases t.len(),
{
    if t.len() == 0 {
        seq![(k, v)]
    } else if t[0].0 == k {
        t.update(0, (k, v))
    } else {
        seq![t[0]] + table_set(t.drop_first(), k, v)
    }
}

proof fn lemma_table_set_new(t: Seq<((Symbol, Seq<u32>), u32)>, k: (Symbol, Seq<u32>), v: u32)
    requires
        table_lacks(t, k),
    ensures
        table_set(t, k, v) == t.push((k, v)),
    decreases t.len(),
{
    if t.len() > 0 {
        assert(table_lacks(t.drop_first(), k)) by {
            assert forall|i: int| 0 <= i < t.drop_first().len() implies (#[trigger] t.drop_first()[i]).0 != k by {
                assert(t.drop_first()[i] == t[i + 1]);
            }
        }
        lemma_table_set_new(t.drop_first(), k, v);
        assert(seq![t[0]] + t.drop_first().push((k, v)) =~= t.push((k, v)));
    } else {
        assert(seq![(k, v)] =~= t.push((k, v)));
    }
}

/// Sets the value of key `k`: in place if present, else appended (`IndexMap::insert`).
#[verifier::external_body]
fn nt_insert(m: &mut FxIndexMap<(Symbol, Vec<u32>), u32>, k: (Symbol, Vec<u32>), v: u32)
    ensures
        node_table(*final(m)) == table_set(node_table(*old(m)), key_view(k), v),
{
    m.insert(k, v);
}

/// The entry at position `i` (`IndexMap::get_index`), copied out.
#[verifier::external_body]
fn nt_get_index(m: &FxIndexMap<(Symbol, Vec<u32>), u32>, i: usize) -> (r: Option<((Symbol, Vec<u32>), u32)>)
    ensures
        i < node_table(*m).len() ==> r is Some && (key_view((r->0).0), (r->0).1) == node_table(*m)[i as int],
        i >= node_table(*m).len() ==> r is None,
{
    m.get_index(i).map(|(k, v)| (k.clone(), *v))
}

/// Moves the table out, leaving an empty one (`std::mem::take`).
#[verifier::external_body]
fn nt_take(m: &mut FxIndexMap<(Symbol, Vec<u32>), u32>) -> (r: FxIndexMap<(Symbol, Vec<u32>), u32>)
    ensures
        node_table(r) == node_table(*old(m)),
        node_table(*final(m)) == Seq::<((Symbol, Seq<u32>), u32)>::empty(),
{
    std::mem::take(m)
}

// ---------------------------------------------------------------------------
// The class table: e-class ids to their nodes.
// ---------------------------------------------------------------------------

/// The entries of the class table, node lists by their values, in order.
pub uninterp spec fn class_table(m: FxIndexMap<u32, Vec<Node>>) -> Seq<(u32, Seq<(Symbol, Seq<Id>)>)>;

/// The values of the nodes.
pub open spec fn node_views(v: Seq<Node>) -> Seq<NodeV> {
    v.map_values(|n: Node| n@)
}

/// The class table has no entry with key `k`.
pub open spec fn ct_lacks(t: Seq<(u32, Seq<NodeV>)>, k: u32) -> bool {
    forall|i: int| 0 <= i < t.len() ==> (#[trigger] t[i]).0 != k
}

/// An empty class table (`IndexMap::default`).
#[verifier::external_body]
fn ct_new() -> (r: FxIndexMap<u32, Vec<Node>>)
    ensures
        class_table(r) == Seq::<(u32, Seq<NodeV>)>::empty(),
{
    FxIndexMap::default()
}

/// Removes every entry (`IndexMap::clear`).
#[verifier::external_body]
fn ct_clear(m: &mut FxIndexMap<u32, Vec<Node>>)
    ensures
        class_table(*final(m)) == Seq::<(u32, Seq<NodeV>)>::empty(),
{
    m.clear()
}

/// Number of entries (`IndexMap::len`).
#[verifier::external_body]
fn ct_len(m: &FxIndexMap<u32, Vec<Node>>) -> (r: usize)
    ensures
        r == class_table(*m).len(),
{
    m.len()
}

/// The position of key `k` (`IndexMap::get_index_of`).
#[verifier::external_body]
fn ct_get_index_of(m: &FxIndexMap<u32, Vec<Node>>, k: u32) -> (r: Option<usize>)
    ensures
        r matches Some(i) ==> i < class_table(*m).len() && class_table(*m)[i as int].0 == k,
        r is None ==> ct_lacks(class_table(*m), k),
{
    m.get_index_of(&k)
}

/// The nodes of key `k` (`IndexMap::get`).
#[verifier::external_body]
fn ct_get(m: &FxIndexMap<u32, Vec<Node>>, k: u32) -> (r: Option<&Vec<Node>>)
    ensures
        r matches Some(v) ==> exists|i: int|
            0 <= i < class_table(*m).len() && #[trigger] class_table(*m)[i] == (k, node_views(v@)),
        r is None ==> ct_lacks(class_table(*m), k),
{
    m.get(&k)
}

/// Appends a node to the list at position `i` (`IndexMap::get_index_mut`, then `Vec::push`).
#[verifier::external_body]
fn ct_push_at(m: &mut FxIndexMap<u32, Vec<Node>>, i: usize, n: Node)
    requires
        i < class_table(*old(m)).len(),
    ensures
        class_table(*final(m)) == class_table(*old(m)).update(
            i as int,
            (class_table(*old(m))[i as int].0, class_table(*old(m))[i as int].1.push(n@)),
        ),
{
    m.get_index_mut(i).unwrap().1.push(n)
}

/// The class table with key `k` set to `v`: the first entry of `k` updated
/// in place, or a new entry at the end.
pub open spec fn ct_set(t: Seq<(u32, Seq<NodeV>)>, k: u32, v: Seq<NodeV>) -> Seq<(u32, Seq<NodeV>)>
    decreases t.len(),
{
    if t.len() == 0 {
        seq![(k, v)]
    } else if t[0].0 == k {
        t.update(0, (k, v))
    } else {
        seq![t[0]] + ct_set(t.drop_first(), k, v)
    }
}

proof fn lemma_ct_set_new(t: Seq<(u32, Seq<NodeV>)>, k: u32, v: Seq<NodeV>)
    requires
        ct_lacks(t, k),
    ensures
        ct_set(t, k, v) == t.push((k, v)),
    decreases t.len(),
{
    if t.len() > 0 {
        assert(ct_lacks(t.drop_first(), k)) by {
            assert forall|i: int| 0 <= i < t.drop_first().len() implies (#[trigger] t.drop_first()[i]).0 != k by {
                assert(t.drop_first()[i] == t[i + 1]);
            }
        }
        lemma_ct_set_new(t.drop_first(), k, v);
        assert(seq![t[0]] + t.drop_first().push((k, v)) =~= t.push((k, v)));
    } else {
        assert(seq![(k, v)] =~= t.push((k, v)));
    }
}

/// Sets the nodes of key `k`: in place if present, else appended (`IndexMap::insert`).
#[verifier::external_body]
fn ct_insert(m: &mut FxIndexMap<u32, Vec<Node>>, k: u32, v: Vec<Node>)
    ensures
        class_table(*final(m)) == ct_set(class_table(*old(m)), k, node_views(v@)),
{
    m.insert(k, v);
}

/// The entry at position `i` (`IndexMap::get_index`).
#[verifier::external_body]
fn ct_get_index(m: &FxIndexMap<u32, Vec<Node>>, i: usize) -> (r: Option<(u32, &Vec<Node>)>)
    ensures
        i < class_table(*m).len() ==> r is Some && ((r->0).0, node_views((r->0).1@)) == class_table(*m)[i as int],
        i >= class_table(*m).len() ==> r is None,
{
    m.get_index(i).map(|(k, v)| (*k, v))
}

/// `p` reorders `n` positions: each position once.
pub open spec fn is_perm(p: Seq<int>, n: nat) -> bool {
    &&& p.len() == n
    &&& forall|i: int| 0 <= i < n ==> 0 <= #[trigger] p[i] < n
    &&& forall|i: int, j: int| 0 <= i < j < n ==> #[trigger] p[i] != #[trigger] p[j]
    &&& forall|q: int| 0 <= q < n ==> #[trigger] reaches(p, q)
}

/// Some position of `p` holds `q`.
pub open spec fn reaches(p: Seq<int>, q: int) -> bool {
    exists|i: int| 0 <= i < p.len() && p[i] == q
}

/// Sorts the entries by key, stably (`IndexMap::sort_keys`): the same
/// entries, reordered, with keys ascending.
#[verifier::external_body]
fn ct_sort_keys(m: &mut FxIndexMap<u32, Vec<Node>>)
    ensures
        class_table(*final(m)).len() == class_table(*old(m)).len(),
        forall|i: int, j: int|
            0 <= i < j < class_table(*final(m)).len() ==> #[trigger] class_table(*final(m))[i].0
                <= #[trigger] class_table(*final(m))[j].0,
        exists|p: Seq<int>|
            #[trigger] is_perm(p, class_table(*old(m)).len()) && forall|i: int|
                0 <= i < class_table(*final(m)).len() ==> #[trigger] class_table(*final(m))[i] == class_table(*old(m))[p[i]],
{
    m.sort_keys()
}

// ---------------------------------------------------------------------------
// Nodes as keys
// ---------------------------------------------------------------------------

pub(crate) open spec fn node_key(n: NodeV) -> (Symbol, Seq<u32>) {
    (n.0, n.1.map_values(|a: Id| a.0))
}

pub(crate) open spec fn key_node(k: (Symbol, Seq<u32>)) -> NodeV {
    (k.0, k.1.map_values(|x: u32| Id(x)))
}

proof fn lemma_key_roundtrip(n: NodeV)
    ensures
        key_node(node_key(n)) == n,
{
    assert(key_node(node_key(n)).1 =~= n.1);
}

proof fn lemma_node_roundtrip(k: (Symbol, Seq<u32>))
    ensures
        node_key(key_node(k)) == k,
{
    assert(node_key(key_node(k)).1 =~= k.1);
}

fn key_of_node(n: &Node) -> (r: NodeKey)
    ensures
        key_view(r) == node_key(n@),
{
    let mut args: Vec<u32> = Vec::new();
    let mut i: usize = 0;
    while i < n.1.len()
        invariant
            i <= n.1@.len(),
            args@ == n.1@.take(i as int).map_values(|a: Id| a.0),
        decreases n.1@.len() - i,
    {
        args.push(n.1[i].0);
        proof {
            assert(n.1@.take(i + 1int).map_values(|a: Id| a.0) =~= n.1@.take(i as int).map_values(|a: Id| a.0).push(
                n.1@[i as int].0,
            ));
        }
        i = i + 1;
    }
    proof {
        assert(n.1@.take(n.1@.len() as int) =~= n.1@);
    }
    (n.0, args)
}

fn node_of_key(k: &NodeKey) -> (r: Node)
    ensures
        r@ == key_node(key_view(*k)),
{
    let mut args: Vec<Id> = Vec::new();
    let mut i: usize = 0;
    while i < k.1.len()
        invariant
            i <= k.1@.len(),
            args@ == k.1@.take(i as int).map_values(|x: u32| Id(x)),
        decreases k.1@.len() - i,
    {
        args.push(Id(k.1[i]));
        proof {
            assert(k.1@.take(i + 1int).map_values(|x: u32| Id(x)) =~= k.1@.take(i as int).map_values(|x: u32| Id(x)).push(
                Id(k.1@[i as int]),
            ));
        }
        i = i + 1;
    }
    proof {
        assert(k.1@.take(k.1@.len() as int) =~= k.1@);
    }
    Node(k.0, args)
}

/// The first entry of `es` with node `c`, if any.
pub open spec fn find_entry(es: Seq<(NodeV, Id)>, c: NodeV) -> Option<Id>
    decreases es.len(),
{
    if es.len() == 0 {
        None
    } else if es[0].0 == c {
        Some(es[0].1)
    } else {
        find_entry(es.drop_first(), c)
    }
}

proof fn lemma_find_entry(es: Seq<(NodeV, Id)>, c: NodeV)
    ensures
        find_entry(es, c) matches Some(v) ==> exists|i: int| 0 <= i < es.len() && es[i] == (c, v),
        find_entry(es, c) is None ==> forall|i: int| 0 <= i < es.len() ==> es[i].0 != c,
        forall|i: int|
            0 <= i < es.len() && es[i].0 == c && (forall|j: int| 0 <= j < i ==> es[j].0 != c) ==> find_entry(es, c)
                == Some(es[i].1),
    decreases es.len(),
{
    if es.len() > 0 && es[0].0 != c {
        let t = es.drop_first();
        lemma_find_entry(t, c);
        if let Some(v) = find_entry(es, c) {
            let k = choose|k: int| 0 <= k < t.len() && t[k] == (c, v);
            assert(es[k + 1] == (c, v));
        }
        if find_entry(es, c) is None {
            assert forall|i: int| 0 <= i < es.len() implies es[i].0 != c by {
                if i > 0 {
                    assert(es[i] == t[i - 1]);
                }
            }
        }
        assert forall|i: int|
            0 <= i < es.len() && es[i].0 == c && (forall|j: int| 0 <= j < i ==> es[j].0 != c) implies find_entry(es, c)
                == Some(es[i].1) by {
            assert(i > 0);
            assert(es[i] == t[i - 1]);
            assert forall|j: int| 0 <= j < i - 1 implies t[j].0 != c by {
                assert(t[j] == es[j + 1]);
            }
        }
    }
}

/// A node with its arguments replaced by their class representatives.
pub open spec fn canon(cls: Seq<nat>, n: NodeV) -> NodeV {
    (n.0, n.1.map_values(|a: Id| Id(cls[a@ as int] as u32)))
}

/// Every argument is below `n`.
pub open spec fn args_below(args: Seq<Id>, n: nat) -> bool {
    forall|k: int| 0 <= k < args.len() ==> (#[trigger] args[k])@ < n
}

/// Every argument of every node is below `n`.
pub open spec fn nodes_below(ns: Seq<NodeV>, n: nat) -> bool {
    forall|j: int| 0 <= j < ns.len() ==> args_below((#[trigger] ns[j]).1, n)
}

/// Some entry of `t` has a value in class `c`.
pub open spec fn class_has_entry(t: Seq<((Symbol, Seq<u32>), u32)>, cls: Seq<nat>, c: nat) -> bool {
    exists|i: int| 0 <= i < t.len() && cls[(#[trigger] t[i]).1 as int] == c
}

// ---------------------------------------------------------------------------
// The e-graph
// ---------------------------------------------------------------------------

pub struct EGraph {
    nodes: FxIndexMap<(Symbol, Vec<u32>), u32>,
    rev: FxIndexMap<u32, Vec<Node>>,
    uf: UnionFind,
}

impl EGraph {
    /// The node table: each node with the class id stored for it, in order.
    pub closed spec fn entries(&self) -> Seq<(NodeV, Id)> {
        node_table(self.nodes).map_values(|e: ((Symbol, Seq<u32>), u32)| (key_node(e.0), Id(e.1)))
    }

    /// The representative of every class id.
    pub closed spec fn classes(&self) -> Seq<nat> {
        self.uf@
    }

    /// The class counter of the union-find.
    pub closed spec fn class_count(&self) -> nat {
        self.uf.spec_n_classes()
    }

    /// The class map: class ids with their nodes, in order.
    pub closed spec fn class_map(&self) -> Seq<(u32, Seq<NodeV>)> {
        class_table(self.rev)
    }

    /// Node keys are distinct, every id stored or used is a class id, every
    /// class has a node, and the class counter counts the classes.
    pub closed spec fn wf(&self) -> bool {
        let t = node_table(self.nodes);
        let n = self.uf@.len();
        let cls = self.uf@;
        &&& self.uf.wf()
        &&& self.uf.counts_classes()
        &&& forall|i: int, j: int| 0 <= i < j < t.len() ==> (#[trigger] t[i]).0 != (#[trigger] t[j]).0
        &&& forall|i: int| 0 <= i < t.len() ==> (#[trigger] t[i]).1 < n
        &&& forall|i: int| 0 <= i < t.len() ==> args_below(key_node((#[trigger] t[i]).0).1, n)
        &&& forall|e: int| 0 <= e < n ==> #[trigger] class_has_entry(t, cls, cls[e])
        &&& forall|i: int| 0 <= i < class_table(self.rev).len() ==> nodes_below((#[trigger] class_table(self.rev)[i]).1, n)
        &&& forall|i: int| 0 <= i < class_table(self.rev).len() ==> (#[trigger] class_table(self.rev)[i]).0 < n
        &&& forall|i: int, j: int|
            0 <= i < j < class_table(self.rev).len() ==> (#[trigger] class_table(self.rev)[i]).0 != (#[trigger] class_table(
                self.rev,
            )[j]).0
    }

    proof fn lemma_entries(&self)
        requires
            self.wf(),
        ensures
            self.entries().len() == node_table(self.nodes).len(),
            forall|i: int, j: int|
                0 <= i < j < self.entries().len() ==> (#[trigger] self.entries()[i]).0 != (#[trigger] self.entries()[j]).0,
            forall|i: int| 0 <= i < self.entries().len() ==> (#[trigger] self.entries()[i]).1@ < self.classes().len(),
            forall|i: int|
                0 <= i < self.entries().len() ==> args_below((#[trigger] self.entries()[i]).0.1, self.classes().len()),
    {
        let t = node_table(self.nodes);
        assert forall|i: int, j: int|
            0 <= i < j < self.entries().len() implies (#[trigger] self.entries()[i]).0 != (#[trigger] self.entries()[j]).0 by {
            lemma_node_roundtrip(t[i].0);
            lemma_node_roundtrip(t[j].0);
            assert(t[i].0 != t[j].0);
        }
        assert forall|i: int| 0 <= i < self.entries().len() implies (#[trigger] self.entries()[i]).1@ < self.classes().len() by {
            assert(t[i].1 < self.classes().len());
        }
        assert forall|i: int|
            0 <= i < self.entries().len() implies args_below((#[trigger] self.entries()[i]).0.1, self.classes().len()) by {
            assert(args_below(key_node(t[i].0).1, self.classes().len()));
        }
    }

    /// `node` with each argument replaced by its class representative.
    pub fn canonicalize_node(&mut self, node: &Node) -> (r: Node)
        requires
            old(self).wf(),
            args_below(node@.1, old(self).classes().len()),
        ensures
            final(self).wf(),
            r@ == canon(old(self).classes(), node@),
            args_below(r@.1, old(self).classes().len()),
            forall|k: int| 0 <= k < r@.1.len() ==> old(self).classes()[(#[trigger] r@.1[k])@ as int] == r@.1[k]@,
            final(self).classes() == old(self).classes(),
            final(self).entries() == old(self).entries(),
            final(self).class_map() == old(self).class_map(),
            final(self).class_count() == old(self).class_count(),
    {
        let r = canonicalize_in(&mut self.uf, node);
        proof {
            assert(self.uf.counts_classes());
        }
        r
    }
}

/// `node` with each argument replaced by its representative in `uf`,
/// compressing the paths followed.
fn canonicalize_in(uf: &mut UnionFind, node: &Node) -> (r: Node)
    requires
        old(uf).wf(),
        args_below(node@.1, old(uf)@.len()),
    ensures
        final(uf).wf(),
        final(uf)@ == old(uf)@,
        final(uf).spec_n_classes() == old(uf).spec_n_classes(),
        r@ == canon(old(uf)@, node@),
        args_below(r@.1, old(uf)@.len()),
        forall|k: int| 0 <= k < r@.1.len() ==> old(uf)@[(#[trigger] r@.1[k])@ as int] == r@.1[k]@,
{
    let ghost cls = uf@;
    let mut args: Vec<Id> = Vec::new();
    let mut i: usize = 0;
    while i < node.1.len()
        invariant
            uf.wf(),
            uf@ == cls,
            uf.spec_n_classes() == old(uf).spec_n_classes(),
            args_below(node@.1, cls.len()),
            i <= node.1@.len(),
            args@ == node.1@.take(i as int).map_values(|a: Id| Id(cls[a@ as int] as u32)),
        decreases node.1@.len() - i,
    {
        let a = node.1[i];
        proof {
            assert(node.1@[i as int]@ < cls.len());
            uf.lemma_wf_classes();
        }
        let root = uf.find_mut(a);
        args.push(root);
        proof {
            assert(node.1@.take(i + 1int).map_values(|a: Id| Id(cls[a@ as int] as u32)) =~= node.1@.take(
                i as int,
            ).map_values(|a: Id| Id(cls[a@ as int] as u32)).push(Id(cls[a@ as int] as u32)));
        }
        i = i + 1;
    }
    proof {
        assert(node.1@.take(node.1@.len() as int) =~= node.1@);
        uf.lemma_wf_classes();
        assert forall|k: int| 0 <= k < args@.len() implies (#[trigger] args@[k])@ < cls.len() && cls[args@[k]@ as int]
            == args@[k]@ by {
            assert(node.1@[k]@ < cls.len());
        }
    }
    Node(node.0, args)
}

/// What adding `node` does to the table `es0` and classes `cls0`, giving
/// `es1`, `cls1` and `r`: a node whose canonical form the table holds
/// leaves both alone and gives the representative of its entry's class;
/// any other is appended in a new class of its own.
pub open spec fn node_added(es0: Seq<(NodeV, Id)>, cls0: Seq<nat>, es1: Seq<(NodeV, Id)>, cls1: Seq<nat>, node: NodeV, r: Id) -> bool {
    let c = canon(cls0, node);
    let n = cls0.len();
    match find_entry(es0, c) {
        Some(v) => {
            &&& es1 == es0
            &&& cls1 == cls0
            &&& r@ == cls0[v@ as int]
        },
        None => {
            &&& es1 == es0.push((c, Id(n as u32)))
            &&& cls1 == cls0.push(n)
            &&& r@ == n
        },
    }
}

/// Hash-consing: adding the same node twice changes nothing the second
/// time and gives the same class.
pub proof fn lemma_add_node_twice(
    es0: Seq<(NodeV, Id)>,
    cls0: Seq<nat>,
    es1: Seq<(NodeV, Id)>,
    cls1: Seq<nat>,
    es2: Seq<(NodeV, Id)>,
    cls2: Seq<nat>,
    node: NodeV,
    r1: Id,
    r2: Id,
)
    requires
        args_below(node.1, cls0.len()),
        cls0.len() < u32::MAX,
        forall|i: int| 0 <= i < cls0.len() ==> #[trigger] cls0[i] < cls0.len() && cls0[cls0[i] as int] == cls0[i],
        forall|j: int| 0 <= j < es0.len() ==> (#[trigger] es0[j]).1@ < cls0.len(),
        node_added(es0, cls0, es1, cls1, node, r1),
        node_added(es1, cls1, es2, cls2, node, r2),
    ensures
        es2 == es1,
        cls2 == cls1,
        r2 == r1,
{
    let c = canon(cls0, node);
    lemma_find_entry(es0, c);
    match find_entry(es0, c) {
        Some(v) => {
            let i = choose|i: int| 0 <= i < es0.len() && es0[i] == (c, v);
            assert(v@ < cls0.len());
        },
        None => {
            let n = cls0.len();
            assert(canon(cls1, node) == c) by {
                assert(canon(cls1, node).1 =~= c.1) by {
                    assert forall|k: int| 0 <= k < node.1.len() implies canon(cls1, node).1[k] == c.1[k] by {
                        assert(node.1[k]@ < n);
                        assert(cls1[node.1[k]@ as int] == cls0[node.1[k]@ as int]);
                    }
                }
            }
            lemma_find_entry(es1, c);
            assert(es1[es0.len() as int] == (c, Id(n as u32)));
            assert forall|j: int| 0 <= j < es0.len() implies es1[j].0 != c by {
                assert(es1[j] == es0[j]);
            }
            assert(find_entry(es1, c) == Some(Id(n as u32)));
            assert(cls1[n as int] == n);
        },
    }
}

/// Congruence after `rebuild`: when the table holds each node of `es0`
/// canonicalized, in the class of its entry, two of those nodes that
/// canonicalize to the same node are in one class.
pub proof fn lemma_rebuild_congruent(eg: &EGraph, es0: Seq<(NodeV, Id)>, i: int, j: int)
    requires
        eg.wf(),
        forall|k: int|
            0 <= k < es0.len() ==> eg.entries().contains(
                (canon(eg.classes(), (#[trigger] es0[k]).0), Id(eg.classes()[es0[k].1@ as int] as u32)),
            ),
        forall|k: int| 0 <= k < es0.len() ==> (#[trigger] es0[k]).1@ < eg.classes().len(),
        0 <= i < es0.len(),
        0 <= j < es0.len(),
        canon(eg.classes(), es0[i].0) == canon(eg.classes(), es0[j].0),
    ensures
        eg.classes()[es0[i].1@ as int] == eg.classes()[es0[j].1@ as int],
{
    eg.lemma_classes_facts();
    eg.lemma_entry_facts();
    let es = eg.entries();
    let cls = eg.classes();
    let ei = (canon(cls, es0[i].0), Id(cls[es0[i].1@ as int] as u32));
    let ej = (canon(cls, es0[j].0), Id(cls[es0[j].1@ as int] as u32));
    assert(es.contains(ei));
    assert(es.contains(ej));
    let x = choose|x: int| 0 <= x < es.len() && es[x] == ei;
    let y = choose|y: int| 0 <= y < es.len() && es[y] == ej;
    if x != y {
        if x < y {
            assert(es[x].0 != es[y].0);
        } else {
            assert(es[y].0 != es[x].0);
        }
    }
    assert(cls[es0[i].1@ as int] < u32::MAX);
    assert(cls[es0[j].1@ as int] < u32::MAX);
}

/// When the table holds each entry of `es0` canonicalized, the classes are
/// a congruence over `es0`.
proof fn lemma_rebuilt_congruent(eg: &EGraph, es0: Seq<(NodeV, Id)>)
    requires
        eg.wf(),
        forall|k: int|
            0 <= k < es0.len() ==> eg.entries().contains(
                (canon(eg.classes(), (#[trigger] es0[k]).0), Id(eg.classes()[es0[k].1@ as int] as u32)),
            ),
        forall|k: int| 0 <= k < es0.len() ==> args_below((#[trigger] es0[k]).0.1, eg.classes().len()) && es0[k].1@ < eg.classes().len(),
    ensures
        congruent_under(eg.classes(), es0),
{
    let cls = eg.classes();
    assert forall|i: int, j: int|
        0 <= i < es0.len() && 0 <= j < es0.len() && #[trigger] same_mod(cls, es0[i].0, es0[j].0) implies cls[es0[i].1@ as int]
        == cls[es0[j].1@ as int] by {
        assert(canon(cls, es0[i].0) =~= canon(cls, es0[j].0)) by {
            assert(canon(cls, es0[i].0).1 =~= canon(cls, es0[j].0).1) by {
                assert forall|k: int| 0 <= k < es0[i].0.1.len() implies canon(cls, es0[i].0).1[k] == canon(cls, es0[j].0).1[k] by {
                    assert(cls[es0[i].0.1[k]@ as int] == cls[es0[j].0.1[k]@ as int]);
                }
            }
        }
        lemma_rebuild_congruent(eg, es0, i, j);
    }
}

impl EGraph {
    /// The union-find over the class ids.
    pub fn uf(&self) -> (r: &UnionFind)
        ensures
            r@ == self.classes(),
            r.spec_n_classes() == self.class_count(),
            r.wf() <== self.wf(),
            r.counts_classes() <== self.wf(),
    {
        &self.uf
    }

    /// Adds `node` with its arguments canonicalized, unless the table holds
    /// it already; returns the representative of its class.
    pub fn add_node(&mut self, node: Node) -> (r: Id)
        requires
            old(self).wf(),
            args_below(node@.1, old(self).classes().len()),
            old(self).classes().len() < u32::MAX,
        ensures
            final(self).wf(),
            final(self).class_map() == old(self).class_map(),
            node_added(old(self).entries(), old(self).classes(), final(self).entries(), final(self).classes(), node@, r),
            final(self).class_count() + old(self).classes().len() == old(self).class_count() + final(self).classes().len(),
            (forall|j: int|
                0 <= j < old(self).entries().len() ==> canonical_entry(old(self).classes(), #[trigger] old(self).entries()[j]))
                ==> (forall|j: int|
                0 <= j < final(self).entries().len() ==> canonical_entry(final(self).classes(), #[trigger] final(self).entries()[j])),
    {
        proof {
            self.lemma_entries();
        }
        let node = self.canonicalize_node(&node);
        let ghost mid = *self;
        let ghost c = node@;
        let key = key_of_node(&node);
        proof {
            lemma_find_entry(self.entries(), c);
            lemma_key_roundtrip(c);
        }
        let id = match nt_get(&self.nodes, &key) {
            Some(v) => {
                proof {
                    let t = node_table(self.nodes);
                    let i = choose|i: int| 0 <= i < t.len() && #[trigger] t[i] == (key_view(key), v);
                    assert(self.entries()[i] == (c, Id(v)));
                    assert forall|j: int| 0 <= j < i implies self.entries()[j].0 != c by {
                        assert((self.entries()[j]).0 != (self.entries()[i]).0);
                    }
                    assert(find_entry(self.entries(), c) == Some(Id(v)));
                    assert(v < self.classes().len());
                }
                Id(v)
            },
            None => {
                proof {
                    let t = node_table(self.nodes);
                    assert forall|j: int| 0 <= j < self.entries().len() implies self.entries()[j].0 != c by {
                        lemma_node_roundtrip(t[j].0);
                        assert(t[j].0 != key_view(key));
                    }
                    assert(find_entry(self.entries(), c) is None) by {
                        if let Some(v) = find_entry(self.entries(), c) {
                            let i = choose|i: int| 0 <= i < self.entries().len() && self.entries()[i] == (c, v);
                        }
                    }
                }
                let ghost t0 = node_table(self.nodes);
                let id = self.uf.mkset();
                nt_insert(&mut self.nodes, key, id.0);
                proof {
                    lemma_table_set_new(t0, key_view(key), id.0);
                    let t = node_table(self.nodes);
                    assert(t == t0.push((key_view(key), id.0)));
                    let n = mid.classes().len();
                    assert(self.entries() =~= mid.entries().push((c, Id(n as u32))));
                    let cls = self.uf@;
                    assert forall|i: int, j: int| 0 <= i < j < t.len() implies (#[trigger] t[i]).0 != (#[trigger] t[j]).0 by {
                        if j == t0.len() {
                            assert(t0[i].0 != key_view(key));
                        } else {
                            assert(t[i] == t0[i] && t[j] == t0[j]);
                        }
                    }
                    assert forall|i: int| 0 <= i < t.len() implies args_below(key_node((#[trigger] t[i]).0).1, cls.len()) by {
                        if i < t0.len() {
                            assert(t[i] == t0[i]);
                            assert(args_below(key_node(t0[i].0).1, n));
                        } else {
                            assert(key_node(t[i].0) == c);
                            assert(args_below(c.1, n));
                        }
                    }
                    assert forall|e: int| 0 <= e < cls.len() implies #[trigger] class_has_entry(t, cls, cls[e]) by {
                        if e < n {
                            assert(class_has_entry(t0, mid.uf@, mid.uf@[e]));
                            let i = choose|i: int| 0 <= i < t0.len() && mid.uf@[(#[trigger] t0[i]).1 as int] == mid.uf@[e];
                            assert(t[i] == t0[i]);
                            assert(cls[t[i].1 as int] == cls[e]);
                        } else {
                            assert(cls[t[t0.len() as int].1 as int] == cls[e]);
                        }
                    }
                    assert forall|i: int| 0 <= i < t.len() implies (#[trigger] t[i]).1 < cls.len() by {
                        if i < t0.len() {
                            assert(t[i] == t0[i]);
                        }
                    }
                    assert forall|i: int| 0 <= i < class_table(self.rev).len() implies (#[trigger] class_table(self.rev)[i]).0 < cls.len() by {
                        assert(class_table(mid.rev)[i].0 < n);
                    }
                    assert forall|i: int|
                        0 <= i < class_table(self.rev).len() implies nodes_below((#[trigger] class_table(self.rev)[i]).1, cls.len()) by {
                        assert(nodes_below(class_table(mid.rev)[i].1, n));
                        let ns = class_table(self.rev)[i].1;
                        assert forall|j: int| 0 <= j < ns.len() implies args_below((#[trigger] ns[j]).1, cls.len()) by {
                            assert(args_below(ns[j].1, n));
                        }
                    }
                }
                id
            },
        };
        let r = self.uf.find_mut(id);
        proof {
            let es0 = old(self).entries();
            let cls0 = old(self).classes();
            let es1 = self.entries();
            let cls1 = self.classes();
            if forall|j: int| 0 <= j < es0.len() ==> canonical_entry(cls0, #[trigger] es0[j]) {
                old(self).lemma_classes_facts();
                assert forall|j: int| 0 <= j < es1.len() implies canonical_entry(cls1, #[trigger] es1[j]) by {
                    if j < es0.len() {
                        assert(es1[j] == es0[j]);
                        assert(canonical_entry(cls0, es0[j]));
                        assert forall|k: int| 0 <= k < es1[j].0.1.len() implies cls1[(#[trigger] es1[j].0.1[k])@ as int]
                            == es1[j].0.1[k]@ by {
                            assert(es1[j].0.1[k]@ == cls0[es1[j].0.1[k]@ as int]);
                        }
                    } else {
                        assert(es1[j] == (c, Id(cls0.len() as u32)));
                        assert forall|k: int| 0 <= k < c.1.len() implies cls1[(#[trigger] c.1[k])@ as int] == c.1[k]@ by {
                            assert(cls0[c.1[k]@ as int] == c.1[k]@);
                        }
                    }
                }
            }
        }
        r
    }

    /// Merges the classes of `a` and `b`; returns whether they were distinct.
    pub fn union(&mut self, a: Id, b: Id) -> (r: bool)
        requires
            old(self).wf(),
            a@ < old(self).classes().len(),
            b@ < old(self).classes().len(),
        ensures
            final(self).wf(),
            r == (old(self).classes()[a@ as int] != old(self).classes()[b@ as int]),
            final(self).classes() == merge_classes(
                old(self).classes(),
                old(self).classes()[a@ as int],
                old(self).classes()[b@ as int],
            ),
            final(self).entries() == old(self).entries(),
            final(self).class_map() == old(self).class_map(),
            final(self).class_count() == if r {
                old(self).class_count() - 1
            } else {
                old(self).class_count() as int
            },
    {
        let ghost pre = *self;
        let r = self.uf.union(a, b);
        proof {
            let t = node_table(self.nodes);
            let cls = self.uf@;
            let ra = pre.uf@[a@ as int];
            let rb = pre.uf@[b@ as int];
            assert forall|e: int| 0 <= e < cls.len() implies #[trigger] class_has_entry(t, cls, cls[e]) by {
                assert(class_has_entry(t, pre.uf@, pre.uf@[e]));
                let i = choose|i: int| 0 <= i < t.len() && pre.uf@[(#[trigger] t[i]).1 as int] == pre.uf@[e];
                assert(cls[t[i].1 as int] == cls[e]);
            }
        }
        r
    }
}

/// The nodes listed for class `c`: the first entry of `c`, if any.
pub open spec fn class_nodes(cm: Seq<(u32, Seq<NodeV>)>, c: u32) -> Seq<NodeV>
    decreases cm.len(),
{
    if cm.len() == 0 {
        Seq::empty()
    } else if cm[0].0 == c {
        cm[0].1
    } else {
        class_nodes(cm.drop_first(), c)
    }
}

proof fn lemma_class_nodes(cm: Seq<(u32, Seq<NodeV>)>, c: u32)
    ensures
        forall|i: int|
            0 <= i < cm.len() && cm[i].0 == c && (forall|j: int| 0 <= j < i ==> cm[j].0 != c) ==> class_nodes(cm, c)
                == cm[i].1,
        (forall|i: int| 0 <= i < cm.len() ==> cm[i].0 != c) ==> class_nodes(cm, c) == Seq::<NodeV>::empty(),
    decreases cm.len(),
{
    if cm.len() > 0 && cm[0].0 != c {
        let t = cm.drop_first();
        lemma_class_nodes(t, c);
        assert forall|i: int|
            0 <= i < cm.len() && cm[i].0 == c && (forall|j: int| 0 <= j < i ==> cm[j].0 != c) implies class_nodes(cm, c)
                == cm[i].1 by {
            assert(cm[i] == t[i - 1]);
            assert forall|j: int| 0 <= j < i - 1 implies t[j].0 != c by {
                assert(t[j] == cm[j + 1]);
            }
        }
        if forall|i: int| 0 <= i < cm.len() ==> cm[i].0 != c {
            assert forall|i: int| 0 <= i < t.len() implies t[i].0 != c by {
                assert(t[i] == cm[i + 1]);
            }
        }
    }
}

// ---------------------------------------------------------------------------
// Terms
// ---------------------------------------------------------------------------

/// Every list in `v` starts with an atom.
pub open spec fn heads_are_atoms(v: SexpV) -> bool
    decreases v,
{
    match v {
        SexpV::Atom(_) => true,
        SexpV::List(items) => items.len() > 0 && items[0] is Atom && all_heads_are_atoms(items),
    }
}

/// Every list in each of `s` starts with an atom.
pub open spec fn all_heads_are_atoms(s: Seq<SexpV>) -> bool
    decreases s,
{
    if s.len() == 0 {
        true
    } else {
        all_heads_are_atoms(s.drop_last()) && heads_are_atoms(s.last())
    }
}

/// Whether every list in `sexp` starts with an atom, as `add_sexp` needs.
pub fn has_atom_heads(sexp: &Sexp) -> (r: bool)
    ensures
        r == heads_are_atoms(sexp.deep()),
    decreases sexp,
{
    proof {
        lemma_deep_list(sexp);
    }
    match sexp {
        Sexp::Atom(_) => true,
        Sexp::List(items) => {
            let ghost dv = deep_seq(items@);
            if items.len() == 0 {
                return false;
            }
            if let Sexp::List(_) = &items[0] {
                return false;
            }
            let mut i: usize = 0;
            proof {
                assert(dv.take(0) =~= Seq::<SexpV>::empty());
            }
            while i < items.len()
                invariant
                    *sexp == Sexp::List(*items),
                    dv == deep_seq(items@),
                    sexp.deep() == SexpV::List(dv),
                    i <= items@.len(),
                    all_heads_are_atoms(dv.take(i as int)),
                decreases items@.len() - i,
            {
                proof {
                    assert(decreases_to!(*sexp => *items));
                    assert(decreases_to!(*items => items@));
                    assert(decreases_to!(items@ => items@[i as int]));
                }
                let ok = has_atom_heads(&items[i]);
                proof {
                    assert(dv.take(i + 1int).drop_last() =~= dv.take(i as int));
                    assert(dv.take(i + 1int).last() == items@[i as int].deep());
                }
                if !ok {
                    proof {
                        assert(dv[i as int] == items@[i as int].deep());
                        assert(sexp.deep() == SexpV::List(dv));
                        assert(!all_heads_are_atoms(dv)) by {
                            if all_heads_are_atoms(dv) {
                                lemma_heads_item(dv, i as int);
                            }
                        }
                    }
                    return false;
                }
                i = i + 1;
            }
            proof {
                assert(dv.take(items@.len() as int) =~= dv);
            }
            true
        },
    }
}

proof fn lemma_heads_item(s: Seq<SexpV>, i: int)
    requires
        all_heads_are_atoms(s),
        0 <= i < s.len(),
    ensures
        heads_are_atoms(s[i]),
    decreases s.len(),
{
    if i < s.len() - 1 {
        lemma_heads_item(s.drop_last(), i);
    }
}

/// An upper bound on the nodes that adding `v` creates.
pub open spec fn term_size(v: SexpV) -> nat
    decreases v,
{
    match v {
        SexpV::Atom(_) => 1,
        SexpV::List(items) => 1 + terms_size(items),
    }
}

/// The sizes of `s` summed.
pub open spec fn terms_size(s: Seq<SexpV>) -> nat
    decreases s,
{
    if s.len() == 0 {
        0
    } else {
        terms_size(s.drop_last()) + term_size(s.last())
    }
}

proof fn lemma_terms_size_prefix(s: Seq<SexpV>, k: int)
    requires
        0 <= k <= s.len(),
    ensures
        terms_size(s.take(k)) <= terms_size(s),
        k < s.len() ==> terms_size(s.take(k + 1)) == terms_size(s.take(k)) + term_size(s[k]),
    decreases s.len(),
{
    if k < s.len() {
        assert(s.take(k + 1).drop_last() =~= s.take(k));
    }
    if k == s.len() {
        assert(s.take(k) =~= s);
    } else {
        lemma_terms_size_prefix(s.drop_last(), k);
        assert(s.drop_last().take(k) =~= s.take(k));
    }
}

/// The class of the node `c`, if the table has it.
pub open spec fn node_class(es: Seq<(NodeV, Id)>, cls: Seq<nat>, c: NodeV) -> Option<nat> {
    match find_entry(es, c) {
        Some(x) => if x@ < cls.len() {
            Some(cls[x@ as int])
        } else {
            None
        },
        None => None,
    }
}

/// Adding the node `n` to the table `es` under the classes `cls`: the table
/// and classes afterwards, and the class of the node. A node whose
/// canonical form is in the table changes nothing; any other is appended
/// in a class of its own.
pub open spec fn add_node_spec(es: Seq<(NodeV, Id)>, cls: Seq<nat>, n: NodeV) -> (Seq<(NodeV, Id)>, Seq<nat>, nat) {
    let c = canon(cls, n);
    match find_entry(es, c) {
        Some(v) => (es, cls, cls[v@ as int]),
        None => (es.push((c, Id(cls.len() as u32))), cls.push(cls.len()), cls.len()),
    }
}

/// Adding the term `v`: its arguments first, left to right, then its own
/// node, each as `add_node_spec` does.
pub open spec fn add_term(es: Seq<(NodeV, Id)>, cls: Seq<nat>, v: SexpV) -> (Seq<(NodeV, Id)>, Seq<nat>, nat)
    decreases v,
{
    match v {
        SexpV::Atom(s) => add_node_spec(es, cls, (s, Seq::empty())),
        SexpV::List(items) => if items.len() > 0 && items[0] is Atom {
            let t = add_terms(es, cls, items.drop_first());
            add_node_spec(t.0, t.1, (items[0]->Atom_0, t.2))
        } else {
            (es, cls, 0)
        },
    }
}

/// Adding the terms `ps` in order: the table and classes afterwards, and
/// the class of each term.
pub open spec fn add_terms(es: Seq<(NodeV, Id)>, cls: Seq<nat>, ps: Seq<SexpV>) -> (Seq<(NodeV, Id)>, Seq<nat>, Seq<Id>)
    decreases ps,
{
    if ps.len() == 0 {
        (es, cls, Seq::empty())
    } else {
        let t = add_terms(es, cls, ps.drop_last());
        let u = add_term(t.0, t.1, ps.last());
        (u.0, u.1, t.2.push(Id(u.2 as u32)))
    }
}

/// The class of the term `v`, if the e-graph holds it: an atom is the node
/// of that symbol without arguments, a list the node of its head symbol
/// applied to the classes of the rest.
pub open spec fn term_class(es: Seq<(NodeV, Id)>, cls: Seq<nat>, v: SexpV) -> Option<nat>
    decreases v,
{
    match v {
        SexpV::Atom(s) => node_class(es, cls, (s, Seq::empty())),
        SexpV::List(items) => if items.len() > 0 && items[0] is Atom {
            match terms_classes(es, cls, items.drop_first()) {
                Some(args) => node_class(es, cls, (items[0]->Atom_0, args)),
                None => None,
            }
        } else {
            None
        },
    }
}

/// The classes of the terms `pats`, as ids, if the e-graph holds them all.
pub open spec fn terms_classes(es: Seq<(NodeV, Id)>, cls: Seq<nat>, pats: Seq<SexpV>) -> Option<Seq<Id>>
    decreases pats,
{
    if pats.len() == 0 {
        Some(Seq::empty())
    } else {
        match terms_classes(es, cls, pats.drop_last()) {
            Some(a) => match term_class(es, cls, pats.last()) {
                Some(c) => Some(a.push(Id(c as u32))),
                None => None,
            },
            None => None,
        }
    }
}

/// The class `r` holds the term `v`.
pub open spec fn represents(es: Seq<(NodeV, Id)>, cls: Seq<nat>, v: SexpV, r: nat) -> bool {
    r < cls.len() && term_class(es, cls, v) == Some(cls[r as int])
}

/// `es1` and `cls1` grow `es0` and `cls0`: entries and classes are only added.
pub open spec fn grows(es1: Seq<(NodeV, Id)>, cls1: Seq<nat>, es0: Seq<(NodeV, Id)>, cls0: Seq<nat>) -> bool {
    &&& es0.len() <= es1.len()
    &&& es1.subrange(0, es0.len() as int) == es0
    &&& cls0.len() <= cls1.len()
    &&& cls1.subrange(0, cls0.len() as int) == cls0
}

proof fn lemma_find_entry_grows(es0: Seq<(NodeV, Id)>, es1: Seq<(NodeV, Id)>, c: NodeV)
    requires
        es0.len() <= es1.len(),
        es1.subrange(0, es0.len() as int) == es0,
        find_entry(es0, c) is Some,
    ensures
        find_entry(es1, c) == find_entry(es0, c),
    decreases es0.len(),
{
    assert(es1[0] == es0[0]);
    if es0[0].0 != c {
        assert(es1.drop_first().subrange(0, es0.drop_first().len() as int) =~= es0.drop_first());
        lemma_find_entry_grows(es0.drop_first(), es1.drop_first(), c);
    }
}

proof fn lemma_node_class_grows(es0: Seq<(NodeV, Id)>, cls0: Seq<nat>, es1: Seq<(NodeV, Id)>, cls1: Seq<nat>, c: NodeV)
    requires
        grows(es1, cls1, es0, cls0),
        node_class(es0, cls0, c) is Some,
    ensures
        node_class(es1, cls1, c) == node_class(es0, cls0, c),
{
    lemma_find_entry_grows(es0, es1, c);
    let x = find_entry(es0, c)->0;
    assert(cls1[x@ as int] == cls1.subrange(0, cls0.len() as int)[x@ as int]);
}

proof fn lemma_term_class_grows(es0: Seq<(NodeV, Id)>, cls0: Seq<nat>, es1: Seq<(NodeV, Id)>, cls1: Seq<nat>, v: SexpV)
    requires
        grows(es1, cls1, es0, cls0),
        term_class(es0, cls0, v) is Some,
    ensures
        term_class(es1, cls1, v) == term_class(es0, cls0, v),
    decreases v,
{
    match v {
        SexpV::Atom(s) => {
            lemma_node_class_grows(es0, cls0, es1, cls1, (s, Seq::empty()));
        },
        SexpV::List(items) => {
            lemma_terms_classes_grows(es0, cls0, es1, cls1, items.drop_first());
            let args = terms_classes(es0, cls0, items.drop_first())->0;
            lemma_node_class_grows(es0, cls0, es1, cls1, (items[0]->Atom_0, args));
        },
    }
}

proof fn lemma_terms_classes_grows(
    es0: Seq<(NodeV, Id)>,
    cls0: Seq<nat>,
    es1: Seq<(NodeV, Id)>,
    cls1: Seq<nat>,
    pats: Seq<SexpV>,
)
    requires
        grows(es1, cls1, es0, cls0),
        terms_classes(es0, cls0, pats) is Some,
    ensures
        terms_classes(es1, cls1, pats) == terms_classes(es0, cls0, pats),
    decreases pats,
{
    if pats.len() > 0 {
        lemma_terms_classes_grows(es0, cls0, es1, cls1, pats.drop_last());
        lemma_term_class_grows(es0, cls0, es1, cls1, pats.last());
    }
}

/// Adding nodes keeps every term in the class that held it.
pub proof fn lemma_represents_grows(es0: Seq<(NodeV, Id)>, cls0: Seq<nat>, es1: Seq<(NodeV, Id)>, cls1: Seq<nat>, v: SexpV, r: nat)
    requires
        grows(es1, cls1, es0, cls0),
        represents(es0, cls0, v, r),
    ensures
        represents(es1, cls1, v, r),
{
    lemma_term_class_grows(es0, cls0, es1, cls1, v);
    assert(cls1[r as int] == cls1.subrange(0, cls0.len() as int)[r as int]);
}

proof fn lemma_find_entry_push(es: Seq<(NodeV, Id)>, x: (NodeV, Id), c: NodeV)
    ensures
        find_entry(es, c) is Some ==> find_entry(es.push(x), c) == find_entry(es, c),
        find_entry(es, c) is None && x.0 == c ==> find_entry(es.push(x), c) == Some(x.1),
    decreases es.len(),
{
    if es.len() > 0 {
        assert(es.push(x).drop_first() =~= es.drop_first().push(x));
        lemma_find_entry_push(es.drop_first(), x, c);
    } else {
        assert(es.push(x)[0] == x);
    }
}

proof fn lemma_canon_of_roots(cls: Seq<nat>, f: Symbol, args: Seq<Id>)
    requires
        forall|k: int| 0 <= k < args.len() ==> (#[trigger] args[k])@ < cls.len() && cls[args[k]@ as int] == args[k]@,
    ensures
        canon(cls, (f, args)) == (f, args),
{
    assert(args.map_values(|a: Id| Id(cls[a@ as int] as u32)) =~= args);
}

impl Default for EGraph {
    /// An empty e-graph.
    fn default() -> (r: Self)
        ensures
            r.wf(),
            r.entries() == Seq::<(NodeV, Id)>::empty(),
            r.classes() == Seq::<nat>::empty(),
            r.class_count() == 0,
            r.class_map() == Seq::<(u32, Seq<NodeV>)>::empty(),
    {
        let r = EGraph { nodes: nt_new(), rev: ct_new(), uf: UnionFind::default() };
        proof {
            assert(r.entries() =~= Seq::<(NodeV, Id)>::empty());
            assert(r.uf.counts_classes());
        }
        r
    }
}

impl EGraph {
    /// In a well-formed e-graph the node table holds distinct nodes whose
    /// class ids and arguments are class ids.
    pub proof fn lemma_entry_facts(&self)
        requires
            self.wf(),
        ensures
            forall|i: int, j: int|
                0 <= i < j < self.entries().len() ==> (#[trigger] self.entries()[i]).0 != (#[trigger] self.entries()[j]).0,
            forall|i: int| 0 <= i < self.entries().len() ==> (#[trigger] self.entries()[i]).1@ < self.classes().len(),
            forall|i: int|
                0 <= i < self.entries().len() ==> args_below((#[trigger] self.entries()[i]).0.1, self.classes().len()),
    {
        self.lemma_entries();
    }

    /// In a well-formed e-graph every class id has a representative that is
    /// its own representative, and the class map lists class ids whose nodes
    /// have class ids as arguments.
    pub proof fn lemma_classes_facts(&self)
        requires
            self.wf(),
        ensures
            self.classes().len() <= u32::MAX,
            forall|i: int| 0 <= i < self.classes().len() ==> #[trigger] self.classes()[i] < self.classes().len(),
            forall|i: int|
                0 <= i < self.classes().len() ==> self.classes()[#[trigger] self.classes()[i] as int] == self.classes()[i],
            forall|i: int| 0 <= i < self.class_map().len() ==> (#[trigger] self.class_map()[i]).0 < self.classes().len(),
            forall|i: int| 0 <= i < self.class_map().len() ==> nodes_below((#[trigger] self.class_map()[i]).1, self.classes().len()),
    {
        self.uf.lemma_wf_classes();
    }

    /// The number of entries of the node table.
    pub fn node_count(&self) -> (r: usize)
        requires
            self.wf(),
        ensures
            r == self.entries().len(),
    {
        proof {
            self.lemma_entries();
        }
        nt_len(&self.nodes)
    }

    /// The number of class ids.
    pub(crate) fn class_ids(&self) -> (r: usize)
        requires
            self.wf(),
        ensures
            r == self.classes().len(),
    {
        self.uf.len()
    }

    /// The class counter.
    pub(crate) fn class_counter(&self) -> (r: usize)
        ensures
            r == self.class_count(),
    {
        self.uf.n_classes()
    }

    /// The number of classes in the class map.
    pub fn class_map_len(&self) -> (r: usize)
        ensures
            r == self.class_map().len(),
    {
        ct_len(&self.rev)
    }

    /// The class id at position `k` of the class map.
    pub fn class_map_key(&self, k: usize) -> (r: Id)
        requires
            k < self.class_map().len(),
        ensures
            r@ == self.class_map()[k as int].0,
    {
        match ct_get_index(&self.rev, k) {
            Some((c, _)) => Id(c),
            None => Id(0),
        }
    }

    /// The nodes listed for the class of `class` in the class map (as of the
    /// last rebuild).
    pub fn nodes_in_class(&self, class: Id) -> (r: &[Node])
        requires
            self.wf(),
            class@ < self.classes().len(),
        ensures
            node_views(r@) == class_nodes(self.class_map(), self.classes()[class@ as int] as u32),
            nodes_below(node_views(r@), self.classes().len()),
    {
        proof {
            self.lemma_classes_facts();
        }
        let class = self.uf.find(class);
        proof {
            lemma_class_nodes(self.class_map(), class.0);
        }
        match ct_get(&self.rev, class.0) {
            Some(nodes) => {
                proof {
                    let cm = self.class_map();
                    let i = choose|i: int| 0 <= i < cm.len() && #[trigger] cm[i] == (class.0, node_views(nodes@));
                    assert forall|j: int| 0 <= j < i implies cm[j].0 != class.0 by {
                        assert(cm[j].0 != cm[i].0);
                    }
                    assert(nodes_below(cm[i].1, self.classes().len()));
                }
                nodes.as_slice()
            },
            None => {
                let empty: &[Node] = &[];
                proof {
                    assert(node_views(empty@) =~= Seq::<NodeV>::empty());
                }
                empty
            },
        }
    }

    /// Adds the term `sexp`: an atom as a node without arguments, a list as
    /// the node of its head applied to the classes of the rest. Returns the
    /// representative of its class.
    pub fn add_sexp(&mut self, sexp: &Sexp) -> (r: Id)
        requires
            old(self).wf(),
            heads_are_atoms(sexp.deep()),
            old(self).classes().len() + term_size(sexp.deep()) + 1 < u32::MAX,
        ensures
            final(self).wf(),
            final(self).class_map() == old(self).class_map(),
            grows(final(self).entries(), final(self).classes(), old(self).entries(), old(self).classes()),
            final(self).classes().len() <= old(self).classes().len() + term_size(sexp.deep()),
            represents(final(self).entries(), final(self).classes(), sexp.deep(), r@),
            final(self).classes()[r@ as int] == r@,
            (final(self).entries(), final(self).classes(), r@) == add_term(old(self).entries(), old(self).classes(), sexp.deep()),
            (forall|j: int|
                0 <= j < old(self).entries().len() ==> canonical_entry(old(self).classes(), #[trigger] old(self).entries()[j]))
                ==> (forall|j: int|
                0 <= j < final(self).entries().len() ==> canonical_entry(final(self).classes(), #[trigger] final(self).entries()[j])),
        decreases sexp,
    {
        proof {
            self.lemma_classes_facts();
        }
        match sexp {
            Sexp::Atom(s) => {
                let ghost es0 = self.entries();
                let ghost cls0 = self.classes();
                let node = Node(*s, Vec::new());
                proof {
                    assert(canon(cls0, node@) =~= (*s, Seq::<Id>::empty()));
                    lemma_find_entry(es0, node@);
                }
                let r = self.add_node(node);
                proof {
                    self.lemma_classes_facts();
                    let c = (*s, Seq::<Id>::empty());
                    assert(canon(cls0, node@) == c);
                    if find_entry(es0, c) is None {
                        lemma_find_entry_push(es0, (c, Id(cls0.len() as u32)), c);
                    }
                    assert(self.entries().subrange(0, es0.len() as int) =~= es0);
                    assert(self.classes().subrange(0, cls0.len() as int) =~= cls0);
                    assert(sexp.deep() == SexpV::Atom(*s));
                    assert(node@ == (*s, Seq::<Id>::empty()));
                }
                r
            },
            Sexp::List(items) => {
                proof {
                    lemma_deep_list(sexp);
                }
                let ghost dv = deep_seq(items@);
                let ghost es0 = self.entries();
                let ghost cls0 = self.classes();
                let f = match &items[0] {
                    Sexp::Atom(f) => *f,
                    Sexp::List(_) => {
                        proof {
                            assert(dv[0] is Atom);
                        }
                        return Id(0);
                    },
                };
                let ghost pats = dv.drop_first();
                let mut args: Vec<Id> = Vec::new();
                let mut k: usize = 1;
                proof {
                    assert(pats.take(0) =~= Seq::<SexpV>::empty());
                    assert(terms_size(dv) == terms_size(dv.drop_last()) + term_size(dv.last()));
                    assert(self.entries().subrange(0, es0.len() as int) =~= es0);
                    assert(self.classes().subrange(0, cls0.len() as int) =~= cls0);
                    lemma_terms_size_split(dv);
                }
                while k < items.len()
                    invariant
                        self.wf(),
                        *sexp == Sexp::List(*items),
                        dv == deep_seq(items@),
                        pats == dv.drop_first(),
                        sexp.deep() == SexpV::List(dv),
                        heads_are_atoms(sexp.deep()),
                        dv.len() >= 1,
                        cls0.len() + term_size(sexp.deep()) + 1 < u32::MAX,
                        term_size(sexp.deep()) == 1 + term_size(dv[0]) + terms_size(pats),
                        1 <= k <= items@.len(),
                        args@.len() == k - 1,
                        self.class_map() == old(self).class_map(),
                        es0 == old(self).entries(),
                        cls0 == old(self).classes(),
                        grows(self.entries(), self.classes(), es0, cls0),
                        self.classes().len() <= cls0.len() + terms_size(pats.take(k - 1)),
                        terms_classes(self.entries(), self.classes(), pats.take(k - 1)) == Some(args@),
                        forall|j: int|
                            0 <= j < args@.len() ==> (#[trigger] args@[j])@ < self.classes().len()
                                && self.classes()[args@[j]@ as int] == args@[j]@,
                        (self.entries(), self.classes(), args@) == add_terms(es0, cls0, pats.take(k - 1)),
                        (forall|j: int| 0 <= j < es0.len() ==> canonical_entry(cls0, #[trigger] es0[j])) ==> (forall|j: int|
                            0 <= j < self.entries().len() ==> canonical_entry(self.classes(), #[trigger] self.entries()[j])),
                    decreases items@.len() - k,
                {
                    let ghost es1 = self.entries();
                    let ghost cls1 = self.classes();
                    proof {
                        lemma_all_heads(dv);
                        lemma_heads_item(dv, k as int);
                        lemma_terms_size_prefix(pats, k - 1);
                        lemma_terms_size_prefix(pats, k as int);
                        assert(pats[k - 1] == dv[k as int]);
                        assert(decreases_to!(*sexp => *items));
                        assert(decreases_to!(*items => items@));
                        assert(decreases_to!(items@ => items@[k as int]));
                    }
                    let a = self.add_sexp(&items[k]);
                    proof {
                        assert(grows(self.entries(), self.classes(), es1, cls1));
                        lemma_terms_classes_grows(es1, cls1, self.entries(), self.classes(), pats.take(k - 1));
                        let t = pats.take(k as int);
                        assert(t.drop_last() =~= pats.take(k - 1));
                        assert(t.last() == pats[k - 1]);
                        assert(self.entries().subrange(0, es0.len() as int) =~= es0) by {
                            assert(self.entries().subrange(0, es0.len() as int) =~= self.entries().subrange(0, es1.len() as int).subrange(0, es0.len() as int));
                        }
                        assert(self.classes().subrange(0, cls0.len() as int) =~= cls0) by {
                            assert(self.classes().subrange(0, cls0.len() as int) =~= self.classes().subrange(0, cls1.len() as int).subrange(0, cls0.len() as int));
                        }
                        assert forall|j: int| 0 <= j < args@.len() implies (#[trigger] args@[j])@ < self.classes().len()
                            && self.classes()[args@[j]@ as int] == args@[j]@ by {
                            assert(self.classes()[args@[j]@ as int] == self.classes().subrange(0, cls1.len() as int)[args@[j]@ as int]);
                        }
                    }
                    let ghost before = args@;
                    args.push(a);
                    proof {
                        assert(args@.drop_last() =~= before);
                        assert(term_class(self.entries(), self.classes(), pats.take(k as int).last()) == Some(a@));
                        assert(Id(a@ as u32) == a);
                        assert(terms_classes(self.entries(), self.classes(), pats.take(k as int)) == Some(args@));
                        assert(items@[k as int].deep() == pats.take(k as int).last());
                        assert((self.entries(), self.classes(), args@) == add_terms(es0, cls0, pats.take(k as int)));
                    }
                    k = k + 1;
                }
                proof {
                    assert(pats.take(k - 1) =~= pats);
                    lemma_canon_of_roots(self.classes(), f, args@);
                    self.lemma_classes_facts();
                }
                let ghost es2 = self.entries();
                let ghost cls2 = self.classes();
                let node = Node(f, args);
                proof {
                    lemma_find_entry(es2, node@);
                    assert(args_below(node@.1, cls2.len()));
                }
                let r = self.add_node(node);
                proof {
                    self.lemma_classes_facts();
                    let c = node@;
                    assert(canon(cls2, node@) == c);
                    if find_entry(es2, c) is None {
                        lemma_find_entry_push(es2, (c, Id(cls2.len() as u32)), c);
                    }
                    assert(grows(self.entries(), self.classes(), es2, cls2)) by {
                        assert(self.entries().subrange(0, es2.len() as int) =~= es2);
                        assert(self.classes().subrange(0, cls2.len() as int) =~= cls2);
                    }
                    lemma_terms_classes_grows(es2, cls2, self.entries(), self.classes(), pats);
                    assert(self.entries().subrange(0, es0.len() as int) =~= es0) by {
                        assert(self.entries().subrange(0, es0.len() as int) =~= self.entries().subrange(0, es2.len() as int).subrange(0, es0.len() as int));
                    }
                    assert(self.classes().subrange(0, cls0.len() as int) =~= cls0) by {
                        assert(self.classes().subrange(0, cls0.len() as int) =~= self.classes().subrange(0, cls2.len() as int).subrange(0, cls0.len() as int));
                    }
                    assert(dv[0] == SexpV::Atom(f));
                    assert(terms_classes(self.entries(), self.classes(), dv.drop_first()) == Some(args@));
                    assert(represents(self.entries(), self.classes(), SexpV::List(dv), r@));
                    assert(add_terms(es0, cls0, dv.drop_first()) == (es2, cls2, args@));
                    assert(node@ == (f, args@));
                }
                r
            },
        }
    }
}

proof fn lemma_all_heads(dv: Seq<SexpV>)
    requires
        heads_are_atoms(SexpV::List(dv)),
    ensures
        all_heads_are_atoms(dv),
{
}

proof fn lemma_terms_size_split(dv: Seq<SexpV>)
    requires
        dv.len() >= 1,
    ensures
        terms_size(dv) == term_size(dv[0]) + terms_size(dv.drop_first()),
    decreases dv.len(),
{
    if dv.len() > 1 {
        lemma_terms_size_split(dv.drop_last());
        assert(dv.drop_last().drop_first() =~= dv.drop_first().drop_last());
        assert(dv.drop_first().last() == dv.last());
    } else {
        assert(dv.drop_first() =~= Seq::<SexpV>::empty());
        assert(dv.drop_last() =~= Seq::<SexpV>::empty());
    }
}

// ---------------------------------------------------------------------------
// Rebuilding
// ---------------------------------------------------------------------------

/// The entries of a raw node table.
pub(crate) open spec fn entries_of(t: Seq<((Symbol, Seq<u32>), u32)>) -> Seq<(NodeV, Id)> {
    t.map_values(|e: ((Symbol, Seq<u32>), u32)| (key_node(e.0), Id(e.1)))
}

/// `n1` and `n2` are the same node up to the classes of their arguments.
pub open spec fn same_mod(cls: Seq<nat>, n1: NodeV, n2: NodeV) -> bool {
    &&& n1.0 == n2.0
    &&& n1.1.len() == n2.1.len()
    &&& forall|k: int| 0 <= k < n1.1.len() ==> cls[(#[trigger] n1.1[k])@ as int] == cls[n2.1[k]@ as int]
}

/// Some entry of `es` is the node `n` up to classes, in the class of `v`.
pub open spec fn kept(es: Seq<(NodeV, Id)>, cls: Seq<nat>, n: NodeV, v: Id) -> bool {
    exists|j: int| 0 <= j < es.len() && same_mod(cls, (#[trigger] es[j]).0, n) && cls[es[j].1@ as int] == cls[v@ as int]
}

/// The entry's arguments and value are class representatives.
pub open spec fn canonical_entry(cls: Seq<nat>, e: (NodeV, Id)) -> bool {
    &&& forall|k: int| 0 <= k < e.0.1.len() ==> cls[(#[trigger] e.0.1[k])@ as int] == e.0.1[k]@
    &&& cls[e.1@ as int] == e.1@
}

/// The nodes of the entries of `es` whose value is `c`, in order.
pub open spec fn nodes_with_value(es: Seq<(NodeV, Id)>, c: nat) -> Seq<NodeV>
    decreases es.len(),
{
    if es.len() == 0 {
        Seq::empty()
    } else {
        nodes_with_value(es.drop_last(), c) + if es.last().1@ == c {
            seq![es.last().0]
        } else {
            Seq::<NodeV>::empty()
        }
    }
}

/// Under the classes `q`, any two entries of `es` whose nodes are equal up
/// to classes are in one class.
pub open spec fn congruent_under(q: Seq<nat>, es: Seq<(NodeV, Id)>) -> bool {
    forall|i: int, j: int|
        0 <= i < es.len() && 0 <= j < es.len() && #[trigger] same_mod(q, es[i].0, es[j].0) ==> q[es[i].1@ as int]
            == q[es[j].1@ as int]
}

/// `q` is a congruence over the entries `es` that merges at least the
/// classes `cls`.
pub open spec fn congruence_above(q: Seq<nat>, cls: Seq<nat>, es: Seq<(NodeV, Id)>) -> bool {
    &&& q.len() == cls.len()
    &&& coarser(q, cls)
    &&& congruent_under(q, es)
}

/// Merging two ids that `q` already puts in one class keeps `q` coarser.
proof fn lemma_merge_within(q: Seq<nat>, cls: Seq<nat>, a: int, b: int)
    requires
        coarser(q, cls),
        q.len() == cls.len(),
        0 <= a < cls.len(),
        0 <= b < cls.len(),
        q[a] == q[b],
    ensures
        coarser(q, merge_classes(cls, cls[a], cls[b])),
{
    let m = merge_classes(cls, cls[a], cls[b]);
    assert forall|x: int, y: int| 0 <= x < m.len() && 0 <= y < m.len() && m[x] == m[y] implies #[trigger] q[x] == #[trigger] q[y] by {
        if cls[x] == cls[a] {
            assert(q[x] == q[a]);
        }
        if cls[y] == cls[a] {
            assert(q[y] == q[a]);
        }
        if cls[x] == cls[b] {
            assert(q[x] == q[b]);
        }
        if cls[y] == cls[b] {
            assert(q[y] == q[b]);
        }
    }
}

/// A congruence over `es0` is one over entries that each have a
/// counterpart in `es0` under classes it is coarser than.
proof fn lemma_congruent_transfer(q: Seq<nat>, cl: Seq<nat>, es0: Seq<(NodeV, Id)>, es: Seq<(NodeV, Id)>)
    requires
        q.len() == cl.len(),
        coarser(q, cl),
        congruent_under(q, es0),
        forall|i: int| 0 <= i < es0.len() ==> args_below((#[trigger] es0[i]).0.1, cl.len()) && es0[i].1@ < cl.len(),
        forall|i: int| 0 <= i < es.len() ==> args_below((#[trigger] es[i]).0.1, cl.len()) && es[i].1@ < cl.len(),
        forall|a: int| 0 <= a < es.len() ==> kept(es0, cl, (#[trigger] es[a]).0, es[a].1),
    ensures
        congruent_under(q, es),
{
    assert forall|a: int, b: int|
        0 <= a < es.len() && 0 <= b < es.len() && #[trigger] same_mod(q, es[a].0, es[b].0) implies q[es[a].1@ as int]
        == q[es[b].1@ as int] by {
        assert(kept(es0, cl, es[a].0, es[a].1));
        let ja = choose|j: int| 0 <= j < es0.len() && same_mod(cl, (#[trigger] es0[j]).0, es[a].0) && cl[es0[j].1@ as int] == cl[es[a].1@ as int];
        assert(kept(es0, cl, es[b].0, es[b].1));
        let jb = choose|j: int| 0 <= j < es0.len() && same_mod(cl, (#[trigger] es0[j]).0, es[b].0) && cl[es0[j].1@ as int] == cl[es[b].1@ as int];
        lemma_coarser_same_mod(q, cl, es0[ja].0, es[a].0);
        lemma_coarser_same_mod(q, cl, es0[jb].0, es[b].0);
        lemma_same_mod_sym(q, es0[jb].0, es[b].0);
        lemma_same_mod_trans(q, es0[ja].0, es[a].0, es[b].0);
        lemma_same_mod_trans(q, es0[ja].0, es[b].0, es0[jb].0);
        assert(q[es0[ja].1@ as int] == q[es0[jb].1@ as int]);
        let x = es0[ja].1@ as int;
        let y = es[a].1@ as int;
        assert(cl[x] == cl[y]);
        let x2 = es0[jb].1@ as int;
        let y2 = es[b].1@ as int;
        assert(cl[x2] == cl[y2]);
    }
}

proof fn lemma_coarser_same_mod(c1: Seq<nat>, c0: Seq<nat>, n1: NodeV, n2: NodeV)
    requires
        coarser(c1, c0),
        same_mod(c0, n1, n2),
        args_below(n1.1, c0.len()),
        args_below(n2.1, c0.len()),
    ensures
        same_mod(c1, n1, n2),
{
    assert forall|k: int| 0 <= k < n1.1.len() implies c1[(#[trigger] n1.1[k])@ as int] == c1[n2.1[k]@ as int] by {
        assert(c0[n1.1[k]@ as int] == c0[n2.1[k]@ as int]);
    }
}

proof fn lemma_same_mod_trans(c: Seq<nat>, a: NodeV, b: NodeV, d: NodeV)
    requires
        same_mod(c, a, b),
        same_mod(c, b, d),
    ensures
        same_mod(c, a, d),
{
    assert forall|k: int| 0 <= k < a.1.len() implies c[(#[trigger] a.1[k])@ as int] == c[d.1[k]@ as int] by {
        assert(c[a.1[k]@ as int] == c[b.1[k]@ as int]);
        assert(c[b.1[k]@ as int] == c[d.1[k]@ as int]);
    }
}

proof fn lemma_same_mod_sym(c: Seq<nat>, a: NodeV, b: NodeV)
    requires
        same_mod(c, a, b),
    ensures
        same_mod(c, b, a),
{
    assert forall|k: int| 0 <= k < b.1.len() implies c[(#[trigger] b.1[k])@ as int] == c[a.1[k]@ as int] by {
        assert(c[a.1[k]@ as int] == c[b.1[k]@ as int]);
    }
}

proof fn lemma_canon_same_mod(c: Seq<nat>, n: NodeV)
    requires
        args_below(n.1, c.len()),
        forall|i: int| 0 <= i < c.len() ==> #[trigger] c[i] < u32::MAX && c[c[i] as int] == c[i],
    ensures
        same_mod(c, canon(c, n), n),
{
    let m = canon(c, n);
    assert forall|k: int| 0 <= k < m.1.len() implies c[(#[trigger] m.1[k])@ as int] == c[n.1[k]@ as int] by {
        assert(n.1[k]@ < c.len());
        assert(m.1[k] == Id(c[n.1[k]@ as int] as u32));
    }
}

impl EGraph {
    /// One pass of rebuilding: every entry is taken out and put back with
    /// its node canonicalized, merging its class with that of an equal node
    /// already put back. Returns whether any classes were merged.
    fn rebuild_pass(&mut self) -> (merged: bool)
        requires
            old(self).wf(),
        ensures
            final(self).wf(),
            final(self).class_map() == old(self).class_map(),
            coarser(final(self).classes(), old(self).classes()),
            final(self).classes().len() == old(self).classes().len(),
            forall|j: int|
                0 <= j < old(self).entries().len() ==> kept(
                    final(self).entries(),
                    final(self).classes(),
                    (#[trigger] old(self).entries()[j]).0,
                    old(self).entries()[j].1,
                ),
            forall|a: int|
                0 <= a < final(self).entries().len() ==> kept(
                    old(self).entries(),
                    final(self).classes(),
                    (#[trigger] final(self).entries()[a]).0,
                    final(self).entries()[a].1,
                ),
            forall|q: Seq<nat>|
                #[trigger] congruence_above(q, old(self).classes(), old(self).entries()) ==> coarser(q, final(self).classes()),
            final(self).entries().len() <= old(self).entries().len(),
            merged ==> final(self).class_count() < old(self).class_count(),
            !merged ==> final(self).classes() == old(self).classes() && final(self).class_count() == old(self).class_count()
                && forall|j: int|
                0 <= j < final(self).entries().len() ==> canonical_entry(final(self).classes(), #[trigger] final(self).entries()[j]),
    {
        let ghost cls0 = self.classes();
        let ghost count0 = self.class_count();
        let ghost es0 = self.entries();
        proof {
            self.lemma_classes_facts();
            self.lemma_entries();
        }
        let nodes = nt_take(&mut self.nodes);
        let ghost t0 = node_table(nodes);
        let n = nt_len(&nodes);
        let mut merged = false;
        let mut i: usize = 0;
        while i < n
            invariant
                n == t0.len(),
                t0 == node_table(nodes),
                es0 == entries_of(t0),
                es0 == old(self).entries(),
                cls0 == old(self).classes(),
                count0 == old(self).class_count(),
                forall|j: int| 0 <= j < es0.len() ==> (#[trigger] es0[j]).1@ < cls0.len(),
                forall|j: int| 0 <= j < es0.len() ==> args_below((#[trigger] es0[j]).0.1, cls0.len()),
                forall|e: int| 0 <= e < cls0.len() ==> #[trigger] class_has_entry(t0, cls0, cls0[e]),
                i <= n,
                self.uf.wf(),
                self.uf.counts_classes(),
                self.uf@.len() == cls0.len(),
                self.class_map() == old(self).class_map(),
                coarser(self.uf@, cls0),
                forall|a: int, b: int|
                    0 <= a < b < node_table(self.nodes).len() ==> (#[trigger] node_table(self.nodes)[a]).0 != (
                    #[trigger] node_table(self.nodes)[b]).0,
                forall|a: int| 0 <= a < node_table(self.nodes).len() ==> (#[trigger] node_table(self.nodes)[a]).1 < cls0.len(),
                forall|a: int|
                    0 <= a < node_table(self.nodes).len() ==> args_below(
                        key_node((#[trigger] node_table(self.nodes)[a]).0).1,
                        cls0.len(),
                    ),
                forall|j: int|
                    0 <= j < i ==> kept(entries_of(node_table(self.nodes)), self.uf@, (#[trigger] es0[j]).0, es0[j].1),
                forall|a: int|
                    0 <= a < node_table(self.nodes).len() ==> kept(
                        es0,
                        self.uf@,
                        (#[trigger] entries_of(node_table(self.nodes))[a]).0,
                        entries_of(node_table(self.nodes))[a].1,
                    ),
                forall|q: Seq<nat>| #[trigger] congruence_above(q, cls0, es0) ==> coarser(q, self.uf@),
                node_table(self.nodes).len() <= i,
                merged ==> self.uf.spec_n_classes() < count0,
                !merged ==> self.uf@ == cls0 && self.uf.spec_n_classes() == count0,
                !merged ==> forall|a: int|
                    0 <= a < node_table(self.nodes).len() ==> canonical_entry(
                        self.uf@,
                        #[trigger] entries_of(node_table(self.nodes))[a],
                    ),
            decreases n - i,
        {
            let ghost cls_a = self.uf@;
            let ghost t_a = node_table(self.nodes);
            let entry = nt_get_index(&nodes, i);
            let (key, id) = match entry {
                Some(e) => e,
                None => {
                    proof {
                        assert(false);
                    }
                    return false;
                },
            };
            proof {
                assert(t0[i as int] == (key_view(key), id));
                assert(es0[i as int] == (key_node(key_view(key)), Id(id)));
                self.uf.lemma_wf_classes();
            }
            let node = node_of_key(&key);
            let cnode = canonicalize_in(&mut self.uf, &node);
            let root = self.uf.find_mut(Id(id));
            let key2 = key_of_node(&cnode);
            proof {
                lemma_key_roundtrip(cnode@);
                lemma_canon_same_mod(cls_a, node@);
                assert(cls_a[id as int] < u32::MAX);
            }
            match nt_get(&self.nodes, &key2) {
                Some(v) => {
                    let ghost ja = choose|a: int| 0 <= a < t_a.len() && #[trigger] t_a[a] == (key_view(key2), v);
                    proof {
                        assert(v < cls0.len());
                    }
                    proof {
                        assert forall|q: Seq<nat>| #[trigger] congruence_above(q, cls0, es0) implies q[root@ as int] == q[v as int] by {
                            assert(coarser(q, cls_a));
                            let es_a = entries_of(t_a);
                            assert(es_a[ja] == (cnode@, Id(v)));
                            assert(kept(es0, cls_a, es_a[ja].0, es_a[ja].1));
                            let j = choose|j: int|
                                0 <= j < es0.len() && same_mod(cls_a, (#[trigger] es0[j]).0, es_a[ja].0) && cls_a[es0[j].1@ as int]
                                    == cls_a[es_a[ja].1@ as int];
                            lemma_same_mod_trans(cls_a, es0[j].0, cnode@, node@);
                            lemma_coarser_same_mod(q, cls_a, es0[j].0, es0[i as int].0);
                            assert(q[es0[j].1@ as int] == q[es0[i as int].1@ as int]);
                            let x = es0[j].1@ as int;
                            assert(cls_a[x] == cls_a[v as int]);
                            assert(cls_a[root@ as int] == cls_a[id as int]);
                        }
                    }
                    let joined = self.uf.union(root, Id(v));
                    proof {
                        assert forall|q: Seq<nat>| #[trigger] congruence_above(q, cls0, es0) implies coarser(q, self.uf@) by {
                            lemma_merge_within(q, cls_a, root@ as int, v as int);
                        }
                        let cls_b = self.uf@;
                        let es_b = entries_of(node_table(self.nodes));
                        assert(coarser(cls_b, cls_a)) by {
                            assert forall|x: int, y: int|
                                0 <= x < cls_a.len() && 0 <= y < cls_a.len() && cls_a[x] == cls_a[y] implies #[trigger] cls_b[x]
                                == #[trigger] cls_b[y] by {
                            }
                        }
                        lemma_coarser_trans(cls_b, cls_a, cls0);
                        // the entry just handled
                        assert(es_b[ja] == (cnode@, Id(v)));
                        lemma_coarser_same_mod(cls_b, cls_a, cnode@, node@);
                        assert(kept(es_b, cls_b, es0[i as int].0, es0[i as int].1)) by {
                            assert(same_mod(cls_b, es_b[ja].0, es0[i as int].0));
                            assert(cls_b[v as int] == cls_b[root@ as int]);
                            assert(cls_b[root@ as int] == cls_b[id as int]);
                        }
                        // the entries handled before
                        assert forall|j: int| 0 <= j < i implies kept(es_b, cls_b, (#[trigger] es0[j]).0, es0[j].1) by {
                            assert(kept(es_b, cls_a, es0[j].0, es0[j].1));
                            let x = choose|x: int|
                                0 <= x < es_b.len() && same_mod(cls_a, (#[trigger] es_b[x]).0, es0[j].0) && cls_a[es_b[x].1@ as int]
                                    == cls_a[es0[j].1@ as int];
                            lemma_coarser_same_mod(cls_b, cls_a, es_b[x].0, es0[j].0);
                        }
                        // every entry still comes from an old one
                        assert forall|a: int| 0 <= a < es_b.len() implies kept(es0, cls_b, (#[trigger] es_b[a]).0, es_b[a].1) by {
                            assert(kept(es0, cls_a, es_b[a].0, es_b[a].1));
                            let x = choose|x: int|
                                0 <= x < es0.len() && same_mod(cls_a, (#[trigger] es0[x]).0, es_b[a].0) && cls_a[es0[x].1@ as int]
                                    == cls_a[es_b[a].1@ as int];
                            lemma_coarser_same_mod(cls_b, cls_a, es0[x].0, es_b[a].0);
                            assert(es_b[a].1@ < cls0.len());
                        }
                        if !joined {
                            assert(cls_b =~= cls_a);
                        }
                    }
                    if joined {
                        merged = true;
                    }
                },
                None => {
                    nt_insert(&mut self.nodes, key2, root.0);
                    proof {
                        lemma_table_set_new(t_a, key_view(key2), root.0);
                        let t_b = node_table(self.nodes);
                        let es_b = entries_of(t_b);
                        let es_a = entries_of(t_a);
                        assert(es_b == es_a.push((cnode@, root)));
                        assert forall|a: int, b: int| 0 <= a < b < t_b.len() implies (#[trigger] t_b[a]).0 != (#[trigger] t_b[b]).0 by {
                            if b == t_a.len() {
                                assert(t_a[a].0 != key_view(key2));
                            } else {
                                assert(t_b[a] == t_a[a] && t_b[b] == t_a[b]);
                            }
                        }
                        assert forall|a: int| 0 <= a < t_b.len() implies (#[trigger] t_b[a]).1 < cls0.len() by {
                            if a < t_a.len() {
                                assert(t_b[a] == t_a[a]);
                            }
                        }
                        assert forall|a: int| 0 <= a < t_b.len() implies args_below(key_node((#[trigger] t_b[a]).0).1, cls0.len()) by {
                            if a < t_a.len() {
                                assert(t_b[a] == t_a[a]);
                            } else {
                                assert(key_node(t_b[a].0) == cnode@);
                            }
                        }
                        assert(kept(es_b, cls_a, es0[i as int].0, es0[i as int].1)) by {
                            assert(es_b[t_a.len() as int] == (cnode@, root));
                        }
                        assert forall|j: int| 0 <= j < i implies kept(es_b, cls_a, (#[trigger] es0[j]).0, es0[j].1) by {
                            assert(kept(es_a, cls_a, es0[j].0, es0[j].1));
                            let x = choose|x: int|
                                0 <= x < es_a.len() && same_mod(cls_a, (#[trigger] es_a[x]).0, es0[j].0) && cls_a[es_a[x].1@ as int]
                                    == cls_a[es0[j].1@ as int];
                            assert(es_b[x] == es_a[x]);
                        }
                        assert forall|a: int| 0 <= a < es_b.len() implies kept(es0, cls_a, (#[trigger] es_b[a]).0, es_b[a].1) by {
                            if a < es_a.len() {
                                assert(es_b[a] == es_a[a]);
                                assert(kept(es0, cls_a, es_a[a].0, es_a[a].1));
                            } else {
                                assert(es_b[a] == (cnode@, root));
                                lemma_same_mod_sym(cls_a, cnode@, node@);
                                assert(es0[i as int].0 == node@);
                                assert(same_mod(cls_a, es0[i as int].0, es_b[a].0));
                                assert(cls_a[root@ as int] == cls_a[id as int]);
                            }
                        }
                        if !merged {
                            assert forall|a: int| 0 <= a < t_b.len() implies canonical_entry(cls_a, #[trigger] es_b[a]) by {
                                if a < t_a.len() {
                                    assert(es_b[a] == es_a[a]);
                                } else {
                                    assert(es_b[a] == (cnode@, root));
                                }
                            }
                        }
                    }
                },
            }
            i = i + 1;
        }
        proof {
            let t = node_table(self.nodes);
            let cls = self.uf@;
            assert forall|e: int| 0 <= e < cls.len() implies #[trigger] class_has_entry(t, cls, cls[e]) by {
                assert(class_has_entry(t0, cls0, cls0[e]));
                let jo = choose|jo: int| 0 <= jo < t0.len() && cls0[(#[trigger] t0[jo]).1 as int] == cls0[e];
                assert(es0[jo] == (key_node(t0[jo].0), Id(t0[jo].1)));
                assert(es0[jo].1@ == t0[jo].1);
                assert(kept(entries_of(t), cls, es0[jo].0, es0[jo].1));
                let x = choose|x: int|
                    0 <= x < entries_of(t).len() && same_mod(cls, (#[trigger] entries_of(t)[x]).0, es0[jo].0) && cls[entries_of(
                        t,
                    )[x].1@ as int] == cls[es0[jo].1@ as int];
                assert(cls[t[x].1 as int] == cls[e]);
            }
            assert(self.entries() == entries_of(t));
        }
        merged
    }
}

proof fn lemma_nodes_with_value_step(es: Seq<(NodeV, Id)>, i: int, c: nat)
    requires
        0 <= i < es.len(),
    ensures
        nodes_with_value(es.take(i + 1), c) == nodes_with_value(es.take(i), c) + if es[i].1@ == c {
            seq![es[i].0]
        } else {
            Seq::<NodeV>::empty()
        },
{
    assert(es.take(i + 1).drop_last() =~= es.take(i));
    assert(es.take(i + 1).last() == es[i]);
}

/// Each entry of `es` with its node canonicalized and its value replaced by
/// its class representative, under the classes `cls`.
pub open spec fn rebuilt_entries(es: Seq<(NodeV, Id)>, cls: Seq<nat>) -> Seq<(NodeV, Id)> {
    es.map_values(|e: (NodeV, Id)| (canon(cls, e.0), Id(cls[e.1@ as int] as u32)))
}

/// The class map lists exactly the representatives, ascending, each with
/// the nodes of the entries of its class in table order.
pub open spec fn class_map_ok(cm: Seq<(u32, Seq<NodeV>)>, es: Seq<(NodeV, Id)>, cls: Seq<nat>) -> bool {
    &&& forall|i: int, j: int| 0 <= i < j < cm.len() ==> (#[trigger] cm[i]).0 < (#[trigger] cm[j]).0
    &&& forall|c: nat| c < cls.len() ==> (cls[c as int] == c <==> exists|k: int| 0 <= k < cm.len() && (#[trigger] cm[k]).0 == c)
    &&& forall|k: int| 0 <= k < cm.len() ==> (#[trigger] cm[k]).1 == nodes_with_value(es, cm[k].0 as nat)
}

/// What a table sorted from `ct0` into `ct1` keeps.
pub open spec fn sorted_from(ct1: Seq<(u32, Seq<NodeV>)>, ct0: Seq<(u32, Seq<NodeV>)>, p: Seq<int>) -> bool {
    &&& ct1.len() == ct0.len()
    &&& is_perm(p, ct0.len())
    &&& forall|i: int| 0 <= i < ct1.len() ==> #[trigger] ct1[i] == ct0[p[i]]
}

proof fn lemma_sorted_keys(ct0: Seq<(u32, Seq<NodeV>)>, ct1: Seq<(u32, Seq<NodeV>)>, p: Seq<int>)
    requires
        sorted_from(ct1, ct0, p),
        forall|a: int, b: int| 0 <= a < b < ct0.len() ==> (#[trigger] ct0[a]).0 != (#[trigger] ct0[b]).0,
        forall|i: int, j: int| 0 <= i < j < ct1.len() ==> #[trigger] ct1[i].0 <= #[trigger] ct1[j].0,
    ensures
        forall|a: int, b: int| 0 <= a < b < ct1.len() ==> (#[trigger] ct1[a]).0 < (#[trigger] ct1[b]).0,
        forall|a: int, b: int| 0 <= a < b < ct1.len() ==> (#[trigger] ct1[a]).0 != (#[trigger] ct1[b]).0,
{
    assert forall|a: int, b: int| 0 <= a < b < ct1.len() implies (#[trigger] ct1[a]).0 != (#[trigger] ct1[b]).0 by {
        assert(ct1[a] == ct0[p[a]] && ct1[b] == ct0[p[b]]);
        assert(p[a] != p[b]);
        if p[a] < p[b] {
            assert(ct0[p[a]].0 != ct0[p[b]].0);
        } else {
            assert(ct0[p[b]].0 != ct0[p[a]].0);
        }
    }
    assert forall|a: int, b: int| 0 <= a < b < ct1.len() implies (#[trigger] ct1[a]).0 < (#[trigger] ct1[b]).0 by {
        assert(ct1[a].0 <= ct1[b].0);
        assert(ct1[a].0 != ct1[b].0);
    }
}

proof fn lemma_sorted_values(ct0: Seq<(u32, Seq<NodeV>)>, ct1: Seq<(u32, Seq<NodeV>)>, p: Seq<int>, es: Seq<(NodeV, Id)>, n: nat)
    requires
        sorted_from(ct1, ct0, p),
        forall|k: int| 0 <= k < ct0.len() ==> (#[trigger] ct0[k]).1 == nodes_with_value(es, ct0[k].0 as nat),
        forall|k: int| 0 <= k < ct0.len() ==> nodes_below((#[trigger] ct0[k]).1, n),
    ensures
        forall|k: int| 0 <= k < ct1.len() ==> (#[trigger] ct1[k]).1 == nodes_with_value(es, ct1[k].0 as nat),
        forall|k: int| 0 <= k < ct1.len() ==> nodes_below((#[trigger] ct1[k]).1, n),
{
    assert forall|k: int| 0 <= k < ct1.len() implies (#[trigger] ct1[k]).1 == nodes_with_value(es, ct1[k].0 as nat) by {
        assert(ct1[k] == ct0[p[k]]);
    }
    assert forall|k: int| 0 <= k < ct1.len() implies nodes_below((#[trigger] ct1[k]).1, n) by {
        assert(ct1[k] == ct0[p[k]]);
    }
}

proof fn lemma_sorted_roots(
    ct0: Seq<(u32, Seq<NodeV>)>,
    ct1: Seq<(u32, Seq<NodeV>)>,
    p: Seq<int>,
    es: Seq<(NodeV, Id)>,
    cls: Seq<nat>,
    t: Seq<((Symbol, Seq<u32>), u32)>,
)
    requires
        sorted_from(ct1, ct0, p),
        es == entries_of(t),
        forall|k: int| 0 <= k < ct0.len() ==> id_used(es, es.len() as int, (#[trigger] ct0[k]).0 as nat),
        forall|j: int| 0 <= j < es.len() ==> key_listed(ct0, (#[trigger] es[j]).1@),
        forall|j: int| 0 <= j < es.len() ==> canonical_entry(cls, #[trigger] es[j]),
        forall|e: int| 0 <= e < cls.len() ==> #[trigger] class_has_entry(t, cls, cls[e]),
    ensures
        forall|c: nat| c < cls.len() ==> (cls[c as int] == c <==> exists|k: int| 0 <= k < ct1.len() && (#[trigger] ct1[k]).0 == c),
{
    assert forall|c: nat| c < cls.len() implies (cls[c as int] == c <==> exists|k: int|
        0 <= k < ct1.len() && (#[trigger] ct1[k]).0 == c) by {
        if cls[c as int] == c {
            assert(class_has_entry(t, cls, cls[c as int]));
            let j = choose|j: int| 0 <= j < t.len() && cls[(#[trigger] t[j]).1 as int] == cls[c as int];
            assert(es[j].1@ == t[j].1);
            assert(canonical_entry(cls, es[j]));
            assert(key_listed(ct0, es[j].1@));
            reveal(key_listed);
            let a = choose|a: int| 0 <= a < ct0.len() && (#[trigger] ct0[a]).0 == es[j].1@;
            assert(reaches(p, a));
            let b = choose|b: int| 0 <= b < p.len() && p[b] == a;
            assert(ct1[b] == ct0[a]);
        }
        if exists|k: int| 0 <= k < ct1.len() && (#[trigger] ct1[k]).0 == c {
            let k = choose|k: int| 0 <= k < ct1.len() && (#[trigger] ct1[k]).0 == c;
            assert(ct1[k] == ct0[p[k]]);
            assert(id_used(es, es.len() as int, ct0[p[k]].0 as nat));
            reveal(id_used);
            let j = choose|j: int| 0 <= j < es.len() && (#[trigger] es[j]).1@ == ct0[p[k]].0 as nat;
            assert(canonical_entry(cls, es[j]));
        }
    }
}

/// One of the first `i` entries of `es` has class id `v`.
#[verifier::opaque]
pub open spec fn id_used(es: Seq<(NodeV, Id)>, i: int, v: nat) -> bool {
    exists|j: int| 0 <= j < i && (#[trigger] es[j]).1@ == v
}

/// The class table `ct` has the key `v`.
#[verifier::opaque]
pub open spec fn key_listed(ct: Seq<(u32, Seq<NodeV>)>, v: nat) -> bool {
    exists|k: int| 0 <= k < ct.len() && (#[trigger] ct[k]).0 == v
}

/// What the class table built from the first `i` entries of `es` holds:
/// distinct keys, exactly the class ids of those entries, each with the
/// nodes of its entries in order, all below `n`.
#[verifier::opaque]
pub open spec fn rev_inv(ct: Seq<(u32, Seq<NodeV>)>, es: Seq<(NodeV, Id)>, i: int, n: nat) -> bool {
    &&& forall|a: int, b: int| 0 <= a < b < ct.len() ==> (#[trigger] ct[a]).0 != (#[trigger] ct[b]).0
    &&& forall|k: int| 0 <= k < ct.len() ==> id_used(es, i, (#[trigger] ct[k]).0 as nat)
    &&& forall|j: int| 0 <= j < i ==> key_listed(ct, (#[trigger] es[j]).1@)
    &&& forall|k: int| 0 <= k < ct.len() ==> (#[trigger] ct[k]).1 == nodes_with_value(es.take(i), ct[k].0 as nat)
    &&& forall|k: int| 0 <= k < ct.len() ==> nodes_below((#[trigger] ct[k]).1, n)
    &&& forall|k: int| 0 <= k < ct.len() ==> (#[trigger] ct[k]).0 < n
}

#[verifier::rlimit(50)]
proof fn lemma_rev_push(ct0: Seq<(u32, Seq<NodeV>)>, ct1: Seq<(u32, Seq<NodeV>)>, k: int, es: Seq<(NodeV, Id)>, i: int, n: nat)
    requires
        rev_inv(ct0, es, i, n),
        0 <= i < es.len(),
        0 <= k < ct0.len(),
        ct0[k].0 == es[i].1@,
        args_below(es[i].0.1, n),
        ct1 == ct0.update(k, (ct0[k].0, ct0[k].1.push(es[i].0))),
    ensures
        rev_inv(ct1, es, i + 1, n),
{
    reveal(rev_inv);
    assert forall|c: nat| #[trigger] nodes_with_value(es.take(i + 1), c) == nodes_with_value(es.take(i), c) + if es[i].1@ == c {
        seq![es[i].0]
    } else {
        Seq::<NodeV>::empty()
    } by {
        lemma_nodes_with_value_step(es, i, c);
    }
    assert forall|a: int| 0 <= a < ct1.len() implies (#[trigger] ct1[a]).1 == nodes_with_value(es.take(i + 1), ct1[a].0 as nat) by {
        assert(nodes_with_value(es.take(i + 1), ct1[a].0 as nat) == nodes_with_value(es.take(i), ct1[a].0 as nat) + if es[i].1@
            == ct1[a].0 as nat {
            seq![es[i].0]
        } else {
            Seq::<NodeV>::empty()
        });
        if a != k {
            assert(ct1[a] == ct0[a]);
            assert(ct0[a].0 != ct0[k].0);
        }
    }
    assert forall|a: int| 0 <= a < ct1.len() implies id_used(es, i + 1, (#[trigger] ct1[a]).0 as nat) by {
        assert(ct1[a].0 == ct0[a].0);
        assert(id_used(es, i, ct0[a].0 as nat));
        reveal(id_used);
        let j = choose|j: int| 0 <= j < i && (#[trigger] es[j]).1@ == ct0[a].0 as nat;
        assert(es[j].1@ == ct1[a].0);
    }
    assert forall|j: int| 0 <= j < i + 1 implies key_listed(ct1, (#[trigger] es[j]).1@) by {
        reveal(key_listed);
        if j < i {
            assert(key_listed(ct0, es[j].1@));
            let a = choose|a: int| 0 <= a < ct0.len() && (#[trigger] ct0[a]).0 == es[j].1@;
            assert(ct1[a].0 == ct0[a].0);
        } else {
            assert(ct1[k].0 == es[j].1@);
        }
    }
    assert forall|a: int, b: int| 0 <= a < b < ct1.len() implies (#[trigger] ct1[a]).0 != (#[trigger] ct1[b]).0 by {
        assert(ct1[a].0 == ct0[a].0 && ct1[b].0 == ct0[b].0);
    }
    assert forall|a: int| 0 <= a < ct1.len() implies (#[trigger] ct1[a]).0 < n by {
        assert(ct1[a].0 == ct0[a].0);
    }
    assert forall|a: int| 0 <= a < ct1.len() implies nodes_below((#[trigger] ct1[a]).1, n) by {
        if a == k {
            let ns = ct1[a].1;
            assert forall|q: int| 0 <= q < ns.len() implies args_below((#[trigger] ns[q]).1, n) by {
                if q < ct0[a].1.len() {
                    assert(ns[q] == ct0[a].1[q]);
                } else {
                    assert(ns[q] == es[i].0);
                }
            }
        } else {
            assert(ct1[a] == ct0[a]);
        }
    }
}

#[verifier::rlimit(50)]
proof fn lemma_rev_new(ct0: Seq<(u32, Seq<NodeV>)>, ct1: Seq<(u32, Seq<NodeV>)>, es: Seq<(NodeV, Id)>, i: int, n: nat)
    requires
        rev_inv(ct0, es, i, n),
        0 <= i < es.len(),
        es[i].1@ < n,
        ct_lacks(ct0, es[i].1.0),
        args_below(es[i].0.1, n),
        ct1 == ct0.push((es[i].1.0, seq![es[i].0])),
    ensures
        rev_inv(ct1, es, i + 1, n),
{
    reveal(rev_inv);
    let id = es[i].1.0;
    assert forall|c: nat| #[trigger] nodes_with_value(es.take(i + 1), c) == nodes_with_value(es.take(i), c) + if es[i].1@ == c {
        seq![es[i].0]
    } else {
        Seq::<NodeV>::empty()
    } by {
        lemma_nodes_with_value_step(es, i, c);
    }
    assert forall|a: int| 0 <= a < ct1.len() implies (#[trigger] ct1[a]).1 == nodes_with_value(es.take(i + 1), ct1[a].0 as nat) by {
        assert(nodes_with_value(es.take(i + 1), ct1[a].0 as nat) == nodes_with_value(es.take(i), ct1[a].0 as nat) + if es[i].1@
            == ct1[a].0 as nat {
            seq![es[i].0]
        } else {
            Seq::<NodeV>::empty()
        });
        if a < ct0.len() {
            assert(ct1[a] == ct0[a]);
            assert(ct0[a].0 != id);
        } else {
            assert forall|j: int| 0 <= j < es.take(i).len() implies (#[trigger] es.take(i)[j]).1@ != id as nat by {
                assert(es.take(i)[j] == es[j]);
                if es[j].1@ == id as nat {
                    assert(key_listed(ct0, es[j].1@));
                    reveal(key_listed);
                    let b = choose|b: int| 0 <= b < ct0.len() && (#[trigger] ct0[b]).0 == es[j].1@;
                }
            }
            lemma_nodes_with_value_absent(es.take(i), id as nat);
            assert(Seq::<NodeV>::empty() + seq![es[i].0] =~= seq![es[i].0]);
        }
    }
    assert forall|a: int| 0 <= a < ct1.len() implies id_used(es, i + 1, (#[trigger] ct1[a]).0 as nat) by {
        reveal(id_used);
        if a < ct0.len() {
            assert(id_used(es, i, ct0[a].0 as nat));
            let j = choose|j: int| 0 <= j < i && (#[trigger] es[j]).1@ == ct0[a].0 as nat;
            assert(es[j].1@ == ct1[a].0);
        } else {
            assert(es[i].1@ == ct1[a].0);
        }
    }
    assert forall|j: int| 0 <= j < i + 1 implies key_listed(ct1, (#[trigger] es[j]).1@) by {
        reveal(key_listed);
        if j < i {
            assert(key_listed(ct0, es[j].1@));
            let a = choose|a: int| 0 <= a < ct0.len() && (#[trigger] ct0[a]).0 == es[j].1@;
            assert(ct1[a] == ct0[a]);
        } else {
            assert(ct1[ct0.len() as int].0 == es[j].1@);
        }
    }
    assert forall|a: int, b: int| 0 <= a < b < ct1.len() implies (#[trigger] ct1[a]).0 != (#[trigger] ct1[b]).0 by {
        if b < ct0.len() {
            assert(ct1[a] == ct0[a] && ct1[b] == ct0[b]);
        } else {
            assert(ct1[a] == ct0[a]);
            assert(ct0[a].0 != id);
        }
    }
    assert forall|a: int| 0 <= a < ct1.len() implies (#[trigger] ct1[a]).0 < n by {
        if a < ct0.len() {
            assert(ct1[a] == ct0[a]);
        }
    }
    assert forall|a: int| 0 <= a < ct1.len() implies nodes_below((#[trigger] ct1[a]).1, n) by {
        if a < ct0.len() {
            assert(ct1[a] == ct0[a]);
        } else {
            let ns = ct1[a].1;
            assert forall|q: int| 0 <= q < ns.len() implies args_below((#[trigger] ns[q]).1, n) by {
                assert(ns[q] == es[i].0);
            }
        }
    }
}

/// What the class table built from all of `es` holds.
#[verifier::rlimit(50)]
proof fn lemma_rev_done(ct: Seq<(u32, Seq<NodeV>)>, es: Seq<(NodeV, Id)>, n: nat)
    requires
        rev_inv(ct, es, es.len() as int, n),
    ensures
        forall|a: int, b: int| 0 <= a < b < ct.len() ==> (#[trigger] ct[a]).0 != (#[trigger] ct[b]).0,
        forall|k: int| 0 <= k < ct.len() ==> id_used(es, es.len() as int, (#[trigger] ct[k]).0 as nat),
        forall|j: int| 0 <= j < es.len() ==> key_listed(ct, (#[trigger] es[j]).1@),
        forall|k: int| 0 <= k < ct.len() ==> (#[trigger] ct[k]).1 == nodes_with_value(es, ct[k].0 as nat),
        forall|k: int| 0 <= k < ct.len() ==> nodes_below((#[trigger] ct[k]).1, n),
        forall|k: int| 0 <= k < ct.len() ==> (#[trigger] ct[k]).0 < n,
{
    reveal(rev_inv);
    assert forall|k: int| 0 <= k < ct.len() implies (#[trigger] ct[k]).1 == nodes_with_value(es, ct[k].0 as nat) by {
        assert(es.take(es.len() as int) =~= es);
    }
}

/// Sorting the finished class table by key gives the class map of `es`.
proof fn lemma_rev_sorted(
    ct0: Seq<(u32, Seq<NodeV>)>,
    ct1: Seq<(u32, Seq<NodeV>)>,
    p: Seq<int>,
    es: Seq<(NodeV, Id)>,
    cls: Seq<nat>,
    t: Seq<((Symbol, Seq<u32>), u32)>,
)
    requires
        rev_inv(ct0, es, es.len() as int, cls.len()),
        sorted_from(ct1, ct0, p),
        forall|i: int, j: int| 0 <= i < j < ct1.len() ==> #[trigger] ct1[i].0 <= #[trigger] ct1[j].0,
        es == entries_of(t),
        forall|j: int| 0 <= j < es.len() ==> canonical_entry(cls, #[trigger] es[j]),
        forall|e: int| 0 <= e < cls.len() ==> #[trigger] class_has_entry(t, cls, cls[e]),
    ensures
        class_map_ok(ct1, es, cls),
        forall|a: int, b: int| 0 <= a < b < ct1.len() ==> (#[trigger] ct1[a]).0 != (#[trigger] ct1[b]).0,
        forall|k: int| 0 <= k < ct1.len() ==> nodes_below((#[trigger] ct1[k]).1, cls.len()),
        forall|k: int| 0 <= k < ct1.len() ==> (#[trigger] ct1[k]).0 < cls.len(),
{
    lemma_rev_done(ct0, es, cls.len());
    lemma_sorted_keys(ct0, ct1, p);
    lemma_sorted_values(ct0, ct1, p, es, cls.len());
    lemma_sorted_roots(ct0, ct1, p, es, cls, t);
    assert forall|k: int| 0 <= k < ct1.len() implies (#[trigger] ct1[k]).0 < cls.len() by {
        assert(ct1[k] == ct0[p[k]]);
    }
}

impl EGraph {
    /// Rebuilds the class map from the node table: each class with its
    /// nodes, classes ascending.
    #[verifier::rlimit(60)]
    fn rebuild_class_map(&mut self)
        requires
            old(self).wf(),
            forall|j: int|
                0 <= j < old(self).entries().len() ==> canonical_entry(old(self).classes(), #[trigger] old(self).entries()[j]),
        ensures
            final(self).wf(),
            final(self).entries() == old(self).entries(),
            final(self).classes() == old(self).classes(),
            final(self).class_count() == old(self).class_count(),
            class_map_ok(final(self).class_map(), final(self).entries(), final(self).classes()),
    {
        let ghost es = self.entries();
        let ghost cls = self.classes();
        proof {
            self.lemma_entries();
            self.lemma_classes_facts();
        }
        ct_clear(&mut self.rev);
        let n = nt_len(&self.nodes);
        let mut i: usize = 0;
        proof {
            reveal(rev_inv);
            assert(es.take(0) =~= Seq::<(NodeV, Id)>::empty());
        }
        while i < n
            invariant
                n == es.len(),
                es == self.entries(),
                es == entries_of(node_table(self.nodes)),
                cls == self.classes(),
                self.uf == old(self).uf,
                node_table(self.nodes) == node_table(old(self).nodes),
                forall|j: int| 0 <= j < es.len() ==> args_below((#[trigger] es[j]).0.1, cls.len()),
                forall|j: int| 0 <= j < es.len() ==> (#[trigger] es[j]).1@ < cls.len(),
                i <= n,
                rev_inv(class_table(self.rev), es, i as int, cls.len()),
            decreases n - i,
        {
            let ghost ct0 = class_table(self.rev);
            let (key, id) = match nt_get_index(&self.nodes, i) {
                Some(e) => e,
                None => {
                    proof {
                        assert(false);
                    }
                    return;
                },
            };
            let node = node_of_key(&key);
            proof {
                assert(es[i as int] == (node@, Id(id)));
            }
            match ct_get_index_of(&self.rev, id) {
                Some(k) => {
                    ct_push_at(&mut self.rev, k, node);
                    proof {
                        lemma_rev_push(ct0, class_table(self.rev), k as int, es, i as int, cls.len());
                    }
                },
                None => {
                    let mut v: Vec<Node> = Vec::new();
                    v.push(node);
                    ct_insert(&mut self.rev, id, v);
                    proof {
                        lemma_ct_set_new(ct0, id, node_views(v@));
                        assert(node_views(v@) =~= seq![node@]);
                        lemma_rev_new(ct0, class_table(self.rev), es, i as int, cls.len());
                    }
                },
            }
            i = i + 1;
        }
        let ghost ct0 = class_table(self.rev);
        ct_sort_keys(&mut self.rev);
        proof {
            let ct1 = class_table(self.rev);
            let p = choose|p: Seq<int>| #[trigger] is_perm(p, ct0.len()) && forall|i: int| 0 <= i < ct1.len() ==> #[trigger] ct1[i] == ct0[p[i]];
            assert(sorted_from(ct1, ct0, p));
            lemma_rev_sorted(ct0, ct1, p, es, cls, node_table(self.nodes));
        }
    }

    /// Restores the invariants after unions: every node is put back with
    /// its arguments canonicalized, merging the classes of nodes that became
    /// equal, until nothing changes; then the class map is rebuilt. The
    /// table then holds exactly the old entries canonicalized, and the
    /// classes are the least congruence over them that merges what was
    /// merged.
    pub fn rebuild(&mut self)
        requires
            old(self).wf(),
        ensures
            final(self).wf(),
            coarser(final(self).classes(), old(self).classes()),
            final(self).classes().len() == old(self).classes().len(),
            final(self).entries().len() <= old(self).entries().len(),
            final(self).class_count() <= old(self).class_count(),
            forall|j: int|
                0 <= j < old(self).entries().len() ==> final(self).entries().contains(
                    (
                        canon(final(self).classes(), (#[trigger] old(self).entries()[j]).0),
                        Id(final(self).classes()[old(self).entries()[j].1@ as int] as u32),
                    ),
                ),
            forall|a: int|
                0 <= a < final(self).entries().len() ==> rebuilt_entries(old(self).entries(), final(self).classes()).contains(
                    #[trigger] final(self).entries()[a],
                ),
            forall|j: int|
                0 <= j < final(self).entries().len() ==> canonical_entry(final(self).classes(), #[trigger] final(self).entries()[j]),
            class_map_ok(final(self).class_map(), final(self).entries(), final(self).classes()),
            congruence_above(final(self).classes(), old(self).classes(), old(self).entries()),
            forall|q: Seq<nat>|
                #[trigger] congruence_above(q, old(self).classes(), old(self).entries()) ==> coarser(q, final(self).classes()),
    {
        let ghost es0 = self.entries();
        let ghost cls0 = self.classes();
        proof {
            self.lemma_entries();
            assert forall|j: int| 0 <= j < es0.len() implies kept(es0, cls0, (#[trigger] es0[j]).0, es0[j].1) by {
                assert(same_mod(cls0, es0[j].0, es0[j].0));
            }
        }
        let mut keep_going = true;
        while keep_going
            invariant
                self.wf(),
                es0 == old(self).entries(),
                cls0 == old(self).classes(),
                forall|j: int| 0 <= j < es0.len() ==> args_below((#[trigger] es0[j]).0.1, cls0.len()),
                forall|j: int| 0 <= j < es0.len() ==> (#[trigger] es0[j]).1@ < cls0.len(),
                coarser(self.classes(), cls0),
                self.classes().len() == cls0.len(),
                self.entries().len() <= es0.len(),
                self.class_count() <= old(self).class_count(),
                forall|j: int| 0 <= j < es0.len() ==> kept(self.entries(), self.classes(), (#[trigger] es0[j]).0, es0[j].1),
                forall|a: int|
                    0 <= a < self.entries().len() ==> kept(
                        es0,
                        self.classes(),
                        (#[trigger] self.entries()[a]).0,
                        self.entries()[a].1,
                    ),
                forall|q: Seq<nat>| #[trigger] congruence_above(q, cls0, es0) ==> coarser(q, self.classes()),
                !keep_going ==> forall|j: int|
                    0 <= j < self.entries().len() ==> canonical_entry(self.classes(), #[trigger] self.entries()[j]),
            decreases self.class_count() + if keep_going {
                1nat
            } else {
                0nat
            },
        {
            let ghost before = *self;
            proof {
                before.lemma_entries();
                assert forall|q: Seq<nat>| #[trigger] congruence_above(q, cls0, es0) implies congruence_above(
                    q,
                    before.classes(),
                    before.entries(),
                ) by {
                    lemma_congruent_transfer(q, before.classes(), es0, before.entries());
                }
            }
            keep_going = self.rebuild_pass();
            proof {
                assert forall|q: Seq<nat>| #[trigger] congruence_above(q, cls0, es0) implies coarser(q, self.classes()) by {
                    assert(congruence_above(q, before.classes(), before.entries()));
                }
                self.lemma_entries();
                lemma_coarser_trans(self.classes(), before.classes(), cls0);
                lemma_coarser_refl(self.classes());
                lemma_kept_trans(es0, before.entries(), self.entries(), before.classes(), self.classes(), self.classes());
                lemma_kept_trans(self.entries(), before.entries(), es0, self.classes(), before.classes(), self.classes());
            }
        }
        let ghost es1 = self.entries();
        let ghost cls1 = self.classes();
        proof {
            self.lemma_entries();
            self.lemma_classes_facts();
            lemma_kept_covers(es0, es1, cls1);
            lemma_kept_within(es0, es1, cls1);
            lemma_rebuilt_congruent(self, es0);
        }
        self.rebuild_class_map();
    }
}

proof fn lemma_coarser_refl(c: Seq<nat>)
    ensures
        coarser(c, c),
{
}

/// Entries that each have a counterpart in `b` (under `c1`), whose entries
/// each have a counterpart in `c` (under `c2`), have a counterpart in `c`
/// under any coarsening `cls` of both.
proof fn lemma_kept_trans(
    a: Seq<(NodeV, Id)>,
    b: Seq<(NodeV, Id)>,
    c: Seq<(NodeV, Id)>,
    c1: Seq<nat>,
    c2: Seq<nat>,
    cls: Seq<nat>,
)
    requires
        coarser(cls, c1),
        coarser(cls, c2),
        c1.len() == cls.len(),
        c2.len() == cls.len(),
        forall|i: int| 0 <= i < a.len() ==> args_below((#[trigger] a[i]).0.1, cls.len()) && a[i].1@ < cls.len(),
        forall|i: int| 0 <= i < b.len() ==> args_below((#[trigger] b[i]).0.1, cls.len()) && b[i].1@ < cls.len(),
        forall|i: int| 0 <= i < c.len() ==> args_below((#[trigger] c[i]).0.1, cls.len()) && c[i].1@ < cls.len(),
        forall|i: int| 0 <= i < a.len() ==> kept(b, c1, (#[trigger] a[i]).0, a[i].1),
        forall|x: int| 0 <= x < b.len() ==> kept(c, c2, (#[trigger] b[x]).0, b[x].1),
    ensures
        forall|i: int| 0 <= i < a.len() ==> kept(c, cls, (#[trigger] a[i]).0, a[i].1),
{
    assert forall|i: int| 0 <= i < a.len() implies kept(c, cls, (#[trigger] a[i]).0, a[i].1) by {
        assert(kept(b, c1, a[i].0, a[i].1));
        let x = choose|x: int| 0 <= x < b.len() && same_mod(c1, (#[trigger] b[x]).0, a[i].0) && c1[b[x].1@ as int] == c1[a[i].1@ as int];
        assert(kept(c, c2, b[x].0, b[x].1));
        let y = choose|y: int| 0 <= y < c.len() && same_mod(c2, (#[trigger] c[y]).0, b[x].0) && c2[c[y].1@ as int] == c2[b[x].1@ as int];
        lemma_coarser_same_mod(cls, c1, b[x].0, a[i].0);
        lemma_coarser_same_mod(cls, c2, c[y].0, b[x].0);
        lemma_same_mod_trans(cls, c[y].0, b[x].0, a[i].0);
        let ia = a[i].1@ as int;
        let ib = b[x].1@ as int;
        let ic = c[y].1@ as int;
        assert(cls[ib] == cls[ia]);
        assert(cls[ic] == cls[ib]);
    }
}

/// When every entry of `es1` is canonical under `cls` and each entry of
/// `es0` has a counterpart in `es1`, then `es1` holds each entry of `es0`
/// canonicalized under `cls`.
proof fn lemma_kept_covers(es0: Seq<(NodeV, Id)>, es1: Seq<(NodeV, Id)>, cls: Seq<nat>)
    requires
        forall|i: int| 0 <= i < cls.len() ==> #[trigger] cls[i] < u32::MAX,
        forall|i: int| 0 <= i < es0.len() ==> args_below((#[trigger] es0[i]).0.1, cls.len()) && es0[i].1@ < cls.len(),
        forall|i: int| 0 <= i < es1.len() ==> (#[trigger] es1[i]).1@ < cls.len(),
        forall|j: int| 0 <= j < es1.len() ==> canonical_entry(cls, #[trigger] es1[j]),
        forall|j: int| 0 <= j < es0.len() ==> kept(es1, cls, (#[trigger] es0[j]).0, es0[j].1),
    ensures
        forall|j: int|
            0 <= j < es0.len() ==> es1.contains(
                (canon(cls, (#[trigger] es0[j]).0), Id(cls[es0[j].1@ as int] as u32)),
            ),
{
    assert forall|j: int|
        0 <= j < es0.len() implies es1.contains((canon(cls, (#[trigger] es0[j]).0), Id(cls[es0[j].1@ as int] as u32))) by {
        assert(kept(es1, cls, es0[j].0, es0[j].1));
        let y = choose|y: int|
            0 <= y < es1.len() && same_mod(cls, (#[trigger] es1[y]).0, es0[j].0) && cls[es1[y].1@ as int] == cls[es0[j].1@ as int];
        lemma_canonical_is_canon(cls, es1[y], es0[j]);
    }
}

/// When every entry of `es1` is canonical under `cls` and has a counterpart
/// in `es0`, then it is an entry of `es0` canonicalized under `cls`.
proof fn lemma_kept_within(es0: Seq<(NodeV, Id)>, es1: Seq<(NodeV, Id)>, cls: Seq<nat>)
    requires
        forall|i: int| 0 <= i < cls.len() ==> #[trigger] cls[i] < u32::MAX,
        forall|i: int| 0 <= i < es0.len() ==> args_below((#[trigger] es0[i]).0.1, cls.len()) && es0[i].1@ < cls.len(),
        forall|i: int| 0 <= i < es1.len() ==> (#[trigger] es1[i]).1@ < cls.len(),
        forall|j: int| 0 <= j < es1.len() ==> canonical_entry(cls, #[trigger] es1[j]),
        forall|a: int| 0 <= a < es1.len() ==> kept(es0, cls, (#[trigger] es1[a]).0, es1[a].1),
    ensures
        forall|a: int| 0 <= a < es1.len() ==> rebuilt_entries(es0, cls).contains(#[trigger] es1[a]),
{
    assert forall|a: int| 0 <= a < es1.len() implies rebuilt_entries(es0, cls).contains(#[trigger] es1[a]) by {
        assert(kept(es0, cls, es1[a].0, es1[a].1));
        let j = choose|j: int|
            0 <= j < es0.len() && same_mod(cls, (#[trigger] es0[j]).0, es1[a].0) && cls[es0[j].1@ as int] == cls[es1[a].1@ as int];
        lemma_same_mod_sym(cls, es0[j].0, es1[a].0);
        lemma_canonical_is_canon(cls, es1[a], es0[j]);
        assert(rebuilt_entries(es0, cls)[j] == es1[a]);
    }
}

/// A canonical entry equal to `e` up to classes is `e` canonicalized.
proof fn lemma_canonical_is_canon(cls: Seq<nat>, c: (NodeV, Id), e: (NodeV, Id))
    requires
        forall|i: int| 0 <= i < cls.len() ==> #[trigger] cls[i] < u32::MAX,
        args_below(e.0.1, cls.len()),
        e.1@ < cls.len(),
        c.1@ < cls.len(),
        canonical_entry(cls, c),
        same_mod(cls, c.0, e.0),
        cls[c.1@ as int] == cls[e.1@ as int],
    ensures
        c == (canon(cls, e.0), Id(cls[e.1@ as int] as u32)),
{
    assert(c.0 =~= canon(cls, e.0)) by {
        assert(c.0.1 =~= canon(cls, e.0).1) by {
            assert forall|k: int| 0 <= k < c.0.1.len() implies c.0.1[k] == canon(cls, e.0).1[k] by {
                assert(cls[c.0.1[k]@ as int] == c.0.1[k]@);
                assert(cls[c.0.1[k]@ as int] == cls[e.0.1[k]@ as int]);
                assert(e.0.1[k]@ < cls.len());
            }
        }
    }
    assert(c.1 == Id(cls[e.1@ as int] as u32));
}

proof fn lemma_nodes_with_value_absent(es: Seq<(NodeV, Id)>, c: nat)
    requires
        forall|j: int| 0 <= j < es.len() ==> (#[trigger] es[j]).1@ != c,
    ensures
        nodes_with_value(es, c) == Seq::<NodeV>::empty(),
    decreases es.len(),
{
    if es.len() > 0 {
        assert forall|j: int| 0 <= j < es.drop_last().len() implies (#[trigger] es.drop_last()[j]).1@ != c by {
            assert(es.drop_last()[j] == es[j]);
        }
        lemma_nodes_with_value_absent(es.drop_last(), c);
        assert(es.last().1@ != c);
        assert(Seq::<NodeV>::empty() + Seq::<NodeV>::empty() =~= Seq::<NodeV>::empty());
    }
}

} // verus!
