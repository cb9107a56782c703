//! An e-graph whose hash-consed node table is also its union-find: the entry
//! of each node holds its parent's id, an id is the position of an entry,
//! and a class is named by the id of its root.
use vstd::prelude::*;

use indexmap::IndexMap;

use crate::util::unionfind::{
    coarser, count_roots, lemma_coarser_trans, lemma_count_roots_bound, lemma_count_roots_drop_one, lemma_count_roots_prefix,
};

verus! {

/// An e-class id: the position of an entry of the node table.
pub type Id = usize;

/// A function or variable name.
pub type Name = String;

/// A node: a function name applied to e-classes.
#[derive(Debug)]
pub struct Node {
    f: Name,
    args: Vec<Id>,
}

/// The value of a node: its name's text and its arguments.
pub type RNodeV = (Seq<char>, Seq<usize>);

impl View for Node {
    type V = (Seq<char>, Seq<usize>);

    closed spec fn view(&self) -> (Seq<char>, Seq<usize>) {
        (self.f@, self.args@)
    }
}

fn copy_ids(v: &Vec<usize>) -> (r: Vec<usize>)
    ensures
        r@ == v@,
{
    let mut out: Vec<usize> = Vec::new();
    let mut i: usize = 0;
    while i < v.len()
        invariant
            i <= v@.len(),
            out@ == v@.take(i as int),
        decreases v@.len() - i,
    {
        out.push(v[i]);
        proof {
            assert(v@.take(i + 1int) =~= v@.take(i as int).push(v@[i as int]));
        }
        i = i + 1;
    }
    proof {
        assert(v@.take(v@.len() as int) =~= v@);
    }
    out
}

impl Clone for Node {
    fn clone(&self) -> (r: Self)
        ensures
            r@ == self@,
    {
        Node { f: self.f.clone(), args: copy_ids(&self.args) }
    }
}

// ---------------------------------------------------------------------------
// The node table
// ---------------------------------------------------------------------------

/// A node as a key: the symbol and the argument ids.
pub type TKey = (String, Vec<usize>);

/// The entries of a node table, in order: each node's key with its parent id.
pub uninterp spec fn node_entries(m: IndexMap<(String, Vec<usize>), usize>) -> Seq<((Seq<char>, Seq<usize>), usize)>;

/// A key as values.
pub open spec fn tkey_view(k: (String, Vec<usize>)) -> (Seq<char>, Seq<usize>) {
    (k.0@, k.1@)
}

/// No entry of `t` has the key `k`.
pub open spec fn tlacks(t: Seq<((Seq<char>, Seq<usize>), usize)>, k: (Seq<char>, Seq<usize>)) -> bool {
    forall|i: int| 0 <= i < t.len() ==> (#[trigger] t[i]).0 != k
}

/// An empty table (`IndexMap::new`).
#[verifier::external_body]
fn tb_new() -> (r: IndexMap<(String, Vec<usize>), usize>)
    ensures
        node_entries(r) == Seq::<((Seq<char>, Seq<usize>), usize)>::empty(),
{
    IndexMap::new()
}

/// Number of entries (`IndexMap::len`).
#[verifier::external_body]
fn tb_len(m: &IndexMap<(String, Vec<usize>), usize>) -> (r: usize)
    ensures
        r == node_entries(*m).len(),
{
    m.len()
}

/// The entry at position `i`, copied out (`IndexMap::get_index`).
#[verifier::external_body]
fn tb_get_index(m: &IndexMap<(String, Vec<usize>), usize>, i: usize) -> (r: Option<((String, Vec<usize>), usize)>)
    ensures
        i < node_entries(*m).len() ==> r is Some && (tkey_view((r->0).0), (r->0).1) == node_entries(*m)[i as int],
        i >= node_entries(*m).len() ==> r is None,
{
    m.get_index(i).map(|(k, v)| (k.clone(), *v))
}

/// The position of key `k` (`IndexMap::get_index_of`).
#[verifier::external_body]
fn tb_get_index_of(m: &IndexMap<(String, Vec<usize>), usize>, k: &(String, Vec<usize>)) -> (r: Option<usize>)
    ensures
        r matches Some(i) ==> i < node_entries(*m).len() && node_entries(*m)[i as int].0 == tkey_view(*k),
        r is None ==> tlacks(node_entries(*m), tkey_view(*k)),
{
    m.get_index_of(k)
}

/// Appends an entry with a key the table lacks (`IndexMap::insert`).
#[verifier::external_body]
fn tb_push(m: &mut IndexMap<(String, Vec<usize>), usize>, k: (String, Vec<usize>), v: usize)
    requires
        tlacks(node_entries(*old(m)), tkey_view(k)),
    ensures
        node_entries(*final(m)) == node_entries(*old(m)).push((tkey_view(k), v)),
{
    m.insert(k, v);
}

/// Sets the value of the entry at position `i` (`IndexMap::get_index_mut`).
#[verifier::external_body]
fn tb_set_value(m: &mut IndexMap<(String, Vec<usize>), usize>, i: usize, v: usize)
    requires
        i < node_entries(*old(m)).len(),
    ensures
        node_entries(*final(m)) == node_entries(*old(m)).update(i as int, (node_entries(*old(m))[i as int].0, v)),
{
    *m.get_index_mut(i).unwrap().1 = v;
}

/// A copy of the table (`IndexMap::clone`).
#[verifier::external_body]
fn tb_clone(m: &IndexMap<(String, Vec<usize>), usize>) -> (r: IndexMap<(String, Vec<usize>), usize>)
    ensures
        node_entries(r) == node_entries(*m),
{
    m.clone()
}

/// The node of a key.
pub(crate) open spec fn key_rnode(k: (Seq<char>, Seq<usize>)) -> RNodeV {
    (k.0, k.1)
}

/// The key of a node.
pub(crate) open spec fn rnode_key(n: RNodeV) -> (Seq<char>, Seq<usize>) {
    (n.0, n.1)
}

fn key_of(n: &Node) -> (r: TKey)
    ensures
        tkey_view(r) == rnode_key(n@),
{
    (n.f.clone(), copy_ids(&n.args))
}

fn node_of(k: &TKey) -> (r: Node)
    ensures
        r@ == key_rnode(tkey_view(*k)),
{
    Node { f: k.0.clone(), args: copy_ids(&k.1) }
}

/// The position of the first entry of `es` with node `c`, if any.
pub open spec fn entry_index(es: Seq<(RNodeV, usize)>, c: RNodeV) -> Option<nat>
    decreases es.len(),
{
    if es.len() == 0 {
        None
    } else if entry_index(es.drop_last(), c) is Some {
        entry_index(es.drop_last(), c)
    } else if es.last().0 == c {
        Some((es.len() - 1) as nat)
    } else {
        None
    }
}

/// No entry of `es` has the node `c`.
pub open spec fn lacks(es: Seq<(RNodeV, usize)>, c: RNodeV) -> bool {
    forall|i: int| 0 <= i < es.len() ==> (#[trigger] es[i]).0 != c
}

#[verifier::spinoff_prover]
#[verifier::rlimit(40)]
proof fn lemma_entry_index(es: Seq<(RNodeV, usize)>, c: RNodeV)
    ensures
        entry_index(es, c) matches Some(i) ==> i < es.len() && es[i as int].0 == c,
        entry_index(es, c) is None <==> lacks(es, c),
        forall|i: int|
            0 <= i < es.len() && es[i].0 == c && (forall|j: int| 0 <= j < i ==> es[j].0 != c) ==> entry_index(es, c) == Some(
                i as nat,
            ),
    decreases es.len(),
{
    if es.len() > 0 {
        let s = es.drop_last();
        lemma_entry_index(s, c);
        if lacks(es, c) {
            assert forall|i: int| 0 <= i < s.len() implies (#[trigger] s[i]).0 != c by {
                assert(s[i] == es[i]);
            }
        }
        if entry_index(es, c) is None {
            assert forall|i: int| 0 <= i < es.len() implies (#[trigger] es[i]).0 != c by {
                if i < s.len() {
                    assert(s[i] == es[i]);
                }
            }
        }
        if let Some(i) = entry_index(s, c) {
            assert(s[i as int] == es[i as int]);
        }
        assert forall|i: int|
            0 <= i < es.len() && es[i].0 == c && (forall|j: int| 0 <= j < i ==> es[j].0 != c) implies entry_index(es, c) == Some(
                i as nat,
            ) by {
            if i < s.len() {
                assert(s[i] == es[i]);
                assert forall|j: int| 0 <= j < i implies s[j].0 != c by {
                    assert(s[j] == es[j]);
                }
            } else {
                assert(lacks(s, c)) by {
                    assert forall|j: int| 0 <= j < s.len() implies (#[trigger] s[j]).0 != c by {
                        assert(s[j] == es[j]);
                    }
                }
            }
        }
    }
}

/// Every id of `ids` is below `n`.
pub open spec fn ids_below(ids: Seq<usize>, n: nat) -> bool {
    forall|k: int| 0 <= k < ids.len() ==> #[trigger] ids[k] < n
}

/// A node with its arguments replaced by their roots.
pub open spec fn rcanon(l: Seq<nat>, n: RNodeV) -> RNodeV {
    (n.0, n.1.map_values(|a: usize| l[a as int] as usize))
}

// ---------------------------------------------------------------------------
// The e-graph
// ---------------------------------------------------------------------------

pub struct EGraph {
    nodes: IndexMap<(String, Vec<usize>), usize>,
    /// The root of each id's class.
    leader: Ghost<Seq<nat>>,
    /// Strictly increases along parent links.
    rank: Ghost<Seq<nat>>,
    /// Strict upper bound of every rank.
    bound: Ghost<nat>,
}

impl EGraph {
    /// The node table: each node with the id of its parent.
    pub closed spec fn entries(&self) -> Seq<(RNodeV, usize)> {
        node_entries(self.nodes).map_values(|e: ((Seq<char>, Seq<usize>), usize)| (key_rnode(e.0), e.1))
    }

    /// The root of every id's class.
    pub closed spec fn roots(&self) -> Seq<nat> {
        self.leader@
    }

    /// Keys are distinct, ids in the table are ids, and parent links lead to
    /// roots without cycles.
    pub closed spec fn wf(&self) -> bool {
        let t = node_entries(self.nodes);
        let n = t.len();
        let l = self.leader@;
        let rk = self.rank@;
        &&& n + 1 < usize::MAX
        &&& l.len() == n
        &&& rk.len() == n
        &&& forall|i: int, j: int| 0 <= i < j < n ==> (#[trigger] t[i]).0 != (#[trigger] t[j]).0
        &&& forall|i: int| 0 <= i < n ==> (#[trigger] t[i]).1 < n
        &&& forall|i: int| 0 <= i < n ==> ids_below((#[trigger] t[i]).0.1, n)
        &&& forall|i: int| 0 <= i < n ==> #[trigger] l[i] < n
        &&& forall|i: int| 0 <= i < n ==> l[#[trigger] l[i] as int] == l[i]
        &&& forall|i: int| 0 <= i < n ==> t[#[trigger] l[i] as int].1 == l[i]
        &&& forall|i: int| 0 <= i < n && (#[trigger] t[i]).1 == i ==> l[i] == i
        &&& forall|i: int| 0 <= i < n ==> l[(#[trigger] t[i]).1 as int] == l[i]
        &&& forall|i: int| 0 <= i < n && (#[trigger] t[i]).1 != i ==> rk[i] < rk[t[i].1 as int]
        &&& forall|i: int| 0 <= i < n ==> #[trigger] rk[i] < self.bound@
    }

    /// In a well-formed e-graph the roots are ids whose root is themselves,
    /// and the table holds distinct nodes over ids.
    pub proof fn lemma_wf_facts(&self)
        requires
            self.wf(),
        ensures
            self.roots().len() == self.entries().len(),
            self.entries().len() + 1 < usize::MAX,
            forall|i: int| 0 <= i < self.roots().len() ==> #[trigger] self.roots()[i] < self.roots().len(),
            forall|i: int|
                0 <= i < self.roots().len() ==> self.roots()[#[trigger] self.roots()[i] as int] == self.roots()[i],
            forall|i: int|
                0 <= i < self.entries().len() ==> self.roots()[(#[trigger] self.entries()[i]).1 as int] == self.roots()[i],
            forall|i: int| 0 <= i < self.entries().len() ==> (#[trigger] self.entries()[i]).1 < self.entries().len(),
            forall|i: int| 0 <= i < self.entries().len() ==> ids_below((#[trigger] self.entries()[i]).0.1, self.entries().len()),
            forall|i: int, j: int|
                0 <= i < j < self.entries().len() ==> (#[trigger] self.entries()[i]).0 != (#[trigger] self.entries()[j]).0,
    {
        let t = node_entries(self.nodes);
        assert forall|i: int, j: int|
            0 <= i < j < self.entries().len() implies (#[trigger] self.entries()[i]).0 != (#[trigger] self.entries()[j]).0 by {
            assert(t[i].0 != t[j].0);
            assert(self.entries()[i].0 == key_rnode(t[i].0));
            assert(self.entries()[j].0 == key_rnode(t[j].0));
            assert(rnode_key(key_rnode(t[i].0)) == t[i].0);
            assert(rnode_key(key_rnode(t[j].0)) == t[j].0);
        }
        assert forall|i: int| 0 <= i < self.entries().len() implies ids_below((#[trigger] self.entries()[i]).0.1, self.entries().len()) by {
            assert(ids_below(t[i].0.1, t.len()));
        }
    }

    /// The root of `a`'s class: parent links are followed up to an id that
    /// is its own parent.
    pub fn find(&self, a: Id) -> (r: Id)
        requires
            self.wf(),
            a < self.entries().len(),
        ensures
            r == self.roots()[a as int],
    {
        let mut x = a;
        proof {
            assert(self.entries().len() == node_entries(self.nodes).len());
        }
        loop
            invariant
                self.wf(),
                x < node_entries(self.nodes).len(),
                a < node_entries(self.nodes).len(),
                self.leader@[x as int] == self.leader@[a as int],
            decreases self.bound@ - self.rank@[x as int],
        {
            let id = match tb_get_index(&self.nodes, x) {
                Some((_, id)) => id,
                None => x,
            };
            if id == x {
                proof {
                    assert(node_entries(self.nodes)[x as int].1 == x);
                    assert(self.leader@[x as int] == x);
                }
                return id;
            }
            x = id;
        }
    }

    /// Whether `a` and `b` are in one class.
    pub fn is_eq(&self, a: Id, b: Id) -> (r: bool)
        requires
            self.wf(),
            a < self.entries().len(),
            b < self.entries().len(),
        ensures
            r == (self.roots()[a as int] == self.roots()[b as int]),
    {
        self.find(a) == self.find(b)
    }

    /// `node` with each argument replaced by the root of its class.
    pub fn canonicalize_node(&self, node: &Node) -> (r: Node)
        requires
            self.wf(),
            ids_below(node@.1, self.entries().len()),
        ensures
            r@ == rcanon(self.roots(), node@),
    {
        let mut args: Vec<Id> = Vec::new();
        let mut i: usize = 0;
        while i < node.args.len()
            invariant
                self.wf(),
                ids_below(node@.1, self.entries().len()),
                i <= node.args@.len(),
                args@ == node.args@.take(i as int).map_values(|a: usize| self.roots()[a as int] as usize),
            decreases node.args@.len() - i,
        {
            let r = self.find(node.args[i]);
            args.push(r);
            proof {
                assert(node.args@.take(i + 1int).map_values(|a: usize| self.roots()[a as int] as usize) =~= node.args@.take(
                    i as int,
                ).map_values(|a: usize| self.roots()[a as int] as usize).push(r));
            }
            i = i + 1;
        }
        proof {
            assert(node.args@.take(node.args@.len() as int) =~= node.args@);
        }
        Node { f: node.f.clone(), args }
    }
}

/// What adding the node `node` does to the table `es0` and roots `l0`,
/// giving `es1`, `l1` and the root `r`: a node whose canonical form is in
/// the table leaves both alone and gives the root of its entry's class; any
/// other is appended in a class of its own.
pub open spec fn added(es0: Seq<(RNodeV, usize)>, l0: Seq<nat>, es1: Seq<(RNodeV, usize)>, l1: Seq<nat>, node: RNodeV, r: usize) -> bool {
    let c = rcanon(l0, node);
    let n = es0.len();
    match entry_index(es0, c) {
        Some(i) => es1 == es0 && l1 == l0 && r == l0[i as int],
        None => es1 == es0.push((c, n as usize)) && l1 == l0.push(n) && r == n,
    }
}

/// Hash-consing: adding the same node twice changes nothing the second
/// time and gives the same root.
pub proof fn lemma_added_twice(
    es0: Seq<(RNodeV, usize)>,
    l0: Seq<nat>,
    es1: Seq<(RNodeV, usize)>,
    l1: Seq<nat>,
    es2: Seq<(RNodeV, usize)>,
    l2: Seq<nat>,
    node: RNodeV,
    r1: usize,
    r2: usize,
)
    requires
        l0.len() == es0.len(),
        ids_below(node.1, es0.len()),
        forall|i: int| 0 <= i < l0.len() ==> #[trigger] l0[i] < l0.len() && l0[l0[i] as int] == l0[i],
        added(es0, l0, es1, l1, node, r1),
        added(es1, l1, es2, l2, node, r2),
    ensures
        es2 == es1,
        l2 == l1,
        r2 == r1,
{
    let c = rcanon(l0, node);
    lemma_entry_index(es0, c);
    match entry_index(es0, c) {
        Some(i) => {},
        None => {
            let n = es0.len();
            assert(rcanon(l1, node) == c) by {
                assert(rcanon(l1, node).1 =~= c.1) by {
                    assert forall|k: int| 0 <= k < node.1.len() implies rcanon(l1, node).1[k] == c.1[k] by {
                        assert(node.1[k] < n);
                        assert(l1[node.1[k] as int] == l0[node.1[k] as int]);
                    }
                }
            }
            lemma_entry_index(es1, c);
            assert(es1[n as int] == (c, n as usize));
            assert forall|j: int| 0 <= j < n implies es1[j].0 != c by {
                assert(es1[j] == es0[j]);
            }
            assert(entry_index(es1, c) == Some(n as nat));
        },
    }
}

/// The nodes of the entries of `es` whose parent is in the class of root
/// `r`, in table order.
pub open spec fn members(es: Seq<(RNodeV, usize)>, l: Seq<nat>, r: nat) -> Seq<RNodeV>
    decreases es.len(),
{
    if es.len() == 0 {
        Seq::empty()
    } else {
        members(es.drop_last(), l, r) + if l[es.last().1 as int] == r {
            seq![es.last().0]
        } else {
            Seq::<RNodeV>::empty()
        }
    }
}

/// The values of a list of nodes.
pub open spec fn rnode_views(v: Seq<Node>) -> Seq<RNodeV> {
    Seq::new(v.len(), |i: int| v[i]@)
}

impl EGraph {
    proof fn lemma_entries_view(&self)
        ensures
            self.entries().len() == node_entries(self.nodes).len(),
            forall|i: int|
                0 <= i < self.entries().len() ==> #[trigger] self.entries()[i] == (
                    key_rnode(node_entries(self.nodes)[i].0),
                    node_entries(self.nodes)[i].1,
                ),
    {
    }

    /// Adds `node` with its arguments canonicalized, unless the table holds
    /// it already; returns the root of its class.
    pub fn add_node(&mut self, node: Node) -> (r: Id)
        requires
            old(self).wf(),
            ids_below(node@.1, old(self).entries().len()),
            old(self).entries().len() + 2 < usize::MAX,
        ensures
            final(self).wf(),
            added(old(self).entries(), old(self).roots(), final(self).entries(), final(self).roots(), node@, r),
    {
        proof {
            self.lemma_entries_view();
        }
        let ghost l0 = self.leader@;
        let ghost es0 = self.entries();
        let ghost t0 = node_entries(self.nodes);
        let node = self.canonicalize_node(&node);
        let new_id = tb_len(&self.nodes);
        let key = key_of(&node);
        proof {
            lemma_entry_index(es0, node@);
            assert(rnode_key(node@) == tkey_view(key));
        }
        let idx = match tb_get_index_of(&self.nodes, &key) {
            Some(i) => {
                proof {
                    assert(es0[i as int].0 == node@) by {
                        assert(rnode_key(es0[i as int].0) == rnode_key(node@));
                    }
                    assert forall|j: int| 0 <= j < i implies es0[j].0 != node@ by {
                        assert(t0[j].0 != t0[i as int].0);
                    }
                }
                i
            },
            None => {
                proof {
                    assert(lacks(es0, node@)) by {
                        assert forall|j: int| 0 <= j < es0.len() implies (#[trigger] es0[j]).0 != node@ by {
                            assert(t0[j].0 != tkey_view(key));
                        }
                    }
                }
                tb_push(&mut self.nodes, key, new_id);
                proof {
                    self.leader@ = l0.push(new_id as nat);
                    self.rank@ = self.rank@.push(0);
                    self.bound@ = self.bound@ + 1;
                    let t = node_entries(self.nodes);
                    let n = t.len();
                    let l = self.leader@;
                    assert(t == t0.push((tkey_view(key), new_id)));
                    assert forall|i: int, j: int| 0 <= i < j < n implies (#[trigger] t[i]).0 != (#[trigger] t[j]).0 by {
                        if j < t0.len() {
                            assert(t[i] == t0[i] && t[j] == t0[j]);
                        } else {
                            assert(t[i] == t0[i]);
                        }
                    }
                    assert forall|i: int| 0 <= i < n implies ids_below((#[trigger] t[i]).0.1, n) by {
                        if i < t0.len() {
                            assert(t[i] == t0[i]);
                            assert(ids_below(t0[i].0.1, t0.len()));
                        } else {
                            assert(t[i].0.1 == node@.1);
                            assert forall|k: int| 0 <= k < t[i].0.1.len() implies #[trigger] t[i].0.1[k] < n by {
                                assert(node@.1[k] == l0[node@.1[k] as int] as usize);
                            }
                        }
                    }
                    assert forall|i: int| 0 <= i < n implies #[trigger] l[i] < n by {}
                    assert forall|i: int| 0 <= i < n implies l[#[trigger] l[i] as int] == l[i] by {}
                    assert forall|i: int| 0 <= i < n implies t[#[trigger] l[i] as int].1 == l[i] by {
                        if i < t0.len() {
                            assert(t[l[i] as int] == t0[l0[i] as int]);
                        }
                    }
                    assert forall|i: int| 0 <= i < n implies l[(#[trigger] t[i]).1 as int] == l[i] by {
                        if i < t0.len() {
                            assert(t[i] == t0[i]);
                        }
                    }
                    assert forall|i: int| 0 <= i < n && (#[trigger] t[i]).1 != i implies self.rank@[i] < self.rank@[t[i].1 as int] by {
                        assert(t[i] == t0[i]);
                    }
                    assert forall|i: int| 0 <= i < n && (#[trigger] t[i]).1 == i implies l[i] == i by {
                        if i < t0.len() {
                            assert(t[i] == t0[i]);
                        }
                    }
                    assert forall|i: int| 0 <= i < n implies (#[trigger] t[i]).1 < n by {
                        if i < t0.len() {
                            assert(t[i] == t0[i]);
                        }
                    }
                    assert forall|i: int| 0 <= i < n implies #[trigger] self.rank@[i] < self.bound@ by {}
                    self.lemma_entries_view();
                    assert(self.entries() =~= es0.push((node@, new_id)));
                }
                new_id
            },
        };
        self.find(idx)
    }

    /// Adds the node named `f` applied to `args` (see `add_node`).
    pub fn add(&mut self, f: &str, args: Vec<Id>) -> (r: Id)
        requires
            old(self).wf(),
            ids_below(args@, old(self).entries().len()),
            old(self).entries().len() + 2 < usize::MAX,
        ensures
            final(self).wf(),
            added(old(self).entries(), old(self).roots(), final(self).entries(), final(self).roots(), (f@, args@), r),
    {
        let node = Node { f: f.to_owned(), args };
        proof {
            assert(node@ == (f@, args@));
        }
        let r = self.add_node(node);
        r
    }

    /// Merges the classes of `a` and `b`: the root of `a`'s class gets the
    /// root of `b`'s as its parent.
    pub fn union(&mut self, a: Id, b: Id)
        requires
            old(self).wf(),
            a < old(self).entries().len(),
            b < old(self).entries().len(),
        ensures
            final(self).wf(),
            ({
                let ra = old(self).roots()[a as int];
                let rb = old(self).roots()[b as int];
                &&& final(self).roots() == old(self).roots().map_values(|x: nat| if x == ra { rb } else { x })
                &&& final(self).entries() == if ra == rb {
                    old(self).entries()
                } else {
                    old(self).entries().update(ra as int, (old(self).entries()[ra as int].0, rb as usize))
                }
            }),
    {
        proof {
            self.lemma_entries_view();
        }
        let ghost l0 = self.leader@;
        let ghost t0 = node_entries(self.nodes);
        let ghost es0 = self.entries();
        let a = self.find(a);
        let b = self.find(b);
        if a != b {
            tb_set_value(&mut self.nodes, a, b);
            proof {
                let rk0 = self.rank@;
                self.leader@ = l0.map_values(|x: nat| if x == a { b as nat } else { x });
                self.rank@ = rk0.update(b as int, if rk0[b as int] > rk0[a as int] { rk0[b as int] } else { rk0[a as int] + 1 });
                self.bound@ = self.bound@ + 1;
                let t = node_entries(self.nodes);
                let n = t.len();
                let l = self.leader@;
                let rk = self.rank@;
                assert(t0[b as int].1 == b);
                assert(t0[a as int].1 == a);
                assert forall|i: int, j: int| 0 <= i < j < n implies (#[trigger] t[i]).0 != (#[trigger] t[j]).0 by {
                    assert(t[i].0 == t0[i].0 && t[j].0 == t0[j].0);
                }
                assert forall|i: int| 0 <= i < n implies ids_below((#[trigger] t[i]).0.1, n) by {
                    assert(t[i].0 == t0[i].0);
                    assert(ids_below(t0[i].0.1, n));
                }
                assert forall|i: int| 0 <= i < n implies (#[trigger] t[i]).1 < n by {
                    if i != a {
                        assert(t[i] == t0[i]);
                    }
                }
                assert forall|i: int| 0 <= i < n implies #[trigger] l[i] < n by {}
                assert forall|i: int| 0 <= i < n implies l[#[trigger] l[i] as int] == l[i] by {
                    assert(l0[l0[i] as int] == l0[i]);
                    assert(l0[b as int] == b);
                }
                assert forall|i: int| 0 <= i < n implies t[#[trigger] l[i] as int].1 == l[i] by {
                    if l0[i] == a {
                        assert(l[i] == b);
                    } else {
                        assert(t[l0[i] as int] == t0[l0[i] as int]);
                    }
                }
                assert forall|i: int| 0 <= i < n && (#[trigger] t[i]).1 == i implies l[i] == i by {
                    if i == a {
                    } else {
                        assert(t[i] == t0[i]);
                    }
                }
                assert forall|i: int| 0 <= i < n implies l[(#[trigger] t[i]).1 as int] == l[i] by {
                    if i == a {
                        assert(l0[b as int] == b);
                    } else {
                        assert(t[i] == t0[i]);
                        assert(l0[t0[i].1 as int] == l0[i]);
                    }
                }
                assert forall|i: int| 0 <= i < n && (#[trigger] t[i]).1 != i implies rk[i] < rk[t[i].1 as int] by {
                    if i == a {
                    } else {
                        assert(t[i] == t0[i]);
                        assert(i != b);
                    }
                }
                assert forall|i: int| 0 <= i < n implies #[trigger] rk[i] < self.bound@ by {}
                self.lemma_entries_view();
                assert(self.entries() =~= es0.update(a as int, (es0[a as int].0, b)));
            }
        } else {
            proof {
                assert(l0.map_values(|x: nat| if x == a { b as nat } else { x }) =~= l0);
            }
        }
    }

    /// The nodes of the entries whose parent is in the class of `class`, in
    /// table order.
    pub fn nodes_in_class(&self, class: Id) -> (r: Vec<Node>)
        requires
            self.wf(),
            class < self.entries().len(),
        ensures
            rnode_views(r@) == members(self.entries(), self.roots(), self.roots()[class as int]),
    {
        proof {
            self.lemma_entries_view();
        }
        let ghost es = self.entries();
        let n = tb_len(&self.nodes);
        let root = self.find(class);
        let mut out: Vec<Node> = Vec::new();
        let mut i: usize = 0;
        proof {
            assert(es.take(0) =~= Seq::<(RNodeV, usize)>::empty());
            assert(rnode_views(out@) =~= Seq::<RNodeV>::empty());
        }
        while i < n
            invariant
                self.wf(),
                es == self.entries(),
                n == es.len(),
                root == self.roots()[class as int],
                i <= n,
                rnode_views(out@) == members(es.take(i as int), self.roots(), root as nat),
            decreases n - i,
        {
            proof {
                self.lemma_entries_view();
            }
            let (key, id) = match tb_get_index(&self.nodes, i) {
                Some(e) => e,
                None => {
                    proof {
                        assert(false);
                    }
                    return out;
                },
            };
            proof {
                assert(es.take(i + 1).drop_last() =~= es.take(i as int));
                assert(es.take(i + 1).last() == es[i as int]);
                assert(es[i as int] == (key_rnode(tkey_view(key)), id));
                self.lemma_wf_facts();
            }
            if self.find(id) == root {
                let ghost before = out@;
                out.push(node_of(&key));
                proof {
                    assert(rnode_views(out@) =~= rnode_views(before).push(key_rnode(tkey_view(key))));
                }
            } else {
                proof {
                    assert(members(es.take(i + 1), self.roots(), root as nat) =~= members(es.take(i as int), self.roots(), root as nat));
                }
            }
            i = i + 1;
        }
        proof {
            assert(es.take(n as int) =~= es);
        }
        out
    }
}

/// The table `es` holds the node `node` with its arguments canonicalized by
/// `l`, in the class of `i`.
pub open spec fn congruent_at(es: Seq<(RNodeV, usize)>, l: Seq<nat>, node: RNodeV, i: nat) -> bool {
    match entry_index(es, rcanon(l, node)) {
        Some(x) => l[x as int] == l[i as int],
        None => false,
    }
}

/// How many of the first `m` nodes of `nodes0`, canonicalized by `l`, the
/// table `es` lacks.
pub open spec fn absent(nodes0: Seq<(RNodeV, usize)>, es: Seq<(RNodeV, usize)>, l: Seq<nat>, m: int) -> nat
    decreases m,
{
    if m <= 0 {
        0
    } else {
        absent(nodes0, es, l, m - 1) + if lacks(es, rcanon(l, nodes0[m - 1].0)) {
            1nat
        } else {
            0nat
        }
    }
}

proof fn lemma_rcanon_idem(l: Seq<nat>, node: RNodeV)
    requires
        forall|k: int| 0 <= k < node.1.len() ==> (#[trigger] node.1[k]) < l.len() && l[node.1[k] as int] < l.len() && l[l[node.1[k] as int] as int] == l[node.1[k] as int],
        forall|k: int| 0 <= k < node.1.len() ==> (#[trigger] l[node.1[k] as int]) < usize::MAX,
    ensures
        rcanon(l, rcanon(l, node)) == rcanon(l, node),
{
    let c = rcanon(l, node);
    assert(c.1.map_values(|a: usize| l[a as int] as usize) =~= c.1) by {
        assert forall|k: int| 0 <= k < c.1.len() implies c.1.map_values(|a: usize| l[a as int] as usize)[k] == c.1[k] by {
            assert(c.1[k] == l[node.1[k] as int] as usize);
        }
    }
}

proof fn lemma_rcanon_agree(l: Seq<nat>, l2: Seq<nat>, node: RNodeV, n0: nat)
    requires
        ids_below(node.1, n0),
        n0 <= l.len(),
        n0 <= l2.len(),
        forall|x: int| 0 <= x < n0 ==> #[trigger] l2[x] == l[x],
    ensures
        rcanon(l2, node) == rcanon(l, node),
{
    assert(rcanon(l2, node).1 =~= rcanon(l, node).1) by {
        assert forall|k: int| 0 <= k < node.1.len() implies rcanon(l2, node).1[k] == rcanon(l, node).1[k] by {
            assert(node.1[k] < n0);
            assert(l2[node.1[k] as int] == l[node.1[k] as int]);
        }
    }
}

proof fn lemma_absent_mono(
    nodes0: Seq<(RNodeV, usize)>,
    es: Seq<(RNodeV, usize)>,
    l: Seq<nat>,
    es2: Seq<(RNodeV, usize)>,
    l2: Seq<nat>,
    m: int,
)
    requires
        0 <= m <= nodes0.len(),
        forall|j: int| 0 <= j < m ==> #[trigger] rcanon(l2, nodes0[j].0) == rcanon(l, nodes0[j].0),
        es.len() <= es2.len(),
        forall|i: int| 0 <= i < es.len() ==> (#[trigger] es2[i]).0 == es[i].0,
    ensures
        absent(nodes0, es2, l2, m) <= absent(nodes0, es, l, m),
        (exists|j: int| 0 <= j < m && lacks(es, #[trigger] rcanon(l, nodes0[j].0)) && !lacks(es2, rcanon(l, nodes0[j].0)))
            ==> absent(nodes0, es2, l2, m) < absent(nodes0, es, l, m),
    decreases m,
{
    if m > 0 {
        lemma_absent_mono(nodes0, es, l, es2, l2, m - 1);
        let c = rcanon(l, nodes0[m - 1].0);
        assert(rcanon(l2, nodes0[m - 1].0) == c);
        if !lacks(es, c) {
            let i = choose|i: int| 0 <= i < es.len() && (#[trigger] es[i]).0 == c;
            assert(es2[i].0 == c);
        }
        if exists|j: int| 0 <= j < m && lacks(es, #[trigger] rcanon(l, nodes0[j].0)) && !lacks(es2, rcanon(l, nodes0[j].0)) {
            let j = choose|j: int| 0 <= j < m && lacks(es, #[trigger] rcanon(l, nodes0[j].0)) && !lacks(es2, rcanon(l, nodes0[j].0));
            if j < m - 1 {
                assert(exists|j2: int| 0 <= j2 < m - 1 && lacks(es, #[trigger] rcanon(l, nodes0[j2].0)) && !lacks(es2, rcanon(l, nodes0[j2].0)));
            }
        }
    }
}

/// The ids below `n0` keep their roots in `l2`.
pub open spec fn agree_below(l2: Seq<nat>, l: Seq<nat>, n0: nat) -> bool {
    &&& n0 <= l.len()
    &&& n0 <= l2.len()
    &&& forall|x: int| 0 <= x < n0 ==> #[trigger] l2[x] == l[x]
}

proof fn lemma_absent_bound(nodes0: Seq<(RNodeV, usize)>, es: Seq<(RNodeV, usize)>, l: Seq<nat>, m: int)
    requires
        0 <= m,
    ensures
        absent(nodes0, es, l, m) <= m,
    decreases m,
{
    if m > 0 {
        lemma_absent_bound(nodes0, es, l, m - 1);
    }
}

/// Nodes equal up to the classes `l`: one symbol, and arguments pairwise in
/// one class.
pub open spec fn rsame_mod(l: Seq<nat>, a: RNodeV, b: RNodeV) -> bool {
    &&& a.0 == b.0
    &&& a.1.len() == b.1.len()
    &&& forall|k: int| 0 <= k < a.1.len() ==> l[(#[trigger] a.1[k]) as int] == l[b.1[k] as int]
}

/// `q`, a class for each id of the table `es0`, is a congruence over its
/// nodes (the node at position `i` being in class `q[i]`) that merges at
/// least what `l0` merges.
pub open spec fn rcongruence_above(q: Seq<nat>, l0: Seq<nat>, es0: Seq<(RNodeV, usize)>) -> bool {
    &&& q.len() == es0.len()
    &&& coarser(q, l0)
    &&& forall|i: int, j: int|
        0 <= i < es0.len() && 0 <= j < es0.len() && #[trigger] rsame_mod(q, es0[i].0, es0[j].0) ==> q[i] == q[j]
}

/// Some node of `es0` equals `node` up to the classes `l` and is in the
/// class of `a`.
pub open spec fn rderived(es0: Seq<(RNodeV, usize)>, l: Seq<nat>, node: RNodeV, a: int) -> bool {
    exists|j: int| 0 <= j < es0.len() && rsame_mod(l, node, (#[trigger] es0[j]).0) && l[a] == l[j]
}

/// Two ids that `l` puts in one class stem from nodes that `q` puts in one
/// class.
spec fn merges_within(q: Seq<nat>, l: Seq<nat>, orig: Seq<nat>) -> bool {
    forall|x: int, y: int| 0 <= x < l.len() && 0 <= y < l.len() && #[trigger] l[x] == #[trigger] l[y] ==> q[orig[x] as int] == q[orig[y] as int]
}

/// `orig` names for each entry of `es` the node of `es0` it stems from:
/// itself for the first entries, and for the others one equal to it up to
/// the classes `l` and in its class.
spec fn traced(es0: Seq<(RNodeV, usize)>, es: Seq<(RNodeV, usize)>, l: Seq<nat>, orig: Seq<nat>) -> bool {
    &&& orig.len() == es.len()
    &&& l.len() == es.len()
    &&& es0.len() <= es.len()
    &&& forall|a: int| 0 <= a < es0.len() ==> #[trigger] orig[a] == a
    &&& forall|a: int| 0 <= a < es.len() ==> #[trigger] orig[a] < es0.len()
    &&& forall|a: int| 0 <= a < es.len() ==> l[a] == l[#[trigger] orig[a] as int]
    &&& forall|a: int| 0 <= a < es.len() ==> rsame_mod(l, (#[trigger] es[a]).0, es0[orig[a] as int].0)
}

/// What `rebuild` keeps while it works on the table `es0` with roots `l0`:
/// the trace of every entry, and that no class merges what a congruence
/// above `l0` keeps apart.
#[verifier::opaque]
spec fn rebuild_trace(es0: Seq<(RNodeV, usize)>, l0: Seq<nat>, es: Seq<(RNodeV, usize)>, l: Seq<nat>, orig: Seq<nat>) -> bool {
    &&& traced(es0, es, l, orig)
    &&& forall|q: Seq<nat>| #[trigger] rcongruence_above(q, l0, es0) ==> merges_within(q, l, orig)
}

/// Roots that are ids and their own roots.
spec fn roots_ok(l: Seq<nat>) -> bool {
    forall|x: int| 0 <= x < l.len() ==> #[trigger] l[x] < l.len() && l[l[x] as int] == l[x]
}

/// The nodes of `es` are over ids below `n`.
spec fn nodes_below(es: Seq<(RNodeV, usize)>, n: nat) -> bool {
    forall|a: int| 0 <= a < es.len() ==> ids_below((#[trigger] es[a]).0.1, n)
}

proof fn lemma_rsame_refl(l: Seq<nat>, a: RNodeV)
    ensures
        rsame_mod(l, a, a),
{
}

proof fn lemma_rsame_sym(l: Seq<nat>, a: RNodeV, b: RNodeV)
    requires
        rsame_mod(l, a, b),
    ensures
        rsame_mod(l, b, a),
{
    assert forall|k: int| 0 <= k < b.1.len() implies l[(#[trigger] b.1[k]) as int] == l[a.1[k] as int] by {
        assert(l[a.1[k] as int] == l[b.1[k] as int]);
    }
}

proof fn lemma_rsame_trans(l: Seq<nat>, a: RNodeV, b: RNodeV, c: RNodeV)
    requires
        rsame_mod(l, a, b),
        rsame_mod(l, b, c),
    ensures
        rsame_mod(l, a, c),
{
    assert forall|k: int| 0 <= k < a.1.len() implies l[(#[trigger] a.1[k]) as int] == l[c.1[k] as int] by {
        assert(l[a.1[k] as int] == l[b.1[k] as int]);
        assert(l[b.1[k] as int] == l[c.1[k] as int]);
    }
}

/// Classes that merge more keep nodes equal.
proof fn lemma_rsame_lift(l: Seq<nat>, l2: Seq<nat>, a: RNodeV, b: RNodeV)
    requires
        rsame_mod(l, a, b),
        ids_below(a.1, l.len()),
        ids_below(b.1, l.len()),
        coarser(l2, l),
    ensures
        rsame_mod(l2, a, b),
{
    assert forall|k: int| 0 <= k < a.1.len() implies l2[(#[trigger] a.1[k]) as int] == l2[b.1[k] as int] by {
        assert(l[a.1[k] as int] == l[b.1[k] as int]);
        assert(a.1[k] < l.len() && b.1[k] < l.len());
    }
}

/// Classes that agree below `n` agree on nodes over ids below `n`.
proof fn lemma_rsame_agree(l: Seq<nat>, l2: Seq<nat>, a: RNodeV, b: RNodeV, n: nat)
    requires
        rsame_mod(l, a, b),
        ids_below(a.1, n),
        ids_below(b.1, n),
        forall|x: int| 0 <= x < n ==> #[trigger] l2[x] == l[x],
    ensures
        rsame_mod(l2, a, b),
{
    assert forall|k: int| 0 <= k < a.1.len() implies l2[(#[trigger] a.1[k]) as int] == l2[b.1[k] as int] by {
        assert(l[a.1[k] as int] == l[b.1[k] as int]);
        assert(a.1[k] < n && b.1[k] < n);
    }
}

/// A node canonicalized is equal to it up to classes.
proof fn lemma_rcanon_rsame(l: Seq<nat>, node: RNodeV)
    requires
        roots_ok(l),
        ids_below(node.1, l.len()),
        l.len() < usize::MAX,
    ensures
        rsame_mod(l, rcanon(l, node), node),
{
    let c = rcanon(l, node);
    assert forall|k: int| 0 <= k < c.1.len() implies l[(#[trigger] c.1[k]) as int] == l[node.1[k] as int] by {
        assert(node.1[k] < l.len());
        assert(l[node.1[k] as int] < l.len());
        assert(c.1[k] == l[node.1[k] as int] as usize);
    }
}

/// Nodes over the first ids that `l` keeps equal, `q` keeps equal.
proof fn lemma_rsame_to_q(q: Seq<nat>, l: Seq<nat>, orig: Seq<nat>, a: RNodeV, b: RNodeV, n: nat)
    requires
        rsame_mod(l, a, b),
        ids_below(a.1, n),
        ids_below(b.1, n),
        n <= l.len(),
        merges_within(q, l, orig),
        forall|x: int| 0 <= x < n ==> #[trigger] orig[x] == x,
    ensures
        rsame_mod(q, a, b),
{
    assert forall|k: int| 0 <= k < a.1.len() implies q[(#[trigger] a.1[k]) as int] == q[b.1[k] as int] by {
        let u = a.1[k] as int;
        let v = b.1[k] as int;
        assert(u < n && v < n);
        assert(l[u] == l[v]);
        assert(orig[u] == u && orig[v] == v);
    }
}

/// Merging the classes of `u` and `v`, which stem from nodes that `q`
/// puts in one class, keeps the classes within `q`.
proof fn lemma_merges_within_merge(q: Seq<nat>, l: Seq<nat>, orig: Seq<nat>, u: int, v: int, l3: Seq<nat>)
    requires
        merges_within(q, l, orig),
        0 <= u < l.len(),
        0 <= v < l.len(),
        q[orig[u] as int] == q[orig[v] as int],
        l3 == l.map_values(|w: nat| if w == l[u] { l[v] } else { w }),
    ensures
        merges_within(q, l3, orig),
{
    assert forall|x: int, y: int|
        0 <= x < l3.len() && 0 <= y < l3.len() && #[trigger] l3[x] == #[trigger] l3[y] implies q[orig[x] as int] == q[orig[y] as int] by {
        if l[x] == l[u] {
            assert(q[orig[x] as int] == q[orig[u] as int]);
        }
        if l[y] == l[u] {
            assert(q[orig[y] as int] == q[orig[u] as int]);
        }
        if l[x] == l[v] {
            assert(q[orig[x] as int] == q[orig[v] as int]);
        }
        if l[y] == l[v] {
            assert(q[orig[y] as int] == q[orig[v] as int]);
        }
        if l[x] != l[u] && l[y] != l[u] {
            assert(l[x] == l[y]);
        }
    }
}

/// At the start of `rebuild` every entry stems from itself.
proof fn lemma_trace_init(es0: Seq<(RNodeV, usize)>, l0: Seq<nat>)
    requires
        l0.len() == es0.len(),
    ensures
        rebuild_trace(es0, l0, es0, l0, Seq::new(es0.len(), |a: int| a as nat)),
{
    reveal(rebuild_trace);
    let orig = Seq::new(es0.len(), |a: int| a as nat);
    assert forall|a: int| 0 <= a < es0.len() implies rsame_mod(l0, (#[trigger] es0[a]).0, es0[orig[a] as int].0) by {
        lemma_rsame_refl(l0, es0[a].0);
    }
    assert forall|q: Seq<nat>| #[trigger] rcongruence_above(q, l0, es0) implies merges_within(q, l0, orig) by {
        assert forall|x: int, y: int|
            0 <= x < l0.len() && 0 <= y < l0.len() && #[trigger] l0[x] == #[trigger] l0[y] implies q[orig[x] as int] == q[orig[y] as int] by {
        }
    }
}

/// Merging the class of an entry `x` holding node `i` canonicalized with
/// the class of `i`'s parent `id` keeps the trace.
proof fn lemma_trace_merge(
    es0: Seq<(RNodeV, usize)>,
    l0: Seq<nat>,
    es1: Seq<(RNodeV, usize)>,
    l1: Seq<nat>,
    orig: Seq<nat>,
    i: int,
    x: int,
    id: int,
    es3: Seq<(RNodeV, usize)>,
    l3: Seq<nat>,
)
    requires
        rebuild_trace(es0, l0, es1, l1, orig),
        roots_ok(l1),
        l1.len() < usize::MAX,
        l0.len() == es0.len(),
        nodes_below(es0, es0.len()),
        nodes_below(es1, es1.len()),
        coarser(l1, l0),
        0 <= i < es0.len(),
        0 <= id < es0.len(),
        l0[id] == l0[i],
        0 <= x < es1.len(),
        es1[x].0 == rcanon(l1, es0[i].0),
        l3 == l1.map_values(|w: nat| if w == l1[l1[x] as int] { l1[id] } else { w }),
        es3.len() == es1.len(),
        forall|k: int| 0 <= k < es1.len() ==> (#[trigger] es3[k]).0 == es1[k].0,
    ensures
        rebuild_trace(es0, l0, es3, l3, orig),
        coarser(l3, l1),
{
    reveal(rebuild_trace);
    let n = es0.len();
    let r = l1[x] as int;
    assert(l1[r] == l1[x]);
    assert(coarser(l3, l1)) by {
        assert forall|s: int, t: int| 0 <= s < l1.len() && 0 <= t < l1.len() && l1[s] == l1[t] implies #[trigger] l3[s] == #[trigger] l3[t] by {}
    }
    lemma_rcanon_rsame(l1, es0[i].0);
    assert forall|q: Seq<nat>| #[trigger] rcongruence_above(q, l0, es0) implies merges_within(q, l3, orig) by {
        assert(merges_within(q, l1, orig));
        let ox = orig[x] as int;
        assert(rsame_mod(l1, es1[x].0, es0[ox].0));
        lemma_rsame_sym(l1, es1[x].0, es0[ox].0);
        lemma_rsame_trans(l1, es0[ox].0, es1[x].0, es0[i].0);
        lemma_rsame_to_q(q, l1, orig, es0[ox].0, es0[i].0, n);
        assert(q[ox] == q[i]);
        assert(q[orig[r] as int] == q[ox]);
        assert(q[id] == q[i]);
        lemma_merges_within_merge(q, l1, orig, r, id, l3);
    }
    assert forall|a: int| 0 <= a < es3.len() implies l3[a] == l3[#[trigger] orig[a] as int] by {
        assert(l1[a] == l1[orig[a] as int]);
    }
    assert forall|a: int| 0 <= a < es3.len() implies rsame_mod(l3, (#[trigger] es3[a]).0, es0[orig[a] as int].0) by {
        assert(rsame_mod(l1, es1[a].0, es0[orig[a] as int].0));
        lemma_rsame_lift(l1, l3, es1[a].0, es0[orig[a] as int].0);
    }
}

/// Appending node `i` canonicalized as a new entry and merging it with the
/// class of `i`'s parent `id` keeps the trace, with the new entry stemming
/// from `i`.
proof fn lemma_trace_push(
    es0: Seq<(RNodeV, usize)>,
    l0: Seq<nat>,
    es1: Seq<(RNodeV, usize)>,
    l1: Seq<nat>,
    orig: Seq<nat>,
    i: int,
    id: int,
    es3: Seq<(RNodeV, usize)>,
    l3: Seq<nat>,
)
    requires
        rebuild_trace(es0, l0, es1, l1, orig),
        roots_ok(l1),
        l1.len() + 1 < usize::MAX,
        l0.len() == es0.len(),
        nodes_below(es0, es0.len()),
        nodes_below(es1, es1.len()),
        coarser(l1, l0),
        0 <= i < es0.len(),
        0 <= id < es0.len(),
        l0[id] == l0[i],
        l3 == l1.push(l1.len()).map_values(|w: nat| if w == l1.len() { l1[id] } else { w }),
        es3.len() == es1.len() + 1,
        forall|k: int| 0 <= k < es1.len() ==> (#[trigger] es3[k]).0 == es1[k].0,
        es3[es1.len() as int].0 == rcanon(l1, es0[i].0),
    ensures
        rebuild_trace(es0, l0, es3, l3, orig.push(i as nat)),
{
    reveal(rebuild_trace);
    let n = es0.len();
    let m = es1.len();
    let l2 = l1.push(m);
    let o2 = orig.push(i as nat);
    assert(forall|x: int| 0 <= x < m ==> #[trigger] l3[x] == l1[x]);
    assert(l3[m as int] == l1[id]);
    assert(l1[id] == l1[i]);
    lemma_rcanon_rsame(l1, es0[i].0);
    assert forall|q: Seq<nat>| #[trigger] rcongruence_above(q, l0, es0) implies merges_within(q, l3, o2) by {
        assert(merges_within(q, l1, orig));
        assert(merges_within(q, l2, o2)) by {
            assert forall|x: int, y: int|
                0 <= x < l2.len() && 0 <= y < l2.len() && #[trigger] l2[x] == #[trigger] l2[y] implies q[o2[x] as int] == q[o2[y] as int] by {
                if x < m && y < m {
                    assert(l1[x] == l1[y]);
                } else if x < m {
                    assert(l1[x] < m);
                } else if y < m {
                    assert(l1[y] < m);
                }
            }
        }
        assert(q[id] == q[i]);
        assert(o2[id] == id);
        assert(l2[m as int] == m);
        assert(l2[id] == l1[id]);
        assert(l3 =~= l2.map_values(|w: nat| if w == l2[m as int] { l2[id] } else { w }));
        lemma_merges_within_merge(q, l2, o2, m as int, id, l3);
    }
    assert forall|a: int| 0 <= a < n implies #[trigger] o2[a] == a by {
        assert(orig[a] == a);
    }
    assert forall|a: int| 0 <= a < es3.len() implies #[trigger] o2[a] < n by {
        if a < m {
            assert(orig[a] < n);
        }
    }
    assert forall|a: int| 0 <= a < es3.len() implies l3[a] == l3[#[trigger] o2[a] as int] by {
        if a < m {
            assert(l1[a] == l1[orig[a] as int]);
            assert(orig[a] < n);
        }
    }
    assert forall|a: int| 0 <= a < es3.len() implies rsame_mod(l3, (#[trigger] es3[a]).0, es0[o2[a] as int].0) by {
        if a < m {
            assert(rsame_mod(l1, es1[a].0, es0[orig[a] as int].0));
            assert(ids_below(es1[a].0.1, m));
            assert(ids_below(es0[orig[a] as int].0.1, n));
            lemma_rsame_agree(l1, l3, es1[a].0, es0[orig[a] as int].0, m);
        } else {
            let c = rcanon(l1, es0[i].0);
            assert(ids_below(c.1, m)) by {
                assert forall|k: int| 0 <= k < c.1.len() implies #[trigger] c.1[k] < m by {
                    assert(es0[i].0.1[k] < n);
                }
            }
            assert(ids_below(es0[i].0.1, n));
            lemma_rsame_agree(l1, l3, c, es0[i].0, m);
        }
    }
}

/// When `rebuild` ends, the classes of the first ids merge nothing that a
/// congruence above `l0` keeps apart, and every entry stems from a node of
/// `es0`.
proof fn lemma_trace_done(es0: Seq<(RNodeV, usize)>, l0: Seq<nat>, es: Seq<(RNodeV, usize)>, l: Seq<nat>, orig: Seq<nat>)
    requires
        rebuild_trace(es0, l0, es, l, orig),
    ensures
        forall|q: Seq<nat>| #[trigger] rcongruence_above(q, l0, es0) ==> coarser(q, l.take(es0.len() as int)),
        forall|a: int| 0 <= a < es.len() ==> rderived(es0, l, (#[trigger] es[a]).0, a),
{
    reveal(rebuild_trace);
    let n = es0.len() as int;
    assert forall|q: Seq<nat>| #[trigger] rcongruence_above(q, l0, es0) implies coarser(q, l.take(n)) by {
        assert(merges_within(q, l, orig));
        assert forall|x: int, y: int| 0 <= x < n && 0 <= y < n && l.take(n)[x] == l.take(n)[y] implies #[trigger] q[x] == #[trigger] q[y] by {
            assert(l[x] == l[y]);
            assert(orig[x] == x && orig[y] == y);
        }
    }
    assert forall|a: int| 0 <= a < es.len() implies rderived(es0, l, (#[trigger] es[a]).0, a) by {
        let j = orig[a] as int;
        assert(rsame_mod(l, es[a].0, es0[j].0));
        assert(l[a] == l[j]);
    }
}

/// Classes under which every node of `es0` canonicalized is in the table, in
/// the class of the node, are a congruence over `es0`.
proof fn lemma_congruent_at_all(es0: Seq<(RNodeV, usize)>, l0: Seq<nat>, es: Seq<(RNodeV, usize)>, l: Seq<nat>)
    requires
        l0.len() == es0.len(),
        es0.len() <= l.len(),
        coarser(l, l0),
        nodes_below(es0, es0.len()),
        forall|i: int| 0 <= i < es0.len() ==> congruent_at(es, l, #[trigger] es0[i].0, i as nat),
    ensures
        rcongruence_above(l.take(es0.len() as int), l0, es0),
{
    let n = es0.len() as int;
    let q = l.take(n);
    assert(coarser(q, l0)) by {
        assert forall|x: int, y: int| 0 <= x < n && 0 <= y < n && l0[x] == l0[y] implies #[trigger] q[x] == #[trigger] q[y] by {
            assert(l[x] == l[y]);
        }
    }
    assert forall|i: int, j: int| 0 <= i < n && 0 <= j < n && #[trigger] rsame_mod(q, es0[i].0, es0[j].0) implies q[i] == q[j] by {
        assert(rcanon(l, es0[i].0) == rcanon(l, es0[j].0)) by {
            assert(rcanon(l, es0[i].0).1 =~= rcanon(l, es0[j].0).1) by {
                assert forall|k: int| 0 <= k < es0[i].0.1.len() implies rcanon(l, es0[i].0).1[k] == rcanon(l, es0[j].0).1[k] by {
                    assert(ids_below(es0[i].0.1, n as nat));
                    assert(ids_below(es0[j].0.1, n as nat));
                    assert(es0[i].0.1[k] < n && es0[j].0.1[k] < n);
                    assert(q[es0[i].0.1[k] as int] == q[es0[j].0.1[k] as int]);
                }
            }
        }
        assert(congruent_at(es, l, es0[i].0, i as nat));
        assert(congruent_at(es, l, es0[j].0, j as nat));
    }
}

/// The measure of work left to `rebuild`: each merge of two classes of the
/// first `n0` ids, or each node added for a canonical form the table
/// lacked, makes it smaller.
pub open spec fn rebuild_measure(nodes0: Seq<(RNodeV, usize)>, es: Seq<(RNodeV, usize)>, l: Seq<nat>, n0: nat) -> nat {
    count_roots(l, n0) * (n0 + 1) + absent(nodes0, es, l, n0 as int)
}

impl EGraph {
    /// Restores congruence: every node of the table is added again with its
    /// arguments canonicalized and merged with the class it was in, pass
    /// after pass, until a pass merges nothing. Afterwards the table holds,
    /// for each node it held before, that node canonicalized, in the class
    /// of the node, and nothing else; on the ids it had before, the classes
    /// are the least congruence over its nodes that merges what was merged.
    #[verifier::rlimit(40)]
    pub fn rebuild(&mut self)
        requires
            old(self).wf(),
            old(self).entries().len() * (old(self).entries().len() + 3) + 2 < usize::MAX,
        ensures
            final(self).wf(),
            coarser(final(self).roots(), old(self).roots()),
            old(self).entries().len() <= final(self).entries().len(),
            forall|i: int| 0 <= i < old(self).entries().len() ==> #[trigger] final(self).entries()[i].0 == old(self).entries()[i].0,
            forall|i: int|
                0 <= i < old(self).entries().len() ==> congruent_at(
                    final(self).entries(),
                    final(self).roots(),
                    #[trigger] old(self).entries()[i].0,
                    i as nat,
                ),
            forall|a: int|
                0 <= a < final(self).entries().len() ==> rderived(
                    old(self).entries(),
                    final(self).roots(),
                    (#[trigger] final(self).entries()[a]).0,
                    a,
                ),
            rcongruence_above(final(self).roots().take(old(self).entries().len() as int), old(self).roots(), old(self).entries()),
            forall|q: Seq<nat>|
                #[trigger] rcongruence_above(q, old(self).roots(), old(self).entries()) ==> coarser(
                    q,
                    final(self).roots().take(old(self).entries().len() as int),
                ),
    {
        proof {
            self.lemma_entries_view();
            self.lemma_wf_facts();
        }
        let ghost es0 = self.entries();
        let ghost l0 = self.roots();
        let copy = tb_clone(&self.nodes);
        let n = tb_len(&copy);
        let ghost mut orig: Seq<nat> = Seq::new(n as nat, |a: int| a as nat);
        proof {
            lemma_trace_init(es0, l0);
        }
        let ghost phi0 = rebuild_measure(es0, es0, l0, n as nat);
        proof {
            lemma_count_roots_bound(l0, n as nat);
            lemma_absent_bound(es0, es0, l0, n as int);
            assert(phi0 <= n * (n + 1) + n) by (nonlinear_arith)
                requires
                    count_roots(l0, n as nat) <= n,
                    absent(es0, es0, l0, n as int) <= n,
                    phi0 == count_roots(l0, n as nat) * (n + 1) + absent(es0, es0, l0, n as int),
            ;
            assert(n * (n + 1) + n + n == n * (n + 3)) by (nonlinear_arith);
            assert forall|x: int, y: int|
                0 <= x < l0.len() && 0 <= y < l0.len() && l0[x] == l0[y] implies #[trigger] l0[x] == #[trigger] l0[y] by {}
        }
        let mut keep_going = true;
        while keep_going
            invariant
                self.wf(),
                es0 == old(self).entries(),
                l0 == old(self).roots(),
                n == es0.len(),
                n * (n + 3) + 2 < usize::MAX,
                phi0 <= n * (n + 1) + n,
                forall|i: int| 0 <= i < n ==> #[trigger] es0[i] == (key_rnode(node_entries(copy)[i].0), node_entries(copy)[i].1),
                node_entries(copy).len() == n,
                forall|i: int| 0 <= i < n ==> ids_below((#[trigger] es0[i]).0.1, n as nat),
                forall|i: int| 0 <= i < n ==> (#[trigger] es0[i]).1 < n && l0[es0[i].1 as int] == l0[i],
                l0.len() == n,
                n <= self.entries().len(),
                forall|i: int| 0 <= i < n ==> #[trigger] self.entries()[i].0 == es0[i].0,
                coarser(self.roots(), l0),
                forall|x: int| 0 <= x < self.roots().len() ==> #[trigger] self.roots()[x] < n,
                rebuild_trace(es0, l0, self.entries(), self.roots(), orig),
                self.entries().len() + rebuild_measure(es0, self.entries(), self.roots(), n as nat) <= n + phi0,
                !keep_going ==> forall|i: int|
                    0 <= i < n ==> congruent_at(self.entries(), self.roots(), #[trigger] es0[i].0, i as nat),
            decreases rebuild_measure(es0, self.entries(), self.roots(), n as nat), if keep_going {
                1nat
            } else {
                0nat
            },
        {
            let ghost m0 = rebuild_measure(es0, self.entries(), self.roots(), n as nat);
            let ghost ep = self.entries();
            let ghost lp = self.roots();
            keep_going = false;
            let mut i: usize = 0;
            while i < n
                invariant
                    self.wf(),
                    es0 == old(self).entries(),
                    l0 == old(self).roots(),
                    n == es0.len(),
                    n * (n + 3) + 2 < usize::MAX,
                    phi0 <= n * (n + 1) + n,
                    forall|i: int| 0 <= i < n ==> #[trigger] es0[i] == (key_rnode(node_entries(copy)[i].0), node_entries(copy)[i].1),
                    node_entries(copy).len() == n,
                    forall|i: int| 0 <= i < n ==> ids_below((#[trigger] es0[i]).0.1, n as nat),
                    forall|i: int| 0 <= i < n ==> (#[trigger] es0[i]).1 < n && l0[es0[i].1 as int] == l0[i],
                    l0.len() == n,
                    n <= self.entries().len(),
                    forall|i: int| 0 <= i < n ==> #[trigger] self.entries()[i].0 == es0[i].0,
                    coarser(self.roots(), l0),
                    forall|x: int| 0 <= x < self.roots().len() ==> #[trigger] self.roots()[x] < n,
                    rebuild_trace(es0, l0, self.entries(), self.roots(), orig),
                    self.entries().len() + rebuild_measure(es0, self.entries(), self.roots(), n as nat) <= n + phi0,
                    i <= n,
                    !keep_going ==> self.entries() == ep && self.roots() == lp,
                    keep_going ==> rebuild_measure(es0, self.entries(), self.roots(), n as nat) < m0,
                    !keep_going ==> m0 == rebuild_measure(es0, self.entries(), self.roots(), n as nat),
                    !keep_going ==> forall|j: int|
                        0 <= j < i ==> congruent_at(self.entries(), self.roots(), #[trigger] es0[j].0, j as nat),
                decreases n - i,
            {
                let ghost es1 = self.entries();
                let ghost l1 = self.roots();
                let ghost m1 = rebuild_measure(es0, es1, l1, n as nat);
                let (key, id) = match tb_get_index(&copy, i) {
                    Some(e) => e,
                    None => {
                        proof {
                            assert(false);
                        }
                        return;
                    },
                };
                proof {
                    self.lemma_wf_facts();
                    assert(es0[i as int] == (key_rnode(tkey_view(key)), id));
                }
                let node = node_of(&key);
                proof {
                    assert(node@ == es0[i as int].0);
                    assert(ids_below(node@.1, self.entries().len()));
                }
                let new_node = self.canonicalize_node(&node);
                proof {
                    assert(self.entries().len() + 2 < usize::MAX) by (nonlinear_arith)
                        requires
                            self.entries().len() <= n + phi0,
                            phi0 <= n * (n + 1) + n,
                            n * (n + 3) + 2 < usize::MAX,
                    ;
                    assert(ids_below(new_node@.1, self.entries().len()));
                    lemma_rcanon_idem(l1, node@);
                }
                let new_id = self.add_node(new_node);
                let ghost es2 = self.entries();
                let ghost l2 = self.roots();
                proof {
                    self.lemma_wf_facts();
                    lemma_entry_index(es1, rcanon(l1, node@));
                    assert(id < n);
                    assert(id < self.entries().len());
                }
                if !self.is_eq(new_id, id) {
                    self.union(new_id, id);
                    keep_going = true;
                    proof {
                        let es3 = self.entries();
                        let l3 = self.roots();
                        let c = rcanon(l1, node@);
                        self.lemma_wf_facts();
                        assert(coarser(l3, l2)) by {
                            assert forall|x: int, y: int|
                                0 <= x < l2.len() && 0 <= y < l2.len() && l2[x] == l2[y] implies #[trigger] l3[x] == #[trigger] l3[y] by {}
                        }
                        match entry_index(es1, c) {
                            Some(x) => {
                                let ra = l1[new_id as int];
                                let rb = l1[id as int];
                                assert(ra == new_id);
                                assert(ra < n && rb < n);
                                assert(ra != rb);
                                assert forall|k: int| 0 <= k < n && k != ra implies (l1[k] == k <==> l3[k] == k) by {
                                    if l1[k] == ra {
                                        assert(l1[rb as int] == rb);
                                    }
                                }
                                lemma_count_roots_drop_one(l1, l3, n as nat, ra);
                                lemma_absent_bound(es0, es3, l3, n as int);
                                let a3 = count_roots(l3, n as nat);
                                let b3 = absent(es0, es3, l3, n as int);
                                let a1 = count_roots(l1, n as nat);
                                let b1 = absent(es0, es1, l1, n as int);
                                assert(a3 * (n + 1) + b3 < a1 * (n + 1) + b1) by (nonlinear_arith)
                                    requires
                                        a1 == a3 + 1,
                                        b3 <= n,
                                ;
                                assert forall|k: int| 0 <= k < n implies #[trigger] es3[k].0 == es0[k].0 by {
                                    assert(es1[k].0 == es0[k].0);
                                }
                                lemma_coarser_trans(l3, l1, l0);
                            },
                            None => {
                                let len1 = es1.len();
                                assert(new_id == len1);
                                assert(es2 == es1.push((c, len1 as usize)));
                                assert(l2 == l1.push(len1));
                                let rb = l1[id as int];
                                assert(l3 == l2.map_values(|x: nat| if x == len1 { rb } else { x }));
                                assert(agree_below(l3, l1, n as nat)) by {
                                    assert forall|x: int| 0 <= x < n implies #[trigger] l3[x] == l1[x] by {
                                        assert(l1[x] < n);
                                    }
                                }
                                lemma_count_roots_prefix(l3, l1, n as nat);
                                assert forall|j: int| 0 <= j < n implies #[trigger] rcanon(l3, es0[j].0) == rcanon(l1, es0[j].0) by {
                                    lemma_rcanon_agree(l1, l3, es0[j].0, n as nat);
                                }
                                assert forall|k: int| 0 <= k < es1.len() implies (#[trigger] es3[k]).0 == es1[k].0 by {
                                    assert(es2[k] == es1[k]);
                                }
                                assert(es3[len1 as int].0 == c);
                                assert(lacks(es1, rcanon(l1, es0[i as int].0)));
                                assert(!lacks(es3, rcanon(l1, es0[i as int].0)));
                                lemma_absent_mono(es0, es1, l1, es3, l3, n as int);
                                assert forall|k: int| 0 <= k < n implies #[trigger] es3[k].0 == es0[k].0 by {
                                    assert(es1[k].0 == es0[k].0);
                                }
                                assert(coarser(l2, l1)) by {
                                    assert forall|x: int, y: int|
                                        0 <= x < l1.len() && 0 <= y < l1.len() && l1[x] == l1[y] implies #[trigger] l2[x] == #[trigger] l2[y] by {}
                                }
                                lemma_coarser_trans(l3, l2, l1);
                                lemma_coarser_trans(l3, l1, l0);
                            },
                        }
                    }
                    proof {
                        let es3 = self.entries();
                        let l3 = self.roots();
                        let c = rcanon(l1, node@);
                        lemma_entry_index(es1, c);
                        assert(roots_ok(l1));
                        assert(nodes_below(es1, es1.len()));
                        assert(nodes_below(es0, n as nat));
                        assert(l0[id as int] == l0[i as int]);
                        match entry_index(es1, c) {
                            Some(x) => {
                                assert forall|k: int| 0 <= k < es1.len() implies (#[trigger] es3[k]).0 == es1[k].0 by {
                                    assert(es3[k].0 == es2[k].0);
                                }
                                assert(l2 == l1);
                                assert(new_id == l1[x as int]);
                                assert(l3 =~= l1.map_values(|w: nat| if w == l1[l1[x as int] as int] { l1[id as int] } else { w }));
                                lemma_trace_merge(es0, l0, es1, l1, orig, i as int, x as int, id as int, es3, l3);
                            },
                            None => {
                                assert forall|k: int| 0 <= k < es1.len() implies (#[trigger] es3[k]).0 == es1[k].0 by {
                                    assert(es3[k].0 == es2[k].0);
                                }
                                assert(es3[es1.len() as int].0 == es2[es1.len() as int].0);
                                assert(l3 =~= l1.push(l1.len()).map_values(|w: nat| if w == l1.len() { l1[id as int] } else { w }));
                                lemma_trace_push(es0, l0, es1, l1, orig, i as int, id as int, es3, l3);
                                orig = orig.push(i as nat);
                            },
                        }
                    }
                } else {
                    proof {
                        let c = rcanon(l1, node@);
                        match entry_index(es1, c) {
                            Some(x) => {
                                assert(l1[new_id as int] == l1[id as int]);
                                assert(l1[id as int] == l1[i as int]) by {
                                    assert(l0[id as int] == l0[i as int]);
                                }
                                assert(congruent_at(es1, l1, es0[i as int].0, i as nat));
                            },
                            None => {
                                assert(l2[new_id as int] == new_id);
                                assert(l2[id as int] < n);
                            },
                        }
                    }
                }
                i = i + 1;
            }
        }
        proof {
            self.lemma_wf_facts();
            lemma_trace_done(es0, l0, self.entries(), self.roots(), orig);
            assert(nodes_below(es0, n as nat));
            lemma_congruent_at_all(es0, l0, self.entries(), self.roots());
        }
    }
}

impl Default for EGraph {
    /// An empty e-graph.
    fn default() -> (r: Self)
        ensures
            r.wf(),
            r.entries() == Seq::<(RNodeV, usize)>::empty(),
    {
        let r = EGraph { nodes: tb_new(), leader: Ghost(Seq::empty()), rank: Ghost(Seq::empty()), bound: Ghost(0) };
        proof {
            assert(r.entries() =~= Seq::<(RNodeV, usize)>::empty());
        }
        r
    }
}


// ---------------------------------------------------------------------------
// E-matching
// ---------------------------------------------------------------------------

/// A pattern: a variable, or a function symbol applied to patterns.
#[derive(PartialEq, Eq, Hash, Debug)]
pub enum Pattern {
    Var(Name),
    App(Name, Vec<Pattern>),
}

/// The value of a pattern.
pub enum PatV {
    Var(Seq<char>),
    App(Seq<char>, Seq<PatV>),
}

impl Pattern {
    /// The pattern as a value.
    pub open spec fn deep(&self) -> PatV
        decreases self,
    {
        match self {
            Pattern::Var(n) => PatV::Var(n@),
            Pattern::App(f, args) => PatV::App(
                f@,
                Seq::new(args@.len(), |i: int| if 0 <= i < args@.len() { args@[i].deep() } else { PatV::Var(f@) }),
            ),
        }
    }
}

impl Clone for Pattern {
    #[verifier::loop_isolation(false)]
    fn clone(&self) -> (r: Self)
        ensures
            r.deep() == self.deep(),
        decreases self,
    {
        match self {
            Pattern::Var(n) => Pattern::Var(n.clone()),
            Pattern::App(f, args) => {
                let mut out: Vec<Pattern> = Vec::new();
                let mut i: usize = 0;
                while i < args.len()
                    invariant
                        i <= args@.len(),
                        out@.len() == i,
                        forall|j: int| 0 <= j < i ==> #[trigger] out@[j].deep() == args@[j].deep(),
                    decreases args@.len() - i,
                {
                    proof {
                        assert(decreases_to!(*self => *args));
                        assert(decreases_to!(*args => args@));
                        assert(decreases_to!(args@ => args@[i as int]));
                    }
                    out.push(args[i].clone());
                    i = i + 1;
                }
                let r = Pattern::App(f.clone(), out);
                proof {
                    assert(r.deep() =~= self.deep()) by {
                        if let PatV::App(_, a) = r.deep() {
                            if let PatV::App(_, b) = self.deep() {
                                assert forall|j: int| 0 <= j < a.len() implies a[j] == b[j] by {
                                    assert(out@[j].deep() == args@[j].deep());
                                }
                                assert(a =~= b);
                            }
                        }
                    }
                }
                r
            },
        }
    }
}

/// The values of a list of patterns.
pub open spec fn deep_pats(v: Seq<Pattern>) -> Seq<PatV> {
    Seq::new(v.len(), |i: int| v[i].deep())
}

proof fn lemma_deep_app(p: &Pattern)
    ensures
        p matches Pattern::App(f, args) ==> p.deep() == PatV::App(f@, deep_pats(args@)),
{
    if let Pattern::App(f, args) = p {
        if let PatV::App(g, a) = p.deep() {
            assert(a =~= deep_pats(args@));
        }
    }
}

/// A substitution from variable names to e-class ids.
pub type Subst = IndexMap<Name, Id>;

/// The bindings of a substitution, in insertion order.
pub uninterp spec fn bindings(m: IndexMap<String, usize>) -> Seq<(Seq<char>, usize)>;

/// The id of the first binding of `x`, if any.
pub open spec fn slookup(s: Seq<(Seq<char>, usize)>, x: Seq<char>) -> Option<usize>
    decreases s.len(),
{
    if s.len() == 0 {
        None
    } else if s[0].0 == x {
        Some(s[0].1)
    } else {
        slookup(s.drop_first(), x)
    }
}

/// An empty substitution (`IndexMap::new`).
#[verifier::external_body]
fn sb_new() -> (r: IndexMap<String, usize>)
    ensures
        bindings(r) == Seq::<(Seq<char>, usize)>::empty(),
{
    IndexMap::new()
}

/// The id bound to `x` (`IndexMap::get`).
#[verifier::external_body]
fn sb_get(m: &IndexMap<String, usize>, x: &String) -> (r: Option<usize>)
    ensures
        r == slookup(bindings(*m), x@),
{
    m.get(x).copied()
}

/// Binds a variable that is not bound yet (`IndexMap::insert`).
#[verifier::external_body]
fn sb_insert_new(m: &mut IndexMap<String, usize>, x: String, id: usize)
    requires
        slookup(bindings(*old(m)), x@) is None,
    ensures
        bindings(*final(m)) == bindings(*old(m)).push((x@, id)),
{
    m.insert(x, id);
}

/// A copy of a substitution (`IndexMap::clone`).
#[verifier::external_body]
fn sb_clone(m: &IndexMap<String, usize>) -> (r: IndexMap<String, usize>)
    ensures
        bindings(r) == bindings(*m),
{
    m.clone()
}

/// The bindings of a list of substitutions.
pub open spec fn substs_bindings(v: Seq<IndexMap<String, usize>>) -> Seq<Seq<(Seq<char>, usize)>> {
    Seq::new(v.len(), |i: int| bindings(v[i]))
}

/// Every id bound in `s` is below `n`.
pub open spec fn vals_below(s: Seq<(Seq<char>, usize)>, n: nat) -> bool {
    forall|i: int| 0 <= i < s.len() ==> (#[trigger] s[i]).1 < n
}

/// The matches of `pat` in the class of `c` extending `s`, as `ematch`
/// finds them. A bound variable matches when its id is in the class of
/// `c`; an unbound one is bound to `c`. An application is tried against
/// every node of the class: a node with its symbol and arity extends each
/// match of the arguments, any other node keeps `s` as it is.
pub open spec fn rmatch_pat(es: Seq<(RNodeV, usize)>, l: Seq<nat>, pat: PatV, c: usize, s: Seq<(Seq<char>, usize)>) -> Seq<Seq<(Seq<char>, usize)>>
    decreases pat, 0nat, 0nat,
{
    match pat {
        PatV::Var(name) => match slookup(s, name) {
            Some(id) => if l[id as int] == l[c as int] {
                seq![s]
            } else {
                Seq::empty()
            },
            None => seq![s.push((name, c))],
        },
        PatV::App(f, args) => rmatch_nodes(es, l, f, args, members(es, l, l[c as int]), s),
    }
}

/// The matches of the application of `f` to `args` against each of `nodes`
/// in turn, concatenated.
pub open spec fn rmatch_nodes(
    es: Seq<(RNodeV, usize)>,
    l: Seq<nat>,
    f: Seq<char>,
    args: Seq<PatV>,
    nodes: Seq<RNodeV>,
    s: Seq<(Seq<char>, usize)>,
) -> Seq<Seq<(Seq<char>, usize)>>
    decreases args, 2nat, nodes.len(),
{
    if nodes.len() == 0 {
        Seq::empty()
    } else {
        let n = nodes.last();
        rmatch_nodes(es, l, f, args, nodes.drop_last(), s) + if n.0 == f && n.1.len() == args.len() {
            rmatch_args(es, l, args, n.1, seq![s])
        } else {
            seq![s]
        }
    }
}

/// Matches the argument patterns `pats` against the ids `ids`, left to
/// right, starting from the partial matches `todo`.
pub open spec fn rmatch_args(
    es: Seq<(RNodeV, usize)>,
    l: Seq<nat>,
    pats: Seq<PatV>,
    ids: Seq<usize>,
    todo: Seq<Seq<(Seq<char>, usize)>>,
) -> Seq<Seq<(Seq<char>, usize)>>
    decreases pats, 1nat, 0nat,
{
    if pats.len() == 0 || ids.len() == 0 {
        todo
    } else {
        rmatch_args(
            es,
            l,
            pats.subrange(1, pats.len() as int),
            ids.subrange(1, ids.len() as int),
            rmatch_each(es, l, pats[0], ids[0], todo),
        )
    }
}

/// The matches of `pat` in the class of `c` extending each of `todo`,
/// concatenated.
pub open spec fn rmatch_each(es: Seq<(RNodeV, usize)>, l: Seq<nat>, pat: PatV, c: usize, todo: Seq<Seq<(Seq<char>, usize)>>) -> Seq<Seq<(Seq<char>, usize)>>
    decreases pat, 1nat, todo.len(),
{
    if todo.len() == 0 {
        Seq::empty()
    } else {
        rmatch_each(es, l, pat, c, todo.drop_last()) + rmatch_pat(es, l, pat, c, todo.last())
    }
}

/// The size of a pattern: its variables and applications.
pub open spec fn psize(p: PatV) -> nat
    decreases p,
{
    match p {
        PatV::Var(_) => 1,
        PatV::App(_, args) => 1 + psizes(args),
    }
}

/// The sizes of `ps` summed.
pub open spec fn psizes(ps: Seq<PatV>) -> nat
    decreases ps,
{
    if ps.len() == 0 {
        0
    } else {
        psizes(ps.drop_last()) + psize(ps.last())
    }
}

proof fn lemma_psizes_item(ps: Seq<PatV>, i: int)
    requires
        0 <= i < ps.len(),
    ensures
        psize(ps[i]) <= psizes(ps),
    decreases ps.len(),
{
    if i < ps.len() - 1 {
        lemma_psizes_item(ps.drop_last(), i);
    }
}

proof fn lemma_members_below(es: Seq<(RNodeV, usize)>, l: Seq<nat>, r: nat, n: nat)
    requires
        forall|i: int| 0 <= i < es.len() ==> ids_below((#[trigger] es[i]).0.1, n),
    ensures
        forall|k: int| 0 <= k < members(es, l, r).len() ==> ids_below((#[trigger] members(es, l, r)[k]).1, n),
    decreases es.len(),
{
    if es.len() > 0 {
        let s = es.drop_last();
        assert forall|i: int| 0 <= i < s.len() implies ids_below((#[trigger] s[i]).0.1, n) by {
            assert(s[i] == es[i]);
        }
        lemma_members_below(s, l, r, n);
        let left = members(s, l, r);
        let m = members(es, l, r);
        assert forall|k: int| 0 <= k < m.len() implies ids_below((#[trigger] m[k]).1, n) by {
            if k < left.len() {
                assert(m[k] == left[k]);
            } else {
                assert(m[k] == es.last().0);
                assert(es.last() == es[es.len() - 1]);
            }
        }
    }
}

/// How a pattern matched in the e-graph: a variable was looked up or
/// bound, or an application matched through the member of the class at the
/// given index, each argument taking the substitution from one entry of the
/// list of substitutions to the next in the way given for it.
pub enum RMatchWay {
    Bind,
    Through(int, Seq<Seq<(Seq<char>, usize)>>, Seq<RMatchWay>),
}

/// `w` is a way of extending `s` to `t` so that `pat` matches the class of
/// `c`: a variable already bound to an id of that class leaves `s` as it
/// is, an unbound one is bound to `c`; an application of `f` matches
/// through a node of the class with symbol `f` and one argument per
/// argument pattern, each argument pattern matching its argument in turn.
pub open spec fn rmatched(
    es: Seq<(RNodeV, usize)>,
    l: Seq<nat>,
    pat: PatV,
    c: usize,
    s: Seq<(Seq<char>, usize)>,
    t: Seq<(Seq<char>, usize)>,
    w: RMatchWay,
) -> bool
    decreases pat, 0nat, 0nat,
{
    match pat {
        PatV::Var(x) => match slookup(s, x) {
            Some(id) => l[id as int] == l[c as int] && t == s,
            None => t == s.push((x, c)),
        },
        PatV::App(f, args) => match w {
            RMatchWay::Through(k, subs, ways) => {
                let nodes = members(es, l, l[c as int]);
                &&& 0 <= k < nodes.len()
                &&& nodes[k].0 == f
                &&& nodes[k].1.len() == args.len()
                &&& subs.len() == args.len() + 1
                &&& ways.len() == args.len()
                &&& subs[0] == s
                &&& subs.last() == t
                &&& rargs_matched(es, l, args, 0, nodes[k].1, subs, ways)
            },
            RMatchWay::Bind => false,
        },
    }
}

/// Each argument pattern of `args` from `i` on matches the id of its
/// position, taking `subs[j]` to `subs[j + 1]` in the way `ways[j]`.
pub open spec fn rargs_matched(
    es: Seq<(RNodeV, usize)>,
    l: Seq<nat>,
    args: Seq<PatV>,
    i: int,
    ids: Seq<usize>,
    subs: Seq<Seq<(Seq<char>, usize)>>,
    ways: Seq<RMatchWay>,
) -> bool
    decreases args, 1nat, args.len() - i,
{
    if i < 0 || i >= args.len() {
        true
    } else {
        &&& rmatched(es, l, args[i], ids[i], subs[i], subs[i + 1], ways[i])
        &&& rargs_matched(es, l, args, i + 1, ids, subs, ways)
    }
}

proof fn lemma_reach_each(
    es: Seq<(RNodeV, usize)>,
    l: Seq<nat>,
    pat: PatV,
    c: usize,
    todo: Seq<Seq<(Seq<char>, usize)>>,
    s0: Seq<(Seq<char>, usize)>,
    s1: Seq<(Seq<char>, usize)>,
)
    requires
        todo.contains(s0),
        rmatch_pat(es, l, pat, c, s0).contains(s1),
    ensures
        rmatch_each(es, l, pat, c, todo).contains(s1),
    decreases todo.len(),
{
    let left = rmatch_each(es, l, pat, c, todo.drop_last());
    let right = rmatch_pat(es, l, pat, c, todo.last());
    assert(rmatch_each(es, l, pat, c, todo) == left + right);
    let j = choose|j: int| 0 <= j < todo.len() && todo[j] == s0;
    if j < todo.len() - 1 {
        assert(todo.drop_last()[j] == s0);
        lemma_reach_each(es, l, pat, c, todo.drop_last(), s0, s1);
        let x = choose|x: int| 0 <= x < left.len() && left[x] == s1;
        assert((left + right)[x] == s1);
    } else {
        let x = choose|x: int| 0 <= x < right.len() && right[x] == s1;
        assert((left + right)[left.len() + x] == s1);
    }
}

proof fn lemma_reach_args(
    es: Seq<(RNodeV, usize)>,
    l: Seq<nat>,
    args: Seq<PatV>,
    i: int,
    ids: Seq<usize>,
    subs: Seq<Seq<(Seq<char>, usize)>>,
    ways: Seq<RMatchWay>,
    todo: Seq<Seq<(Seq<char>, usize)>>,
)
    requires
        0 <= i <= args.len(),
        ids.len() == args.len(),
        subs.len() == args.len() + 1,
        ways.len() == args.len(),
        todo.contains(subs[i]),
        rargs_matched(es, l, args, i, ids, subs, ways),
    ensures
        rmatch_args(es, l, args.subrange(i, args.len() as int), ids.subrange(i, ids.len() as int), todo).contains(subs.last()),
    decreases args, 1nat, args.len() - i,
{
    let pats = args.subrange(i, args.len() as int);
    let rest = ids.subrange(i, ids.len() as int);
    if i == args.len() {
        assert(pats.len() == 0);
    } else {
        assert(decreases_to!(args => args[i]));
        lemma_reach_pat(es, l, args[i], ids[i], subs[i], subs[i + 1], ways[i]);
        assert(pats[0] == args[i]);
        assert(rest[0] == ids[i]);
        lemma_reach_each(es, l, args[i], ids[i], todo, subs[i], subs[i + 1]);
        let todo2 = rmatch_each(es, l, pats[0], rest[0], todo);
        lemma_reach_args(es, l, args, i + 1, ids, subs, ways, todo2);
        assert(pats.subrange(1, pats.len() as int) =~= args.subrange(i + 1, args.len() as int));
        assert(rest.subrange(1, rest.len() as int) =~= ids.subrange(i + 1, ids.len() as int));
    }
}

proof fn lemma_reach_nodes(
    es: Seq<(RNodeV, usize)>,
    l: Seq<nat>,
    f: Seq<char>,
    args: Seq<PatV>,
    nodes: Seq<RNodeV>,
    k: int,
    subs: Seq<Seq<(Seq<char>, usize)>>,
    ways: Seq<RMatchWay>,
)
    requires
        0 <= k < nodes.len(),
        nodes[k].0 == f,
        nodes[k].1.len() == args.len(),
        subs.len() == args.len() + 1,
        ways.len() == args.len(),
        rargs_matched(es, l, args, 0, nodes[k].1, subs, ways),
    ensures
        rmatch_nodes(es, l, f, args, nodes, subs[0]).contains(subs.last()),
    decreases args, 2nat, nodes.len(),
{
    let s = subs[0];
    let t = subs.last();
    let n = nodes.last();
    let left = rmatch_nodes(es, l, f, args, nodes.drop_last(), s);
    let right = if n.0 == f && n.1.len() == args.len() {
        rmatch_args(es, l, args, n.1, seq![s])
    } else {
        seq![s]
    };
    assert(rmatch_nodes(es, l, f, args, nodes, s) == left + right);
    if k < nodes.len() - 1 {
        assert(nodes.drop_last()[k] == nodes[k]);
        lemma_reach_nodes(es, l, f, args, nodes.drop_last(), k, subs, ways);
        let x = choose|x: int| 0 <= x < left.len() && left[x] == t;
        assert((left + right)[x] == t);
    } else {
        assert(nodes[k] == n);
        assert(seq![s][0] == s);
        lemma_reach_args(es, l, args, 0, n.1, subs, ways, seq![s]);
        assert(args.subrange(0, args.len() as int) =~= args);
        assert(n.1.subrange(0, n.1.len() as int) =~= n.1);
        let x = choose|x: int| 0 <= x < right.len() && right[x] == t;
        assert((left + right)[left.len() + x] == t);
    }
}

/// E-matching is complete: whenever `w` is a way of extending `s` to `t`
/// so that `pat` matches the class of `c` (for an application, through any
/// member of the class with the pattern's symbol and arity, its arguments
/// matched in turn), `t` is among the matches that `rmatch_pat`, and so
/// `ematch`, returns.
pub proof fn lemma_reach_pat(
    es: Seq<(RNodeV, usize)>,
    l: Seq<nat>,
    pat: PatV,
    c: usize,
    s: Seq<(Seq<char>, usize)>,
    t: Seq<(Seq<char>, usize)>,
    w: RMatchWay,
)
    requires
        rmatched(es, l, pat, c, s, t, w),
    ensures
        rmatch_pat(es, l, pat, c, s).contains(t),
    decreases pat, 0nat, 0nat,
{
    match pat {
        PatV::Var(x) => {
            assert(rmatch_pat(es, l, pat, c, s)[0] == t);
        },
        PatV::App(f, args) => {
            if let RMatchWay::Through(k, subs, ways) = w {
                lemma_reach_nodes(es, l, f, args, members(es, l, l[c as int]), k, subs, ways);
            }
        },
    }
}

/// `r` keeps every binding of `s` in place and may add more after them.
pub open spec fn extends(r: Seq<(Seq<char>, usize)>, s: Seq<(Seq<char>, usize)>) -> bool {
    s.len() <= r.len() && r.subrange(0, s.len() as int) == s
}

proof fn lemma_extends_trans(a: Seq<(Seq<char>, usize)>, b: Seq<(Seq<char>, usize)>, c: Seq<(Seq<char>, usize)>)
    requires
        extends(a, b),
        extends(b, c),
    ensures
        extends(a, c),
{
    assert(a.subrange(0, c.len() as int) =~= b.subrange(0, c.len() as int));
}

proof fn lemma_ext_each(
    es: Seq<(RNodeV, usize)>,
    l: Seq<nat>,
    pat: PatV,
    c: usize,
    todo: Seq<Seq<(Seq<char>, usize)>>,
    r: Seq<(Seq<char>, usize)>,
) -> (t: Seq<(Seq<char>, usize)>)
    requires
        rmatch_each(es, l, pat, c, todo).contains(r),
    ensures
        todo.contains(t),
        rmatch_pat(es, l, pat, c, t).contains(r),
    decreases todo.len(),
{
    let left = rmatch_each(es, l, pat, c, todo.drop_last());
    let right = rmatch_pat(es, l, pat, c, todo.last());
    let all = rmatch_each(es, l, pat, c, todo);
    assert(all == left + right);
    let x = choose|x: int| 0 <= x < all.len() && all[x] == r;
    if x < left.len() {
        assert(left[x] == r);
        let t = lemma_ext_each(es, l, pat, c, todo.drop_last(), r);
        let j = choose|j: int| 0 <= j < todo.drop_last().len() && todo.drop_last()[j] == t;
        assert(todo[j] == t);
        t
    } else {
        assert(right[x - left.len()] == r);
        assert(todo[todo.len() - 1] == todo.last());
        todo.last()
    }
}

proof fn lemma_ext_args(
    es: Seq<(RNodeV, usize)>,
    l: Seq<nat>,
    pats: Seq<PatV>,
    ids: Seq<usize>,
    todo: Seq<Seq<(Seq<char>, usize)>>,
    r: Seq<(Seq<char>, usize)>,
) -> (t: Seq<(Seq<char>, usize)>)
    requires
        rmatch_args(es, l, pats, ids, todo).contains(r),
    ensures
        todo.contains(t),
        extends(r, t),
    decreases pats, 1nat, 0nat,
{
    if pats.len() == 0 || ids.len() == 0 {
        assert(r.subrange(0, r.len() as int) =~= r);
        r
    } else {
        let todo2 = rmatch_each(es, l, pats[0], ids[0], todo);
        let t2 = lemma_ext_args(es, l, pats.subrange(1, pats.len() as int), ids.subrange(1, ids.len() as int), todo2, r);
        let t = lemma_ext_each(es, l, pats[0], ids[0], todo, t2);
        assert(decreases_to!(pats => pats[0]));
        lemma_ext_pat(es, l, pats[0], ids[0], t, t2);
        lemma_extends_trans(r, t2, t);
        t
    }
}

proof fn lemma_ext_nodes(
    es: Seq<(RNodeV, usize)>,
    l: Seq<nat>,
    f: Seq<char>,
    args: Seq<PatV>,
    nodes: Seq<RNodeV>,
    s: Seq<(Seq<char>, usize)>,
    r: Seq<(Seq<char>, usize)>,
)
    requires
        rmatch_nodes(es, l, f, args, nodes, s).contains(r),
    ensures
        extends(r, s),
    decreases args, 2nat, nodes.len(),
{
    let n = nodes.last();
    let left = rmatch_nodes(es, l, f, args, nodes.drop_last(), s);
    let right = if n.0 == f && n.1.len() == args.len() {
        rmatch_args(es, l, args, n.1, seq![s])
    } else {
        seq![s]
    };
    let all = rmatch_nodes(es, l, f, args, nodes, s);
    assert(all == left + right);
    let x = choose|x: int| 0 <= x < all.len() && all[x] == r;
    if x < left.len() {
        assert(left[x] == r);
        lemma_ext_nodes(es, l, f, args, nodes.drop_last(), s, r);
    } else {
        assert(right[x - left.len()] == r);
        if n.0 == f && n.1.len() == args.len() {
            let t = lemma_ext_args(es, l, args, n.1, seq![s], r);
            assert(seq![s][0] == s);
        } else {
            assert(r.subrange(0, r.len() as int) =~= r);
        }
    }
}

/// E-matching only adds bindings: every match of `pat` in the class of `c`
/// that extends `s` keeps each binding of `s` in its place.
pub proof fn lemma_ext_pat(
    es: Seq<(RNodeV, usize)>,
    l: Seq<nat>,
    pat: PatV,
    c: usize,
    s: Seq<(Seq<char>, usize)>,
    r: Seq<(Seq<char>, usize)>,
)
    requires
        rmatch_pat(es, l, pat, c, s).contains(r),
    ensures
        extends(r, s),
    decreases pat, 0nat, 0nat,
{
    let ms = rmatch_pat(es, l, pat, c, s);
    match pat {
        PatV::Var(x) => {
            assert(ms[0] == r);
            assert(s.push((x, c)).subrange(0, s.len() as int) =~= s);
            assert(s.subrange(0, s.len() as int) =~= s);
        },
        PatV::App(f, args) => {
            lemma_ext_nodes(es, l, f, args, members(es, l, l[c as int]), s, r);
        },
    }
}

proof fn lemma_members_entry(es: Seq<(RNodeV, usize)>, l: Seq<nat>, r: nat, k: int)
    requires
        0 <= k < members(es, l, r).len(),
    ensures
        exists|j: int| 0 <= j < es.len() && l[es[j].1 as int] == r && #[trigger] es[j].0 == members(es, l, r)[k],
    decreases es.len(),
{
    let left = members(es.drop_last(), l, r);
    if k < left.len() {
        lemma_members_entry(es.drop_last(), l, r, k);
        let j = choose|j: int| 0 <= j < es.drop_last().len() && l[es.drop_last()[j].1 as int] == r && #[trigger] es.drop_last()[j].0 == left[k];
        assert(es[j] == es.drop_last()[j]);
    } else {
        assert(members(es, l, r)[k] == es.last().0);
        assert(es[es.len() - 1] == es.last());
    }
}

proof fn lemma_rmatch_nodes_head(
    es: Seq<(RNodeV, usize)>,
    l: Seq<nat>,
    f: Seq<char>,
    args: Seq<PatV>,
    nodes: Seq<RNodeV>,
    s: Seq<(Seq<char>, usize)>,
    r: Seq<(Seq<char>, usize)>,
)
    requires
        rmatch_nodes(es, l, f, args, nodes, s).contains(r),
        r != s,
    ensures
        exists|k: int| 0 <= k < nodes.len() && (#[trigger] nodes[k]).0 == f && nodes[k].1.len() == args.len(),
    decreases nodes.len(),
{
    let n = nodes.last();
    let left = rmatch_nodes(es, l, f, args, nodes.drop_last(), s);
    let right = if n.0 == f && n.1.len() == args.len() {
        rmatch_args(es, l, args, n.1, seq![s])
    } else {
        seq![s]
    };
    let all = rmatch_nodes(es, l, f, args, nodes, s);
    assert(all == left + right);
    let i = choose|i: int| 0 <= i < all.len() && all[i] == r;
    if i < left.len() {
        assert(left[i] == r);
        lemma_rmatch_nodes_head(es, l, f, args, nodes.drop_last(), s, r);
        let k = choose|k: int| 0 <= k < nodes.drop_last().len() && (#[trigger] nodes.drop_last()[k]).0 == f && nodes.drop_last()[k].1.len() == args.len();
        assert(nodes[k] == nodes.drop_last()[k]);
    } else {
        assert(right[i - left.len()] == r);
        assert(nodes[nodes.len() - 1] == n);
    }
}

/// E-matching an application only leaves its mark through nodes of the
/// right symbol: every match of `App(f, args)` in the class of `c` that
/// differs from the substitution it extends comes from a node of that class
/// whose symbol is `f` and whose arity is the number of `args`.
pub proof fn lemma_ematch_head(eg: EGraph, f: Seq<char>, args: Seq<PatV>, c: usize, s: Seq<(Seq<char>, usize)>, r: Seq<(Seq<char>, usize)>)
    requires
        eg.wf(),
        c < eg.entries().len(),
        rmatch_pat(eg.entries(), eg.roots(), PatV::App(f, args), c, s).contains(r),
        r != s,
    ensures
        exists|j: int|
            0 <= j < eg.entries().len() && eg.roots()[eg.entries()[j].1 as int] == eg.roots()[c as int] && (
            #[trigger] eg.entries()[j]).0.0 == f && eg.entries()[j].0.1.len() == args.len(),
{
    let es = eg.entries();
    let l = eg.roots();
    let nodes = members(es, l, l[c as int]);
    lemma_rmatch_nodes_head(es, l, f, args, nodes, s, r);
    let k = choose|k: int| 0 <= k < nodes.len() && (#[trigger] nodes[k]).0 == f && nodes[k].1.len() == args.len();
    lemma_members_entry(es, l, l[c as int], k);
    let j = choose|j: int| 0 <= j < es.len() && l[es[j].1 as int] == l[c as int] && #[trigger] es[j].0 == nodes[k];
    assert(es[j].0.0 == f);
}

/// The substitution that binds each name of `ps` to the id it first comes
/// with.
pub open spec fn pairs_bindings(ps: Seq<(Seq<char>, usize)>) -> Seq<(Seq<char>, usize)>
    decreases ps.len(),
{
    if ps.len() == 0 {
        Seq::empty()
    } else {
        let b = pairs_bindings(ps.drop_last());
        if slookup(b, ps.last().0) is Some {
            b
        } else {
            b.push(ps.last())
        }
    }
}

impl EGraph {
    /// All matches of `pat` in the class of `class`.
    pub fn ematch(&self, pat: &Pattern, class: Id) -> (r: Vec<Subst>)
        requires
            self.wf(),
            class < self.entries().len(),
            psize(pat.deep()) <= usize::MAX,
        ensures
            substs_bindings(r@) == rmatch_pat(self.entries(), self.roots(), pat.deep(), class, Seq::empty()),
    {
        self.ematch_rec(0, pat, class, sb_new())
    }

    /// The matches of `pat` in the class of `class` that extend the
    /// substitution binding each name of `pairs` to the id it first comes
    /// with; `None` when one of those ids is not an id of the e-graph.
    pub fn ematch_with(&self, pat: &Pattern, class: Id, pairs: &Vec<(Name, Id)>) -> (r: Option<Vec<Subst>>)
        requires
            self.wf(),
            class < self.entries().len(),
            psize(pat.deep()) <= usize::MAX,
        ensures
            r is Some <==> forall|i: int| 0 <= i < pairs@.len() ==> (#[trigger] pairs@[i]).1 < self.entries().len(),
            r matches Some(v) ==> substs_bindings(v@) == rmatch_pat(
                self.entries(),
                self.roots(),
                pat.deep(),
                class,
                pairs_bindings(pairs@.map_values(|p: (Name, Id)| (p.0@, p.1))),
            ),
    {
        let ghost ps = pairs@.map_values(|p: (Name, Id)| (p.0@, p.1));
        let n = tb_len(&self.nodes);
        proof {
            self.lemma_entries_view();
        }
        let mut subst = sb_new();
        let mut i: usize = 0;
        proof {
            assert(ps.take(0) =~= Seq::<(Seq<char>, usize)>::empty());
        }
        while i < pairs.len()
            invariant
                n == self.entries().len(),
                i <= pairs@.len(),
                ps == pairs@.map_values(|p: (Name, Id)| (p.0@, p.1)),
                bindings(subst) == pairs_bindings(ps.take(i as int)),
                forall|j: int| 0 <= j < i ==> (#[trigger] pairs@[j]).1 < n,
                vals_below(bindings(subst), n as nat),
            decreases pairs@.len() - i,
        {
            let (name, id) = (&pairs[i].0, pairs[i].1);
            if id >= n {
                return None;
            }
            proof {
                assert(ps.take(i + 1int).drop_last() =~= ps.take(i as int));
                assert(ps.take(i + 1int).last() == (name@, id));
            }
            match sb_get(&subst, name) {
                Some(_) => {},
                None => {
                    let ghost b0 = bindings(subst);
                    sb_insert_new(&mut subst, name.clone(), id);
                    proof {
                        assert forall|k: int| 0 <= k < bindings(subst).len() implies (#[trigger] bindings(subst)[k]).1 < n by {
                            if k < b0.len() {
                                assert(bindings(subst)[k] == b0[k]);
                            }
                        }
                    }
                },
            }
            i = i + 1;
        }
        proof {
            assert(ps.take(pairs@.len() as int) =~= ps);
        }
        Some(self.ematch_rec(0, pat, class, subst))
    }

    /// The matches of `pat` in the class of `class` that extend `subst`;
    /// `depth` counts the enclosing patterns.
    pub fn ematch_rec(&self, depth: usize, pat: &Pattern, class: Id, subst: Subst) -> (r: Vec<Subst>)
        requires
            self.wf(),
            class < self.entries().len(),
            vals_below(bindings(subst), self.entries().len()),
            depth + psize(pat.deep()) <= usize::MAX,
        ensures
            substs_bindings(r@) == rmatch_pat(self.entries(), self.roots(), pat.deep(), class, bindings(subst)),
            forall|k: int| 0 <= k < r@.len() ==> vals_below(#[trigger] bindings(r@[k]), self.entries().len()),
        decreases pat, 1nat,
    {
        proof {
            self.lemma_wf_facts();
        }
        let ghost es = self.entries();
        let ghost l = self.roots();
        match pat {
            Pattern::Var(name) => {
                let mut r: Vec<Subst> = Vec::new();
                match sb_get(&subst, name) {
                    Some(id) => {
                        proof {
                            lemma_slookup_in(bindings(subst), name@);
                        }
                        if self.is_eq(id, class) {
                            r.push(subst);
                            proof {
                                assert(substs_bindings(r@) =~= seq![bindings(r@[0])]);
                            }
                        } else {
                            proof {
                                assert(substs_bindings(r@) =~= Seq::<Seq<(Seq<char>, usize)>>::empty());
                            }
                        }
                    },
                    None => {
                        let mut subst = subst;
                        let ghost b0 = bindings(subst);
                        sb_insert_new(&mut subst, name.clone(), class);
                        r.push(subst);
                        proof {
                            assert(substs_bindings(r@) =~= seq![b0.push((name@, class))]);
                            assert forall|i: int| 0 <= i < bindings(r@[0]).len() implies (#[trigger] bindings(r@[0])[i]).1 < es.len() by {
                                if i < b0.len() {
                                    assert(bindings(r@[0])[i] == b0[i]);
                                }
                            }
                        }
                    },
                }
                r
            },
            Pattern::App(f, args) => {
                proof {
                    lemma_deep_app(pat);
                    lemma_members_below(es, l, l[class as int], es.len());
                }
                let ghost dv = deep_pats(args@);
                let nodes = self.nodes_in_class(class);
                let ghost nv = rnode_views(nodes@);
                let mut results: Vec<Subst> = Vec::new();
                let mut i: usize = 0;
                proof {
                    assert(nv.take(0) =~= Seq::<RNodeV>::empty());
                    assert(substs_bindings(results@) =~= Seq::<Seq<(Seq<char>, usize)>>::empty());
                }
                while i < nodes.len()
                    invariant
                        self.wf(),
                        es == self.entries(),
                        l == self.roots(),
                        *pat == Pattern::App(*f, *args),
                        dv == deep_pats(args@),
                        pat.deep() == PatV::App(f@, dv),
                        depth + psize(pat.deep()) <= usize::MAX,
                        vals_below(bindings(subst), es.len()),
                        nv == rnode_views(nodes@),
                        nv == members(es, l, l[class as int]),
                        forall|k: int| 0 <= k < nv.len() ==> ids_below((#[trigger] nv[k]).1, es.len()),
                        i <= nodes@.len(),
                        substs_bindings(results@) == rmatch_nodes(es, l, f@, dv, nv.take(i as int), bindings(subst)),
                        forall|k: int| 0 <= k < results@.len() ==> vals_below(#[trigger] bindings(results@[k]), es.len()),
                    decreases nodes@.len() - i,
                {
                    let node = &nodes[i];
                    proof {
                        assert(nv.take(i + 1).drop_last() =~= nv.take(i as int));
                        assert(nv.take(i + 1).last() == nv[i as int]);
                        assert(nv[i as int] == node@);
                        assert(ids_below(node@.1, es.len()));
                    }
                    let todo = if node.f == *f && node.args.len() == args.len() {
                        self.match_node_args(depth, pat, node, &subst)
                    } else {
                        let mut todo: Vec<Subst> = Vec::new();
                        todo.push(sb_clone(&subst));
                        proof {
                            assert(substs_bindings(todo@) =~= seq![bindings(subst)]);
                        }
                        todo
                    };
                    let ghost before = results@;
                    results = crate::util::append(results, todo);
                    proof {
                        assert(substs_bindings(results@) =~= substs_bindings(before) + substs_bindings(todo@));
                        assert forall|k: int| 0 <= k < results@.len() implies vals_below(#[trigger] bindings(results@[k]), es.len()) by {
                            if k < before.len() {
                                assert(results@[k] == before[k]);
                            } else {
                                assert(results@[k] == todo@[k - before.len()]);
                            }
                        }
                    }
                    i = i + 1;
                }
                proof {
                    assert(nv.take(i as int) =~= nv);
                }
                results
            },
        }
    }

    /// The matches of the arguments of the application `pat` against the
    /// arguments of `node`, starting from `subst`.
    fn match_node_args(&self, depth: usize, pat: &Pattern, node: &Node, subst: &Subst) -> (r: Vec<Subst>)
        requires
            self.wf(),
            pat is App,
            depth + psize(pat.deep()) <= usize::MAX,
            vals_below(bindings(*subst), self.entries().len()),
            node@.1.len() == pat->App_1@.len(),
            ids_below(node@.1, self.entries().len()),
        ensures
            substs_bindings(r@) == rmatch_args(self.entries(), self.roots(), deep_pats(pat->App_1@), node@.1, seq![bindings(*subst)]),
            forall|k: int| 0 <= k < r@.len() ==> vals_below(#[trigger] bindings(r@[k]), self.entries().len()),
        decreases pat, 0nat,
    {
        let ghost es = self.entries();
        let ghost l = self.roots();
        proof {
            lemma_deep_app(pat);
        }
        let args = match pat {
            Pattern::App(_, args) => args,
            Pattern::Var(_) => {
                proof {
                    assert(false);
                }
                return Vec::new();
            },
        };
        let ghost pats = deep_pats(args@);
        let ghost ids = node@.1;
        let mut todo: Vec<Subst> = Vec::new();
        todo.push(sb_clone(subst));
        let m = node.args.len();
        let mut j: usize = 0;
        proof {
            assert(substs_bindings(todo@) =~= seq![bindings(*subst)]);
            assert(pats.skip(0) =~= pats);
            assert(ids.skip(0) =~= ids);
            assert(psize(pat.deep()) == 1 + psizes(pats));
        }
        while j < m
            invariant
                self.wf(),
                es == self.entries(),
                l == self.roots(),
                pat is App,
                *args == pat->App_1,
                pats == deep_pats(args@),
                depth + 1 + psizes(pats) <= usize::MAX,
                ids == node@.1,
                m == ids.len(),
                pats.len() == m,
                ids_below(ids, es.len()),
                j <= m,
                rmatch_args(es, l, pats, ids, seq![bindings(*subst)]) == rmatch_args(
                    es,
                    l,
                    pats.skip(j as int),
                    ids.skip(j as int),
                    substs_bindings(todo@),
                ),
                forall|k: int| 0 <= k < todo@.len() ==> vals_below(#[trigger] bindings(todo@[k]), es.len()),
            decreases m - j,
        {
            let pa = &args[j];
            let na = node.args[j];
            proof {
                assert(pats.skip(j as int)[0] == pats[j as int]);
                assert(ids.skip(j as int)[0] == na);
                assert(pats.skip(j as int).subrange(1, pats.skip(j as int).len() as int) =~= pats.skip(j + 1));
                assert(ids.skip(j as int).subrange(1, ids.skip(j as int).len() as int) =~= ids.skip(j + 1));
                lemma_psizes_item(pats, j as int);
                assert(pats[j as int] == args@[j as int].deep());
                assert(na < es.len());
            }
            let ghost tv = substs_bindings(todo@);
            let mut next: Vec<Subst> = Vec::new();
            let mut t: usize = 0;
            proof {
                assert(tv.take(0) =~= Seq::<Seq<(Seq<char>, usize)>>::empty());
                assert(substs_bindings(next@) =~= Seq::<Seq<(Seq<char>, usize)>>::empty());
            }
            while t < todo.len()
                invariant
                    self.wf(),
                    es == self.entries(),
                    l == self.roots(),
                    pat is App,
                    *args == pat->App_1,
                    j < args@.len(),
                    pa == &args@[j as int],
                    depth + 1 + psize(pa.deep()) <= usize::MAX,
                    na < es.len(),
                    tv == substs_bindings(todo@),
                    t <= todo@.len(),
                    substs_bindings(next@) == rmatch_each(es, l, pa.deep(), na, tv.take(t as int)),
                    forall|k: int| 0 <= k < todo@.len() ==> vals_below(#[trigger] bindings(todo@[k]), es.len()),
                    forall|k: int| 0 <= k < next@.len() ==> vals_below(#[trigger] bindings(next@[k]), es.len()),
                decreases todo@.len() - t,
            {
                proof {
                    let q: int = j as int;
                    assert(decreases_to!(*pat => pat->App_1));
                    assert(decreases_to!(*args => args@));
                    assert(decreases_to!(args@ => args@[q]));
                }
                let s = sb_clone(&todo[t]);
                proof {
                    assert(bindings(s) == bindings(todo@[t as int]));
                }
                let r = self.ematch_rec(depth + 1, pa, na, s);
                let ghost before = next@;
                next = crate::util::append(next, r);
                proof {
                    assert(tv.take(t + 1).drop_last() =~= tv.take(t as int));
                    assert(tv.take(t + 1).last() == bindings(s));
                    assert(substs_bindings(next@) =~= substs_bindings(before) + substs_bindings(r@));
                    assert forall|k: int| 0 <= k < next@.len() implies vals_below(#[trigger] bindings(next@[k]), es.len()) by {
                        if k < before.len() {
                            assert(next@[k] == before[k]);
                        } else {
                            assert(next@[k] == r@[k - before.len()]);
                        }
                    }
                }
                t = t + 1;
            }
            proof {
                assert(tv.take(t as int) =~= tv);
            }
            todo = next;
            j = j + 1;
        }
        proof {
            assert(pats.skip(m as int).len() == 0);
        }
        todo
    }
}

proof fn lemma_slookup_in(s: Seq<(Seq<char>, usize)>, x: Seq<char>)
    ensures
        slookup(s, x) matches Some(id) ==> exists|i: int| 0 <= i < s.len() && s[i] == (x, id),
    decreases s.len(),
{
    if s.len() > 0 && s[0].0 != x {
        lemma_slookup_in(s.drop_first(), x);
        if let Some(id) = slookup(s, x) {
            let i = choose|i: int| 0 <= i < s.drop_first().len() && s.drop_first()[i] == (x, id);
            assert(s[i + 1] == (x, id));
        }
    }
}

} // verus!
