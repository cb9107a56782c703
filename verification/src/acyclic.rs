//! An e-graph with acyclic union nodes, curried functions, and "variables"
//! in the e-graph for native patterns.
//!
//! Every expression is hash-consed once. Merging two classes adds a `Union`
//! node above both, so the graph of expressions stays acyclic: the children
//! of every expression have smaller ids than the expression itself.
use vstd::prelude::*;

use indexmap::IndexSet;

use crate::util::sexp::{
    atom, deep_seq, lemma_deep_list, lex_from, list, parse, parsed_tree, parses, shape, shape_seq, tokens,
    tokens_seq, tree_lists_nonempty, trees_lists_nonempty, Sexp, SexpV, Tree,
};
use crate::util::subst::{join_spec, lookup, with_spec, Subst};
use crate::util::unionfind::{coarser, lemma_coarser_trans, merge_classes};
use crate::util::{append, Id, Symbol};

verus! {

// ---------------------------------------------------------------------------
// The hash-cons table: an `IndexSet` of expression keys.
// ---------------------------------------------------------------------------

#[verifier::external_type_specification]
#[verifier::external_body]
#[verifier::reject_recursive_types(T)]
#[verifier::reject_recursive_types(S)]
pub struct ExIndexSet<T, S>(IndexSet<T, S>);

/// The expressions that the hash-cons table holds, in insertion order.
pub uninterp spec fn table_items(t: IndexSet<Expr>) -> Seq<Expr>;

/// An empty table (`IndexSet::default`).
#[verifier::external_body]
fn table_new() -> (r: IndexSet<Expr>)
    ensures
        table_items(r) == Seq::<Expr>::empty(),
{
    IndexSet::default()
}

/// Number of expressions (`IndexSet::len`).
#[verifier::external_body]
fn table_len(t: &IndexSet<Expr>) -> (r: usize)
    ensures
        r == table_items(*t).len(),
{
    t.len()
}

/// The position of `k`, if present (`IndexSet::get_full`).
#[verifier::external_body]
fn table_get_full(t: &IndexSet<Expr>, k: &Expr) -> (r: Option<usize>)
    ensures
        match r {
            Some(i) => i < table_items(*t).len() && table_items(*t)[i as int] == *k,
            None => !table_items(*t).contains(*k),
        },
{
    t.get_full(k).map(|(i, _)| i)
}

/// Adds `k` at the end unless present (`IndexSet::insert`); whether it was added.
#[verifier::external_body]
fn table_insert(t: &mut IndexSet<Expr>, k: Expr) -> (r: bool)
    ensures
        r == !table_items(*old(t)).contains(k),
        r ==> table_items(*final(t)) == table_items(*old(t)).push(k),
        !r ==> table_items(*final(t)) == table_items(*old(t)),
{
    t.insert(k)
}

/// The expression at position `i` (`IndexSet::get_index`).
#[verifier::external_body]
fn table_get_index(t: &IndexSet<Expr>, i: usize) -> (r: Option<Expr>)
    ensures
        i < table_items(*t).len() ==> r == Some(table_items(*t)[i as int]),
        i >= table_items(*t).len() ==> r is None,
{
    t.get_index(i).copied()
}

// ---------------------------------------------------------------------------
// Expressions
// ---------------------------------------------------------------------------

#[derive(Debug, Clone, Copy, PartialEq, Eq, Structural, Hash)]
pub enum Expr {
    Union(Id, Id),
    Pair(Id, Id),
    Var(Symbol),
    Const(Symbol),
}

/// The children of an expression are all below `n`.
pub open spec fn children_below(e: Expr, n: nat) -> bool {
    match e {
        Expr::Union(a, b) => a@ < n && b@ < n,
        Expr::Pair(a, b) => a@ < n && b@ < n,
        _ => true,
    }
}

// ---------------------------------------------------------------------------
// Union-find without path compression
// ---------------------------------------------------------------------------

pub struct UnionFind {
    parent: Vec<Id>,
    /// The representative of each element's class.
    leader: Ghost<Seq<nat>>,
    /// Strictly increases along parent links.
    rank: Ghost<Seq<nat>>,
    /// Strict upper bound of every rank.
    bound: Ghost<nat>,
}

impl UnionFind {
    /// The representative of every element, indexed by element.
    pub closed spec fn view(&self) -> Seq<nat> {
        self.leader@
    }

    /// Parent links lead to representatives without cycles.
    pub closed spec fn wf(&self) -> bool {
        let n = self.parent@.len();
        let leader = self.leader@;
        let rank = self.rank@;
        &&& n <= u32::MAX
        &&& leader.len() == n
        &&& rank.len() == n
        &&& forall|i: int| 0 <= i < n ==> #[trigger] self.parent@[i]@ < n
        &&& forall|i: int| 0 <= i < n ==> #[trigger] leader[i] < n
        &&& forall|i: int| 0 <= i < n ==> leader[#[trigger] leader[i] as int] == leader[i]
        &&& forall|i: int| 0 <= i < n ==> self.parent@[#[trigger] leader[i] as int]@ == leader[i]
        &&& forall|i: int| 0 <= i < n && #[trigger] self.parent@[i]@ == i ==> leader[i] == i
        &&& forall|i: int| 0 <= i < n ==> leader[#[trigger] self.parent@[i]@ as int] == leader[i]
        &&& forall|i: int|
            0 <= i < n && #[trigger] self.parent@[i]@ != i ==> rank[i] < rank[self.parent@[i]@ as int]
        &&& forall|i: int| 0 <= i < n ==> #[trigger] rank[i] < self.bound@
    }

    /// The representative of `a`'s class.
    pub fn find(&self, a: Id) -> (r: Id)
        requires
            self.wf(),
            a@ < self@.len(),
        ensures
            r@ == self@[a@ as int],
    {
        let mut a = a;
        let ghost a0 = a@;
        while a != self.parent[a.usize()]
            invariant
                self.wf(),
                a@ < self@.len(),
                self.leader@[a@ as int] == self.leader@[a0 as int],
            decreases self.bound@ - self.rank@[a@ as int],
        {
            a = self.parent[a.usize()];
        }
        a
    }

    /// Adds a new element in a class of its own and returns its id.
    pub fn mkset(&mut self) -> (r: Id)
        requires
            old(self).wf(),
            old(self)@.len() < u32::MAX,
        ensures
            final(self).wf(),
            r@ == old(self)@.len(),
            final(self)@ == old(self)@.push(r@),
    {
        let n = self.parent.len();
        let id = Id::new(n);
        self.parent.push(id);
        proof {
            self.leader@ = self.leader@.push(n as nat);
            self.rank@ = self.rank@.push(0);
            self.bound@ = self.bound@ + 1;
        }
        id
    }

    /// Links the representative of `a` under `new_parent`, which joins the
    /// class of `a` to that of `new_parent`. `new_parent` must not be a
    /// non-representative member of `a`'s class: that link would close a cycle.
    pub fn reparent(&mut self, a: Id, new_parent: Id)
        requires
            old(self).wf(),
            a@ < old(self)@.len(),
            new_parent@ < old(self)@.len(),
            old(self)@[new_parent@ as int] != old(self)@[a@ as int] || new_parent@ == old(self)@[a@ as int],
        ensures
            final(self).wf(),
            final(self)@ == merge_classes(old(self)@, old(self)@[a@ as int], old(self)@[new_parent@ as int]),
    {
        let a = self.find(a);
        let ghost pre = *self;
        let ghost ra = a@;
        let ghost rb = self.leader@[new_parent@ as int];
        self.parent.set(a.usize(), new_parent);
        proof {
            let n = pre.parent@.len();
            let l0 = pre.leader@;
            let r0 = pre.rank@;
            if new_parent@ == ra {
                assert(self.parent@ =~= pre.parent@);
                assert(merge_classes(l0, ra, rb) =~= l0);
            } else {
                self.leader@ = merge_classes(l0, ra, rb);
                self.rank@ = Seq::new(
                    n,
                    |i: int| if l0[i] == rb { r0[i] + r0[ra as int] + 1 } else { r0[i] },
                );
                self.bound@ = pre.bound@ + pre.bound@;
                let l1 = self.leader@;
                let r1 = self.rank@;
                assert forall|i: int| 0 <= i < n implies l1[#[trigger] l1[i] as int] == l1[i] by {
                    assert(l0[l0[i] as int] == l0[i]);
                }
                assert forall|i: int| 0 <= i < n implies self.parent@[#[trigger] l1[i] as int]@ == l1[i] by {
                    assert(pre.parent@[l0[i] as int]@ == l0[i]);
                }
                assert forall|i: int| 0 <= i < n && #[trigger] self.parent@[i]@ == i implies l1[i] == i by {
                    if i != ra {
                        assert(pre.parent@[i]@ == i);
                    }
                }
                assert forall|i: int| 0 <= i < n implies l1[#[trigger] self.parent@[i]@ as int] == l1[i] by {
                    if i != ra {
                        assert(l0[pre.parent@[i]@ as int] == l0[i]);
                    }
                }
                assert forall|i: int|
                    0 <= i < n && #[trigger] self.parent@[i]@ != i implies r1[i] < r1[self.parent@[i]@ as int] by {
                    if i != ra {
                        assert(l0[pre.parent@[i]@ as int] == l0[i]);
                        assert(pre.parent@[i]@ != i);
                    }
                }
                assert forall|i: int| 0 <= i < n implies #[trigger] r1[i] < self.bound@ by {
                    assert(r0[i] < pre.bound@);
                    assert(r0[ra as int] < pre.bound@);
                }
            }
        }
    }
}

impl Default for UnionFind {
    fn default() -> (r: Self)
        ensures
            r.wf(),
            r@ == Seq::<nat>::empty(),
    {
        UnionFind {
            parent: Vec::new(),
            leader: Ghost(Seq::empty()),
            rank: Ghost(Seq::empty()),
            bound: Ghost(1),
        }
    }
}

// ---------------------------------------------------------------------------
// The e-graph
// ---------------------------------------------------------------------------

pub struct Context {
    hashcons: IndexSet<Expr>,
    uf: UnionFind,
}

/// `r` is the id of `f` applied, curried, to `args`: a chain of `Pair`
/// nodes whose innermost function is `Const(f)`.
pub open spec fn curried(exprs: Seq<Expr>, r: nat, f: Symbol, args: Seq<Id>) -> bool
    decreases args.len(),
{
    &&& r < exprs.len()
    &&& if args.len() == 0 {
        exprs[r as int] == Expr::Const(f)
    } else {
        match exprs[r as int] {
            Expr::Pair(p, q) => q == args.last() && curried(exprs, p@, f, args.drop_last()),
            _ => false,
        }
    }
}

/// The id that `curried` names for the first `i` arguments of `t`, starting
/// from the id `x` of the whole application.
pub open spec fn curried_prefix(exprs: Seq<Expr>, x: nat, t: Seq<Id>, i: int) -> nat
    decreases t.len(),
{
    if i >= t.len() || t.len() == 0 {
        x
    } else {
        match exprs[x as int] {
            Expr::Pair(p, _) => curried_prefix(exprs, p@, t.drop_last(), i),
            _ => x,
        }
    }
}

proof fn lemma_curried_prefix(exprs: Seq<Expr>, x: nat, f: Symbol, t: Seq<Id>, i: int)
    requires
        curried(exprs, x, f, t),
        0 <= i <= t.len(),
    ensures
        curried(exprs, curried_prefix(exprs, x, t, i), f, t.take(i)),
    decreases t.len(),
{
    if i == t.len() {
        assert(t.take(i) =~= t);
    } else {
        if let Expr::Pair(p, _) = exprs[x as int] {
            lemma_curried_prefix(exprs, p@, f, t.drop_last(), i);
            assert(t.drop_last().take(i) =~= t.take(i));
        }
    }
}

/// With no expression stored twice, an application has one id.
proof fn lemma_curried_unique(exprs: Seq<Expr>, a: nat, b: nat, f: Symbol, t: Seq<Id>)
    requires
        exprs.no_duplicates(),
        curried(exprs, a, f, t),
        curried(exprs, b, f, t),
    ensures
        a == b,
    decreases t.len(),
{
    if t.len() > 0 {
        if let Expr::Pair(p, _) = exprs[a as int] {
            if let Expr::Pair(q, _) = exprs[b as int] {
                lemma_curried_unique(exprs, p@, q@, f, t.drop_last());
            }
        }
    }
}

/// With no expression stored twice, an instance has one id.
proof fn lemma_inst_unique(ex: Seq<Expr>, p: nat, s: Seq<(Symbol, Id)>, x: nat, y: nat)
    requires
        ex.no_duplicates(),
        ex.len() <= u32::MAX,
        inst_ok(ex, p, s, x),
        inst_ok(ex, p, s, y),
    ensures
        x == y,
    decreases p,
{
    match ex[p as int] {
        Expr::Pair(a, b) => {
            if let Expr::Pair(x1, x2) = ex[x as int] {
                if let Expr::Pair(y1, y2) = ex[y as int] {
                    lemma_inst_unique(ex, a@, s, x1@, y1@);
                    lemma_inst_unique(ex, b@, s, x2@, y2@);
                    assert(ex[x as int] == ex[y as int]);
                }
            }
        },
        Expr::Var(n) => {
            assert(Id(x as u32) == Id(y as u32));
        },
        _ => {},
    }
}

/// `e1` extends `e0`.
pub open spec fn extends(e1: Seq<Expr>, e0: Seq<Expr>) -> bool {
    e0.len() <= e1.len() && e1.subrange(0, e0.len() as int) == e0
}

impl Context {
    /// The expression of every id, in order of creation.
    pub closed spec fn exprs(&self) -> Seq<Expr> {
        table_items(self.hashcons)
    }

    /// The representative of every id's class.
    pub closed spec fn classes(&self) -> Seq<nat> {
        self.uf@
    }

    /// Ids are dense, each expression is stored once, the children of each
    /// expression are older than it, and class representatives are never
    /// older than their members.
    pub closed spec fn wf(&self) -> bool {
        let items = table_items(self.hashcons);
        &&& self.uf.wf()
        &&& items.len() == self.uf@.len()
        &&& items.no_duplicates()
        &&& forall|i: int| 0 <= i < items.len() ==> children_below(#[trigger] items[i], i as nat)
        &&& forall|i: int| 0 <= i < items.len() ==> #[trigger] self.uf@[i] >= i
    }

    /// Every `Union` node is in one class with both of its children. All
    /// operations but adding a `Union` expression by hand keep this.
    pub open spec fn unions_merged(&self) -> bool {
        forall|u: int|
            0 <= u < self.exprs().len() ==> match #[trigger] self.exprs()[u] {
                Expr::Union(a, b) => self.classes()[a@ as int] == self.classes()[u] && self.classes()[b@ as int]
                    == self.classes()[u],
                _ => true,
            }
    }

    /// `self` is `old` with some expressions added, none of them a `Union`,
    /// each in a class of its own.
    pub open spec fn only_adds(&self, old: &Context) -> bool {
        let n = old.exprs().len();
        &&& n <= self.exprs().len()
        &&& self.exprs().subrange(0, n as int) == old.exprs()
        &&& self.classes().len() == self.exprs().len()
        &&& forall|i: int| 0 <= i < n ==> #[trigger] self.classes()[i] == old.classes()[i]
        &&& forall|i: int| n <= i < self.exprs().len() ==> #[trigger] self.classes()[i] == i
        &&& forall|i: int| n <= i < self.exprs().len() ==> !(#[trigger] self.exprs()[i] is Union)
    }

    /// In a well-formed e-graph every id has one expression and one class,
    /// no expression is stored twice, children are older than their parent,
    /// and each id's representative is a representative no older than it.
    pub proof fn lemma_wf_facts(&self)
        requires
            self.wf(),
        ensures
            self.exprs().len() == self.classes().len(),
            self.classes().len() <= u32::MAX,
            forall|i: int| 0 <= i < self.exprs().len() ==> children_below(#[trigger] self.exprs()[i], i as nat),
            forall|i: int| 0 <= i < self.exprs().len() ==> #[trigger] self.classes()[i] >= i,
            forall|i: int| 0 <= i < self.exprs().len() ==> #[trigger] self.classes()[i] < self.exprs().len(),
            forall|i: int| 0 <= i < self.exprs().len() ==> self.classes()[#[trigger] self.classes()[i] as int] == self.classes()[i],
            self.exprs().no_duplicates(),
    {
    }

    /// The union-find over the ids.
    pub fn uf(&self) -> (r: &UnionFind)
        ensures
            r@ == self.classes(),
    {
        &self.uf
    }

    /// The id of `expr`, adding it if it is new. Its children must be ids of
    /// this e-graph.
    pub fn add_expr(&mut self, expr: Expr) -> (r: Id)
        requires
            old(self).wf(),
            children_below(expr, old(self).exprs().len()),
            old(self).exprs().len() < u32::MAX,
        ensures
            final(self).wf(),
            old(self).exprs().contains(expr) ==> {
                &&& r@ < old(self).exprs().len()
                &&& old(self).exprs()[r@ as int] == expr
                &&& final(self).exprs() == old(self).exprs()
                &&& final(self).classes() == old(self).classes()
            },
            !old(self).exprs().contains(expr) ==> {
                &&& r@ == old(self).exprs().len()
                &&& final(self).exprs() == old(self).exprs().push(expr)
                &&& final(self).classes() == old(self).classes().push(r@)
            },
            !(expr is Union) ==> final(self).only_adds(old(self)),
            old(self).unions_merged() && !(expr is Union) ==> final(self).unions_merged(),
    {
        proof {
            self.lemma_wf_facts();
        }
        let ghost items0 = table_items(self.hashcons);
        match table_get_full(&self.hashcons, &expr) {
            Some(i) => {
                proof {
                    assert(self.exprs()[i as int] == expr);
                    assert(self.exprs().subrange(0, self.exprs().len() as int) =~= self.exprs());
                }
                Id::new(i)
            },
            None => {
                let n = table_len(&self.hashcons);
                let id = Id::new(n);
                table_insert(&mut self.hashcons, expr);
                let made = self.uf.mkset();
                proof {
                    let items = table_items(self.hashcons);
                    assert(items == items0.push(expr));
                    assert(self.exprs() =~= old(self).exprs().push(expr));
                    assert(items.no_duplicates()) by {
                        assert forall|i: int, j: int| 0 <= i < items.len() && 0 <= j < items.len() && i != j implies items[i] != items[j] by {
                            if j == n as int {
                                assert(items0.contains(items[i]) || i == n as int);
                            }
                            if i == n as int {
                                assert(items0.contains(items[j]) || j == n as int);
                            }
                        }
                    }
                    assert forall|i: int| 0 <= i < items.len() implies children_below(#[trigger] items[i], i as nat) by {
                        if i < n {
                            assert(items[i] == items0[i]);
                        }
                    }
                    assert(self.exprs().subrange(0, n as int) =~= old(self).exprs());
                    if old(self).unions_merged() && !(expr is Union) {
                        assert forall|u: int| 0 <= u < self.exprs().len() implies match #[trigger] self.exprs()[u] {
                            Expr::Union(a, b) => self.classes()[a@ as int] == self.classes()[u] && self.classes()[b@ as int]
                                == self.classes()[u],
                            _ => true,
                        } by {
                            if u < n {
                                assert(self.exprs()[u] == old(self).exprs()[u]);
                                if let Expr::Union(a, b) = self.exprs()[u] {
                                    assert(children_below(old(self).exprs()[u], u as nat));
                                }
                            }
                        }
                    }
                }
                id
            },
        }
    }

    /// The expression of `id`.
    pub fn get(&self, id: Id) -> (r: Expr)
        requires
            self.wf(),
            id@ < self.exprs().len(),
        ensures
            r == self.exprs()[id@ as int],
    {
        match table_get_index(&self.hashcons, id.usize()) {
            Some(k) => k,
            None => Expr::Union(id, id),
        }
    }

    /// All ids, in order.
    pub fn ids(&self) -> (r: Vec<Id>)
        requires
            self.wf(),
        ensures
            r@.len() == self.exprs().len(),
            forall|i: int| 0 <= i < r@.len() ==> #[trigger] r@[i]@ == i,
    {
        let n = table_len(&self.hashcons);
        let mut out: Vec<Id> = Vec::new();
        let mut i: usize = 0;
        while i < n
            invariant
                n == self.exprs().len(),
                n <= u32::MAX,
                i <= n,
                out@.len() == i,
                forall|j: int| 0 <= j < i ==> #[trigger] out@[j]@ == j,
            decreases n - i,
        {
            out.push(Id::new(i));
            i = i + 1;
        }
        out
    }

    /// Applies the constant `f` to `args`, one argument at a time, adding
    /// each `Pair` needed; returns the id of the application.
    pub fn call(&mut self, f: Symbol, args: &[Id]) -> (r: Id)
        requires
            old(self).wf(),
            forall|i: int| 0 <= i < args@.len() ==> #[trigger] args@[i]@ < old(self).exprs().len(),
            old(self).exprs().len() + args@.len() + 2 < u32::MAX,
        ensures
            final(self).wf(),
            curried(final(self).exprs(), r@, f, args@),
            final(self).only_adds(old(self)),
            final(self).exprs().len() <= old(self).exprs().len() + args@.len() + 1,
            old(self).unions_merged() ==> final(self).unions_merged(),
            forall|x: nat|
                #[trigger] curried(old(self).exprs(), x, f, args@) ==> {
                    &&& final(self).exprs() == old(self).exprs()
                    &&& final(self).classes() == old(self).classes()
                    &&& r@ == x
                },
    {
        let ghost n0 = old(self).exprs().len();
        let ghost ex0 = old(self).exprs();
        let ghost reuse = exists|x: nat| curried(ex0, x, f, args@);
        let ghost xw: nat = if reuse {
            choose|x: nat| curried(ex0, x, f, args@)
        } else {
            0
        };
        proof {
            self.lemma_wf_facts();
            if reuse {
                lemma_curried_prefix(ex0, xw, f, args@, 0);
                assert(args@.take(0) =~= Seq::<Id>::empty());
                assert(ex0[curried_prefix(ex0, xw, args@, 0) as int] == Expr::Const(f));
            }
        }
        let mut acc = self.add_expr(Expr::Const(f));
        let mut i: usize = 0;
        proof {
            assert(args@.take(0) =~= Seq::<Id>::empty());
        }
        while i < args.len()
            invariant
                self.wf(),
                i <= args@.len(),
                n0 == old(self).exprs().len(),
                forall|k: int| 0 <= k < args@.len() ==> #[trigger] args@[k]@ < n0,
                n0 + args@.len() + 2 < u32::MAX,
                self.exprs().len() <= n0 + i + 1,
                curried(self.exprs(), acc@, f, args@.take(i as int)),
                self.only_adds(old(self)),
                old(self).unions_merged() ==> self.unions_merged(),
                ex0 == old(self).exprs(),
                reuse ==> curried(ex0, xw, f, args@),
                reuse ==> self.exprs() == ex0 && self.classes() == old(self).classes(),
            decreases args@.len() - i,
        {
            let ghost before = *self;
            let arg = args[i];
            proof {
                assert(self.exprs().subrange(0, n0 as int) == old(self).exprs());
                assert(arg@ < self.exprs().len());
                if reuse {
                    self.lemma_wf_facts();
                    let y = curried_prefix(ex0, xw, args@, i + 1);
                    lemma_curried_prefix(ex0, xw, f, args@, i + 1);
                    let t = args@.take(i + 1int);
                    assert(t.drop_last() =~= args@.take(i as int));
                    assert(t.last() == arg);
                    if let Expr::Pair(p, q) = ex0[y as int] {
                        lemma_curried_unique(ex0, p@, acc@, f, args@.take(i as int));
                        assert(ex0[y as int] == Expr::Pair(acc, arg));
                    }
                    assert(ex0.contains(Expr::Pair(acc, arg)));
                }
            }
            let next = self.add_expr(Expr::Pair(acc, arg));
            proof {
                let t = args@.take(i + 1int);
                assert(t.drop_last() =~= args@.take(i as int));
                assert(self.exprs()[next@ as int] == Expr::Pair(acc, arg));
                lemma_curried_grows(before.exprs(), self.exprs(), acc@, f, args@.take(i as int));
                self.lemma_only_adds_trans(&before, old(self));
            }
            acc = next;
            i = i + 1;
        }
        proof {
            assert(args@.take(args@.len() as int) =~= args@);
            self.lemma_wf_facts();
            assert forall|x: nat| #[trigger] curried(ex0, x, f, args@) implies self.exprs() == ex0 && self.classes()
                == old(self).classes() && acc@ == x by {
                assert(reuse);
                lemma_curried_unique(ex0, x, acc@, f, args@);
            }
        }
        acc
    }

    proof fn lemma_only_adds_trans(&self, mid: &Context, first: &Context)
        requires
            self.only_adds(mid),
            mid.only_adds(first),
        ensures
            self.only_adds(first),
    {
        let n = first.exprs().len();
        let m = mid.exprs().len();
        assert(self.exprs().subrange(0, n as int) =~= mid.exprs().subrange(0, n as int));
        assert forall|i: int| n <= i < self.exprs().len() implies #[trigger] self.classes()[i] == i by {
            if i < m {
                assert(mid.classes()[i] == i);
            }
        }
        assert forall|i: int| n <= i < self.exprs().len() implies !(#[trigger] self.exprs()[i] is Union) by {
            if i < m {
                assert(self.exprs()[i] == self.exprs().subrange(0, m as int)[i]);
                assert(!(mid.exprs()[i] is Union));
            }
        }
    }

    /// Merges the classes of `target` and `rewritten` by adding the node
    /// `Union` of their representatives and placing both under it; returns
    /// the representative of the merged class. Nothing changes if the two
    /// are already in one class.
    pub fn union(&mut self, target: Id, rewritten: Id) -> (r: Id)
        requires
            old(self).wf(),
            target@ < old(self).exprs().len(),
            rewritten@ < old(self).exprs().len(),
            old(self).exprs().len() < u32::MAX,
        ensures
            final(self).wf(),
            ({
                let rt = old(self).classes()[target@ as int];
                let rr = old(self).classes()[rewritten@ as int];
                let n = old(self).exprs().len();
                &&& rt == rr ==> r@ == rt && final(self).exprs() == old(self).exprs() && final(self).classes()
                    == old(self).classes()
                &&& rt != rr ==> {
                    let e = Expr::Union(Id(rt as u32), Id(rr as u32));
                    let grown = if old(self).exprs().contains(e) {
                        old(self).classes()
                    } else {
                        old(self).classes().push(n)
                    };
                    &&& final(self).exprs() == if old(self).exprs().contains(e) {
                        old(self).exprs()
                    } else {
                        old(self).exprs().push(e)
                    }
                    &&& r@ < final(self).exprs().len()
                    &&& final(self).exprs()[r@ as int] == e
                    &&& final(self).classes() == merge_classes(merge_classes(grown, rt, grown[r@ as int]), rr, grown[r@ as int])
                }
                &&& old(self).unions_merged() ==> final(self).unions_merged() && final(self).classes()[target@ as int] == r@
                    && final(self).classes()[r@ as int] == r@
            }),
            final(self).classes()[target@ as int] == final(self).classes()[rewritten@ as int],
            coarser(final(self).classes(), old(self).classes()),
            extends(final(self).exprs(), old(self).exprs()),
            final(self).exprs().len() <= old(self).exprs().len() + 1,
    {
        proof {
            self.lemma_wf_facts();
        }
        let ghost c0 = self.classes();
        let target = self.uf.find(target);
        let rewritten = self.uf.find(rewritten);
        if target == rewritten {
            proof {
                assert(self.exprs().subrange(0, self.exprs().len() as int) =~= self.exprs());
            }
            return target;
        }
        let ghost pre = *self;
        let union = self.add_expr(Expr::Union(target, rewritten));
        proof {
            self.lemma_wf_facts();
            let e = Expr::Union(target, rewritten);
            assert(self.exprs()[union@ as int] == e);
            assert(children_below(self.exprs()[union@ as int], union@));
            assert(target@ < union@ && rewritten@ < union@);
            assert(c0[target@ as int] == target@);
            assert(c0[rewritten@ as int] == rewritten@);
            assert(self.classes()[target@ as int] == target@);
            assert(self.classes()[union@ as int] >= union@);
        }
        let ghost c1 = self.classes();
        self.uf.reparent(target, union);
        let ghost c2 = self.classes();
        proof {
            assert(c2[union@ as int] == c1[union@ as int]);
            assert(c2[rewritten@ as int] == rewritten@);
        }
        self.uf.reparent(rewritten, union);
        proof {
            let c3 = self.classes();
            let cu = c1[union@ as int];
            assert forall|i: int| 0 <= i < c3.len() implies #[trigger] c3[i] >= i by {
                assert(c1[i] >= i);
                if c1[i] == target@ || c1[i] == rewritten@ {
                    assert(c1[c1[i] as int] == c1[i]);
                }
            }
            assert(c1[union@ as int] >= union@);
            assert(c1[target@ as int] == target@);
            assert(c1[rewritten@ as int] == rewritten@);
            assert(c3[target@ as int] == cu);
            assert(c3[rewritten@ as int] == cu);
            assert forall|x: int, y: int|
                0 <= x < c0.len() && 0 <= y < c0.len() && c0[x] == c0[y] implies #[trigger] c3[x] == #[trigger] c3[y] by {
                assert(c1[x] == c0[x]);
                assert(c1[y] == c0[y]);
            }
            assert(self.exprs().subrange(0, pre.exprs().len() as int) =~= pre.exprs());
            if pre.unions_merged() {
                if pre.exprs().contains(Expr::Union(target, rewritten)) {
                    let u = choose|u: int| 0 <= u < pre.exprs().len() && pre.exprs()[u] == Expr::Union(target, rewritten);
                    assert(pre.classes()[target@ as int] == pre.classes()[u]);
                    assert(pre.classes()[rewritten@ as int] == pre.classes()[u]);
                    assert(false);
                }
                assert(c1[union@ as int] == union@);
                assert forall|u: int| 0 <= u < self.exprs().len() implies match #[trigger] self.exprs()[u] {
                    Expr::Union(a, b) => self.classes()[a@ as int] == self.classes()[u] && self.classes()[b@ as int]
                        == self.classes()[u],
                    _ => true,
                } by {
                    if u < pre.exprs().len() {
                        assert(self.exprs()[u] == pre.exprs()[u]);
                        if let Expr::Union(a, b) = self.exprs()[u] {
                            assert(children_below(pre.exprs()[u], u as nat));
                            assert(pre.classes()[a@ as int] == pre.classes()[u]);
                            assert(pre.classes()[b@ as int] == pre.classes()[u]);
                        }
                    }
                }
            }
        }
        union
    }
}

proof fn lemma_curried_grows(e0: Seq<Expr>, e1: Seq<Expr>, r: nat, f: Symbol, args: Seq<Id>)
    requires
        curried(e0, r, f, args),
        e0.len() <= e1.len(),
        e1.subrange(0, e0.len() as int) == e0,
    ensures
        curried(e1, r, f, args),
    decreases args.len(),
{
    assert(e1[r as int] == e1.subrange(0, e0.len() as int)[r as int]);
    if args.len() > 0 {
        if let Expr::Pair(p, q) = e0[r as int] {
            lemma_curried_grows(e0, e1, p@, f, args.drop_last());
        }
    }
}

impl Default for Context {
    fn default() -> (r: Self)
        ensures
            r.wf(),
            r.exprs() == Seq::<Expr>::empty(),
            r.unions_merged(),
    {
        let r = Context { hashcons: table_new(), uf: UnionFind::default() };
        proof {
            assert(r.exprs() =~= Seq::<Expr>::empty());
        }
        r
    }
}

// ---------------------------------------------------------------------------
// Matching
// ---------------------------------------------------------------------------

/// The bindings of each substitution.
pub open spec fn views(v: Seq<Subst>) -> Seq<Seq<(Symbol, Id)>> {
    v.map_values(|s: Subst| s@)
}

/// The pattern at `p` holds no `Union` node.
pub open spec fn no_union(ex: Seq<Expr>, p: nat) -> bool
    decreases p,
{
    &&& p < ex.len()
    &&& match ex[p as int] {
        Expr::Union(_, _) => false,
        Expr::Pair(a, b) => a@ < p && b@ < p && no_union(ex, a@) && no_union(ex, b@),
        _ => true,
    }
}

/// Each substitution of `bs` joined with `s`, in order, dropping those that conflict.
pub open spec fn join_each(bs: Seq<Seq<(Symbol, Id)>>, s: Seq<(Symbol, Id)>) -> Seq<Seq<(Symbol, Id)>>
    decreases bs.len(),
{
    if bs.len() == 0 {
        Seq::empty()
    } else {
        let rest = join_each(bs.drop_last(), s);
        match join_spec(bs.last(), s) {
            Some(j) => rest.push(j),
            None => rest,
        }
    }
}

/// For each substitution `a` of `as_`, in order, `join_each(bs, a)`.
pub open spec fn join_all(as_: Seq<Seq<(Symbol, Id)>>, bs: Seq<Seq<(Symbol, Id)>>) -> Seq<Seq<(Symbol, Id)>>
    decreases as_.len(),
{
    if as_.len() == 0 {
        Seq::empty()
    } else {
        join_all(as_.drop_last(), bs) + join_each(bs, as_.last())
    }
}

/// The substitutions under which the pattern at `p` matches the term at `t`,
/// in order. A variable matches anything; equal constants match; a pair
/// matches a pair when both halves match compatibly; a `Union` target
/// matches whatever either of its sides matches.
pub open spec fn match_spec(ex: Seq<Expr>, p: nat, t: nat) -> Seq<Seq<(Symbol, Id)>>
    decreases p, t,
{
    if p >= ex.len() || t >= ex.len() {
        Seq::empty()
    } else {
        match ex[p as int] {
            Expr::Var(name) => seq![seq![(name, Id(t as u32))]],
            Expr::Union(_, _) => Seq::empty(),
            pat => {
                if pat is Const && ex[t as int] is Const && pat->Const_0 == ex[t as int]->Const_0 {
                    seq![Seq::empty()]
                } else {
                    match ex[t as int] {
                        Expr::Union(a, b) => if a@ < t && b@ < t {
                            match_spec(ex, p, a@) + match_spec(ex, p, b@)
                        } else {
                            Seq::empty()
                        },
                        Expr::Pair(a2, b2) => match pat {
                            Expr::Pair(a1, b1) => if a1@ < p && b1@ < p {
                                join_all(match_spec(ex, a1@, a2@), match_spec(ex, b1@, b2@))
                            } else {
                                Seq::empty()
                            },
                            _ => Seq::empty(),
                        },
                        _ => Seq::empty(),
                    }
                }
            },
        }
    }
}

/// Matching against a union searches both of its sides: when the term at
/// `t` is `Union(a, b)` and the pattern at `p` is neither a variable nor a
/// union, a substitution is a match against `t` exactly when it is a match
/// against `a` or a match against `b`.
pub proof fn lemma_union_target_matches(ctx: Context, p: nat, t: nat, m: Seq<(Symbol, Id)>)
    requires
        ctx.wf(),
        p < ctx.exprs().len(),
        t < ctx.exprs().len(),
        ctx.exprs()[t as int] is Union,
        !(ctx.exprs()[p as int] is Var),
        !(ctx.exprs()[p as int] is Union),
    ensures
        match ctx.exprs()[t as int] {
            Expr::Union(a, b) => match_spec(ctx.exprs(), p, t).contains(m) <==> (match_spec(ctx.exprs(), p, a@).contains(m)
                || match_spec(ctx.exprs(), p, b@).contains(m)),
            _ => true,
        },
{
    ctx.lemma_wf_facts();
    let ex = ctx.exprs();
    if let Expr::Union(a, b) = ex[t as int] {
        assert(children_below(ex[t as int], t));
        let left = match_spec(ex, p, a@);
        let right = match_spec(ex, p, b@);
        assert(match_spec(ex, p, t) == left + right);
        if (left + right).contains(m) {
            let j = choose|j: int| 0 <= j < (left + right).len() && (left + right)[j] == m;
            if j < left.len() {
                assert(left[j] == m);
            } else {
                assert(right[j - left.len()] == m);
            }
        }
        if left.contains(m) {
            let j = choose|j: int| 0 <= j < left.len() && left[j] == m;
            assert((left + right)[j] == m);
        }
        if right.contains(m) {
            let j = choose|j: int| 0 <= j < right.len() && right[j] == m;
            assert((left + right)[left.len() + j] == m);
        }
    }
}

/// Matching the pattern at `p` against the term at `t` meets no `Union` in
/// the pattern: the pattern nodes that matching visits are all variables,
/// constants or pairs. A pair's second half is visited only when its first
/// half has matches.
pub open spec fn match_safe(ex: Seq<Expr>, p: nat, t: nat) -> bool
    decreases p, t,
{
    &&& p < ex.len()
    &&& t < ex.len()
    &&& match ex[p as int] {
        Expr::Var(_) => true,
        Expr::Union(_, _) => false,
        pat => if pat is Const && ex[t as int] is Const && pat->Const_0 == ex[t as int]->Const_0 {
            true
        } else {
            match ex[t as int] {
                Expr::Union(a, b) => a@ < t && b@ < t ==> match_safe(ex, p, a@) && match_safe(ex, p, b@),
                Expr::Pair(a2, b2) => match pat {
                    Expr::Pair(a1, b1) => a1@ < p && b1@ < p ==> match_safe(ex, a1@, a2@) && (match_spec(ex, a1@, a2@).len()
                        > 0 ==> match_safe(ex, b1@, b2@)),
                    _ => true,
                },
                _ => true,
            }
        },
    }
}

/// A pattern with no `Union` anywhere in it is safe to match against any
/// term.
pub proof fn lemma_no_union_match_safe(ex: Seq<Expr>, p: nat, t: nat)
    requires
        no_union(ex, p),
        t < ex.len(),
        forall|i: int| 0 <= i < ex.len() ==> children_below(#[trigger] ex[i], i as nat),
    ensures
        match_safe(ex, p, t),
    decreases p, t,
{
    match ex[p as int] {
        Expr::Pair(a1, b1) => {
            match ex[t as int] {
                Expr::Union(a, b) => {
                    if a@ < t && b@ < t {
                        lemma_no_union_match_safe(ex, p, a@);
                        lemma_no_union_match_safe(ex, p, b@);
                    }
                },
                Expr::Pair(a2, b2) => {
                    assert(children_below(ex[t as int], t));
                    lemma_no_union_match_safe(ex, a1@, a2@);
                    lemma_no_union_match_safe(ex, b1@, b2@);
                },
                _ => {},
            }
        },
        Expr::Const(_) => {
            if let Expr::Union(a, b) = ex[t as int] {
                if a@ < t && b@ < t {
                    lemma_no_union_match_safe(ex, p, a@);
                    lemma_no_union_match_safe(ex, p, b@);
                }
            }
        },
        _ => {},
    }
}

impl Context {
    /// All matches of the pattern at `pattern_id` against the term at `target_id`.
    pub fn matches(&self, pattern_id: Id, target_id: Id) -> (r: Vec<Subst>)
        requires
            self.wf(),
            target_id@ < self.exprs().len(),
            match_safe(self.exprs(), pattern_id@, target_id@),
        ensures
            views(r@) == match_spec(self.exprs(), pattern_id@, target_id@),
        decreases pattern_id@, target_id@, 0nat,
    {
        proof {
            self.lemma_wf_facts();
        }
        let ghost ex = self.exprs();
        let pattern = self.get(pattern_id);
        let target = self.get(target_id);
        if let Expr::Var(name) = pattern {
            let mut out: Vec<Subst> = Vec::new();
            out.push(Subst::singleton(name, target_id));
            proof {
                assert(views(out@) =~= seq![seq![(name, Id(target_id@ as u32))]]);
            }
            return out;
        }
        if let Expr::Const(a) = pattern {
            if let Expr::Const(b) = target {
                if a == b {
                    let mut out: Vec<Subst> = Vec::new();
                    out.push(Subst::default());
                    proof {
                        assert(views(out@) =~= seq![Seq::<(Symbol, Id)>::empty()]);
                    }
                    return out;
                }
            }
        }
        match target {
            Expr::Union(a, b) => {
                proof {
                    assert(children_below(ex[target_id@ as int], target_id@));
                }
                let left = self.matches(pattern_id, a);
                let right = self.matches(pattern_id, b);
                let out = append(left, right);
                proof {
                    assert(views(out@) =~= views(left@) + views(right@));
                }
                out
            },
            Expr::Pair(a2, b2) => {
                match pattern {
                    Expr::Pair(a1, b1) => {
                        proof {
                            assert(children_below(ex[target_id@ as int], target_id@));
                        }
                        let firsts = self.matches(a1, a2);
                        let ghost bs = match_spec(ex, b1@, b2@);
                        let mut results: Vec<Subst> = Vec::new();
                        let mut i: usize = 0;
                        proof {
                            assert(views(firsts@).take(0) =~= Seq::<Seq<(Symbol, Id)>>::empty());
                            assert(views(results@) =~= Seq::<Seq<(Symbol, Id)>>::empty());
                        }
                        while i < firsts.len()
                            invariant
                                self.wf(),
                                ex == self.exprs(),
                                i <= firsts@.len(),
                                b1@ < pattern_id@,
                                b2@ < ex.len(),
                                views(firsts@) == match_spec(ex, a1@, a2@),
                                firsts@.len() > 0 ==> match_safe(ex, b1@, b2@),
                                bs == match_spec(ex, b1@, b2@),
                                views(results@) == join_all(views(firsts@).take(i as int), bs),
                            decreases firsts@.len() - i,
                        {
                            let more = self.matches_with(b1, b2, firsts[i].clone());
                            let ghost before = results@;
                            let mut more = more;
                            results.append(&mut more);
                            proof {
                                let fv = views(firsts@);
                                assert(fv.take(i + 1int).drop_last() =~= fv.take(i as int));
                                assert(fv.take(i + 1int).last() == firsts@[i as int]@);
                                assert(views(results@) =~= views(before) + join_each(bs, firsts@[i as int]@));
                            }
                            i = i + 1;
                        }
                        proof {
                            assert(views(firsts@).take(firsts@.len() as int) =~= views(firsts@));
                        }
                        results
                    },
                    _ => Vec::new(),
                }
            },
            _ => Vec::new(),
        }
    }

    /// The matches of the pattern at `pattern` against `target`, each joined
    /// with `subst`, dropping those that conflict with it.
    pub fn matches_with(&self, pattern: Id, target: Id, subst: Subst) -> (r: Vec<Subst>)
        requires
            self.wf(),
            target@ < self.exprs().len(),
            match_safe(self.exprs(), pattern@, target@),
        ensures
            views(r@) == join_each(match_spec(self.exprs(), pattern@, target@), subst@),
        decreases pattern@, target@, 1nat,
    {
        let found = self.matches(pattern, target);
        let ghost ms = views(found@);
        let mut out: Vec<Subst> = Vec::new();
        let mut i: usize = 0;
        proof {
            assert(ms.take(0) =~= Seq::<Seq<(Symbol, Id)>>::empty());
            assert(views(out@) =~= Seq::<Seq<(Symbol, Id)>>::empty());
        }
        while i < found.len()
            invariant
                i <= found@.len(),
                ms == views(found@),
                views(out@) == join_each(ms.take(i as int), subst@),
            decreases found@.len() - i,
        {
            let joined = found[i].clone().join(&subst);
            proof {
                assert(ms.take(i + 1int).drop_last() =~= ms.take(i as int));
                assert(ms.take(i + 1int).last() == found@[i as int]@);
            }
            match joined {
                Some(s) => {
                    let ghost before = out@;
                    out.push(s);
                    proof {
                        assert(views(out@) =~= views(before).push(s@));
                    }
                },
                None => {},
            }
            i = i + 1;
        }
        proof {
            assert(ms.take(found@.len() as int) =~= ms);
        }
        out
    }
}

// ---------------------------------------------------------------------------
// Instantiation
// ---------------------------------------------------------------------------

/// Number of `Pair` nodes in the pattern at `p`, counted as a tree.
pub open spec fn pair_count(ex: Seq<Expr>, p: nat) -> nat
    decreases p,
{
    if p >= ex.len() {
        0
    } else {
        match ex[p as int] {
            Expr::Pair(a, b) => if a@ < p && b@ < p {
                1 + pair_count(ex, a@) + pair_count(ex, b@)
            } else {
                0
            },
            _ => 0,
        }
    }
}

/// The pattern at `p` holds no `Union` node and every variable in it is bound by `s`.
pub open spec fn vars_bound(ex: Seq<Expr>, p: nat, s: Seq<(Symbol, Id)>) -> bool
    decreases p,
{
    &&& p < ex.len()
    &&& match ex[p as int] {
        Expr::Var(n) => lookup(s, n) is Some,
        Expr::Pair(a, b) => a@ < p && b@ < p && vars_bound(ex, a@, s) && vars_bound(ex, b@, s),
        Expr::Const(_) => true,
        Expr::Union(_, _) => false,
    }
}

/// `r` is the pattern at `p` with its variables replaced as `s` says: a
/// variable becomes the id it is bound to, a constant stays, and a pair
/// becomes the pair of the instantiated halves.
pub open spec fn inst_ok(ex: Seq<Expr>, p: nat, s: Seq<(Symbol, Id)>, r: nat) -> bool
    decreases p,
{
    &&& p < ex.len()
    &&& r < ex.len()
    &&& match ex[p as int] {
        Expr::Var(n) => lookup(s, n) == Some(Id(r as u32)),
        Expr::Const(_) => r == p,
        Expr::Pair(a, b) => a@ < p && b@ < p && match ex[r as int] {
            Expr::Pair(x, y) => inst_ok(ex, a@, s, x@) && inst_ok(ex, b@, s, y@),
            _ => false,
        },
        Expr::Union(_, _) => false,
    }
}

/// Every id that `s` binds is below `n`.
pub open spec fn ids_below(s: Seq<(Symbol, Id)>, n: nat) -> bool {
    forall|i: int| 0 <= i < s.len() ==> (#[trigger] s[i]).1@ < n
}

proof fn lemma_extends_index(e1: Seq<Expr>, e0: Seq<Expr>, i: int)
    requires
        extends(e1, e0),
        0 <= i < e0.len(),
    ensures
        e1[i] == e0[i],
{
    assert(e1[i] == e1.subrange(0, e0.len() as int)[i]);
}

proof fn lemma_extends_trans(e2: Seq<Expr>, e1: Seq<Expr>, e0: Seq<Expr>)
    requires
        extends(e2, e1),
        extends(e1, e0),
    ensures
        extends(e2, e0),
{
    assert(e2.subrange(0, e0.len() as int) =~= e1.subrange(0, e0.len() as int));
}

/// A bound variable is bound to one of the ids of the substitution.
proof fn lemma_lookup_in(s: Seq<(Symbol, Id)>, n: Symbol)
    ensures
        lookup(s, n) matches Some(id) ==> exists|i: int| 0 <= i < s.len() && s[i] == (n, id),
    decreases s.len(),
{
    if s.len() > 0 && s[0].0 != n {
        lemma_lookup_in(s.drop_first(), n);
        if let Some(id) = lookup(s, n) {
            let i = choose|i: int| 0 <= i < s.drop_first().len() && s.drop_first()[i] == (n, id);
            assert(s[i + 1] == (n, id));
        }
    }
}

proof fn lemma_pattern_grows(e0: Seq<Expr>, e1: Seq<Expr>, p: nat, s: Seq<(Symbol, Id)>)
    requires
        extends(e1, e0),
        p < e0.len(),
    ensures
        pair_count(e1, p) == pair_count(e0, p),
        vars_bound(e1, p, s) == vars_bound(e0, p, s),
        no_union(e1, p) == no_union(e0, p),
    decreases p,
{
    lemma_extends_index(e1, e0, p as int);
    if let Expr::Pair(a, b) = e0[p as int] {
        if a@ < p && b@ < p {
            lemma_pattern_grows(e0, e1, a@, s);
            lemma_pattern_grows(e0, e1, b@, s);
        }
    }
}

proof fn lemma_inst_grows(e0: Seq<Expr>, e1: Seq<Expr>, p: nat, s: Seq<(Symbol, Id)>, r: nat)
    requires
        extends(e1, e0),
        inst_ok(e0, p, s, r),
    ensures
        inst_ok(e1, p, s, r),
    decreases p,
{
    lemma_extends_index(e1, e0, p as int);
    lemma_extends_index(e1, e0, r as int);
    if let Expr::Pair(a, b) = e0[p as int] {
        if let Expr::Pair(x, y) = e0[r as int] {
            lemma_inst_grows(e0, e1, a@, s, x@);
            lemma_inst_grows(e0, e1, b@, s, y@);
        }
    }
}

impl Context {
    proof fn lemma_only_adds_extends(&self, old: &Context)
        requires
            self.only_adds(old),
        ensures
            extends(self.exprs(), old.exprs()),
    {
    }

    /// Builds the pattern at `pattern_id` with its variables replaced as
    /// `subst` says, adding the `Pair` nodes needed; returns its id.
    pub fn instantiate(&mut self, pattern_id: Id, subst: &Subst) -> (r: Id)
        requires
            old(self).wf(),
            vars_bound(old(self).exprs(), pattern_id@, subst@),
            ids_below(subst@, old(self).exprs().len()),
            old(self).exprs().len() + pair_count(old(self).exprs(), pattern_id@) + 1 < u32::MAX,
        ensures
            final(self).wf(),
            final(self).only_adds(old(self)),
            final(self).exprs().len() <= old(self).exprs().len() + pair_count(old(self).exprs(), pattern_id@),
            inst_ok(final(self).exprs(), pattern_id@, subst@, r@),
            old(self).unions_merged() ==> final(self).unions_merged(),
            forall|x: nat|
                #[trigger] inst_ok(old(self).exprs(), pattern_id@, subst@, x) ==> {
                    &&& final(self).exprs() == old(self).exprs()
                    &&& final(self).classes() == old(self).classes()
                    &&& r@ == x
                },
        decreases pattern_id@,
    {
        proof {
            self.lemma_wf_facts();
            assert(self.exprs().subrange(0, self.exprs().len() as int) =~= self.exprs());
        }
        let ghost e0 = self.exprs();
        let pattern = self.get(pattern_id);
        match pattern {
            Expr::Var(name) => {
                proof {
                    lemma_lookup_in(subst@, name);
                }
                subst.index(name)
            },
            Expr::Pair(a, b) => {
                let ghost s0 = *self;
                let ra = self.instantiate(a, subst);
                let ghost s1 = *self;
                let ghost e1 = self.exprs();
                proof {
                    self.lemma_only_adds_extends(&s0);
                    lemma_pattern_grows(e0, e1, b@, subst@);
                }
                let rb = self.instantiate(b, subst);
                let ghost e2 = self.exprs();
                proof {
                    self.lemma_only_adds_extends(&s1);
                    self.lemma_only_adds_trans(&s1, &s0);
                    lemma_inst_grows(e1, e2, a@, subst@, ra@);
                    self.lemma_wf_facts();
                }
                let ghost s2 = *self;
                proof {
                    if exists|x: nat| inst_ok(e0, pattern_id@, subst@, x) {
                        let x = choose|x: nat| inst_ok(e0, pattern_id@, subst@, x);
                        if let Expr::Pair(xa, xb) = e0[x as int] {
                            assert(inst_ok(e0, a@, subst@, xa@));
                            assert(e1 == e0);
                            assert(inst_ok(e1, b@, subst@, xb@));
                            assert(ra == xa && rb == xb);
                            assert(e2 == e0);
                            assert(e0.contains(Expr::Pair(ra, rb)));
                        }
                    }
                }
                let r = self.add_expr(Expr::Pair(ra, rb));
                proof {
                    let e3 = self.exprs();
                    if exists|x: nat| inst_ok(e0, pattern_id@, subst@, x) {
                        s0.lemma_wf_facts();
                        assert forall|x: nat| #[trigger] inst_ok(e0, pattern_id@, subst@, x) implies e3 == e0 && r@ == x by {
                            let x0 = choose|x: nat| inst_ok(e0, pattern_id@, subst@, x);
                            lemma_inst_unique(e0, pattern_id@, subst@, x, x0);
                            assert(e0[r@ as int] == Expr::Pair(ra, rb));
                            assert(e0[x as int] == Expr::Pair(ra, rb));
                        }
                    }
                    assert(extends(e3, e2)) by {
                        assert(e3.subrange(0, e2.len() as int) =~= e2);
                    }
                    self.lemma_only_adds_trans(&s2, &s0);
                    lemma_inst_grows(e2, e3, a@, subst@, ra@);
                    lemma_inst_grows(e2, e3, b@, subst@, rb@);
                    lemma_extends_trans(e3, e2, e0);
                    lemma_extends_index(e3, e0, pattern_id@ as int);
                }
                r
            },
            _ => pattern_id,
        }
    }
}

// ---------------------------------------------------------------------------
// What matches bind
// ---------------------------------------------------------------------------

/// The variable `n` occurs in the pattern at `p`.
pub open spec fn occurs(ex: Seq<Expr>, p: nat, n: Symbol) -> bool
    decreases p,
{
    &&& p < ex.len()
    &&& match ex[p as int] {
        Expr::Var(v) => v == n,
        Expr::Pair(a, b) => a@ < p && b@ < p && (occurs(ex, a@, n) || occurs(ex, b@, n)),
        _ => false,
    }
}

/// Every substitution binds each variable of `p`.
pub open spec fn binds_vars_of(ex: Seq<Expr>, p: nat, m: Seq<(Symbol, Id)>) -> bool {
    forall|n: Symbol| #[trigger] occurs(ex, p, n) ==> lookup(m, n) is Some
}

proof fn lemma_lookup_push(s: Seq<(Symbol, Id)>, x: (Symbol, Id), n: Symbol)
    ensures
        lookup(s, n) is Some ==> lookup(s.push(x), n) == lookup(s, n),
        lookup(s, n) is None && x.0 == n ==> lookup(s.push(x), n) == Some(x.1),
        lookup(s, n) is None && x.0 != n ==> lookup(s.push(x), n) is None,
    decreases s.len(),
{
    if s.len() > 0 {
        assert(s.push(x).drop_first() =~= s.drop_first().push(x));
        lemma_lookup_push(s.drop_first(), x, n);
    } else {
        assert(s.push(x).drop_first() =~= Seq::<(Symbol, Id)>::empty());
        assert(lookup(s.push(x).drop_first(), n) is None);
    }
}

proof fn lemma_join_binds(s: Seq<(Symbol, Id)>, o: Seq<(Symbol, Id)>, bound: nat)
    requires
        join_spec(s, o) is Some,
    ensures
        forall|n: Symbol| lookup(s, n) is Some ==> #[trigger] lookup(join_spec(s, o)->0, n) is Some,
        forall|n: Symbol| lookup(o, n) is Some ==> #[trigger] lookup(join_spec(s, o)->0, n) is Some,
        ids_below(s, bound) && ids_below(o, bound) ==> ids_below(join_spec(s, o)->0, bound),
    decreases o.len(),
{
    if o.len() > 0 {
        let (v, i) = o[0];
        let s2 = with_spec(s, v, i)->0;
        assert forall|n: Symbol| lookup(s, n) is Some implies lookup(s2, n) is Some by {
            lemma_lookup_push(s, (v, i), n);
        }
        lemma_lookup_push(s, (v, i), v);
        assert(lookup(s2, v) is Some);
        lemma_join_binds(s2, o.drop_first(), bound);
        assert forall|n: Symbol| lookup(o, n) is Some implies #[trigger] lookup(join_spec(s, o)->0, n) is Some by {
            if o[0].0 != n {
                assert(lookup(o.drop_first(), n) is Some);
            }
        }
        if ids_below(s, bound) && ids_below(o, bound) {
            assert(ids_below(s2, bound)) by {
                assert(o[0].1@ < bound);
            }
            assert(ids_below(o.drop_first(), bound)) by {
                assert forall|k: int| 0 <= k < o.drop_first().len() implies (#[trigger] o.drop_first()[k]).1@ < bound by {
                    assert(o.drop_first()[k] == o[k + 1]);
                }
            }
        }
    }
}

proof fn lemma_join_each_member(bs: Seq<Seq<(Symbol, Id)>>, s: Seq<(Symbol, Id)>, m: Seq<(Symbol, Id)>)
    requires
        join_each(bs, s).contains(m),
    ensures
        exists|k: int| 0 <= k < bs.len() && join_spec(#[trigger] bs[k], s) == Some(m),
    decreases bs.len(),
{
    let rest = join_each(bs.drop_last(), s);
    if rest.contains(m) {
        lemma_join_each_member(bs.drop_last(), s, m);
        let k = choose|k: int| 0 <= k < bs.drop_last().len() && join_spec(#[trigger] bs.drop_last()[k], s) == Some(m);
        assert(bs[k] == bs.drop_last()[k]);
    } else {
        assert(join_spec(bs[bs.len() - 1], s) == Some(m));
    }
}

proof fn lemma_join_all_member(as_: Seq<Seq<(Symbol, Id)>>, bs: Seq<Seq<(Symbol, Id)>>, m: Seq<(Symbol, Id)>)
    requires
        join_all(as_, bs).contains(m),
    ensures
        exists|k: int| 0 <= k < as_.len() && join_each(bs, #[trigger] as_[k]).contains(m),
    decreases as_.len(),
{
    let rest = join_all(as_.drop_last(), bs);
    let j = choose|j: int| 0 <= j < join_all(as_, bs).len() && join_all(as_, bs)[j] == m;
    if j < rest.len() {
        assert(rest[j] == m);
        lemma_join_all_member(as_.drop_last(), bs, m);
        let k = choose|k: int| 0 <= k < as_.drop_last().len() && join_each(bs, #[trigger] as_.drop_last()[k]).contains(m);
        assert(as_[k] == as_.drop_last()[k]);
    } else {
        let last = join_each(bs, as_.last());
        assert(last[j - rest.len()] == m);
        assert(as_[as_.len() - 1] == as_.last());
    }
}

/// Every match of a pattern binds each variable of the pattern, and only to
/// ids of the e-graph.
proof fn lemma_match_binds(ex: Seq<Expr>, p: nat, t: nat, m: Seq<(Symbol, Id)>)
    requires
        match_spec(ex, p, t).contains(m),
        ex.len() <= u32::MAX,
    ensures
        binds_vars_of(ex, p, m),
        ids_below(m, ex.len()),
    decreases p, t,
{
    let ms = match_spec(ex, p, t);
    match ex[p as int] {
        Expr::Var(name) => {
            assert(m == ms[0]);
            assert forall|n: Symbol| #[trigger] occurs(ex, p, n) implies lookup(m, n) is Some by {
                assert(m[0].0 == name);
            }
        },
        Expr::Union(_, _) => {},
        pat => {
            if pat is Const && ex[t as int] is Const && pat->Const_0 == ex[t as int]->Const_0 {
                assert(m == ms[0]);
            } else {
                match ex[t as int] {
                    Expr::Union(a, b) => {
                        let left = match_spec(ex, p, a@);
                        let right = match_spec(ex, p, b@);
                        let j = choose|j: int| 0 <= j < ms.len() && ms[j] == m;
                        if j < left.len() {
                            assert(left[j] == m);
                            lemma_match_binds(ex, p, a@, m);
                        } else {
                            assert(right[j - left.len()] == m);
                            lemma_match_binds(ex, p, b@, m);
                        }
                    },
                    Expr::Pair(a2, b2) => {
                        if let Expr::Pair(a1, b1) = pat {
                            let as_ = match_spec(ex, a1@, a2@);
                            let bs = match_spec(ex, b1@, b2@);
                            lemma_join_all_member(as_, bs, m);
                            let k = choose|k: int| 0 <= k < as_.len() && join_each(bs, #[trigger] as_[k]).contains(m);
                            lemma_join_each_member(bs, as_[k], m);
                            let q = choose|q: int| 0 <= q < bs.len() && join_spec(#[trigger] bs[q], as_[k]) == Some(m);
                            assert(as_.contains(as_[k]));
                            assert(bs.contains(bs[q]));
                            lemma_match_binds(ex, a1@, a2@, as_[k]);
                            lemma_match_binds(ex, b1@, b2@, bs[q]);
                            lemma_join_binds(bs[q], as_[k], ex.len());
                            assert forall|n: Symbol| #[trigger] occurs(ex, p, n) implies lookup(m, n) is Some by {
                                if occurs(ex, a1@, n) {
                                    assert(lookup(as_[k], n) is Some);
                                } else {
                                    assert(occurs(ex, b1@, n));
                                    assert(lookup(bs[q], n) is Some);
                                }
                            }
                        }
                    },
                    _ => {},
                }
            }
        },
    }
}

/// The variables of `rhs` all occur in `lhs`, and `rhs` holds no `Union`.
pub open spec fn vars_within(ex: Seq<Expr>, rhs: nat, lhs: nat) -> bool {
    &&& no_union(ex, rhs)
    &&& forall|n: Symbol| #[trigger] occurs(ex, rhs, n) ==> occurs(ex, lhs, n)
}

proof fn lemma_vars_bound(ex: Seq<Expr>, p: nat, m: Seq<(Symbol, Id)>)
    requires
        no_union(ex, p),
        forall|n: Symbol| #[trigger] occurs(ex, p, n) ==> lookup(m, n) is Some,
    ensures
        vars_bound(ex, p, m),
    decreases p,
{
    if let Expr::Pair(a, b) = ex[p as int] {
        assert forall|n: Symbol| #[trigger] occurs(ex, a@, n) implies lookup(m, n) is Some by {
            assert(occurs(ex, p, n));
        }
        assert forall|n: Symbol| #[trigger] occurs(ex, b@, n) implies lookup(m, n) is Some by {
            assert(occurs(ex, p, n));
        }
        lemma_vars_bound(ex, a@, m);
        lemma_vars_bound(ex, b@, m);
    }
    if let Expr::Var(v) = ex[p as int] {
        assert(occurs(ex, p, v));
    }
}

/// Every `Union` node from position `n0` on is, under `q`, in the class of `t`.
pub open spec fn unions_to(q: Seq<nat>, ex: Seq<Expr>, n0: nat, t: nat) -> bool {
    forall|u: int| n0 <= u < ex.len() && (#[trigger] ex[u]) is Union ==> q[u] == q[t as int]
}

/// Every instance of `rhs` under each of `ms` is, under `q`, in the class
/// of `t`.
pub open spec fn insts_to(q: Seq<nat>, ex: Seq<Expr>, rhs: nat, ms: Seq<Seq<(Symbol, Id)>>, t: nat) -> bool {
    forall|k: int, z: nat| 0 <= k < ms.len() && #[trigger] inst_ok(ex, rhs, ms[k], z) ==> q[z as int] == q[t as int]
}

/// Merging two ids that `q` puts in one class keeps `q` coarser.
proof fn lemma_merge_below(q: Seq<nat>, cls: Seq<nat>, a: int, b: int)
    requires
        coarser(q, cls),
        0 <= a < cls.len(),
        0 <= b < cls.len(),
        q[a] == q[b],
    ensures
        coarser(q, merge_classes(cls, cls[a], cls[b])),
{
    let m = merge_classes(cls, cls[a], cls[b]);
    assert forall|x: int, y: int| 0 <= x < m.len() && 0 <= y < m.len() && m[x] == m[y] implies #[trigger] q[x] == #[trigger] q[y] by {
        if cls[x] == cls[a] {
            assert(q[x] == q[a]);
        }
        if cls[y] == cls[a] {
            assert(q[y] == q[a]);
        }
        if cls[x] == cls[b] {
            assert(q[x] == q[b]);
        }
        if cls[y] == cls[b] {
            assert(q[y] == q[b]);
        }
    }
}

/// Appending ids each in a class of its own keeps `q` coarser, when `q`
/// covers them.
proof fn lemma_fresh_below(q: Seq<nat>, cls1: Seq<nat>, cls2: Seq<nat>)
    requires
        coarser(q, cls1),
        cls1.len() <= cls2.len(),
        cls2.len() <= q.len(),
        forall|i: int| 0 <= i < cls1.len() ==> #[trigger] cls2[i] == cls1[i],
        forall|i: int| 0 <= i < cls1.len() ==> #[trigger] cls1[i] < cls1.len(),
        forall|i: int| cls1.len() <= i < cls2.len() ==> #[trigger] cls2[i] == i,
    ensures
        coarser(q, cls2),
{
    assert forall|x: int, y: int|
        0 <= x < cls2.len() && 0 <= y < cls2.len() && cls2[x] == cls2[y] implies #[trigger] q[x] == #[trigger] q[y] by {
        if x < cls1.len() {
            assert(cls2[x] == cls1[x]);
        }
        if y < cls1.len() {
            assert(cls2[y] == cls1[y]);
        }
    }
}

/// One step of `rewrite` (building an instance, then merging it into the
/// class of the target) keeps the classes within every `q` that puts the
/// target together with the instances and the new `Union` nodes.
proof fn lemma_least_step(
    q: Seq<nat>,
    c0: Seq<nat>,
    n0: nat,
    t0: nat,
    rhs: nat,
    ms: Seq<Seq<(Symbol, Id)>>,
    i: int,
    ex1: Seq<Expr>,
    cls1: Seq<nat>,
    ex2: Seq<Expr>,
    cls2: Seq<nat>,
    ex3: Seq<Expr>,
    cls3: Seq<nat>,
    cur: nat,
    rw: nat,
    m: Seq<(Symbol, Id)>,
)
    requires
        forall|q2: Seq<nat>|
            coarser(q2, c0) && cls1.len() <= q2.len() && unions_to(q2, ex1, n0, t0) && #[trigger] insts_to(
                q2,
                ex1,
                rhs,
                ms.take(i),
                t0,
            ) ==> coarser(q2, cls1),
        coarser(q, c0),
        cls3.len() <= q.len(),
        unions_to(q, ex3, n0, t0),
        insts_to(q, ex3, rhs, ms.take(i + 1), t0),
        0 <= i < ms.len(),
        m == ms[i],
        n0 <= ex1.len(),
        t0 < ex1.len(),
        extends(ex2, ex1),
        extends(ex3, ex2),
        cls1.len() == ex1.len(),
        cls2.len() == ex2.len(),
        cls3.len() == ex3.len(),
        ex2.len() + 1 < u32::MAX,
        forall|j: int| 0 <= j < cls1.len() ==> #[trigger] cls2[j] == cls1[j],
        forall|j: int| cls1.len() <= j < cls2.len() ==> #[trigger] cls2[j] == j,
        forall|j: int| 0 <= j < cls1.len() ==> #[trigger] cls1[j] < cls1.len(),
        forall|j: int| 0 <= j < cls2.len() ==> #[trigger] cls2[j] < cls2.len() && cls2[cls2[j] as int] == cls2[j],
        forall|u: int|
            0 <= u < ex2.len() ==> match #[trigger] ex2[u] {
                Expr::Union(a, b) => cls2[a@ as int] == cls2[u] && cls2[b@ as int] == cls2[u],
                _ => true,
            },
        cur < ex2.len(),
        rw < ex2.len(),
        cls2[cur as int] == cls2[t0 as int],
        inst_ok(ex2, rhs, m, rw),
        ({
            let rt = cls2[cur as int];
            let rr = cls2[rw as int];
            let n = ex2.len();
            &&& rt == rr ==> ex3 == ex2 && cls3 == cls2
            &&& rt != rr ==> {
                let e = Expr::Union(Id(rt as u32), Id(rr as u32));
                let grown = if ex2.contains(e) {
                    cls2
                } else {
                    cls2.push(n)
                };
                exists|r: nat|
                    {
                        &&& ex3 == if ex2.contains(e) {
                            ex2
                        } else {
                            ex2.push(e)
                        }
                        &&& r < ex3.len()
                        &&& ex3[r as int] == e
                        &&& cls3 == merge_classes(merge_classes(grown, rt, grown[r as int]), rr, grown[r as int])
                    }
            }
        }),
    ensures
        coarser(q, cls3),
{
    assert(unions_to(q, ex1, n0, t0)) by {
        assert forall|u: int| n0 <= u < ex1.len() && (#[trigger] ex1[u]) is Union implies q[u] == q[t0 as int] by {
            lemma_extends_trans(ex3, ex2, ex1);
            lemma_extends_index(ex3, ex1, u);
        }
    }
    assert(insts_to(q, ex1, rhs, ms.take(i), t0)) by {
        assert forall|k: int, z: nat| 0 <= k < ms.take(i).len() && #[trigger] inst_ok(ex1, rhs, ms.take(i)[k], z) implies q[z as int]
            == q[t0 as int] by {
            lemma_extends_trans(ex3, ex2, ex1);
            lemma_inst_grows(ex1, ex3, rhs, ms.take(i)[k], z);
            assert(ms.take(i + 1)[k] == ms.take(i)[k]);
            assert(inst_ok(ex3, rhs, ms.take(i + 1)[k], z));
        }
    }
    assert(coarser(q, cls1));
    lemma_fresh_below(q, cls1, cls2);
    lemma_inst_grows(ex2, ex3, rhs, m, rw);
    assert(ms.take(i + 1)[i] == m);
    assert(q[rw as int] == q[t0 as int]);
    assert(q[cur as int] == q[t0 as int]);
    let rt = cls2[cur as int];
    let rr = cls2[rw as int];
    let n = ex2.len();
    if rt != rr {
        let e = Expr::Union(Id(rt as u32), Id(rr as u32));
        if ex2.contains(e) {
            let j = choose|j: int| 0 <= j < ex2.len() && ex2[j] == e;
            assert(cls2[rt as int] == cls2[j]);
            assert(cls2[rr as int] == cls2[j]);
            assert(false);
        }
        let grown = cls2.push(n);
        let r = choose|r: nat|
            {
                &&& ex3 == ex2.push(e)
                &&& r < ex3.len()
                &&& ex3[r as int] == e
                &&& cls3 == merge_classes(merge_classes(grown, rt, grown[r as int]), rr, grown[r as int])
            };
        if r < n {
            assert(ex2[r as int] == e);
            assert(false);
        }
        assert(r == n);
        assert(ex3[n as int] is Union);
        assert(q[n as int] == q[t0 as int]);
        assert forall|j: int| 0 <= j < cls2.len() implies #[trigger] grown[j] == cls2[j] by {}
        assert(forall|j: int| 0 <= j < cls2.len() ==> #[trigger] cls2[j] < cls2.len());
        lemma_fresh_below(q, cls2, grown);
        assert(grown[cur as int] == rt);
        assert(grown[n as int] == n);
        lemma_merge_below(q, grown, cur as int, n as int);
        let m1 = merge_classes(grown, rt, n);
        assert(m1[rw as int] == rr);
        assert(m1[n as int] == n);
        lemma_merge_below(q, m1, rw as int, n as int);
    }
}

/// Some instance of `rhs` under `m` is in the class of `t`.
pub open spec fn merged_instance(ex: Seq<Expr>, cls: Seq<nat>, rhs: nat, m: Seq<(Symbol, Id)>, t: nat) -> bool {
    exists|z: nat| #[trigger] inst_ok(ex, rhs, m, z) && cls[z as int] == cls[t as int]
}

impl Context {
    proof fn lemma_only_adds_coarser(&self, old: &Context)
        requires
            self.only_adds(old),
            old.classes().len() == old.exprs().len(),
        ensures
            coarser(self.classes(), old.classes()),
            extends(self.exprs(), old.exprs()),
    {
        assert forall|x: int, y: int|
            0 <= x < old.classes().len() && 0 <= y < old.classes().len() && old.classes()[x] == old.classes()[y] implies
            #[trigger] self.classes()[x] == #[trigger] self.classes()[y] by {
            assert(self.classes()[x] == old.classes()[x]);
            assert(self.classes()[y] == old.classes()[y]);
        }
    }

    /// Rewrites every match of `lhs` at `target` into `rhs`: each instance
    /// of `rhs` is built and merged into the class of `target`. Returns
    /// `target` when nothing matches, else the representative of its class.
    /// Nothing else is merged: the classes are within every coarsening of
    /// the old ones that puts the instances and the new `Union` nodes in the
    /// class of `target`.
    pub fn rewrite(&mut self, target: Id, lhs: Id, rhs: Id) -> (r: Id)
        requires
            old(self).wf(),
            old(self).unions_merged(),
            target@ < old(self).exprs().len(),
            match_safe(old(self).exprs(), lhs@, target@),
            rhs@ < old(self).exprs().len(),
            vars_within(old(self).exprs(), rhs@, lhs@),
            old(self).exprs().len() + match_spec(old(self).exprs(), lhs@, target@).len() * (pair_count(
                old(self).exprs(),
                rhs@,
            ) + 2) + 1 < u32::MAX,
        ensures
            final(self).wf(),
            final(self).unions_merged(),
            extends(final(self).exprs(), old(self).exprs()),
            coarser(final(self).classes(), old(self).classes()),
            ({
                let ms = match_spec(old(self).exprs(), lhs@, target@);
                &&& ms.len() == 0 ==> r == target && final(self).exprs() == old(self).exprs()
                    && final(self).classes() == old(self).classes()
                &&& ms.len() > 0 ==> r@ == final(self).classes()[target@ as int]
                &&& forall|k: int|
                    0 <= k < ms.len() ==> merged_instance(
                        final(self).exprs(),
                        final(self).classes(),
                        rhs@,
                        #[trigger] ms[k],
                        target@,
                    )
                &&& forall|q: Seq<nat>|
                    coarser(q, old(self).classes()) && final(self).classes().len() <= q.len() && unions_to(
                        q,
                        final(self).exprs(),
                        old(self).exprs().len(),
                        target@,
                    ) && #[trigger] insts_to(q, final(self).exprs(), rhs@, ms, target@) ==> coarser(q, final(self).classes())
            }),
    {
        proof {
            self.lemma_wf_facts();
        }
        let ghost e0 = self.exprs();
        let ghost c0 = self.classes();
        let ghost n0 = e0.len();
        let ghost pc = pair_count(e0, rhs@);
        let found = self.matches(lhs, target);
        let ghost ms = views(found@);
        let t0 = target;
        let mut cur = target;
        let mut i: usize = 0;
        proof {
            assert(e0.subrange(0, n0 as int) =~= e0);
        }
        while i < found.len()
            invariant
                self.wf(),
                self.unions_merged(),
                e0 == old(self).exprs(),
                c0 == old(self).classes(),
                n0 == e0.len(),
                c0.len() == n0,
                t0@ < n0,
                rhs@ < n0,
                pc == pair_count(e0, rhs@),
                ms == views(found@),
                ms == match_spec(e0, lhs@, t0@),
                vars_within(e0, rhs@, lhs@),
                n0 + ms.len() * (pc + 2) + 1 < u32::MAX,
                i <= found@.len(),
                extends(self.exprs(), e0),
                coarser(self.classes(), c0),
                self.exprs().len() <= n0 + i * (pc + 2),
                cur@ < self.exprs().len(),
                self.classes()[cur@ as int] == self.classes()[t0@ as int],
                i == 0 ==> cur == t0 && self.exprs() == e0 && self.classes() == c0,
                i > 0 ==> cur@ == self.classes()[t0@ as int],
                forall|k: int|
                    0 <= k < i ==> merged_instance(self.exprs(), self.classes(), rhs@, #[trigger] ms[k], t0@),
                forall|q: Seq<nat>|
                    coarser(q, c0) && self.classes().len() <= q.len() && unions_to(q, self.exprs(), n0, t0@)
                        && #[trigger] insts_to(q, self.exprs(), rhs@, ms.take(i as int), t0@) ==> coarser(q, self.classes()),
            decreases found@.len() - i,
        {
            let ghost before = *self;
            let ghost m = ms[i as int];
            proof {
                self.lemma_wf_facts();
                assert(ms.contains(m));
                lemma_match_binds(e0, lhs@, t0@, m);
                assert forall|n: Symbol| #[trigger] occurs(e0, rhs@, n) implies lookup(m, n) is Some by {
                    assert(occurs(e0, lhs@, n));
                }
                lemma_vars_bound(e0, rhs@, m);
                lemma_pattern_grows(e0, self.exprs(), rhs@, m);
                assert((i + 1) * (pc + 2) <= ms.len() * (pc + 2)) by (nonlinear_arith)
                    requires
                        i + 1 <= ms.len(),
                ;
                assert((i + 1) * (pc + 2) == i * (pc + 2) + pc + 2) by (nonlinear_arith);
                assert(found@[i as int]@ == m);
            }
            let rewritten = self.instantiate(rhs, &found[i]);
            let ghost mid = *self;
            proof {
                self.lemma_only_adds_coarser(&before);
                lemma_extends_trans(self.exprs(), before.exprs(), e0);
                lemma_coarser_trans(self.classes(), before.classes(), c0);
                self.lemma_wf_facts();
            }
            let union = self.union(cur, rewritten);
            proof {
                lemma_extends_trans(self.exprs(), mid.exprs(), e0);
                lemma_coarser_trans(self.classes(), mid.classes(), c0);
                lemma_coarser_trans(self.classes(), mid.classes(), before.classes());
                assert(self.classes()[t0@ as int] == self.classes()[cur@ as int]);
                lemma_inst_grows(mid.exprs(), self.exprs(), rhs@, m, rewritten@);
                assert forall|k: int|
                    0 <= k < i + 1 implies merged_instance(self.exprs(), self.classes(), rhs@, #[trigger] ms[k], t0@) by {
                    if k < i {
                        assert(merged_instance(before.exprs(), before.classes(), rhs@, ms[k], t0@));
                        let z = choose|z: nat|
                            #[trigger] inst_ok(before.exprs(), rhs@, ms[k], z) && before.classes()[z as int]
                                == before.classes()[t0@ as int];
                        lemma_extends_trans(self.exprs(), mid.exprs(), before.exprs());
                        lemma_inst_grows(before.exprs(), self.exprs(), rhs@, ms[k], z);
                        assert(self.classes()[z as int] == self.classes()[t0@ as int]);
                    } else {
                        assert(inst_ok(self.exprs(), rhs@, ms[k], rewritten@));
                        assert(self.classes()[rewritten@ as int] == self.classes()[t0@ as int]);
                    }
                }
            }
            proof {
                let ex1 = before.exprs();
                let cls1 = before.classes();
                let ex2 = mid.exprs();
                let cls2 = mid.classes();
                let ex3 = self.exprs();
                let cls3 = self.classes();
                before.lemma_wf_facts();
                mid.lemma_wf_facts();
                self.lemma_wf_facts();
                assert forall|q: Seq<nat>|
                    coarser(q, c0) && cls3.len() <= q.len() && unions_to(q, ex3, n0, t0@) && #[trigger] insts_to(
                        q,
                        ex3,
                        rhs@,
                        ms.take(i + 1),
                        t0@,
                    ) implies coarser(q, cls3) by {
                    lemma_least_step(q, c0, n0, t0@, rhs@, ms, i as int, ex1, cls1, ex2, cls2, ex3, cls3, cur@, rewritten@, m);
                }
            }
            cur = union;
            i = i + 1;
        }
        proof {
            assert(ms.take(found@.len() as int) =~= ms);
        }
        cur
    }
}

// ---------------------------------------------------------------------------
// S-expressions in and out
// ---------------------------------------------------------------------------

/// The expression for an atom with text `text`: a variable when the text
/// starts with `?`, else a constant.
pub open spec fn atom_kind(s: Symbol, text: Seq<char>) -> Expr {
    if text.len() > 0 && text[0] == '?' {
        Expr::Var(s)
    } else {
        Expr::Const(s)
    }
}

/// The expression for the atom `s` whose interned text is `text`.
pub fn atom_expr(s: Symbol, text: &str) -> (r: Expr)
    ensures
        r == atom_kind(s, text@),
{
    if !text.is_empty() && text.get_char(0) == '?' {
        Expr::Var(s)
    } else {
        Expr::Const(s)
    }
}

/// Every list in `v` has a head.
pub open spec fn lists_nonempty(v: SexpV) -> bool
    decreases v,
{
    match v {
        SexpV::Atom(_) => true,
        SexpV::List(items) => items.len() > 0 && all_lists_nonempty(items),
    }
}

/// Every list in each of `s` has a head.
pub open spec fn all_lists_nonempty(s: Seq<SexpV>) -> bool
    decreases s,
{
    if s.len() == 0 {
        true
    } else {
        all_lists_nonempty(s.drop_last()) && lists_nonempty(s.last())
    }
}

proof fn lemma_lists_nonempty_item(items: Seq<SexpV>, i: int)
    requires
        all_lists_nonempty(items),
        0 <= i < items.len(),
    ensures
        lists_nonempty(items[i]),
    decreases items.len(),
{
    if i < items.len() - 1 {
        lemma_lists_nonempty_item(items.drop_last(), i);
    }
}

/// An upper bound on the number of expressions that adding `v` creates.
pub open spec fn sexp_size(v: SexpV) -> nat
    decreases v,
{
    match v {
        SexpV::Atom(_) => 1,
        SexpV::List(items) => sexp_size_seq(items) + items.len(),
    }
}

/// The sizes of `s` summed.
pub open spec fn sexp_size_seq(s: Seq<SexpV>) -> nat
    decreases s,
{
    if s.len() == 0 {
        0
    } else {
        sexp_size_seq(s.drop_last()) + sexp_size(s.last())
    }
}

/// `r` is the id of `v`: an atom is its variable or constant, and a list is
/// its head applied, curried, to the rest of its items.
pub open spec fn sexp_ok(ex: Seq<Expr>, v: SexpV, r: nat) -> bool
    decreases v,
{
    &&& r < ex.len()
    &&& match v {
        SexpV::Atom(s) => ex[r as int] == Expr::Var(s) || ex[r as int] == Expr::Const(s),
        SexpV::List(items) => items.len() > 0 && list_ok(ex, items, r),
    }
}

/// `r` is the id of the non-empty list of `items`.
pub open spec fn list_ok(ex: Seq<Expr>, items: Seq<SexpV>, r: nat) -> bool
    decreases items,
{
    if items.len() <= 1 {
        items.len() == 1 && sexp_ok(ex, items[0], r)
    } else {
        r < ex.len() && match ex[r as int] {
            Expr::Pair(p, q) => list_ok(ex, items.drop_last(), p@) && sexp_ok(ex, items.last(), q@),
            _ => false,
        }
    }
}

proof fn lemma_sexp_ok_grows(e0: Seq<Expr>, e1: Seq<Expr>, v: SexpV, r: nat)
    requires
        extends(e1, e0),
        sexp_ok(e0, v, r),
    ensures
        sexp_ok(e1, v, r),
    decreases v,
{
    lemma_extends_index(e1, e0, r as int);
    if let SexpV::List(items) = v {
        lemma_list_ok_grows(e0, e1, items, r);
    }
}

proof fn lemma_list_ok_grows(e0: Seq<Expr>, e1: Seq<Expr>, items: Seq<SexpV>, r: nat)
    requires
        extends(e1, e0),
        list_ok(e0, items, r),
    ensures
        list_ok(e1, items, r),
    decreases items,
{
    if items.len() <= 1 {
        lemma_sexp_ok_grows(e0, e1, items[0], r);
    } else {
        lemma_extends_index(e1, e0, r as int);
        if let Expr::Pair(p, q) = e0[r as int] {
            lemma_list_ok_grows(e0, e1, items.drop_last(), p@);
            lemma_sexp_ok_grows(e0, e1, items.last(), q@);
        }
    }
}

proof fn lemma_list_ok_bound(ex: Seq<Expr>, items: Seq<SexpV>, r: nat)
    requires
        list_ok(ex, items, r),
    ensures
        r < ex.len(),
{
    if items.len() <= 1 {
        assert(sexp_ok(ex, items[0], r));
    }
}

/// Combining the head `a` of an extraction with an argument `b`.
pub open spec fn combine(a: SexpV, b: SexpV) -> SexpV {
    match a {
        SexpV::Atom(f) => SexpV::List(seq![SexpV::Atom(f), b]),
        SexpV::List(items) => SexpV::List(items.push(b)),
    }
}

/// Every head of `as_` combined with every argument of `bs`, heads first.
pub open spec fn pairs_of(as_: Seq<SexpV>, bs: Seq<SexpV>) -> Seq<SexpV>
    decreases as_.len(),
{
    if as_.len() == 0 {
        Seq::empty()
    } else {
        pairs_of(as_.drop_last(), bs) + bs.map_values(|b: SexpV| combine(as_.last(), b))
    }
}

/// The terms that the id `id` stands for, unfolded `depth` levels of `Pair`
/// deep; deeper ids are shown as the atom `names[id]`. A `Union` stands for
/// the terms of both of its sides.
pub open spec fn extract_spec(ex: Seq<Expr>, names: Seq<Symbol>, id: nat, depth: nat) -> Seq<SexpV>
    decreases depth, id,
{
    if id >= ex.len() {
        Seq::empty()
    } else if depth == 0 {
        seq![SexpV::Atom(names[id as int])]
    } else {
        match ex[id as int] {
            Expr::Union(a, b) => if a@ < id && b@ < id {
                extract_spec(ex, names, a@, depth) + extract_spec(ex, names, b@, depth)
            } else {
                Seq::empty()
            },
            Expr::Pair(a, b) => pairs_of(
                extract_spec(ex, names, a@, (depth - 1) as nat),
                extract_spec(ex, names, b@, (depth - 1) as nat),
            ),
            Expr::Var(n) => seq![SexpV::Atom(n)],
            Expr::Const(n) => seq![SexpV::Atom(n)],
        }
    }
}

impl Context {
    /// Adds the s-expression `sexp`: atoms starting with `?` become
    /// variables, other atoms constants, and a list its head applied,
    /// curried, to the rest. Returns its id.
    pub fn add_sexp(&mut self, sexp: &Sexp) -> (r: Id)
        requires
            old(self).wf(),
            lists_nonempty(sexp.deep()),
            old(self).exprs().len() + sexp_size(sexp.deep()) + 1 < u32::MAX,
        ensures
            final(self).wf(),
            final(self).only_adds(old(self)),
            final(self).exprs().len() <= old(self).exprs().len() + sexp_size(sexp.deep()),
            sexp_ok(final(self).exprs(), sexp.deep(), r@),
            old(self).unions_merged() ==> final(self).unions_merged(),
        decreases sexp,
    {
        proof {
            self.lemma_wf_facts();
        }
        match sexp {
            Sexp::Atom(s) => {
                let text = s.as_str();
                let e = atom_expr(*s, text);
                let r = self.add_expr(e);
                proof {
                    self.lemma_wf_facts();
                    assert(self.exprs()[r@ as int] == e);
                    assert(sexp.deep() == SexpV::Atom(*s));
                    assert(e == Expr::Var(*s) || e == Expr::Const(*s));
                    assert(r@ < self.exprs().len());
                    assert(sexp_ok(self.exprs(), SexpV::Atom(*s), r@));
                }
                r
            },
            Sexp::List(items) => {
                let ghost dv = deep_seq(items@);
                proof {
                    lemma_deep_list(sexp);
                    assert(sexp.deep() == SexpV::List(dv));
                    lemma_lists_nonempty_item(dv, 0);
                    assert(sexp_size_seq(dv.take(1)) == sexp_size(dv[0])) by {
                        assert(dv.take(1).drop_last() =~= Seq::<SexpV>::empty());
                        assert(sexp_size_seq(Seq::<SexpV>::empty()) == 0);
                        assert(dv.take(1).last() == dv[0]);
                    }
                    lemma_size_seq_prefix(dv, 1);
                    assert(decreases_to!(*sexp => *items));
                    assert(decreases_to!(*items => items@));
                    assert(decreases_to!(items@ => items@[0]));
                }
                let mut acc = self.add_sexp(&items[0]);
                let ghost n0 = old(self).exprs().len();
                let mut k: usize = 1;
                proof {
                    assert(list_ok(self.exprs(), dv.take(1), acc@)) by {
                        assert(dv.take(1)[0] == dv[0]);
                    }
                }
                while k < items.len()
                    invariant
                        self.wf(),
                        *sexp == Sexp::List(*items),
                        dv == deep_seq(items@),
                        sexp.deep() == SexpV::List(dv),
                        lists_nonempty(sexp.deep()),
                        n0 == old(self).exprs().len(),
                        n0 + sexp_size(sexp.deep()) + 1 < u32::MAX,
                        1 <= k <= items@.len(),
                        self.only_adds(old(self)),
                        self.exprs().len() <= n0 + sexp_size_seq(dv.take(k as int)) + k - 1,
                        list_ok(self.exprs(), dv.take(k as int), acc@),
                        old(self).unions_merged() ==> self.unions_merged(),
                    decreases items@.len() - k,
                {
                    let ghost s0 = *self;
                    proof {
                        lemma_lists_nonempty_item(dv, k as int);
                        lemma_size_seq_prefix(dv, k + 1);
                        assert(dv.take(k + 1int).drop_last() =~= dv.take(k as int));
                        assert(dv.take(k + 1int).last() == dv[k as int]);
                        lemma_size_seq_prefix(dv, items@.len() as int);
                        assert(dv.take(items@.len() as int) =~= dv);
                        assert(decreases_to!(*sexp => *items));
                        assert(decreases_to!(*items => items@));
                        assert(decreases_to!(items@ => items@[k as int]));
                    }
                    let id = self.add_sexp(&items[k]);
                    let ghost s1 = *self;
                    proof {
                        self.lemma_only_adds_trans(&s0, old(self));
                        self.lemma_wf_facts();
                        self.lemma_only_adds_coarser(&s0);
                        s0.lemma_wf_facts();
                        lemma_list_ok_grows(s0.exprs(), self.exprs(), dv.take(k as int), acc@);
                        lemma_list_ok_bound(self.exprs(), dv.take(k as int), acc@);
                    }
                    let next = self.add_expr(Expr::Pair(acc, id));
                    proof {
                        self.lemma_only_adds_trans(&s1, old(self));
                        self.lemma_only_adds_coarser(&s1);
                        s1.lemma_wf_facts();
                        lemma_list_ok_grows(s1.exprs(), self.exprs(), dv.take(k as int), acc@);
                        lemma_sexp_ok_grows(s1.exprs(), self.exprs(), dv[k as int], id@);
                        let t = dv.take(k + 1int);
                        assert(self.exprs()[next@ as int] == Expr::Pair(acc, id));
                        assert(list_ok(self.exprs(), t, next@));
                    }
                    acc = next;
                    k = k + 1;
                }
                proof {
                    assert(dv.take(items@.len() as int) =~= dv);
                    lemma_list_ok_bound(self.exprs(), dv, acc@);
                }
                acc
            },
        }
    }
}

proof fn lemma_size_seq_prefix(s: Seq<SexpV>, k: int)
    requires
        0 <= k <= s.len(),
    ensures
        sexp_size_seq(s.take(k)) <= sexp_size_seq(s),
        k < s.len() ==> sexp_size_seq(s.take(k + 1)) == sexp_size_seq(s.take(k)) + sexp_size(s[k]),
    decreases s.len(),
{
    if k < s.len() {
        assert(s.take(k + 1).drop_last() =~= s.take(k));
    }
    if k == s.len() {
        assert(s.take(k) =~= s);
    } else {
        lemma_size_seq_prefix(s.drop_last(), k);
        assert(s.drop_last().take(k) =~= s.take(k));
    }
}

/// A copy of each item.
fn clone_items(items: &Vec<Sexp>) -> (r: Vec<Sexp>)
    ensures
        deep_seq(r@) == deep_seq(items@),
{
    let mut out: Vec<Sexp> = Vec::new();
    let mut i: usize = 0;
    while i < items.len()
        invariant
            i <= items@.len(),
            out@.len() == i,
            forall|j: int| 0 <= j < i ==> #[trigger] out@[j].deep() == items@[j].deep(),
        decreases items@.len() - i,
    {
        out.push(items[i].clone());
        i = i + 1;
    }
    assert(deep_seq(out@) =~= deep_seq(items@));
    out
}

/// The head `a` applied to one more argument `b`.
fn combine_exec(a: &Sexp, b: Sexp) -> (r: Sexp)
    ensures
        r.deep() == combine(a.deep(), b.deep()),
{
    proof {
        lemma_deep_list(a);
    }
    match a {
        Sexp::Atom(f) => {
            let mut v: Vec<Sexp> = Vec::new();
            v.push(atom(*f));
            let ghost bd = b.deep();
            v.push(b);
            let r = list(v);
            proof {
                assert(deep_seq(v@) =~= seq![SexpV::Atom(*f), bd]);
            }
            r
        },
        Sexp::List(items) => {
            let mut v = clone_items(items);
            let ghost before = v@;
            let ghost bd = b.deep();
            v.push(b);
            let r = list(v);
            proof {
                assert(deep_seq(v@) =~= deep_seq(before).push(bd));
            }
            r
        },
    }
}

impl Context {
    /// The terms that `id` stands for, `depth` levels of `Pair` deep, with
    /// deeper ids shown as the atoms `names`.
    pub fn extract_with(&self, id: Id, depth: usize, names: &Vec<Symbol>) -> (r: Vec<Sexp>)
        requires
            self.wf(),
            id@ < self.exprs().len(),
            names@.len() == self.exprs().len(),
        ensures
            deep_seq(r@) == extract_spec(self.exprs(), names@, id@, depth as nat),
        decreases depth, id@,
    {
        proof {
            self.lemma_wf_facts();
        }
        let ghost ex = self.exprs();
        if depth == 0 {
            let mut v: Vec<Sexp> = Vec::new();
            v.push(atom(names[id.usize()]));
            proof {
                assert(deep_seq(v@) =~= seq![SexpV::Atom(names@[id@ as int])]);
            }
            return v;
        }
        let expr = self.get(id);
        proof {
            assert(children_below(ex[id@ as int], id@));
        }
        match expr {
            Expr::Union(a, b) => {
                let left = self.extract_with(a, depth, names);
                let right = self.extract_with(b, depth, names);
                let out = append(left, right);
                proof {
                    assert(deep_seq(out@) =~= deep_seq(left@) + deep_seq(right@));
                }
                out
            },
            Expr::Pair(a, b) => {
                let lefts = self.extract_with(a, depth - 1, names);
                let rights = self.extract_with(b, depth - 1, names);
                let ghost ls = deep_seq(lefts@);
                let ghost rs = deep_seq(rights@);
                let mut res: Vec<Sexp> = Vec::new();
                let mut i: usize = 0;
                proof {
                    assert(deep_seq(res@) =~= pairs_of(ls.take(0), rs));
                }
                while i < lefts.len()
                    invariant
                        i <= lefts@.len(),
                        ls == deep_seq(lefts@),
                        rs == deep_seq(rights@),
                        deep_seq(res@) == pairs_of(ls.take(i as int), rs),
                    decreases lefts@.len() - i,
                {
                    let mut j: usize = 0;
                    let ghost start = deep_seq(res@);
                    proof {
                        assert(start + rs.take(0).map_values(|x: SexpV| combine(ls[i as int], x)) =~= start);
                    }
                    while j < rights.len()
                        invariant
                            i < lefts@.len(),
                            j <= rights@.len(),
                            ls == deep_seq(lefts@),
                            rs == deep_seq(rights@),
                            deep_seq(res@) == start + rs.take(j as int).map_values(|x: SexpV| combine(ls[i as int], x)),
                        decreases rights@.len() - j,
                    {
                        let c = combine_exec(&lefts[i], rights[j].clone());
                        let ghost before = deep_seq(res@);
                        res.push(c);
                        proof {
                            assert(deep_seq(res@) =~= before.push(c.deep()));
                            assert(rs.take(j + 1int).map_values(|x: SexpV| combine(ls[i as int], x)) =~= rs.take(
                                j as int,
                            ).map_values(|x: SexpV| combine(ls[i as int], x)).push(combine(ls[i as int], rs[j as int])));
                        }
                        j = j + 1;
                    }
                    proof {
                        assert(rs.take(rights@.len() as int) =~= rs);
                        assert(ls.take(i + 1int).drop_last() =~= ls.take(i as int));
                        assert(ls.take(i + 1int).last() == ls[i as int]);
                    }
                    i = i + 1;
                }
                proof {
                    assert(ls.take(lefts@.len() as int) =~= ls);
                }
                res
            },
            Expr::Var(n) => {
                let mut v: Vec<Sexp> = Vec::new();
                v.push(atom(n));
                proof {
                    assert(deep_seq(v@) =~= seq![SexpV::Atom(n)]);
                }
                v
            },
            Expr::Const(n) => {
                let mut v: Vec<Sexp> = Vec::new();
                v.push(atom(n));
                proof {
                    assert(deep_seq(v@) =~= seq![SexpV::Atom(n)]);
                }
                v
            },
        }
    }

    /// The terms that `id` stands for, `depth` levels of `Pair` deep; deeper
    /// ids are shown as atoms of their number.
    pub fn extract(&self, id: Id, depth: usize) -> (r: Vec<Sexp>)
        requires
            self.wf(),
            id@ < self.exprs().len(),
        ensures
            exists|names: Seq<Symbol>|
                names.len() == self.exprs().len() && deep_seq(r@) == extract_spec(
                    self.exprs(),
                    names,
                    id@,
                    depth as nat,
                ),
    {
        proof {
            self.lemma_wf_facts();
        }
        let n = table_len(&self.hashcons);
        let mut names: Vec<Symbol> = Vec::new();
        let mut i: usize = 0;
        while i < n
            invariant
                n == self.exprs().len(),
                n <= u32::MAX,
                i <= n,
                names@.len() == i,
            decreases n - i,
        {
            let text = crate::util::id_text(Id::new(i));
            names.push(Symbol::new(text.as_str()));
            i = i + 1;
        }
        self.extract_with(id, depth, &names)
    }
}

proof fn lemma_shape_facts(v: SexpV, t: Tree)
    requires
        shape(v, t),
    ensures
        sexp_size(v) + 1 <= 2 * tokens(t).len(),
        tree_lists_nonempty(t) ==> lists_nonempty(v),
    decreases t,
{
    if let Tree::List(ts) = t {
        if let SexpV::List(vs) = v {
            lemma_shape_facts_seq(vs, ts);
        }
    }
}

proof fn lemma_shape_facts_seq(vs: Seq<SexpV>, ts: Seq<Tree>)
    requires
        shape_seq(vs, ts),
    ensures
        sexp_size_seq(vs) + vs.len() <= 2 * tokens_seq(ts).len(),
        trees_lists_nonempty(ts) ==> all_lists_nonempty(vs),
    decreases ts,
{
    if ts.len() > 0 {
        lemma_shape_facts_seq(vs.drop_last(), ts.drop_last());
        lemma_shape_facts(vs.last(), ts.last());
    }
}

impl Context {
    /// Reads `s` as an s-expression and adds it (see `add_sexp`). `s` must be
    /// an s-expression whose lists all have a head.
    pub fn add(&mut self, s: &str) -> (r: Id)
        requires
            old(self).wf(),
            parses(s@),
            tree_lists_nonempty(parsed_tree(s@)),
            old(self).exprs().len() + 2 * lex_from(s@, 0).len() + 1 < u32::MAX,
        ensures
            final(self).wf(),
            final(self).only_adds(old(self)),
            exists|v: SexpV| shape(v, parsed_tree(s@)) && #[trigger] sexp_ok(final(self).exprs(), v, r@),
            old(self).unions_merged() ==> final(self).unions_merged(),
    {
        match parse(s) {
            Ok(v) => {
                proof {
                    lemma_shape_facts(v.deep(), parsed_tree(s@));
                }
                self.add_sexp(&v)
            },
            Err(_) => {
                proof {
                    assert(false);
                }
                Id(0)
            },
        }
    }
}

} // verus!
