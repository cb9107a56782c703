//! A union-find over dense ids, with path compression and, for every class,
//! a ring of `next` links that visits each member of the class once.
use vstd::prelude::*;

use crate::util::Id;

verus! {

/// Number of indices `i < n` with `leader[i] == i`, i.e. of class
/// representatives among the first `n` elements.
pub open spec fn count_roots(leader: Seq<nat>, n: nat) -> nat
    decreases n,
{
    if n == 0 {
        0
    } else {
        count_roots(leader, (n - 1) as nat) + if leader[n - 1] == (n - 1) as nat {
            1nat
        } else {
            0nat
        }
    }
}

/// Counting roots only looks at the first `n` entries.
pub(crate) proof fn lemma_count_roots_prefix(s: Seq<nat>, t: Seq<nat>, n: nat)
    requires
        n <= s.len(),
        n <= t.len(),
        forall|i: int| 0 <= i < n ==> s[i] == t[i],
    ensures
        count_roots(s, n) == count_roots(t, n),
    decreases n,
{
    if n > 0 {
        lemma_count_roots_prefix(s, t, (n - 1) as nat);
    }
}

/// There are never more roots than elements.
pub(crate) proof fn lemma_count_roots_bound(s: Seq<nat>, n: nat)
    ensures
        count_roots(s, n) <= n,
    decreases n,
{
    if n > 0 {
        lemma_count_roots_bound(s, (n - 1) as nat);
    }
}

/// Turning exactly one root `j` into a non-root removes one root.
pub(crate) proof fn lemma_count_roots_drop_one(s: Seq<nat>, t: Seq<nat>, n: nat, j: nat)
    requires
        n <= s.len(),
        n <= t.len(),
        j < n,
        s[j as int] == j,
        t[j as int] != j,
        forall|i: int| 0 <= i < n && i != j ==> (s[i] == i <==> t[i] == i),
    ensures
        count_roots(s, n) == count_roots(t, n) + 1,
    decreases n,
{
    if n - 1 == j {
        lemma_count_roots_same(s, t, (n - 1) as nat);
    } else {
        lemma_count_roots_drop_one(s, t, (n - 1) as nat, j);
    }
}

/// Two sequences with the same roots among the first `n` entries count alike.
pub(crate) proof fn lemma_count_roots_same(s: Seq<nat>, t: Seq<nat>, n: nat)
    requires
        n <= s.len(),
        n <= t.len(),
        forall|i: int| 0 <= i < n ==> (s[i] == i <==> t[i] == i),
    ensures
        count_roots(s, n) == count_roots(t, n),
    decreases n,
{
    if n > 0 {
        lemma_count_roots_same(s, t, (n - 1) as nat);
    }
}

/// The class map after the class of representative `ra` joins that of `rb`.
pub open spec fn merge_classes(v: Seq<nat>, ra: nat, rb: nat) -> Seq<nat> {
    v.map_values(|l: nat| if l == ra { rb } else { l })
}

/// Every two ids in one class of `c0` are in one class of `c1`.
pub open spec fn coarser(c1: Seq<nat>, c0: Seq<nat>) -> bool {
    &&& c0.len() <= c1.len()
    &&& forall|x: int, y: int|
        0 <= x < c0.len() && 0 <= y < c0.len() && c0[x] == c0[y] ==> #[trigger] c1[x] == #[trigger] c1[y]
}

/// Coarsening is transitive.
pub proof fn lemma_coarser_trans(c2: Seq<nat>, c1: Seq<nat>, c0: Seq<nat>)
    requires
        coarser(c2, c1),
        coarser(c1, c0),
    ensures
        coarser(c2, c0),
{
    assert forall|x: int, y: int|
        0 <= x < c0.len() && 0 <= y < c0.len() && c0[x] == c0[y] implies #[trigger] c2[x] == #[trigger] c2[y] by {
        assert(c1[x] == c1[y]);
    }
}

/// The class of representative `r`: its members as a ring, starting at `r`.
pub open spec fn ring_links(next: Seq<Id>, s: Seq<nat>) -> bool {
    &&& forall|k: int| 0 <= k < s.len() - 1 ==> #[trigger] next[s[k] as int]@ == s[k + 1int]
    &&& next[s.last() as int]@ == s[0]
}

/// The ring obtained by splicing ring `a` (of representative `a[0]`) into
/// ring `b` (of representative `b[0]`): it starts at `b[0]`, runs through the
/// rest of `a`, then `a[0]`, then the rest of `b`.
pub open spec fn splice(a: Seq<nat>, b: Seq<nat>) -> Seq<nat> {
    Seq::new(
        a.len() + b.len(),
        |k: int|
            if k == 0 {
                b[0]
            } else if k < a.len() {
                a[k]
            } else if k == a.len() {
                a[0]
            } else {
                b[k - a.len()]
            },
    )
}

/// Swapping the successors of the first elements of two disjoint rings
/// yields one ring, the splice of the two.
proof fn lemma_splice_links(next: Seq<Id>, next2: Seq<Id>, a: Seq<nat>, b: Seq<nat>)
    requires
        a.len() > 0,
        b.len() > 0,
        ring_links(next, a),
        ring_links(next, b),
        a.no_duplicates(),
        b.no_duplicates(),
        forall|i: int, j: int| 0 <= i < a.len() && 0 <= j < b.len() ==> a[i] != b[j],
        forall|k: int| 0 <= k < a.len() ==> a[k] < next.len(),
        forall|k: int| 0 <= k < b.len() ==> b[k] < next.len(),
        next2.len() == next.len(),
        next2[a[0] as int] == next[b[0] as int],
        next2[b[0] as int] == next[a[0] as int],
        forall|i: int| 0 <= i < next.len() && i != a[0] && i != b[0] ==> next2[i] == next[i],
    ensures
        ring_links(next2, splice(a, b)),
        splice(a, b).no_duplicates(),
{
    let s = splice(a, b);
    let m = a.len() as int;
    let p = b.len() as int;
    assert forall|k: int| 0 <= k < s.len() - 1 implies #[trigger] next2[s[k] as int]@ == s[k + 1int] by {
        if k == 0 {
            if m > 1 {
                assert(next[a[0] as int]@ == a[1]);
            } else {
                assert(next[a.last() as int]@ == a[0]);
            }
        } else if k < m {
            assert(a[k] != a[0]);
            assert(a[k] != b[0]);
            if k < m - 1 {
                assert(next[a[k] as int]@ == a[k + 1]);
            } else {
                assert(next[a.last() as int]@ == a[0]);
            }
        } else if k == m {
            assert(next[b[0] as int]@ == b[1]);
        } else {
            let j = k - m;
            assert(b[j] != b[0]);
            assert(b[j] != a[0]);
            assert(next[b[j] as int]@ == b[j + 1]);
        }
    }
    if p > 1 {
        let j = p - 1;
        assert(b[j] != b[0]);
        assert(b[j] != a[0]);
        assert(s.last() == b[j]);
        assert(next[b.last() as int]@ == b[0]);
    } else {
        assert(s.last() == a[0]);
        assert(next[b.last() as int]@ == b[0]);
    }
    assert forall|i: int, j: int| 0 <= i < s.len() && 0 <= j < s.len() && i != j implies s[i] != s[j] by {
        if i == 0 && 1 <= j < m { assert(a[j] != b[0]); }
        if j == 0 && 1 <= i < m { assert(a[i] != b[0]); }
        if i == 0 && j == m { assert(a[0] != b[0]); }
        if j == 0 && i == m { assert(a[0] != b[0]); }
        if 1 <= i < m && j == m { assert(a[i] != a[0]); }
        if 1 <= j < m && i == m { assert(a[j] != a[0]); }
        if 1 <= i < m && m < j { assert(a[i] != b[j - m]); }
        if 1 <= j < m && m < i { assert(a[j] != b[i - m]); }
        if i == m && m < j { assert(a[0] != b[j - m]); }
        if j == m && m < i { assert(a[0] != b[i - m]); }
        if i == 0 && m < j { assert(b[0] != b[j - m]); }
        if j == 0 && m < i { assert(b[0] != b[i - m]); }
    }
}

pub struct UnionFind {
    n_classes: usize,
    parents: Vec<Id>,
    next: Vec<Id>,
    /// The representative of each element's class.
    leader: Ghost<Seq<nat>>,
    /// Strictly increases along parent links; bounds the length of any path.
    rank: Ghost<Seq<nat>>,
    /// Strict upper bound of every rank.
    bound: Ghost<nat>,
    /// For each representative, the members of its class in `next` order.
    ring: Ghost<Map<nat, Seq<nat>>>,
}

/// Walks the class ring of a representative, yielding each member once.
pub struct ClassIter<'a> {
    uf: &'a UnionFind,
    start: Id,
    curr: Option<Id>,
    /// How many members were yielded so far.
    pos: Ghost<nat>,
}

impl UnionFind {
    /// The representative of every element, indexed by element.
    pub closed spec fn view(&self) -> Seq<nat> {
        self.leader@
    }

    /// The members of the class of representative `r`, in the order in which
    /// `class_of` yields them.
    pub closed spec fn class_ring(&self, r: nat) -> Seq<nat> {
        self.ring@[r]
    }

    /// The value of the class counter.
    pub closed spec fn spec_n_classes(&self) -> nat {
        self.n_classes as nat
    }

    /// Whether `a` and `b` are in the same class.
    pub open spec fn same_class(&self, a: nat, b: nat) -> bool {
        self@[a as int] == self@[b as int]
    }

    /// The number of classes.
    pub open spec fn num_classes(&self) -> nat {
        count_roots(self@, self@.len())
    }

    /// The class counter equals the number of classes: `mkset` and `union`
    /// keep this, a `reparent` that merges two classes does not.
    pub open spec fn counts_classes(&self) -> bool {
        self.spec_n_classes() == self.num_classes()
    }

    /// The members of a class are exactly the elements that have `r` as representative.
    spec fn ring_ok(&self, r: nat) -> bool {
        let s = self.ring@[r];
        &&& self.ring@.dom().contains(r)
        &&& s.len() > 0
        &&& s[0] == r
        &&& s.no_duplicates()
        &&& forall|k: int| 0 <= k < s.len() ==> #[trigger] s[k] < self.leader@.len()
        &&& forall|i: nat| i < self.leader@.len() ==> (self.leader@[i as int] == r <==> #[trigger] s.contains(i))
        &&& ring_links(self.next@, s)
    }

    /// Well-formedness: parent links lead to representatives without cycles,
    /// every class is one ring of `next` links, and the counter is at least
    /// the number of classes.
    pub closed spec fn wf(&self) -> bool {
        let n = self.parents@.len();
        let leader = self.leader@;
        let rank = self.rank@;
        &&& n <= u32::MAX
        &&& self.next@.len() == n
        &&& leader.len() == n
        &&& rank.len() == n
        &&& forall|i: int| 0 <= i < n ==> #[trigger] self.parents@[i]@ < n
        &&& forall|i: int| 0 <= i < n ==> #[trigger] self.next@[i]@ < n
        &&& forall|i: int| 0 <= i < n ==> #[trigger] leader[i] < n
        &&& forall|i: int| 0 <= i < n ==> leader[#[trigger] leader[i] as int] == leader[i]
        &&& forall|i: int| 0 <= i < n ==> self.parents@[#[trigger] leader[i] as int]@ == leader[i]
        &&& forall|i: int| 0 <= i < n && #[trigger] self.parents@[i]@ == i ==> leader[i] == i
        &&& forall|i: int| 0 <= i < n ==> leader[#[trigger] self.parents@[i]@ as int] == leader[i]
        &&& forall|i: int|
            0 <= i < n && #[trigger] self.parents@[i]@ != i ==> rank[i] < rank[self.parents@[i]@ as int]
        &&& forall|i: int| 0 <= i < n && #[trigger] leader[i] != i ==> rank[i] < rank[leader[i] as int]
        &&& forall|i: int| 0 <= i < n ==> #[trigger] rank[i] < self.bound@
        &&& forall|r: nat| r < n && #[trigger] leader[r as int] == r ==> self.ring_ok(r)
        &&& self.n_classes >= count_roots(leader, n as nat)
        &&& self.n_classes <= n
    }

    /// Number of elements.
    pub fn len(&self) -> (r: usize)
        requires
            self.wf(),
        ensures
            r == self@.len(),
    {
        self.parents.len()
    }

    /// The class counter.
    pub fn n_classes(&self) -> (r: usize)
        ensures
            r == self.spec_n_classes(),
    {
        self.n_classes
    }

    /// The representative of `a`'s class.
    pub fn find(&self, a: Id) -> (r: Id)
        requires
            self.wf(),
            a@ < self@.len(),
        ensures
            r@ == self@[a@ as int],
    {
        let mut a = a;
        let ghost a0 = a@;
        while a != self.parents[a.usize()]
            invariant
                self.wf(),
                a@ < self@.len(),
                self.leader@[a@ as int] == self.leader@[a0 as int],
            decreases self.bound@ - self.rank@[a@ as int],
        {
            a = self.parents[a.usize()];
        }
        a
    }

    /// The representative of `a`'s class; every element on the way from `a`
    /// to it is linked straight to it. The classes do not change.
    pub fn find_mut(&mut self, a: Id) -> (r: Id)
        requires
            old(self).wf(),
            a@ < old(self)@.len(),
        ensures
            final(self).wf(),
            r@ == old(self)@[a@ as int],
            final(self)@ == old(self)@,
            final(self).spec_n_classes() == old(self).spec_n_classes(),
            forall|r: nat| #[trigger] final(self).class_ring(r) == old(self).class_ring(r),
    {
        let root = self.find(a);
        let mut a = a;
        while a != root
            invariant
                self.wf(),
                a@ < self@.len(),
                root@ < self@.len(),
                self.leader@[a@ as int] == root@,
                self.leader@ == old(self).leader@,
                self.ring@ == old(self).ring@,
                self.n_classes == old(self).n_classes,
            decreases self.bound@ - self.rank@[a@ as int],
        {
            let next = self.parents[a.usize()];
            proof {
                assert(self.parents@[a@ as int]@ != a@) by {
                    if self.parents@[a@ as int]@ == a@ {
                        assert(self.leader@[a@ as int] == a@);
                    }
                }
            }
            let ghost old_parents = self.parents@;
            self.parents.set(a.usize(), root);
            proof {
                let n = self.parents@.len();
                let leader = self.leader@;
                assert forall|i: int| 0 <= i < n implies leader[#[trigger] self.parents@[i]@ as int] == leader[i] by {
                    if i != a@ {
                        assert(self.parents@[i] == old_parents[i]);
                    }
                }
                assert forall|i: int| 0 <= i < n implies self.parents@[#[trigger] leader[i] as int]@ == leader[i] by {
                    if leader[i] != a@ {
                        assert(self.parents@[leader[i] as int] == old_parents[leader[i] as int]);
                    }
                }
                assert forall|i: int| 0 <= i < n && #[trigger] self.parents@[i]@ == i implies leader[i] == i by {
                    if i != a@ {
                        assert(self.parents@[i] == old_parents[i]);
                    }
                }
                assert forall|i: int|
                    0 <= i < n && #[trigger] self.parents@[i]@ != i implies self.rank@[i] < self.rank@[self.parents@[i]@ as int] by {
                    if i != a@ {
                        assert(self.parents@[i] == old_parents[i]);
                    }
                }
                assert forall|r: nat| r < n && #[trigger] leader[r as int] == r implies self.ring_ok(r) by {
                    assert(old_parents.len() == n);
                }
            }
            a = next;
        }
        root
    }

    /// Adds a new element in a class of its own and returns its id.
    pub fn mkset(&mut self) -> (r: Id)
        requires
            old(self).wf(),
            old(self)@.len() < u32::MAX,
        ensures
            final(self).wf(),
            r@ == old(self)@.len(),
            final(self)@ == old(self)@.push(r@),
            final(self).spec_n_classes() == old(self).spec_n_classes() + 1,
            final(self).class_ring(r@) == seq![r@],
            forall|c: nat| c < old(self)@.len() ==> #[trigger] final(self).class_ring(c) == old(self).class_ring(c),
            old(self).counts_classes() ==> final(self).counts_classes(),
    {
        let n = self.parents.len();
        let id = Id::new(n);
        let ghost old_self = *self;
        proof {
            lemma_count_roots_bound(self.leader@, n as nat);
        }
        self.parents.push(id);
        self.next.push(id);
        self.n_classes = self.n_classes + 1;
        proof {
            let n1 = (n + 1) as nat;
            self.leader@ = self.leader@.push(n as nat);
            self.rank@ = self.rank@.push(0);
            self.bound@ = self.bound@ + 1;
            self.ring@ = self.ring@.insert(n as nat, seq![n as nat]);
            let leader = self.leader@;
            assert forall|r: nat| r < n1 && #[trigger] leader[r as int] == r implies self.ring_ok(r) by {
                if r < n {
                    assert(old_self.ring_ok(r));
                    let s = self.ring@[r];
                    assert(s == old_self.ring@[r]);
                    assert forall|i: nat| i < n1 implies (leader[i as int] == r <==> #[trigger] s.contains(i)) by {
                        if i == n {
                            if s.contains(i) {
                                let k = choose|k: int| 0 <= k < s.len() && s[k] == i;
                                assert(s[k] < n);
                            }
                        }
                    }
                    assert forall|k: int| 0 <= k < s.len() - 1 implies #[trigger] self.next@[s[k] as int]@ == s[k + 1int] by {
                        assert(s[k] < n);
                        assert(old_self.next@[s[k] as int]@ == s[k + 1int]);
                    }
                    assert(s[s.len() - 1] < n);
                } else {
                    let s = self.ring@[r];
                    assert(s =~= seq![n as nat]);
                    assert forall|i: nat| i < n1 implies (leader[i as int] == r <==> #[trigger] s.contains(i)) by {
                        if i < n {
                            assert(old_self.leader@[i as int] < n);
                        }
                        if s.contains(i) {
                            let k = choose|k: int| 0 <= k < s.len() && s[k] == i;
                            assert(k == 0);
                        }
                        if i == n {
                            assert(s[0] == i);
                        }
                    }
                }
            }
            lemma_count_roots_prefix(old_self.leader@, leader, n as nat);
            assert(count_roots(leader, n1) == count_roots(old_self.leader@, n as nat) + 1);
        }
        id
    }
}

impl UnionFind {
    /// Makes the class of `new_parent` absorb the class of `a`: the
    /// representative of `a` is linked under the representative of
    /// `new_parent`, and the two class rings are spliced into one. Nothing
    /// changes when both are already in one class. The class counter is
    /// left as it is.
    pub fn reparent(&mut self, a: Id, new_parent: Id)
        requires
            old(self).wf(),
            a@ < old(self)@.len(),
            new_parent@ < old(self)@.len(),
        ensures
            final(self).wf(),
            final(self).spec_n_classes() == old(self).spec_n_classes(),
            ({
                let ra = old(self)@[a@ as int];
                let rb = old(self)@[new_parent@ as int];
                &&& final(self)@ == merge_classes(old(self)@, ra, rb)
                &&& ra != rb ==> final(self).class_ring(rb) == splice(
                    old(self).class_ring(ra),
                    old(self).class_ring(rb),
                )
                &&& forall|r: nat|
                    r != rb && r < old(self)@.len() && #[trigger] old(self)@[r as int] == r
                        ==> final(self).class_ring(r) == old(self).class_ring(r)
                &&& ra == rb ==> final(self)@ == old(self)@ && forall|r: nat|
                    #[trigger] final(self).class_ring(r) == old(self).class_ring(r)
                &&& ra == rb ==> (old(self).counts_classes() ==> final(self).counts_classes())
            }),
    {
        let a = self.find_mut(a);
        let new_parent = self.find_mut(new_parent);
        if a == new_parent {
            proof {
                let ra = old(self)@[a@ as int];
                assert(self.leader@ =~= merge_classes(old(self)@, ra, ra));
            }
            return ;
        }
        let ghost pre = *self;
        let ghost ra = a@;
        let ghost rb = new_parent@;
        let a_next = self.next[a.usize()];
        let b_next = self.next[new_parent.usize()];
        self.next.set(a.usize(), b_next);
        self.next.set(new_parent.usize(), a_next);
        self.parents.set(a.usize(), new_parent);
        proof {
            let n = pre.parents@.len();
            let l0 = pre.leader@;
            let r0 = pre.rank@;
            let ring_a = pre.ring@[ra];
            let ring_b = pre.ring@[rb];
            assert(pre.ring_ok(ra));
            assert(pre.ring_ok(rb));
            self.leader@ = merge_classes(l0, ra, rb);
            self.rank@ = Seq::new(
                n,
                |i: int| if l0[i] == rb { r0[i] + r0[ra as int] + 1 } else { r0[i] },
            );
            self.bound@ = pre.bound@ + pre.bound@;
            self.ring@ = pre.ring@.insert(rb, splice(ring_a, ring_b));
            let l1 = self.leader@;
            let r1 = self.rank@;
            assert forall|i: int, j: int|
                0 <= i < ring_a.len() && 0 <= j < ring_b.len() implies ring_a[i] != ring_b[j] by {
                assert(ring_a.contains(ring_a[i]));
                assert(ring_b.contains(ring_b[j]));
            }
            lemma_splice_links(pre.next@, self.next@, ring_a, ring_b);
            assert forall|i: int| 0 <= i < n implies l1[#[trigger] l1[i] as int] == l1[i] by {
                assert(l0[l0[i] as int] == l0[i]);
            }
            assert forall|i: int| 0 <= i < n implies self.parents@[#[trigger] l1[i] as int]@ == l1[i] by {
                assert(pre.parents@[l0[i] as int]@ == l0[i]);
            }
            assert forall|i: int| 0 <= i < n && #[trigger] self.parents@[i]@ == i implies l1[i] == i by {
                if i != ra {
                    assert(pre.parents@[i]@ == i);
                }
            }
            assert forall|i: int| 0 <= i < n implies l1[#[trigger] self.parents@[i]@ as int] == l1[i] by {
                if i != ra {
                    assert(l0[pre.parents@[i]@ as int] == l0[i]);
                }
            }
            assert forall|i: int|
                0 <= i < n && #[trigger] self.parents@[i]@ != i implies r1[i] < r1[self.parents@[i]@ as int] by {
                if i != ra {
                    assert(l0[pre.parents@[i]@ as int] == l0[i]);
                    assert(pre.parents@[i]@ != i);
                }
            }
            assert forall|i: int| 0 <= i < n && #[trigger] l1[i] != i implies r1[i] < r1[l1[i] as int] by {
                if l0[i] == ra && i != ra {
                    assert(r0[i] < r0[ra as int]);
                }
            }
            assert forall|i: int| 0 <= i < n implies #[trigger] r1[i] < self.bound@ by {
                assert(r0[i] < pre.bound@);
                assert(r0[ra as int] < pre.bound@);
            }
            assert forall|r: nat| r < n && #[trigger] l1[r as int] == r implies self.ring_ok(r) by {
                if r == rb {
                    let sp = splice(ring_a, ring_b);
                    assert forall|k: int| 0 <= k < sp.len() implies #[trigger] sp[k] < n by {
                        if 0 < k < ring_a.len() {
                            assert(ring_a[k] < n);
                        } else if k > ring_a.len() {
                            assert(ring_b[k - ring_a.len()] < n);
                        }
                    }
                    assert forall|i: nat| i < n implies (l1[i as int] == r <==> #[trigger] sp.contains(i)) by {
                        if l0[i as int] == ra {
                            assert(ring_a.contains(i));
                            let k = choose|k: int| 0 <= k < ring_a.len() && ring_a[k] == i;
                            if k == 0 {
                                assert(sp[ring_a.len() as int] == i);
                            } else {
                                assert(sp[k] == i);
                            }
                        } else if l0[i as int] == rb {
                            assert(ring_b.contains(i));
                            let k = choose|k: int| 0 <= k < ring_b.len() && ring_b[k] == i;
                            if k == 0 {
                                assert(sp[0] == i);
                            } else {
                                assert(sp[k + ring_a.len()] == i);
                            }
                        } else {
                            if sp.contains(i) {
                                let k = choose|k: int| 0 <= k < sp.len() && sp[k] == i;
                                if k == 0 {
                                    assert(ring_b.contains(ring_b[0]));
                                } else if k < ring_a.len() {
                                    assert(ring_a.contains(ring_a[k]));
                                } else if k == ring_a.len() {
                                    assert(ring_a.contains(ring_a[0]));
                                } else {
                                    assert(ring_b.contains(ring_b[k - ring_a.len()]));
                                }
                            }
                        }
                    }
                } else {
                    assert(r != ra);
                    assert(l0[r as int] == r);
                    assert(pre.ring_ok(r));
                    let sr = pre.ring@[r];
                    assert(self.ring@[r] == sr);
                    assert forall|k: int| 0 <= k < sr.len() implies sr[k] != ra && sr[k] != rb by {
                        assert(sr.contains(sr[k]));
                    }
                    assert forall|k: int| 0 <= k < sr.len() - 1 implies #[trigger] self.next@[sr[k] as int]@ == sr[k + 1] by {
                        assert(pre.next@[sr[k] as int]@ == sr[k + 1]);
                    }
                    assert(self.next@[sr.last() as int] == pre.next@[sr.last() as int]);
                    assert forall|i: nat| i < n implies (l1[i as int] == r <==> #[trigger] sr.contains(i)) by {
                        assert(l0[i as int] == r <==> sr.contains(i));
                    }
                }
            }
            assert forall|i: int| 0 <= i < n && i != ra implies (l0[i] == i <==> l1[i] == i) by {
                if l0[i] == ra {
                    assert(l0[ra as int] == ra);
                }
            }
            lemma_count_roots_drop_one(l0, l1, n as nat, ra);
            assert(old(self).class_ring(ra) == pre.class_ring(ra));
            assert(old(self).class_ring(rb) == pre.class_ring(rb));
            assert(l1 =~= merge_classes(old(self)@, ra, rb));
            assert forall|r: nat|
                r != rb && r < old(self)@.len() && #[trigger] old(self)@[r as int] == r
                    implies self.class_ring(r) == old(self).class_ring(r) by {
                assert(old(self).class_ring(r) == pre.class_ring(r));
            }
        }
    }

    /// Merges the classes of `a` and `b`; returns whether they were distinct.
    pub fn union(&mut self, a: Id, b: Id) -> (r: bool)
        requires
            old(self).wf(),
            a@ < old(self)@.len(),
            b@ < old(self)@.len(),
        ensures
            final(self).wf(),
            ({
                let ra = old(self)@[a@ as int];
                let rb = old(self)@[b@ as int];
                &&& r == (ra != rb)
                &&& final(self)@ == merge_classes(old(self)@, ra, rb)
                &&& final(self).spec_n_classes() == if r {
                    old(self).spec_n_classes() - 1
                } else {
                    old(self).spec_n_classes() as int
                }
                &&& r ==> final(self).class_ring(rb) == splice(
                    old(self).class_ring(ra),
                    old(self).class_ring(rb),
                )
                &&& forall|c: nat|
                    c != rb && c < old(self)@.len() && #[trigger] old(self)@[c as int] == c
                        ==> final(self).class_ring(c) == old(self).class_ring(c)
            }),
            old(self).counts_classes() ==> final(self).counts_classes(),
    {
        let ghost pre = *self;
        let a = self.find_mut(a);
        let b = self.find_mut(b);
        if a != b {
            let ghost mid = self.leader@;
            self.reparent(a, b);
            proof {
                let merged = merge_classes(mid, a@, b@);
                assert(mid[a@ as int] == a@);
                assert(mid[b@ as int] == b@);
                assert(self.leader@ =~= merged);
                assert forall|i: int| 0 <= i < mid.len() && i != a@ implies (mid[i] == i <==> merged[i] == i) by {
                    if mid[i] == a@ {
                        assert(mid[a@ as int] == a@);
                    }
                }
                lemma_count_roots_drop_one(mid, merged, mid.len(), a@);
                lemma_count_roots_bound(self.leader@, self@.len());
            }
            self.n_classes = self.n_classes - 1;
            true
        } else {
            false
        }
    }
}

impl Default for UnionFind {
    /// An empty union-find.
    fn default() -> (r: Self)
        ensures
            r.wf(),
            r@ == Seq::<nat>::empty(),
            r.spec_n_classes() == 0,
    {
        UnionFind {
            n_classes: 0,
            parents: Vec::new(),
            next: Vec::new(),
            leader: Ghost(Seq::empty()),
            rank: Ghost(Seq::empty()),
            bound: Ghost(1),
            ring: Ghost(Map::empty()),
        }
    }
}

impl UnionFind {
    /// Whether `a` and `b` are in the same class.
    pub fn are_eq(&self, a: Id, b: Id) -> (r: bool)
        requires
            self.wf(),
            a@ < self@.len(),
            b@ < self@.len(),
        ensures
            r == self.same_class(a@, b@),
    {
        self.find(a) == self.find(b)
    }

    /// Whether `a` and `b` are in the same class, compressing both paths.
    pub fn arg_eq_mut(&mut self, a: Id, b: Id) -> (r: bool)
        requires
            old(self).wf(),
            a@ < old(self)@.len(),
            b@ < old(self)@.len(),
        ensures
            final(self).wf(),
            r == old(self).same_class(a@, b@),
            final(self)@ == old(self)@,
            final(self).spec_n_classes() == old(self).spec_n_classes(),
            forall|c: nat| #[trigger] final(self).class_ring(c) == old(self).class_ring(c),
    {
        self.find_mut(a) == self.find_mut(b)
    }

    /// Whether `id` is the representative of its class.
    pub fn is_leader(&self, id: Id) -> (r: bool)
        requires
            self.wf(),
            id@ < self@.len(),
        ensures
            r == (self@[id@ as int] == id@),
    {
        self.find(id) == id
    }

    /// The members of `id`'s class, starting with its representative.
    pub fn class_of(&self, id: Id) -> (r: ClassIter<'_>)
        requires
            self.wf(),
            id@ < self@.len(),
        ensures
            r.inv(),
            r.remaining() == self.class_ring(self@[id@ as int]),
    {
        let root = self.find(id);
        proof {
            assert(self.leader@[root@ as int] == root@);
            assert(self.ring_ok(root@));
        }
        ClassIter { uf: self, start: root, curr: Some(root), pos: Ghost(0) }
    }
}

impl UnionFind {
    /// When the counter counts the classes, there are no more classes than
    /// elements.
    pub proof fn lemma_counts_bound(&self)
        requires
            self.counts_classes(),
        ensures
            self.spec_n_classes() <= self@.len(),
    {
        lemma_count_roots_bound(self@, self@.len());
    }

    /// Representatives are elements, and are their own representatives.
    pub proof fn lemma_wf_classes(&self)
        requires
            self.wf(),
        ensures
            self@.len() <= u32::MAX,
            forall|i: int| 0 <= i < self@.len() ==> #[trigger] self@[i] < self@.len(),
            forall|i: int| 0 <= i < self@.len() ==> self@[#[trigger] self@[i] as int] == self@[i],
    {
    }
}

/// The ring of a class lists each member of the class exactly once and
/// nothing else, starting with the representative.
pub proof fn lemma_class_ring_members(uf: &UnionFind, r: nat)
    requires
        uf.wf(),
        r < uf@.len(),
        uf@[r as int] == r,
    ensures
        uf.class_ring(r).len() > 0,
        uf.class_ring(r)[0] == r,
        uf.class_ring(r).no_duplicates(),
        forall|i: nat| #[trigger] uf.class_ring(r).contains(i) <==> (i < uf@.len() && uf@[i as int] == r),
{
    assert(uf.ring_ok(r));
    let s = uf.ring@[r];
    assert forall|i: nat| #[trigger] s.contains(i) implies i < uf@.len() by {
        let k = choose|k: int| 0 <= k < s.len() && s[k] == i;
        assert(s[k] < uf@.len());
    }
}

/// The members of the class of `id`: the elements with its representative.
pub open spec fn members_of(uf: &UnionFind, id: nat) -> Set<nat> {
    Set::new(|x: nat| x < uf@.len() && uf@[x as int] == uf@[id as int])
}

/// Walking the class of `id`: `class_of(id)` has exactly the members of the
/// class left to yield, each once, so `next` yields `Some` as many times as
/// the class has members, and `None` from then on.
pub proof fn lemma_class_of_yields_members(uf: &UnionFind, id: nat)
    requires
        uf.wf(),
        id < uf@.len(),
    ensures
        members_of(uf, id).finite(),
        uf.class_ring(uf@[id as int]).to_set() == members_of(uf, id),
        uf.class_ring(uf@[id as int]).len() == members_of(uf, id).len(),
{
    uf.lemma_wf_classes();
    let r = uf@[id as int];
    lemma_class_ring_members(uf, r);
    let ring = uf.class_ring(r);
    assert(ring.to_set() =~= members_of(uf, id)) by {
        assert forall|x: nat| #[trigger] ring.to_set().contains(x) <==> members_of(uf, id).contains(x) by {
            assert(ring.to_set().contains(x) <==> ring.contains(x));
        }
    }
    ring.unique_seq_to_set();
    vstd::seq_lib::seq_to_set_is_finite(ring);
}

impl<'a> ClassIter<'a> {
    /// Iterator state is consistent with the union-find it walks.
    pub closed spec fn inv(&self) -> bool {
        let s = self.uf.ring@[self.start@];
        &&& self.uf.wf()
        &&& self.start@ < self.uf@.len()
        &&& self.uf@[self.start@ as int] == self.start@
        &&& self.uf.ring_ok(self.start@)
        &&& self.pos@ <= s.len()
        &&& match self.curr {
            Some(c) => self.pos@ < s.len() && c@ == s[self.pos@ as int],
            None => self.pos@ == s.len(),
        }
    }

    /// The ids still to be yielded, in order.
    pub closed spec fn remaining(&self) -> Seq<nat> {
        self.uf.ring@[self.start@].skip(self.pos@ as int)
    }

    /// Yields the next member of the class, or `None` once all were yielded.
    pub fn next(&mut self) -> (r: Option<Id>)
        requires
            old(self).inv(),
        ensures
            final(self).inv(),
            match r {
                Some(id) => old(self).remaining().len() > 0 && id@ == old(self).remaining()[0]
                    && final(self).remaining() == old(self).remaining().drop_first(),
                None => old(self).remaining().len() == 0 && final(self).remaining() == old(self).remaining(),
            },
    {
        let id = match self.curr {
            Some(id) => id,
            None => {
                return None;
            },
        };
        let ghost s = self.uf.ring@[self.start@];
        let ghost k = self.pos@;
        let next = self.uf.next[id.usize()];
        proof {
            assert(s[k as int] < self.uf@.len());
            if k + 1 < s.len() {
                assert(self.uf.next@[s[k as int] as int]@ == s[k + 1int]);
                assert(s[k + 1int] != s[0]);
            } else {
                assert(s.last() == s[k as int]);
            }
        }
        self.curr = if next == self.start {
            None
        } else {
            Some(next)
        };
        self.pos = Ghost(k + 1);
        proof {
            assert(s.skip(k as int).drop_first() =~= s.skip(k + 1int));
        }
        Some(id)
    }
}

} // verus!
