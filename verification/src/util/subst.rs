//! Substitutions: finite maps from pattern variables to e-classes, kept as a
//! small vector of bindings in insertion order.
use vstd::prelude::*;

use smallvec::SmallVec;

use crate::util::{Id, Symbol};

verus! {

/// The bindings of a substitution, held in a `SmallVec` that Verus does not
/// look into; `binding_items` names what it holds.
#[verifier::external_body]
#[derive(Debug)]
pub struct Bindings {
    v: SmallVec<[(Symbol, Id); 4]>,
}

/// The bindings that a small vector of bindings holds, in order.
pub uninterp spec fn binding_items(b: Bindings) -> Seq<(Symbol, Id)>;

/// An empty vector of bindings (`SmallVec::new`).
#[verifier::external_body]
fn bindings_new() -> (r: Bindings)
    ensures
        binding_items(r) == Seq::<(Symbol, Id)>::empty(),
{
    Bindings { v: SmallVec::new() }
}

/// Appends a binding (`SmallVec::push`).
#[verifier::external_body]
fn bindings_push(v: &mut Bindings, b: (Symbol, Id))
    ensures
        binding_items(*final(v)) == binding_items(*old(v)).push(b),
{
    v.v.push(b)
}

/// The bindings as a slice (`SmallVec::as_slice`).
#[verifier::external_body]
fn bindings_slice(v: &Bindings) -> (r: &[(Symbol, Id)])
    ensures
        r@ == binding_items(*v),
{
    v.v.as_slice()
}

/// A copy of the bindings (`SmallVec::clone`).
#[verifier::external_body]
fn bindings_clone(v: &Bindings) -> (r: Bindings)
    ensures
        binding_items(r) == binding_items(*v),
{
    Bindings { v: v.v.clone() }
}

/// The id that `n` is bound to: the first binding of `n`, if any.
pub open spec fn lookup(s: Seq<(Symbol, Id)>, n: Symbol) -> Option<Id>
    decreases s.len(),
{
    if s.len() == 0 {
        None
    } else if s[0].0 == n {
        Some(s[0].1)
    } else {
        lookup(s.drop_first(), n)
    }
}

/// Binding `var` to `id`: unchanged if already bound to `id`, refused if
/// bound to another id, else the binding is appended.
pub open spec fn with_spec(s: Seq<(Symbol, Id)>, var: Symbol, id: Id) -> Option<Seq<(Symbol, Id)>> {
    match lookup(s, var) {
        Some(old) => if old == id {
            Some(s)
        } else {
            None
        },
        None => Some(s.push((var, id))),
    }
}

/// Adds the bindings of `other` one by one, in order, failing at the first conflict.
pub open spec fn join_spec(s: Seq<(Symbol, Id)>, other: Seq<(Symbol, Id)>) -> Option<Seq<(Symbol, Id)>>
    decreases other.len(),
{
    if other.len() == 0 {
        Some(s)
    } else {
        match with_spec(s, other[0].0, other[0].1) {
            Some(s2) => join_spec(s2, other.drop_first()),
            None => None,
        }
    }
}

/// Two binding lists mean the same map: same length, and every binding of
/// the first is what the second gives for that variable.
pub open spec fn same_bindings(a: Seq<(Symbol, Id)>, b: Seq<(Symbol, Id)>) -> bool {
    &&& a.len() == b.len()
    &&& forall|i: int| 0 <= i < a.len() ==> lookup(b, #[trigger] a[i].0) == Some(a[i].1)
}

/// No variable is bound twice.
pub open spec fn distinct_vars(s: Seq<(Symbol, Id)>) -> bool {
    forall|i: int, j: int| 0 <= i < j < s.len() ==> s[i].0 != s[j].0
}

/// Every variable that both bind is bound to the same id.
pub open spec fn agree(a: Seq<(Symbol, Id)>, b: Seq<(Symbol, Id)>) -> bool {
    forall|k: Symbol|
        #![trigger lookup(a, k), lookup(b, k)]
        lookup(a, k) is Some && lookup(b, k) is Some ==> lookup(a, k) == lookup(b, k)
}

/// The variables of the bindings, in order.
spec fn vars(s: Seq<(Symbol, Id)>) -> Seq<Symbol> {
    s.map_values(|p: (Symbol, Id)| p.0)
}

proof fn lemma_lookup_found(s: Seq<(Symbol, Id)>, k: Symbol) -> (i: int)
    requires
        lookup(s, k) is Some,
    ensures
        0 <= i < s.len(),
        s[i].0 == k,
        lookup(s, k) == Some(s[i].1),
    decreases s.len(),
{
    if s[0].0 == k {
        0
    } else {
        let j = lemma_lookup_found(s.drop_first(), k);
        j + 1
    }
}

proof fn lemma_lookup_absent(s: Seq<(Symbol, Id)>, k: Symbol)
    requires
        lookup(s, k) is None,
    ensures
        forall|i: int| 0 <= i < s.len() ==> #[trigger] s[i].0 != k,
    decreases s.len(),
{
    if s.len() > 0 {
        lemma_lookup_absent(s.drop_first(), k);
        assert forall|i: int| 0 <= i < s.len() implies #[trigger] s[i].0 != k by {
            if i > 0 {
                assert(s[i] == s.drop_first()[i - 1]);
            }
        }
    }
}

proof fn lemma_lookup_index(s: Seq<(Symbol, Id)>, i: int)
    requires
        distinct_vars(s),
        0 <= i < s.len(),
    ensures
        lookup(s, s[i].0) == Some(s[i].1),
    decreases s.len(),
{
    if i > 0 {
        assert(s[0].0 != s[i].0);
        let rest = s.drop_first();
        assert(distinct_vars(rest)) by {
            assert forall|a: int, b: int| 0 <= a < b < rest.len() implies rest[a].0 != rest[b].0 by {
                assert(rest[a] == s[a + 1] && rest[b] == s[b + 1]);
            }
        }
        assert(rest[i - 1] == s[i]);
        lemma_lookup_index(rest, i - 1);
    }
}

proof fn lemma_lookup_push(s: Seq<(Symbol, Id)>, b: (Symbol, Id), k: Symbol)
    ensures
        lookup(s.push(b), k) == (if lookup(s, k) is Some {
            lookup(s, k)
        } else if b.0 == k {
            Some(b.1)
        } else {
            None
        }),
    decreases s.len(),
{
    if s.len() > 0 {
        assert(s.push(b).drop_first() =~= s.drop_first().push(b));
        assert(s.push(b)[0] == s[0]);
        lemma_lookup_push(s.drop_first(), b, k);
    } else {
        assert(s.push(b).drop_first() =~= Seq::<(Symbol, Id)>::empty());
        assert(s.push(b)[0] == b);
        assert(lookup(s.push(b).drop_first(), k) is None);
    }
}

proof fn lemma_distinct_rest(s: Seq<(Symbol, Id)>)
    requires
        distinct_vars(s),
        s.len() > 0,
    ensures
        distinct_vars(s.drop_first()),
        lookup(s.drop_first(), s[0].0) is None,
{
    let rest = s.drop_first();
    assert forall|a: int, b: int| 0 <= a < b < rest.len() implies rest[a].0 != rest[b].0 by {
        assert(rest[a] == s[a + 1] && rest[b] == s[b + 1]);
    }
    if lookup(rest, s[0].0) is Some {
        let j = lemma_lookup_found(rest, s[0].0);
        assert(rest[j] == s[j + 1]);
    }
}

/// What joining does, for substitutions that bind no variable twice: it
/// succeeds exactly when the two agree, and then binds each variable as
/// the first does, or else as the second does.
proof fn lemma_join_lookup(s: Seq<(Symbol, Id)>, o: Seq<(Symbol, Id)>)
    requires
        distinct_vars(s),
        distinct_vars(o),
    ensures
        (join_spec(s, o) is Some) == agree(s, o),
        join_spec(s, o) matches Some(r) ==> distinct_vars(r) && forall|k: Symbol|
            #[trigger] lookup(r, k) == (if lookup(s, k) is Some {
                lookup(s, k)
            } else {
                lookup(o, k)
            }),
    decreases o.len(),
{
    if o.len() == 0 {
        assert(agree(s, o));
    } else {
        let var = o[0].0;
        let id = o[0].1;
        let rest = o.drop_first();
        lemma_distinct_rest(o);
        match lookup(s, var) {
            Some(v) => {
                if v == id {
                    lemma_join_lookup(s, rest);
                    assert(agree(s, o) == agree(s, rest)) by {
                        if agree(s, rest) {
                            assert forall|k: Symbol|
                                lookup(s, k) is Some && lookup(o, k) is Some implies lookup(s, k) == lookup(o, k) by {
                                if k != var {
                                    assert(lookup(o, k) == lookup(rest, k));
                                }
                            }
                        }
                        if agree(s, o) {
                            assert forall|k: Symbol|
                                lookup(s, k) is Some && lookup(rest, k) is Some implies lookup(s, k) == lookup(rest, k) by {
                                assert(lookup(o, k) == lookup(rest, k));
                            }
                        }
                    }
                } else {
                    assert(lookup(o, var) == Some(id));
                    assert(!agree(s, o));
                }
            },
            None => {
                let s2 = s.push((var, id));
                lemma_lookup_absent(s, var);
                assert(distinct_vars(s2)) by {
                    assert forall|a: int, b: int| 0 <= a < b < s2.len() implies s2[a].0 != s2[b].0 by {
                        if b == s.len() {
                            assert(s2[a] == s[a]);
                        } else {
                            assert(s2[a] == s[a] && s2[b] == s[b]);
                        }
                    }
                }
                assert forall|k: Symbol| lookup(s2, k) == (if lookup(s, k) is Some {
                    lookup(s, k)
                } else if var == k {
                    Some(id)
                } else {
                    None
                }) by {
                    lemma_lookup_push(s, (var, id), k);
                }
                lemma_join_lookup(s2, rest);
                assert(agree(s, o) == agree(s2, rest)) by {
                    if agree(s2, rest) {
                        assert forall|k: Symbol|
                            lookup(s, k) is Some && lookup(o, k) is Some implies lookup(s, k) == lookup(o, k) by {
                            assert(lookup(s2, k) == lookup(s, k));
                            assert(lookup(o, k) == lookup(rest, k));
                        }
                    }
                    if agree(s, o) {
                        assert forall|k: Symbol|
                            lookup(s2, k) is Some && lookup(rest, k) is Some implies lookup(s2, k) == lookup(rest, k) by {
                            assert(lookup(o, k) == lookup(rest, k));
                        }
                    }
                }
                if join_spec(s, o) is Some {
                    let r = join_spec(s, o).unwrap();
                    assert forall|k: Symbol| #[trigger] lookup(r, k) == (if lookup(s, k) is Some {
                        lookup(s, k)
                    } else {
                        lookup(o, k)
                    }) by {
                        assert(lookup(r, k) == (if lookup(s2, k) is Some {
                            lookup(s2, k)
                        } else {
                            lookup(rest, k)
                        }));
                    }
                }
            },
        }
    }
}

proof fn lemma_with_distinct(s: Seq<(Symbol, Id)>, var: Symbol, id: Id)
    requires
        distinct_vars(s),
    ensures
        with_spec(s, var, id) matches Some(r) ==> distinct_vars(r),
{
    if lookup(s, var) is None {
        lemma_lookup_absent(s, var);
        let s2 = s.push((var, id));
        assert forall|a: int, b: int| 0 <= a < b < s2.len() implies s2[a].0 != s2[b].0 by {
            assert(s2[a] == s[a]);
            if b < s.len() {
                assert(s2[b] == s[b]);
            }
        }
    }
}

proof fn lemma_vars_facts(s: Seq<(Symbol, Id)>)
    requires
        distinct_vars(s),
    ensures
        vars(s).to_set().len() == s.len(),
        vars(s).to_set().finite(),
        forall|k: Symbol| #[trigger] vars(s).to_set().contains(k) == (lookup(s, k) is Some),
{
    let v = vars(s);
    assert(v.no_duplicates()) by {
        assert forall|i: int, j: int| 0 <= i < v.len() && 0 <= j < v.len() && i != j implies v[i] != v[j] by {
            if i < j {
                assert(s[i].0 != s[j].0);
            } else {
                assert(s[j].0 != s[i].0);
            }
        }
    }
    v.unique_seq_to_set();
    vstd::seq_lib::seq_to_set_is_finite(v);
    assert forall|k: Symbol| #[trigger] v.to_set().contains(k) == (lookup(s, k) is Some) by {
        if v.to_set().contains(k) {
            let i = choose|i: int| 0 <= i < v.len() && v[i] == k;
            lemma_lookup_index(s, i);
        }
        if lookup(s, k) is Some {
            let i = lemma_lookup_found(s, k);
            assert(v[i] == k);
        }
    }
}

/// For binding lists that bind no variable twice, meaning the same map is
/// binding every variable alike.
proof fn lemma_same_bindings_lookup(a: Seq<(Symbol, Id)>, b: Seq<(Symbol, Id)>)
    requires
        distinct_vars(a),
        distinct_vars(b),
    ensures
        same_bindings(a, b) == (forall|k: Symbol| #[trigger] lookup(a, k) == lookup(b, k)),
{
    lemma_vars_facts(a);
    lemma_vars_facts(b);
    if forall|k: Symbol| #[trigger] lookup(a, k) == lookup(b, k) {
        assert(vars(a).to_set() =~= vars(b).to_set()) by {
            assert forall|k: Symbol| vars(a).to_set().contains(k) == vars(b).to_set().contains(k) by {
                assert(lookup(a, k) == lookup(b, k));
            }
        }
        assert forall|i: int| 0 <= i < a.len() implies lookup(b, #[trigger] a[i].0) == Some(a[i].1) by {
            lemma_lookup_index(a, i);
            assert(lookup(a, a[i].0) == lookup(b, a[i].0));
        }
    }
    if same_bindings(a, b) {
        assert(vars(a).to_set().subset_of(vars(b).to_set())) by {
            assert forall|k: Symbol| vars(a).to_set().contains(k) implies vars(b).to_set().contains(k) by {
                let i = lemma_lookup_found(a, k);
                assert(lookup(b, a[i].0) == Some(a[i].1));
            }
        }
        vstd::set_lib::lemma_subset_equality(vars(a).to_set(), vars(b).to_set());
        assert forall|k: Symbol| #[trigger] lookup(a, k) == lookup(b, k) by {
            if lookup(a, k) is Some {
                let i = lemma_lookup_found(a, k);
                assert(lookup(b, a[i].0) == Some(a[i].1));
            } else {
                assert(!vars(a).to_set().contains(k));
                assert(!vars(b).to_set().contains(k));
            }
        }
    }
}

/// Joining with the empty substitution, on either side, gives back a
/// substitution equal to the one given (no variable of it bound twice).
pub proof fn lemma_join_empty(s: Subst)
    requires
        distinct_vars(s@),
    ensures
        join_spec(s@, Seq::empty()) == Some(s@),
        join_spec(Seq::empty(), s@) matches Some(r) && same_bindings(r, s@),
{
    let e = Seq::<(Symbol, Id)>::empty();
    lemma_join_lookup(e, s@);
    assert(agree(e, s@));
    let r = join_spec(e, s@).unwrap();
    lemma_same_bindings_lookup(r, s@);
}

/// Joining is commutative: for substitutions that bind no variable twice,
/// `s` joined with `o` succeeds exactly when `o` joined with `s` does, and
/// the two results are equal substitutions.
pub proof fn lemma_join_commutes(s: Subst, o: Subst)
    requires
        distinct_vars(s@),
        distinct_vars(o@),
    ensures
        (join_spec(s@, o@) is Some) == (join_spec(o@, s@) is Some),
        join_spec(s@, o@) is Some ==> same_bindings(join_spec(s@, o@).unwrap(), join_spec(o@, s@).unwrap()),
{
    lemma_join_lookup(s@, o@);
    lemma_join_lookup(o@, s@);
    assert(agree(s@, o@) == agree(o@, s@)) by {
        if agree(s@, o@) {
            assert forall|k: Symbol| lookup(o@, k) is Some && lookup(s@, k) is Some implies lookup(o@, k) == lookup(s@, k) by {
                assert(lookup(s@, k) is Some && lookup(o@, k) is Some ==> lookup(s@, k) == lookup(o@, k));
            }
        }
        if agree(o@, s@) {
            assert forall|k: Symbol| lookup(s@, k) is Some && lookup(o@, k) is Some implies lookup(s@, k) == lookup(o@, k) by {
                assert(lookup(o@, k) is Some && lookup(s@, k) is Some ==> lookup(o@, k) == lookup(s@, k));
            }
        }
    }
    if join_spec(s@, o@) is Some {
        let a = join_spec(s@, o@).unwrap();
        let b = join_spec(o@, s@).unwrap();
        assert forall|k: Symbol| #[trigger] lookup(a, k) == lookup(b, k) by {
            assert(lookup(a, k) == (if lookup(s@, k) is Some { lookup(s@, k) } else { lookup(o@, k) }));
            assert(lookup(b, k) == (if lookup(o@, k) is Some { lookup(o@, k) } else { lookup(s@, k) }));
            assert(lookup(s@, k) is Some && lookup(o@, k) is Some ==> lookup(s@, k) == lookup(o@, k));
        }
        lemma_same_bindings_lookup(a, b);
    }
}

/// Equality of substitutions ignores the order of the bindings: two
/// substitutions that bind no variable twice are equal (`==`) exactly when
/// they bind every variable alike.
pub proof fn lemma_eq_by_lookup(s: Subst, t: Subst)
    requires
        distinct_vars(s@),
        distinct_vars(t@),
    ensures
        same_bindings(s@, t@) == (forall|v: Symbol| #[trigger] lookup(s@, v) == lookup(t@, v)),
{
    lemma_same_bindings_lookup(s@, t@);
}

/// A substitution from pattern variables to e-classes.
#[derive(Debug)]
pub struct Subst(Bindings);

impl View for Subst {
    type V = Seq<(Symbol, Id)>;

    closed spec fn view(&self) -> Seq<(Symbol, Id)> {
        binding_items(self.0)
    }
}

impl Default for Subst {
    /// The empty substitution.
    fn default() -> (r: Self)
        ensures
            r@ == Seq::<(Symbol, Id)>::empty(),
    {
        Subst(bindings_new())
    }
}

impl Clone for Subst {
    fn clone(&self) -> (r: Self)
        ensures
            r@ == self@,
    {
        Subst(bindings_clone(&self.0))
    }
}

impl PartialEq for Subst {
    /// Equal when both bind the same variables to the same ids, in any order.
    fn eq(&self, other: &Self) -> (r: bool) {
        let mine = bindings_slice(&self.0);
        let theirs = bindings_slice(&other.0);
        if mine.len() != theirs.len() {
            return false;
        }
        let mut i: usize = 0;
        while i < mine.len()
            invariant
                mine@ == self@,
                theirs@ == other@,
                mine@.len() == theirs@.len(),
                i <= mine@.len(),
                forall|j: int| 0 <= j < i ==> lookup(other@, #[trigger] mine@[j].0) == Some(mine@[j].1),
            decreases mine@.len() - i,
        {
            let (name, id) = mine[i];
            match other.get(name) {
                Some(found) => {
                    if found != id {
                        return false;
                    }
                },
                None => {
                    return false;
                },
            }
            i = i + 1;
        }
        true
    }
}

impl vstd::std_specs::cmp::PartialEqSpecImpl for Subst {
    open spec fn obeys_eq_spec() -> bool {
        true
    }

    open spec fn eq_spec(&self, other: &Self) -> bool {
        same_bindings(self@, other@)
    }
}

impl Eq for Subst {

}

impl Subst {
    fn get_ref(&self, name: Symbol) -> (r: Option<Id>)
        ensures
            r == lookup(self@, name),
    {
        let items = bindings_slice(&self.0);
        let mut i: usize = 0;
        assert(items@.skip(0) =~= items@);
        while i < items.len()
            invariant
                items@ == self@,
                i <= items@.len(),
                lookup(self@, name) == lookup(items@.skip(i as int), name),
            decreases items@.len() - i,
        {
            let (n, id) = items[i];
            if n == name {
                return Some(id);
            }
            proof {
                assert(items@.skip(i as int).drop_first() =~= items@.skip(i + 1int));
            }
            i = i + 1;
        }
        None
    }

    /// Binds `var` to `id`: the same substitution if `var` is already bound
    /// to `id`, `None` if it is bound to another id, else with the binding added.
    pub fn with(&self, var: Symbol, id: Id) -> (r: Option<Self>)
        ensures
            r matches Some(s) ==> with_spec(self@, var, id) == Some(s@),
            r is None ==> with_spec(self@, var, id) is None,
            r matches Some(s) ==> (distinct_vars(self@) ==> distinct_vars(s@)),
    {
        proof {
            if distinct_vars(self@) {
                lemma_with_distinct(self@, var, id);
            }
        }
        match self.get_ref(var) {
            Some(old) => {
                if old == id {
                    Some(self.clone())
                } else {
                    None
                }
            },
            None => {
                let mut new = self.clone();
                bindings_push(&mut new.0, (var, id));
                Some(new)
            },
        }
    }

    /// The substitution with the one binding `var` to `id`.
    pub fn singleton(var: Symbol, id: Id) -> (r: Self)
        ensures
            r@ == seq![(var, id)],
    {
        let empty = Self::default();
        let r = empty.with(var, id);
        proof {
            assert(Seq::<(Symbol, Id)>::empty().push((var, id)) =~= seq![(var, id)]);
        }
        match r {
            Some(s) => s,
            None => empty,
        }
    }

    /// Adds the bindings of `other` to this substitution, in order; `None`
    /// if some variable is bound to different ids by the two.
    pub fn join(self, other: &Self) -> (r: Option<Self>)
        ensures
            r matches Some(s) ==> join_spec(self@, other@) == Some(s@),
            r is None ==> join_spec(self@, other@) is None,
            r matches Some(s) ==> (distinct_vars(self@) && distinct_vars(other@) ==> distinct_vars(s@)),
    {
        let items = bindings_slice(&other.0);
        let ghost start = self@;
        let mut cur = self;
        let mut i: usize = 0;
        assert(items@.skip(0) =~= items@);
        while i < items.len()
            invariant
                items@ == other@,
                i <= items@.len(),
                start == self@,
                join_spec(start, other@) == join_spec(cur@, items@.skip(i as int)),
            decreases items@.len() - i,
        {
            let (var, id) = items[i];
            proof {
                assert(items@.skip(i as int).drop_first() =~= items@.skip(i + 1int));
                assert(items@.skip(i as int)[0] == (var, id));
            }
            match cur.with(var, id) {
                Some(next) => {
                    cur = next;
                },
                None => {
                    assert(join_spec(cur@, items@.skip(i as int)) is None);
                    return None;
                },
            }
            i = i + 1;
        }
        proof {
            assert(items@.skip(i as int).len() == 0);
            if distinct_vars(start) && distinct_vars(other@) {
                lemma_join_lookup(start, other@);
            }
        }
        Some(cur)
    }

    /// The id that `name` is bound to, if any.
    pub fn get(&self, name: Symbol) -> (r: Option<Id>)
        ensures
            r == lookup(self@, name),
    {
        self.get_ref(name)
    }

    /// The id that `name` is bound to; `name` must be bound.
    pub fn index(&self, name: Symbol) -> (r: Id)
        requires
            lookup(self@, name) is Some,
        ensures
            lookup(self@, name) == Some(r),
    {
        match self.get_ref(name) {
            Some(id) => id,
            None => Id(0),
        }
    }
}

/// The substitution binding the symbol of `var` to `value`.
pub fn subst(var: &str, value: usize) -> (r: Subst)
    ensures
        r@.len() == 1,
        r@[0].1 == Id(value as u32),
{
    Subst::singleton(Symbol::new(var), Id::new(value))
}

} // verus!
