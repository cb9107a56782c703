//! Substitutions kept in a hash map from variable to e-class: binding a
//! variable again replaces its id, and joining refuses conflicts.
use vstd::prelude::*;

use std::collections::HashMap;

use crate::util::{Id, Symbol};
use vstd::std_specs::hash::spec_hash_map_iter;
use vstd::std_specs::iter::IteratorSpec;

verus! {

broadcast use vstd::std_specs::hash::group_hash_axioms;

/// A substitution from pattern variables (by symbol index) to e-classes.
#[derive(Debug)]
pub struct Subst(HashMap<u32, Id>);

impl View for Subst {
    type V = Map<u32, Id>;

    closed spec fn view(&self) -> Map<u32, Id> {
        self.0@
    }
}

/// `a` and `b` give the same id to every variable that both bind.
pub open spec fn compatible(a: Map<u32, Id>, b: Map<u32, Id>) -> bool {
    forall|k: u32| a.contains_key(k) && b.contains_key(k) ==> #[trigger] a[k] == #[trigger] b[k]
}

impl Default for Subst {
    /// The empty substitution.
    fn default() -> (r: Self)
        ensures
            r@ == Map::<u32, Id>::empty(),
    {
        Subst(HashMap::new())
    }
}

impl Clone for Subst {
    fn clone(&self) -> (r: Self)
        ensures
            r@ == self@,
    {
        Subst(self.0.clone())
    }
}

/// The bindings of `m`, in the order in which the map hands them out.
fn pairs(m: &HashMap<u32, Id>) -> (r: Vec<(u32, Id)>)
    ensures
        r@.len() == m@.dom().len(),
        forall|i: int| 0 <= i < r@.len() ==> m@.contains_key(#[trigger] r@[i].0) && m@[r@[i].0] == r@[i].1,
        forall|k: u32| #[trigger] m@.contains_key(k) ==> exists|i: int| 0 <= i < r@.len() && r@[i].0 == k,
{
    let ghost full = spec_hash_map_iter(m).remaining();
    let mut out: Vec<(u32, Id)> = Vec::new();
    for (k, v) in it: m.iter()
        invariant
            it.seq() == full,
            out@.len() == it.index(),
            forall|j: int| 0 <= j < it.index() ==> #[trigger] out@[j] == (*full[j].0, *full[j].1),
    {
        out.push((*k, *v));
    }
    assert(out@.len() == full.len());
    proof {
        let v = full;
        assert forall|k: u32| #[trigger] m@.contains_key(k) implies exists|i: int| 0 <= i < out@.len() && out@[i].0 == k by {
            assert(v.contains((&k, &m@[k])));
            let i = choose|i: int| 0 <= i < v.len() && v[i] == (&k, &m@[k]);
            assert(out@[i] == (*v[i].0, *v[i].1));
        }
        assert forall|i: int| 0 <= i < out@.len() implies m@.contains_key(#[trigger] out@[i].0) && m@[out@[i].0] == out@[i].1 by {
            assert(out@[i] == (*v[i].0, *v[i].1));
            assert(m@.contains_key(*v[i].0));
        }
    }
    out
}

impl PartialEq for Subst {
    fn eq(&self, other: &Self) -> (r: bool) {
        let items = pairs(&self.0);
        if self.0.len() != other.0.len() {
            return false;
        }
        let mut i: usize = 0;
        while i < items.len()
            invariant
                i <= items@.len(),
                items@.len() == self@.dom().len(),
                self@.len() == other@.len(),
                forall|j: int| 0 <= j < items@.len() ==> self@.contains_key(#[trigger] items@[j].0) && self@[items@[j].0] == items@[j].1,
                forall|k: u32| #[trigger] self@.contains_key(k) ==> exists|j: int| 0 <= j < items@.len() && items@[j].0 == k,
                forall|j: int| 0 <= j < i ==> other@.contains_key(#[trigger] items@[j].0) && other@[items@[j].0] == items@[j].1,
            decreases items@.len() - i,
        {
            match other.0.get(&items[i].0) {
                Some(v) => {
                    if *v != items[i].1 {
                        return false;
                    }
                },
                None => {
                    return false;
                },
            }
            i = i + 1;
        }
        proof {
            assert forall|k: u32| #[trigger] self@.contains_key(k) implies other@.contains_key(k) && other@[k] == self@[k] by {
                let j = choose|j: int| 0 <= j < items@.len() && items@[j].0 == k;
                assert(other@.contains_key(items@[j].0));
            }
            assert(self@.dom().subset_of(other@.dom()));
            assert forall|k: u32| #[trigger] other@.contains_key(k) implies self@.contains_key(k) by {
                if !self@.contains_key(k) {
                    self@.dom().lemma_subset_not_in_lt(other@.dom(), k);
                }
            }
            assert(self@ =~= other@);
        }
        true
    }
}

impl vstd::std_specs::cmp::PartialEqSpecImpl for Subst {
    open spec fn obeys_eq_spec() -> bool {
        true
    }

    open spec fn eq_spec(&self, other: &Self) -> bool {
        self@ == other@
    }
}

impl Eq for Subst {
}

impl Subst {
    /// This substitution with `var` bound to `id`, replacing any binding of `var`.
    pub fn with(&self, var: Symbol, id: Id) -> (r: Self)
        ensures
            r@ == self@.insert(var.key(), id),
    {
        let mut new = self.clone();
        new.0.insert(var.index_u32(), id);
        new
    }

    /// The substitution with the one binding `var` to `id`.
    pub fn singleton(var: Symbol, id: Id) -> (r: Self)
        ensures
            r@ == Map::<u32, Id>::empty().insert(var.key(), id),
    {
        Self::default().with(var, id)
    }

    /// Both substitutions together; `None` when they bind a variable to
    /// different ids.
    pub fn join(&self, other: &Self) -> (r: Option<Self>)
        ensures
            r is Some <==> compatible(self@, other@),
            r matches Some(s) ==> s@ == self@.union_prefer_right(other@),
    {
        let items = pairs(&other.0);
        let mut new = self.clone();
        let mut i: usize = 0;
        while i < items.len()
            invariant
                i <= items@.len(),
                items@.len() == other@.dom().len(),
                forall|j: int| 0 <= j < items@.len() ==> other@.contains_key(#[trigger] items@[j].0) && other@[items@[j].0] == items@[j].1,
                forall|k: u32| #[trigger] other@.contains_key(k) ==> exists|j: int| 0 <= j < items@.len() && items@[j].0 == k,
                forall|j: int| 0 <= j < i ==> self@.contains_key(#[trigger] items@[j].0) ==> self@[items@[j].0] == items@[j].1,
                forall|k: u32| #[trigger] new@.contains_key(k) <==> self@.contains_key(k) || exists|j: int| 0 <= j < i && items@[j].0 == k,
                forall|k: u32| #[trigger] new@.contains_key(k) ==> new@[k] == if other@.contains_key(k) && exists|j: int| 0 <= j < i && items@[j].0 == k {
                    other@[k]
                } else {
                    self@[k]
                },
            decreases items@.len() - i,
        {
            let (var, id) = items[i];
            let ghost before = new@;
            let old_id = new.0.insert(var, id);
            proof {
                assert(other@.contains_key(var) && other@[var] == id);
            }
            if let Some(old_id) = old_id {
                if old_id != id {
                    proof {
                        if self@.contains_key(var) {
                            assert(before.contains_key(var));
                            if exists|j: int| 0 <= j < i && items@[j].0 == var {
                                let j = choose|j: int| 0 <= j < i && items@[j].0 == var;
                                assert(other@[items@[j].0] == items@[j].1);
                            }
                            assert(self@[var] != other@[var]);
                        } else {
                            let j = choose|j: int| 0 <= j < i && items@[j].0 == var;
                            assert(other@[items@[j].0] == items@[j].1);
                        }
                        assert(!compatible(self@, other@));
                    }
                    return None;
                }
            }
            proof {
                if self@.contains_key(var) {
                    assert(before.contains_key(var));
                    if exists|j: int| 0 <= j < i && items@[j].0 == var {
                        let j = choose|j: int| 0 <= j < i && items@[j].0 == var;
                        assert(other@[items@[j].0] == items@[j].1);
                    } else {
                        assert(before[var] == self@[var]);
                    }
                }
                assert forall|k: u32| #[trigger] new@.contains_key(k) implies new@[k] == if other@.contains_key(k) && exists|j: int|
                    0 <= j < i + 1 && items@[j].0 == k {
                    other@[k]
                } else {
                    self@[k]
                } by {
                    if k == var {
                    } else {
                        if exists|j: int| 0 <= j < i + 1 && items@[j].0 == k {
                            let j = choose|j: int| 0 <= j < i + 1 && items@[j].0 == k;
                            assert(j < i);
                        }
                    }
                }
                assert forall|k: u32| #[trigger] new@.contains_key(k) <==> self@.contains_key(k) || exists|j: int| 0 <= j < i + 1 && items@[j].0 == k by {
                    if exists|j: int| 0 <= j < i + 1 && items@[j].0 == k {
                        let j = choose|j: int| 0 <= j < i + 1 && items@[j].0 == k;
                        if j < i {
                        }
                    }
                }
            }
            i = i + 1;
        }
        proof {
            assert forall|k: u32| self@.contains_key(k) && other@.contains_key(k) implies #[trigger] self@[k] == #[trigger] other@[k] by {
                let j = choose|j: int| 0 <= j < items@.len() && items@[j].0 == k;
                assert(self@.contains_key(items@[j].0));
            }
            assert(new@ =~= self@.union_prefer_right(other@)) by {
                assert forall|k: u32| #[trigger] new@.contains_key(k) implies new@[k] == self@.union_prefer_right(other@)[k] by {
                    if other@.contains_key(k) {
                        let j = choose|j: int| 0 <= j < items@.len() && items@[j].0 == k;
                    }
                }
                assert forall|k: u32| #[trigger] self@.union_prefer_right(other@).contains_key(k) implies new@.contains_key(k) by {
                    if other@.contains_key(k) {
                        let j = choose|j: int| 0 <= j < items@.len() && items@[j].0 == k;
                    }
                }
            }
        }
        Some(new)
    }

    /// This substitution with `var` bound to `id`; `var` must be unbound or
    /// bound to `id`.
    pub fn add(&self, var: Symbol, id: Id) -> (r: Self)
        requires
            self@.contains_key(var.key()) ==> self@[var.key()] == id,
        ensures
            r@ == self@.insert(var.key(), id),
    {
        let single = Subst::singleton(var, id);
        match self.join(&single) {
            Some(s) => {
                proof {
                    assert(s@ =~= self@.insert(var.key(), id));
                }
                s
            },
            None => {
                proof {
                    assert(compatible(self@, single@));
                }
                single
            },
        }
    }

    /// The id bound to `name`, if any.
    pub fn get(&self, name: Symbol) -> (r: Option<Id>)
        ensures
            r == if self@.contains_key(name.key()) {
                Some(self@[name.key()])
            } else {
                None
            },
    {
        match self.0.get(&name.index_u32()) {
            Some(id) => Some(*id),
            None => None,
        }
    }

    /// The id bound to `name`, which must be bound.
    pub fn index(&self, name: Symbol) -> (r: Id)
        requires
            self@.contains_key(name.key()),
        ensures
            r == self@[name.key()],
    {
        match self.0.get(&name.index_u32()) {
            Some(id) => *id,
            None => Id(0),
        }
    }
}

/// The substitution binding the symbol of `var` to `value`.
pub fn subst(var: &str, value: usize) -> (r: Subst)
    ensures
        r@.len() == 1,
        exists|k: u32| r@ == #[trigger] Map::<u32, Id>::empty().insert(k, Id(value as u32)),
{
    let sym = Symbol::new(var);
    let id = Id::new(value);
    let s = Subst::singleton(sym, id);
    proof {
        assert(s@.dom() =~= set![sym.key()]);
        assert(s@[sym.key()] == id);
        assert(id == Id(value as u32));
        assert(s@ == Map::<u32, Id>::empty().insert(sym.key(), Id(value as u32)));
    }
    s
}

} // verus!
