//! A small set of states, for the states on the path of a descent.
use crate::problem::eq_by_view;
use vstd::prelude::*;

verus! {

/// A finite set of states to which states are added and from which they
/// are taken again. Two states are the same member when their views are
/// equal; no member is held twice. The members are looked through one by
/// one, the last added first: the set is meant to be small.
pub struct PathSet<S: View> {
    items: Vec<S>,
}

impl<S: View> PathSet<S> {
    /// The views of the members, in the order in which they are held.
    pub closed spec fn views(&self) -> Seq<S::V> {
        self.items@.map_values(|s: S| s@)
    }

    /// No view occurs twice among the members held.
    pub closed spec fn wf(&self) -> bool {
        self.views().no_duplicates()
    }
}

impl<S: View> View for PathSet<S> {
    type V = Set<S::V>;

    closed spec fn view(&self) -> Set<S::V> {
        self.views().to_set()
    }
}

impl<S: View + PartialEq> PathSet<S> {
    /// The empty set.
    pub fn new() -> (r: Self)
        ensures
            r.wf(),
            r@ == Set::<S::V>::empty(),
    {
        let r = PathSet { items: Vec::new() };
        assert(r.views() =~= Seq::<S::V>::empty());
        assert(r@ =~= Set::<S::V>::empty());
        r
    }

    /// The set is finite.
    pub proof fn lemma_finite(&self)
        ensures
            self@.finite(),
    {
        vstd::seq_lib::seq_to_set_is_finite(self.views());
    }

    /// The number of members.
    pub fn len(&self) -> (n: usize)
        requires
            self.wf(),
        ensures
            n == self@.len(),
            self@.finite(),
    {
        proof {
            self.views().unique_seq_to_set();
            vstd::seq_lib::seq_to_set_is_finite(self.views());
        }
        self.items.len()
    }

    /// The position of the member with the view of `state`, if there is one.
    fn position(&self, state: &S) -> (r: Option<usize>)
        requires
            eq_by_view::<S>(),
        ensures
            match r {
                Some(i) => i < self.items.len() && self.items[i as int]@ == state@,
                None => !self@.contains(state@),
            },
    {
        let n: usize = self.items.len();
        let mut i: usize = n;
        while i > 0
            invariant
                eq_by_view::<S>(),
                n == self.items.len(),
                i <= n,
                forall|j: int| i <= j < n ==> self.items[j]@ != state@,
            decreases i,
        {
            i = i - 1;
            if self.items[i] == *state {
                return Some(i);
            }
        }
        proof {
            if self@.contains(state@) {
                let j = choose|j: int| 0 <= j < self.views().len() && self.views()[j] == state@;
                assert(self.items[j]@ == state@);
            }
        }
        None
    }

    /// Whether a state with the view of `state` is a member.
    pub fn contains(&self, state: &S) -> (r: bool)
        requires
            eq_by_view::<S>(),
        ensures
            r == self@.contains(state@),
    {
        match self.position(state) {
            Some(i) => {
                assert(self.views()[i as int] == state@);
                true
            },
            None => false,
        }
    }

    /// Makes `state` a member. Returns whether it was not one before.
    pub fn insert(&mut self, state: S) -> (added: bool)
        requires
            eq_by_view::<S>(),
            old(self).wf(),
        ensures
            final(self).wf(),
            final(self)@ == old(self)@.insert(state@),
            added == !old(self)@.contains(state@),
    {
        if self.contains(&state) {
            assert(self@.insert(state@) =~= self@);
            false
        } else {
            let ghost before = self.views();
            self.items.push(state);
            proof {
                assert(self.views() =~= before.push(state@));
                before.lemma_push_to_set_commute(state@);
                assert forall|i: int, j: int|
                    0 <= i < self.views().len() && 0 <= j < self.views().len() && i
                        != j implies self.views()[i] != self.views()[j] by {
                    if i < before.len() {
                        assert(before.to_set().contains(before[i]));
                    }
                    if j < before.len() {
                        assert(before.to_set().contains(before[j]));
                    }
                }
            }
            true
        }
    }

    /// Takes the state with the view of `state` out of the set. Returns
    /// whether it was a member.
    pub fn remove(&mut self, state: &S) -> (removed: bool)
        requires
            eq_by_view::<S>(),
            old(self).wf(),
        ensures
            final(self).wf(),
            final(self)@ == old(self)@.remove(state@),
            removed == old(self)@.contains(state@),
    {
        match self.position(state) {
            Some(i) => {
                let ghost before = self.views();
                assert(before[i as int] == state@);
                self.items.remove(i);
                proof {
                    assert(self.views() =~= before.remove(i as int));
                    assert forall|a: int, b: int|
                        0 <= a < self.views().len() && 0 <= b < self.views().len() && a
                            != b implies self.views()[a] != self.views()[b] by {
                        let a0 = if a < i { a } else { a + 1 };
                        let b0 = if b < i { b } else { b + 1 };
                        assert(self.views()[a] == before[a0]);
                        assert(self.views()[b] == before[b0]);
                    }
                    assert forall|v: S::V|
                        self.views().to_set().contains(v) <==> before.to_set().remove(
                            state@,
                        ).contains(v) by {
                        if self.views().to_set().contains(v) {
                            let a = choose|a: int| 0 <= a < self.views().len() && self.views()[a] == v;
                            let a0 = if a < i { a } else { a + 1 };
                            assert(before[a0] == v);
                            assert(a0 != i);
                        }
                        if before.to_set().remove(state@).contains(v) {
                            let b = choose|b: int| 0 <= b < before.len() && before[b] == v;
                            assert(b != i);
                            let b1 = if b < i { b } else { b - 1 };
                            assert(self.views()[b1] == v);
                        }
                    }
                    assert(self.views().to_set() =~= before.to_set().remove(state@));
                }
                true
            },
            None => {
                assert(self@.remove(state@) =~= self@);
                false
            },
        }
    }
}

} // verus!
