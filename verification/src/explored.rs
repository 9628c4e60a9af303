//! The explored set and the table of path costs: states found by a key.
use crate::benchmarking::metrics::capped_count;
use crate::problem::eq_by_view;
use std::collections::HashMap;
use vstd::prelude::*;

verus! {

/// A state that can be looked up by a key: a number that depends on the
/// view of the state alone. States with different views may share a key.
pub trait StableKey: View + Sized {
    /// The key of the states with view `v`.
    spec fn key_of(v: Self::V) -> u64;

    /// The key of this state.
    fn stable_key(&self) -> (k: u64)
        ensures
            k == Self::key_of(self@),
    ;
}

impl StableKey for usize {
    open spec fn key_of(v: usize) -> u64 {
        v as u64
    }

    fn stable_key(&self) -> (k: u64) {
        *self as u64
    }
}

/// The key of a sequence of bytes: each byte in turn is added to 31 times
/// the key so far, in 64 bits.
pub open spec fn bytes_key(bytes: Seq<u8>) -> u64
    decreases bytes.len(),
{
    if bytes.len() == 0 {
        7
    } else {
        ((bytes_key(bytes.drop_last()) * 31 + bytes.last()) % 0x1_0000_0000_0000_0000) as u64
    }
}

impl StableKey for Vec<u8> {
    open spec fn key_of(v: Seq<u8>) -> u64 {
        bytes_key(v)
    }

    fn stable_key(&self) -> (k: u64) {
        let mut key: u64 = 7;
        let mut i: usize = 0;
        while i < self.len()
            invariant
                i <= self.len(),
                key == bytes_key(self@.take(i as int)),
            decreases self.len() - i,
        {
            assert(self@.take(i + 1).drop_last() =~= self@.take(i as int));
            let wide: u128 = key as u128 * 31 + self[i] as u128;
            key = (wide % 0x1_0000_0000_0000_0000) as u64;
            i = i + 1;
        }
        assert(self@.take(self.len() as int) =~= self@);
        key
    }
}

/// The views of the states of a bucket.
pub open spec fn views_of<S: View>(bucket: Seq<S>) -> Seq<S::V> {
    bucket.map_values(|s: S| s@)
}

/// The place of a state with the view of `state` in `bucket`, if there is
/// one.
fn find_in<S: View + PartialEq>(bucket: &Vec<S>, state: &S) -> (r: Option<usize>)
    requires
        eq_by_view::<S>(),
    ensures
        match r {
            Some(i) => i < bucket.len() && bucket[i as int]@ == state@,
            None => !views_of(bucket@).contains(state@),
        },
{
    let mut i: usize = 0;
    while i < bucket.len()
        invariant
            eq_by_view::<S>(),
            i <= bucket.len(),
            forall|j: int| 0 <= j < i ==> bucket[j]@ != state@,
        decreases bucket.len() - i,
    {
        if bucket[i] == *state {
            return Some(i);
        }
        i = i + 1;
    }
    proof {
        if views_of(bucket@).contains(state@) {
            let j = choose|j: int|
                0 <= j < views_of(bucket@).len() && views_of(bucket@)[j] == state@;
            assert(bucket[j]@ == state@);
        }
    }
    None
}

/// A finite set of states that only grows. Two states are the same member
/// when their views are equal. The members are held in buckets by their
/// key, so that a state is looked for among the members of its key only.
pub struct ExploredSet<S: StableKey> {
    buckets: HashMap<u64, Vec<S>>,
    count: usize,
}

impl<S: StableKey> ExploredSet<S> {
    /// The views of the members held under the key `k`.
    pub closed spec fn bucket(&self, k: u64) -> Seq<S::V> {
        if self.buckets@.contains_key(k) {
            views_of(self.buckets@[k]@)
        } else {
            Seq::empty()
        }
    }

    /// Each member is held under its key and once only, and the count of
    /// the members is kept.
    pub closed spec fn wf(&self) -> bool {
        &&& forall|k: u64, i: int|
            0 <= i < self.bucket(k).len() ==> S::key_of(#[trigger] self.bucket(k)[i]) == k
        &&& forall|k: u64| #[trigger] self.bucket(k).no_duplicates()
        &&& self@.finite()
        &&& self.count == capped_count(self@.len() as int)
    }

    /// A well-formed set is finite.
    pub proof fn lemma_finite(&self)
        requires
            self.wf(),
        ensures
            self@.finite(),
    {
    }
}

impl<S: StableKey> View for ExploredSet<S> {
    type V = Set<S::V>;

    closed spec fn view(&self) -> Set<S::V> {
        Set::new(|v: S::V| self.bucket(S::key_of(v)).contains(v))
    }
}

impl<S: StableKey + PartialEq> ExploredSet<S> {
    /// The empty set.
    pub fn new() -> (r: Self)
        ensures
            r.wf(),
            r@ == Set::<S::V>::empty(),
    {
        let r = ExploredSet { buckets: HashMap::new(), count: 0 };
        assert(r@ =~= Set::<S::V>::empty());
        r
    }

    /// The number of members, or `usize::MAX` where there are more.
    pub fn len(&self) -> (n: usize)
        requires
            self.wf(),
        ensures
            n == capped_count(self@.len() as int),
    {
        self.count
    }

    /// Whether a state with the view of `state` is a member.
    pub fn contains(&self, state: &S) -> (r: bool)
        requires
            eq_by_view::<S>(),
            self.wf(),
        ensures
            r == self@.contains(state@),
    {
        let key = state.stable_key();
        match self.buckets.get(&key) {
            Some(bucket) => {
                match find_in(bucket, state) {
                    Some(i) => {
                        assert(views_of(bucket@)[i as int] == state@);
                        true
                    },
                    None => false,
                }
            },
            None => false,
        }
    }

    /// Makes `state` a member. Returns whether it was not one before.
    pub fn insert(&mut self, state: S) -> (added: bool)
        requires
            eq_by_view::<S>(),
            old(self).wf(),
        ensures
            final(self).wf(),
            final(self)@ == old(self)@.insert(state@),
            added == !old(self)@.contains(state@),
    {
        let ghost before = *self;
        let ghost v = state@;
        let key = state.stable_key();
        let mut bucket = match self.buckets.remove(&key) {
            Some(bucket) => bucket,
            None => Vec::new(),
        };
        let ghost held = bucket@;
        assert(views_of(held) =~= before.bucket(key));
        match find_in(&bucket, &state) {
            Some(i) => {
                self.buckets.insert(key, bucket);
                proof {
                    assert(views_of(held)[i as int] == v);
                    assert(self.buckets@ =~= before.buckets@);
                    assert forall|k: u64| #[trigger] self.bucket(k) == before.bucket(k) by {}
                    assert(self@ =~= before@);
                    assert(before@.insert(v) =~= before@);
                    assert(self.wf());
                }
                false
            },
            None => {
                bucket.push(state);
                self.buckets.insert(key, bucket);
                if self.count < usize::MAX {
                    self.count = self.count + 1;
                }
                proof {
                    assert(views_of(held.push(state)) =~= views_of(held).push(v));
                    assert forall|k: u64| #[trigger] self.bucket(k) == if k == key {
                        before.bucket(key).push(v)
                    } else {
                        before.bucket(k)
                    } by {}
                    assert forall|k: u64, i: int| 0 <= i < self.bucket(k).len() implies S::key_of(
                        #[trigger] self.bucket(k)[i],
                    ) == k by {
                        if k == key && i < before.bucket(key).len() {
                            assert(self.bucket(k)[i] == before.bucket(k)[i]);
                        } else if k != key {
                            assert(self.bucket(k)[i] == before.bucket(k)[i]);
                        }
                    }
                    assert forall|k: u64| #[trigger] self.bucket(k).no_duplicates() by {
                        assert(before.bucket(k).no_duplicates());
                        if k == key {
                            let longer = before.bucket(key).push(v);
                            assert forall|a: int, b: int|
                                0 <= a < longer.len() && 0 <= b < longer.len() && a
                                    != b implies longer[a] != longer[b] by {
                                if a < before.bucket(key).len() {
                                    assert(before.bucket(key).contains(longer[a]));
                                }
                                if b < before.bucket(key).len() {
                                    assert(before.bucket(key).contains(longer[b]));
                                }
                            }
                        }
                    }
                    assert forall|u: S::V| self@.contains(u) <==> before@.insert(v).contains(u) by {
                        let k = S::key_of(u);
                        if k == key {
                            let longer = before.bucket(key).push(v);
                            if longer.contains(u) {
                                let a = choose|a: int| 0 <= a < longer.len() && longer[a] == u;
                                if a < before.bucket(key).len() {
                                    assert(before.bucket(key)[a] == u);
                                }
                            }
                            if before.bucket(key).contains(u) {
                                let a = choose|a: int|
                                    0 <= a < before.bucket(key).len() && before.bucket(key)[a] == u;
                                assert(longer[a] == u);
                            }
                            if u == v {
                                assert(longer[before.bucket(key).len() as int] == u);
                            }
                        }
                    }
                    assert(self@ =~= before@.insert(v));
                    assert(!before@.contains(v));
                    assert(self@.len() == before@.len() + 1);
                    assert(self.wf());
                }
                true
            },
        }
    }
}

/// A finite table from states to numbers that only grows. Two states are
/// the same key of the table when their views are equal. The entries are
/// held in buckets by the key of their state.
pub struct ScoreTable<S: StableKey> {
    buckets: HashMap<u64, Vec<(S, usize)>>,
}

/// The views of the states of a bucket of entries.
pub open spec fn entry_views<S: View>(bucket: Seq<(S, usize)>) -> Seq<S::V> {
    bucket.map_values(|e: (S, usize)| e.0@)
}

/// The place of the entry for a state with the view of `state` in `bucket`,
/// if there is one.
fn find_entry<S: View + PartialEq>(bucket: &Vec<(S, usize)>, state: &S) -> (r: Option<usize>)
    requires
        eq_by_view::<S>(),
    ensures
        match r {
            Some(i) => i < bucket.len() && bucket[i as int].0@ == state@,
            None => !entry_views(bucket@).contains(state@),
        },
{
    let mut i: usize = 0;
    while i < bucket.len()
        invariant
            eq_by_view::<S>(),
            i <= bucket.len(),
            forall|j: int| 0 <= j < i ==> bucket[j].0@ != state@,
        decreases bucket.len() - i,
    {
        if bucket[i].0 == *state {
            return Some(i);
        }
        i = i + 1;
    }
    proof {
        if entry_views(bucket@).contains(state@) {
            let j = choose|j: int|
                0 <= j < entry_views(bucket@).len() && entry_views(bucket@)[j] == state@;
            assert(bucket[j].0@ == state@);
        }
    }
    None
}

impl<S: StableKey> ScoreTable<S> {
    /// The entries held under the key `k`.
    pub closed spec fn bucket(&self, k: u64) -> Seq<(S, usize)> {
        if self.buckets@.contains_key(k) {
            self.buckets@[k]@
        } else {
            Seq::empty()
        }
    }

    /// Each entry is held under the key of its state, and no state has two
    /// entries.
    pub closed spec fn wf(&self) -> bool {
        &&& forall|k: u64, i: int|
            0 <= i < self.bucket(k).len() ==> S::key_of((#[trigger] self.bucket(k)[i]).0@) == k
        &&& forall|k: u64| entry_views(#[trigger] self.bucket(k)).no_duplicates()
    }

    /// Where the entry for the states with view `v` is held in its bucket.
    closed spec fn slot(&self, v: S::V) -> int {
        let views = entry_views(self.bucket(S::key_of(v)));
        choose|i: int| 0 <= i < views.len() && views[i] == v
    }
}

impl<S: StableKey> View for ScoreTable<S> {
    type V = Map<S::V, usize>;

    closed spec fn view(&self) -> Map<S::V, usize> {
        Map::new(
            |v: S::V| entry_views(self.bucket(S::key_of(v))).contains(v),
            |v: S::V| self.bucket(S::key_of(v))[self.slot(v)].1,
        )
    }
}

impl<S: StableKey + PartialEq> ScoreTable<S> {
    /// The empty table.
    pub fn new() -> (r: Self)
        ensures
            r.wf(),
            r@ == Map::<S::V, usize>::empty(),
    {
        let r = ScoreTable { buckets: HashMap::new() };
        assert(r@ =~= Map::<S::V, usize>::empty());
        r
    }

    /// An entry at place `i` of the bucket of its state is the entry that
    /// the table holds for that state.
    proof fn lemma_found(&self, v: S::V, i: int)
        requires
            self.wf(),
            0 <= i < self.bucket(S::key_of(v)).len(),
            self.bucket(S::key_of(v))[i].0@ == v,
        ensures
            self@.contains_key(v),
            self@[v] == self.bucket(S::key_of(v))[i].1,
    {
        let views = entry_views(self.bucket(S::key_of(v)));
        assert(views[i] == v);
        assert(views.contains(v));
        let j = self.slot(v);
        assert(0 <= j < views.len() && views[j] == v);
        assert(j == i);
    }

    /// The number recorded for the state with the view of `state`.
    pub fn get(&self, state: &S) -> (r: Option<usize>)
        requires
            eq_by_view::<S>(),
            self.wf(),
        ensures
            r == if self@.contains_key(state@) {
                Some(self@[state@])
            } else {
                None
            },
    {
        let key = state.stable_key();
        match self.buckets.get(&key) {
            Some(bucket) => {
                match find_entry(bucket, state) {
                    Some(i) => {
                        proof {
                            self.lemma_found(state@, i as int);
                        }
                        Some(bucket[i].1)
                    },
                    None => None,
                }
            },
            None => None,
        }
    }

    /// Records `value` for `state`, in place of what was recorded for a
    /// state with the same view.
    pub fn insert(&mut self, state: S, value: usize)
        requires
            eq_by_view::<S>(),
            old(self).wf(),
        ensures
            final(self).wf(),
            final(self)@ == old(self)@.insert(state@, value),
    {
        let ghost before = *self;
        let ghost v = state@;
        let key = state.stable_key();
        let mut bucket = match self.buckets.remove(&key) {
            Some(bucket) => bucket,
            None => Vec::new(),
        };
        let ghost held = bucket@;
        assert(held =~= before.bucket(key));
        let place = find_entry(&bucket, &state);
        match place {
            Some(i) => {
                bucket.set(i, (state, value));
            },
            None => {
                bucket.push((state, value));
            },
        }
        let ghost at: int = match place {
            Some(i) => i as int,
            None => held.len() as int,
        };
        let ghost filled = bucket@;
        self.buckets.insert(key, bucket);
        proof {
            assert(forall|j: int| 0 <= j < held.len() && j != at ==> filled[j] == held[j]);
            assert(filled[at].0@ == v && filled[at].1 == value);
            assert forall|k: u64| #[trigger] self.bucket(k) == if k == key {
                filled
            } else {
                before.bucket(k)
            } by {}
            assert forall|k: u64, i: int| 0 <= i < self.bucket(k).len() implies S::key_of(
                (#[trigger] self.bucket(k)[i]).0@,
            ) == k by {
                if k == key {
                    if i != at {
                        assert(filled[i] == before.bucket(k)[i]);
                    }
                } else {
                    assert(self.bucket(k)[i] == before.bucket(k)[i]);
                }
            }
            assert forall|k: u64| entry_views(#[trigger] self.bucket(k)).no_duplicates() by {
                assert(entry_views(before.bucket(k)).no_duplicates());
                if k == key {
                    let now = entry_views(filled);
                    let then = entry_views(held);
                    assert forall|a: int, b: int|
                        0 <= a < now.len() && 0 <= b < now.len() && a != b implies now[a]
                        != now[b] by {
                        if a != at && b != at {
                            assert(now[a] == then[a] && now[b] == then[b]);
                        } else {
                            let other = if a == at { b } else { a };
                            assert(now[other] == then[other]);
                            if at < held.len() {
                                assert(then[at] == v);
                            } else {
                                assert(then.contains(then[other]));
                            }
                        }
                    }
                }
            }
            assert(self.wf());
            self.lemma_found(v, at);
            assert forall|u: S::V| u != v implies (#[trigger] self@.contains_key(u)
                <==> before@.contains_key(u)) && (self@.contains_key(u) ==> self@[u]
                == before@[u]) by {
                let k = S::key_of(u);
                if k == key {
                    let now = entry_views(filled);
                    let then = entry_views(held);
                    if now.contains(u) {
                        let a = choose|a: int| 0 <= a < now.len() && now[a] == u;
                        assert(a != at);
                        assert(then[a] == u);
                        self.lemma_found(u, a);
                        before.lemma_found(u, a);
                    }
                    if then.contains(u) {
                        let a = choose|a: int| 0 <= a < then.len() && then[a] == u;
                        assert(a != at);
                        assert(now[a] == u);
                    }
                } else {
                    if self@.contains_key(u) {
                        let views = entry_views(before.bucket(k));
                        let a = choose|a: int| 0 <= a < views.len() && views[a] == u;
                        self.lemma_found(u, a);
                        before.lemma_found(u, a);
                    }
                }
            }
            assert forall|u: S::V| #[trigger]
                self@.contains_key(u) <==> before@.insert(v, value).contains_key(u) by {
                if u != v {
                    assert(self@.contains_key(u) <==> before@.contains_key(u));
                }
            }
            assert forall|u: S::V| #[trigger] self@.contains_key(u) implies self@[u]
                == before@.insert(v, value)[u] by {
                if u != v {
                    assert(self@.contains_key(u) <==> before@.contains_key(u));
                }
            }
            assert(self@ =~= before@.insert(v, value));
        }
    }
}

} // verus!
