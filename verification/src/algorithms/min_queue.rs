//! The frontier of A*: a priority queue that gives out the least score first.
use crate::algorithms::astar::AStarNode;
use vstd::prelude::*;

verus! {

/// The place above place `i` in the heap.
pub open spec fn above(i: int) -> int {
    (i - 1) / 2
}

/// No node has a lower score than the node above it.
pub open spec fn heap_ordered<S>(s: Seq<AStarNode<S>>) -> bool {
    forall|i: int| 0 < i < s.len() ==> s[above(i)].f_score <= (#[trigger] s[i]).f_score
}

/// The heap is in order but for the node at `at`, which may have a lower
/// score than the node above it; the nodes below it do not.
pub open spec fn ordered_but_above<S>(s: Seq<AStarNode<S>>, at: int) -> bool {
    &&& forall|i: int|
        0 < i < s.len() && i != at ==> s[above(i)].f_score <= (#[trigger] s[i]).f_score
    &&& forall|c: int|
        0 < c < s.len() && above(c) == at && at > 0 ==> s[above(at)].f_score <= (
        #[trigger] s[c]).f_score
}

/// The heap is in order but for the node at `at`, which may have a higher
/// score than the nodes below it; the node above it does not.
pub open spec fn ordered_but_below<S>(s: Seq<AStarNode<S>>, at: int) -> bool {
    &&& forall|i: int|
        0 < i < s.len() && above(i) != at ==> s[above(i)].f_score <= (#[trigger] s[i]).f_score
    &&& forall|c: int|
        0 < c < s.len() && above(c) == at && at > 0 ==> s[above(at)].f_score <= (
        #[trigger] s[c]).f_score
}

/// In a heap in order no node has a lower score than the first.
pub proof fn lemma_first_is_least<S>(s: Seq<AStarNode<S>>, i: int)
    requires
        heap_ordered(s),
        0 <= i < s.len(),
    ensures
        s[0].f_score <= s[i].f_score,
    decreases i,
{
    if i > 0 {
        lemma_first_is_least(s, above(i));
    }
}

/// `s` with what lies at `i` and `j` exchanged.
pub open spec fn exchanged<T>(s: Seq<T>, i: int, j: int) -> Seq<T> {
    s.update(i, s[j]).update(j, s[i])
}

/// The heap `s` after what lies at `i` has risen to its place: as long as
/// its score is less than that of what lies above it, the two are
/// exchanged.
pub open spec fn risen<T>(s: Seq<T>, score: spec_fn(T) -> usize, i: int) -> Seq<T>
    decreases i,
{
    if 0 < i < s.len() && score(s[i]) < score(s[above(i)]) {
        risen(exchanged(s, above(i), i), score, above(i))
    } else {
        s
    }
}

/// The place below `i` with the lower score, the left one where both have
/// the same.
pub open spec fn lower_below<T>(s: Seq<T>, score: spec_fn(T) -> usize, i: int) -> int {
    if 2 * i + 2 < s.len() && score(s[2 * i + 2]) < score(s[2 * i + 1]) {
        2 * i + 2
    } else {
        2 * i + 1
    }
}

/// The heap `s` after what lies at `i` has sunk to its place: as long as
/// the lower score below it is less than its own, the two are exchanged.
#[verifier::opaque]
pub open spec fn sunk<T>(s: Seq<T>, score: spec_fn(T) -> usize, i: int) -> Seq<T>
    decreases s.len() - i,
{
    if 0 <= i < s.len() / 2 && score(s[lower_below(s, score, i)]) < score(s[i]) {
        sunk(exchanged(s, i, lower_below(s, score, i)), score, lower_below(s, score, i))
    } else {
        s
    }
}

/// The heap `s` with its first item put into the queue last: it has risen
/// from the end.
pub open spec fn with_pushed<T>(s: Seq<T>, score: spec_fn(T) -> usize, item: T) -> Seq<T> {
    risen(s.push(item), score, s.len() as int)
}

/// The heap `s` without its first item: the last item has taken its place
/// and has sunk from there.
pub open spec fn without_first<T>(s: Seq<T>, score: spec_fn(T) -> usize) -> Seq<T> {
    if s.len() > 1 {
        sunk(exchanged(s, 0, s.len() - 1).drop_last(), score, 0)
    } else {
        Seq::empty()
    }
}

/// One step of sinking: where the lower score below `i` is less than that
/// at `i` the two are exchanged and sinking goes on from below; else the
/// heap stays as it is.
pub proof fn lemma_sink_step<T>(s: Seq<T>, score: spec_fn(T) -> usize, i: int, low: int)
    requires
        0 <= i < s.len() / 2,
        low == lower_below(s, score, i),
    ensures
        score(s[low]) < score(s[i]) ==> sunk(s, score, i) == sunk(
            exchanged(s, i, low),
            score,
            low,
        ),
        !(score(s[low]) < score(s[i])) ==> sunk(s, score, i) == s,
{
    reveal_with_fuel(sunk, 2);
}

/// Nothing sinks from the lower half of a heap.
pub proof fn lemma_sink_done<T>(s: Seq<T>, score: spec_fn(T) -> usize, i: int)
    requires
        !(0 <= i < s.len() / 2),
    ensures
        sunk(s, score, i) == s,
{
    reveal_with_fuel(sunk, 2);
}

/// The score of a node that waits.
pub open spec fn node_score<S>() -> spec_fn(AStarNode<S>) -> usize {
    |e: AStarNode<S>| e.f_score
}

/// Rising goes by the scores alone: what a heap holds can be replaced by
/// anything that keeps the scores, before or after.
pub proof fn lemma_risen_maps<A, B>(
    s: Seq<A>,
    f: spec_fn(A) -> B,
    score_a: spec_fn(A) -> usize,
    score_b: spec_fn(B) -> usize,
    i: int,
)
    requires
        forall|a: A| #[trigger] score_a(a) == score_b(f(a)),
    ensures
        risen(s, score_a, i).map_values(f) == risen(s.map_values(f), score_b, i),
    decreases i,
{
    let t = s.map_values(f);
    if 0 < i < s.len() && score_a(s[i]) < score_a(s[above(i)]) {
        assert(score_b(t[i]) < score_b(t[above(i)]));
        assert(exchanged(s, above(i), i).map_values(f) =~= exchanged(t, above(i), i));
        lemma_risen_maps(exchanged(s, above(i), i), f, score_a, score_b, above(i));
    } else {
        if 0 < i < s.len() {
            assert(!(score_b(t[i]) < score_b(t[above(i)])));
        }
    }
}

/// Sinking goes by the scores alone.
pub proof fn lemma_sunk_maps<A, B>(
    s: Seq<A>,
    f: spec_fn(A) -> B,
    score_a: spec_fn(A) -> usize,
    score_b: spec_fn(B) -> usize,
    i: int,
)
    requires
        forall|a: A| #[trigger] score_a(a) == score_b(f(a)),
    ensures
        sunk(s, score_a, i).map_values(f) == sunk(s.map_values(f), score_b, i),
    decreases s.len() - i,
{
    let t = s.map_values(f);
    reveal_with_fuel(sunk, 2);
    if 0 <= i < s.len() / 2 {
        let low = lower_below(s, score_a, i);
        assert(score_a(s[2 * i + 1]) == score_b(t[2 * i + 1]));
        if 2 * i + 2 < s.len() {
            assert(score_a(s[2 * i + 2]) == score_b(t[2 * i + 2]));
        }
        assert(low == lower_below(t, score_b, i));
        assert(score_a(s[low]) == score_b(t[low]));
        assert(score_a(s[i]) == score_b(t[i]));
        if score_a(s[low]) < score_a(s[i]) {
            assert(exchanged(s, i, low).map_values(f) =~= exchanged(t, i, low));
            lemma_sunk_maps(exchanged(s, i, low), f, score_a, score_b, low);
        }
    }
}

/// Putting an item into a heap, and taking the first out of it, go by the
/// scores alone.
pub proof fn lemma_heap_maps<A, B>(
    s: Seq<A>,
    f: spec_fn(A) -> B,
    score_a: spec_fn(A) -> usize,
    score_b: spec_fn(B) -> usize,
    item: A,
)
    requires
        forall|a: A| #[trigger] score_a(a) == score_b(f(a)),
    ensures
        with_pushed(s, score_a, item).map_values(f) == with_pushed(
            s.map_values(f),
            score_b,
            f(item),
        ),
        without_first(s, score_a).map_values(f) == without_first(s.map_values(f), score_b),
{
    assert(s.push(item).map_values(f) =~= s.map_values(f).push(f(item)));
    lemma_risen_maps(s.push(item), f, score_a, score_b, s.len() as int);
    if s.len() > 1 {
        let turned = exchanged(s, 0, s.len() - 1).drop_last();
        assert(turned.map_values(f) =~= exchanged(s.map_values(f), 0, s.len() - 1).drop_last());
        lemma_sunk_maps(turned, f, score_a, score_b, 0);
    } else {
        assert(Seq::<A>::empty().map_values(f) =~= Seq::<B>::empty());
    }
}

/// Exchanging two nodes leaves the same nodes.
pub proof fn lemma_exchange_keeps_nodes<S>(s: Seq<AStarNode<S>>, i: int, j: int)
    requires
        0 <= i < s.len(),
        0 <= j < s.len(),
    ensures
        exchanged(s, i, j).to_multiset() == s.to_multiset(),
{
    broadcast use vstd::multiset::group_multiset_axioms;

    let once = s.update(i, s[j]);
    vstd::seq_lib::to_multiset_update(s, i, s[j]);
    vstd::seq_lib::to_multiset_update(once, j, s[i]);
    s.to_multiset_ensures();
    assert(s.contains(s[i]) && s.contains(s[j]));
    assert(exchanged(s, i, j).to_multiset() =~= s.to_multiset());
}

/// Exchanges the nodes at `i` and `j`.
fn exchange<S>(items: &mut Vec<AStarNode<S>>, i: usize, j: usize)
    requires
        i < j < old(items).len(),
    ensures
        final(items)@ == exchanged(old(items)@, i as int, j as int),
{
    let ghost before = items@;
    let mut held = items.swap_remove(j);
    items.set_and_swap(i, &mut held);
    items.push(held);
    if j + 1 < items.len() {
        let last = items.swap_remove(j);
        items.push(last);
    }
    assert(items@ =~= exchanged(before, i as int, j as int));
}

/// A node that has a lower score than the node above it can change places
/// with it; after that the heap is in order but for the node moved up.
proof fn lemma_step_up<S>(s: Seq<AStarNode<S>>, i: int)
    requires
        0 < i < s.len(),
        ordered_but_above(s, i),
        s[i].f_score < s[above(i)].f_score,
    ensures
        ordered_but_above(exchanged(s, above(i), i), above(i)),
{
    let up = above(i);
    let now = exchanged(s, up, i);
    assert forall|k: int| 0 < k < now.len() && k != up implies now[above(k)].f_score <= (
    #[trigger] now[k]).f_score by {
        if k == i {
        } else if above(k) == i {
            assert(s[above(i)].f_score <= s[k].f_score);
        } else {
            assert(s[above(k)].f_score <= s[k].f_score);
        }
    }
    assert forall|c: int| 0 < c < now.len() && above(c) == up && up > 0 implies now[above(
        up,
    )].f_score <= (#[trigger] now[c]).f_score by {
        assert(s[above(up)].f_score <= s[up].f_score);
        if c != i {
            assert(s[above(c)].f_score <= s[c].f_score);
        }
    }
}

/// A heap that is in order but for a node that has no lower score than the
/// node above it is in order.
proof fn lemma_done_up<S>(s: Seq<AStarNode<S>>, i: int)
    requires
        0 <= i < s.len(),
        ordered_but_above(s, i),
        i == 0 || s[above(i)].f_score <= s[i].f_score,
    ensures
        heap_ordered(s),
{
}

/// A node that has a higher score than the lower of the nodes below it can
/// change places with that one; after that the heap is in order but for
/// the node moved down.
proof fn lemma_step_down<S>(s: Seq<AStarNode<S>>, i: int, low: int)
    requires
        0 <= i < low < s.len(),
        low == 2 * i + 1 || low == 2 * i + 2,
        ordered_but_below(s, i),
        s[low].f_score < s[i].f_score,
        forall|c: int|
            (c == 2 * i + 1 || c == 2 * i + 2) && c < s.len() ==> s[low].f_score <= (
            #[trigger] s[c]).f_score,
    ensures
        ordered_but_below(exchanged(s, i, low), low),
{
    let now = exchanged(s, i, low);
    assert forall|k: int| 0 < k < now.len() && above(k) != low implies now[above(k)].f_score <= (
    #[trigger] now[k]).f_score by {
        if k == low {
        } else if above(k) == i {
            assert(k == 2 * i + 1 || k == 2 * i + 2);
            assert(s[low].f_score <= s[k].f_score);
        } else if k == i {
            assert(s[above(i)].f_score <= s[low].f_score);
        } else {
            assert(s[above(k)].f_score <= s[k].f_score);
        }
    }
    assert forall|c: int| 0 < c < now.len() && above(c) == low && low > 0 implies now[above(
        low,
    )].f_score <= (#[trigger] now[c]).f_score by {
        assert(s[above(c)].f_score <= s[c].f_score);
    }
}

/// A heap that is in order but for a node that has no higher score than
/// the nodes below it is in order.
proof fn lemma_done_down<S>(s: Seq<AStarNode<S>>, i: int)
    requires
        0 <= i,
        ordered_but_below(s, i),
        forall|c: int|
            (c == 2 * i + 1 || c == 2 * i + 2) && c < s.len() ==> s[i].f_score <= (
            #[trigger] s[c]).f_score,
    ensures
        heap_ordered(s),
{
    assert forall|k: int| 0 < k < s.len() implies s[above(k)].f_score <= (#[trigger] s[k]).f_score by {
        if above(k) == i {
            assert(k == 2 * i + 1 || k == 2 * i + 2);
        }
    }
}

/// A priority queue of nodes: a binary heap by score.
pub struct MinQueue<S> {
    items: Vec<AStarNode<S>>,
}

impl<S> View for MinQueue<S> {
    type V = Seq<AStarNode<S>>;

    closed spec fn view(&self) -> Seq<AStarNode<S>> {
        self.items@
    }
}

impl<S> MinQueue<S> {
    /// The heap is in order.
    pub closed spec fn wf(&self) -> bool {
        heap_ordered(self.items@)
    }

    /// The empty queue.
    pub fn new() -> (r: Self)
        ensures
            r.wf(),
            r@.len() == 0,
    {
        MinQueue { items: Vec::new() }
    }

    /// The number of nodes that wait.
    pub fn len(&self) -> (n: usize)
        ensures
            n == self@.len(),
    {
        self.items.len()
    }

    /// Puts `node` into the queue.
    pub fn push(&mut self, node: AStarNode<S>)
        requires
            old(self).wf(),
        ensures
            final(self).wf(),
            final(self)@.to_multiset() == old(self)@.push(node).to_multiset(),
            final(self)@ == with_pushed(old(self)@, node_score(), node),
    {
        let ghost longer = self.items@.push(node);
        let ghost placed = with_pushed(self.items@, node_score(), node);
        self.items.push(node);
        let mut i: usize = self.items.len() - 1;
        let mut rising = true;
        assert(ordered_but_above(self.items@, i as int)) by {
            assert forall|k: int| 0 < k < self.items@.len() && k != i implies self.items@[above(
                k,
            )].f_score <= (#[trigger] self.items@[k]).f_score by {
                assert(old(self).items@[k] == self.items@[k]);
            }
        }
        while rising && i > 0
            invariant
                i < self.items.len(),
                ordered_but_above(self.items@, i as int),
                !rising ==> heap_ordered(self.items@),
                self.items@.to_multiset() == longer.to_multiset(),
                rising ==> risen(self.items@, node_score(), i as int) == placed,
                !rising ==> self.items@ == placed,
            decreases i, rising as int,
        {
            let up: usize = (i - 1) / 2;
            if self.items[i].f_score < self.items[up].f_score {
                let ghost before = self.items@;
                exchange(&mut self.items, up, i);
                proof {
                    lemma_exchange_keeps_nodes(before, up as int, i as int);
                    lemma_step_up(before, i as int);
                }
                i = up;
            } else {
                proof {
                    lemma_done_up(self.items@, i as int);
                }
                rising = false;
            }
        }
        proof {
            lemma_done_up(self.items@, i as int);
        }
    }

    /// Takes a node with the least score out of the queue, if any waits.
    #[verifier::rlimit(60)]
    pub fn pop(&mut self) -> (r: Option<AStarNode<S>>)
        requires
            old(self).wf(),
        ensures
            final(self).wf(),
            match r {
                Some(node) => {
                    &&& old(self)@.len() > 0
                    &&& node == old(self)@[0]
                    &&& final(self)@ == without_first(old(self)@, node_score())
                    &&& old(self)@.contains(node)
                    &&& final(self)@.to_multiset() == old(self)@.to_multiset().remove(node)
                    &&& forall|j: int|
                        0 <= j < old(self)@.len() ==> node.f_score <= (#[trigger] old(
                            self,
                        )@[j]).f_score
                },
                None => old(self)@.len() == 0 && final(self)@.len() == 0,
            },
    {
        let n: usize = self.items.len();
        if n == 0 {
            return None;
        }
        let ghost before = self.items@;
        proof {
            assert forall|j: int| 0 <= j < before.len() implies before[0].f_score <= (
            #[trigger] before[j]).f_score by {
                lemma_first_is_least(before, j);
            }
            before.to_multiset_ensures();
        }
        if n > 1 {
            exchange(&mut self.items, 0, n - 1);
            proof {
                lemma_exchange_keeps_nodes(before, 0, n - 1);
            }
        }
        let ghost turned = self.items@;
        let least = self.items.pop().unwrap();
        let ghost rest = self.items@;
        proof {
            assert(least == before[0]);
            assert(rest =~= turned.remove(n - 1));
            vstd::seq_lib::to_multiset_remove(turned, n - 1);
            assert(ordered_but_below(rest, 0)) by {
                assert forall|k: int| 0 < k < rest.len() && above(k) != 0 implies rest[above(
                    k,
                )].f_score <= (#[trigger] rest[k]).f_score by {
                    assert(rest[k] == before[k]);
                    assert(rest[above(k)] == before[above(k)]);
                }
            }
        }
        let ghost settled = without_first(before, node_score());
        proof {
            if n > 1 {
                assert(rest =~= exchanged(before, 0, n - 1).drop_last());
            } else {
                assert(rest =~= Seq::<AStarNode<S>>::empty());
                lemma_sink_done(rest, node_score(), 0);
            }
        }
        let m: usize = self.items.len();
        let mut i: usize = 0;
        let mut sinking = true;
        while sinking && i < m / 2
            invariant
                m == self.items.len(),
                sinking ==> sunk(self.items@, node_score(), i as int) == settled,
                !sinking ==> self.items@ == settled,
                m > 0 ==> i < m,
                ordered_but_below(self.items@, i as int),
                !sinking ==> heap_ordered(self.items@),
                self.items@.to_multiset() == rest.to_multiset(),
            decreases m - i, sinking as int,
        {
            let left: usize = 2 * i + 1;
            let right: usize = left + 1;
            let mut low: usize = left;
            if right < m && self.items[right].f_score < self.items[left].f_score {
                low = right;
            }
            proof {
                lemma_sink_step(self.items@, node_score(), i as int, low as int);
            }
            if self.items[low].f_score < self.items[i].f_score {
                let ghost s = self.items@;
                exchange(&mut self.items, i, low);
                proof {
                    lemma_exchange_keeps_nodes(s, i as int, low as int);
                    lemma_step_down(s, i as int, low as int);
                }
                i = low;
            } else {
                proof {
                    lemma_done_down(self.items@, i as int);
                }
                sinking = false;
            }
        }
        proof {
            if sinking {
                lemma_done_down(self.items@, i as int);
                lemma_sink_done(self.items@, node_score(), i as int);
            }
        }
        Some(least)
    }
}

} // verus!
