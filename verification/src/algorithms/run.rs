//! The course of a search, told step by step: what waits, what has been
//! explored, what was reported, and how the search has ended.
use crate::algorithms::SearchResult;
use crate::benchmarking::metrics::{capped_count, kilobytes, replay, Event, Metrics};
use crate::node::Node;
use crate::problem::Problem;
use vstd::prelude::*;

verus! {

/// A node that waits in a frontier, as the search sees it: the actions
/// that led to it, its state, what they cost, how many they are, and the
/// score by which a frontier with priorities orders it.
#[verifier::ext_equal]
pub struct Waiting<V> {
    pub actions: Seq<usize>,
    pub state: V,
    pub path_cost: usize,
    pub depth: usize,
    pub score: usize,
}

/// How far a search has come: the nodes that wait, in the order in which
/// the frontier holds them; the states explored; the best path cost known
/// for each state, where the search keeps one; the events reported so far;
/// and, once the search has ended, the solution that it found or that it
/// found none.
#[verifier::ext_equal]
#[verifier::reject_recursive_types(V)]
pub struct Stage<V> {
    pub frontier: Seq<Waiting<V>>,
    pub explored: Set<V>,
    pub best: Map<V, usize>,
    pub events: Seq<Event>,
    pub ended: Option<Option<Seq<usize>>>,
}

/// The node as the search sees it, with the score `score`.
pub open spec fn waiting<S: View>(node: Node<S>, score: usize) -> Waiting<S::V> {
    Waiting {
        actions: node.actions(),
        state: node.state@,
        path_cost: node.path_cost,
        depth: node.depth,
        score,
    }
}

/// The nodes as the search sees them, none with a score.
pub open spec fn lined_up<S: View>(nodes: Seq<Node<S>>) -> Seq<Waiting<S::V>> {
    nodes.map_values(|node: Node<S>| waiting(node, 0))
}

/// The node reached from `w` by its edge `i`.
pub open spec fn child_of<P: Problem>(
    p: &P,
    w: Waiting<<P::State as View>::V>,
    i: int,
    score: usize,
) -> Waiting<<P::State as View>::V> {
    Waiting {
        actions: w.actions.push(i as usize),
        state: p.edges(w.state)[i].0,
        path_cost: (w.path_cost + p.edges(w.state)[i].1) as usize,
        depth: (w.depth + 1) as usize,
        score,
    }
}

/// The edge `i` out of `w` can be followed: the depth and the path cost of
/// the node that it leads to fit in machine words.
pub open spec fn follows<P: Problem>(p: &P, w: Waiting<<P::State as View>::V>, i: int) -> bool {
    w.depth < usize::MAX && p.edges(w.state)[i].1 <= usize::MAX - w.path_cost
}

/// The memory estimate for `explored` states and `waiting` nodes of the
/// states of `p`.
pub open spec fn estimate_kb<P: Problem>(
    p: &P,
    explored: Set<<P::State as View>::V>,
    waiting: nat,
) -> usize {
    kilobytes(
        (capped_count(explored.len() as int) + waiting) as nat,
        vstd::layout::size_of::<P::State>(),
    )
}

/// Some node of `frontier` is in state `v`.
pub open spec fn waits<V>(frontier: Seq<Waiting<V>>, v: V) -> bool {
    exists|k: int| 0 <= k < frontier.len() && (#[trigger] frontier[k]).state == v
}

/// A state waits among the nodes as the search sees them exactly when a
/// node is in that state.
pub proof fn lemma_waits_lined_up<S: View>(nodes: Seq<Node<S>>, v: S::V)
    ensures
        waits(lined_up(nodes), v) <==> crate::algorithms::holds(nodes, v),
{
    if waits(lined_up(nodes), v) {
        let k = choose|k: int| 0 <= k < lined_up(nodes).len() && (#[trigger] lined_up(nodes)[k]).state == v;
        assert(nodes[k].state@ == v);
    }
    if crate::algorithms::holds(nodes, v) {
        let k = choose|k: int| 0 <= k < nodes.len() && (#[trigger] nodes[k]).state@ == v;
        assert(lined_up(nodes)[k].state == v);
    }
}

/// The stage reached from `first` by `n` steps.
pub open spec fn after_steps<V>(
    first: Stage<V>,
    step: spec_fn(Stage<V>) -> Stage<V>,
    n: nat,
) -> Stage<V>
    decreases n,
{
    if n == 0 {
        first
    } else {
        step(after_steps(first, step, (n - 1) as nat))
    }
}

/// A search that has ended takes no further step.
pub open spec fn halts<V>(step: spec_fn(Stage<V>) -> Stage<V>) -> bool {
    forall|s: Stage<V>| s.ended is Some ==> #[trigger] step(s) == s
}

/// The stage in which the search that begins with `first` ends, if it
/// ends.
pub open spec fn last_stage<V>(first: Stage<V>, step: spec_fn(Stage<V>) -> Stage<V>) -> Stage<V> {
    after_steps(first, step, choose|n: nat| after_steps(first, step, n).ended is Some)
}

/// Once a search has ended, further steps change nothing.
proof fn lemma_stays_ended<V>(
    first: Stage<V>,
    step: spec_fn(Stage<V>) -> Stage<V>,
    n: nat,
    more: nat,
)
    requires
        halts(step),
        after_steps(first, step, n).ended is Some,
    ensures
        after_steps(first, step, n + more) == after_steps(first, step, n),
    decreases more,
{
    if more > 0 {
        lemma_stays_ended(first, step, n, (more - 1) as nat);
        assert(step(after_steps(first, step, n)) == after_steps(first, step, n));
    }
}

/// A search ends in one way only: the stage in which it has ended after
/// some number of steps is its last stage.
pub proof fn lemma_ends_once<V>(first: Stage<V>, step: spec_fn(Stage<V>) -> Stage<V>, n: nat)
    requires
        halts(step),
        after_steps(first, step, n).ended is Some,
    ensures
        last_stage(first, step) == after_steps(first, step, n),
{
    let m = choose|m: nat| after_steps(first, step, m).ended is Some;
    if m <= n {
        lemma_stays_ended(first, step, m, (n - m) as nat);
        assert(m + (n - m) as nat == n);
    } else {
        lemma_stays_ended(first, step, n, (m - n) as nat);
        assert(n + (m - n) as nat == m);
    }
}

/// The solution found, as a sequence.
pub open spec fn shown(found: Option<Vec<usize>>) -> Option<Seq<usize>> {
    match found {
        Some(actions) => Some(actions@),
        None => None,
    }
}

/// The search whose last stage is `run` was made: it ended with `found`,
/// and its events were reported after those that had been reported
/// `before`.
pub open spec fn ran<V>(
    run: Stage<V>,
    found: Option<Vec<usize>>,
    before: Seq<Event>,
    after: Seq<Event>,
) -> bool {
    run.ended == Some(shown(found)) && after == before + run.events
}

/// The result `r` is that of the search whose last stage is `run`: its
/// solution is the one found there, and its counters, the time apart, are
/// what the events reported make of counters at zero.
pub open spec fn follows_course<V>(run: Stage<V>, r: SearchResult) -> bool {
    &&& run.ended == Some(shown(r.solution))
    &&& r.metrics.untimed() == replay(Metrics::zero(), run.events)
}

} // verus!
