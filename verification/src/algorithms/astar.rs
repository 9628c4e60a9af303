//! A* search.
use crate::algorithms::{
    conclude, frontier_counts, search_counted, search_counts, tracks, SearchAlgorithm, SearchResult,
    STATUS_SUCCESS,
};
use crate::algorithms::min_queue::MinQueue;
use crate::algorithms::min_queue::{lemma_heap_maps, node_score, with_pushed, without_first};
use crate::algorithms::run::{
    follows_course,
    after_steps, child_of, estimate_kb, halts, last_stage, lemma_ends_once, ran, waiting, Stage,
    Waiting,
};
use crate::benchmarking::metrics::{
    capped_count, lemma_kilobytes_grow, memory_estimate_kb, Event, Metrics, Recorder, Tally,
};
use crate::benchmarking::shared::SharedMetrics;
use crate::clock::millis_since;
use crate::explored::{ExploredSet, ScoreTable};
use crate::node::Node;
use crate::problem::{
    admissible, cheapest, consistent, duplicate, is_solution, lemma_consistent_walk,
    lemma_first_outside, lemma_walk_push, lemma_walk_split, lemma_walk_stays, lemma_walk_take,
    cost_in_sight, fit_beyond, keeps_scores, lists_edges, scores_fit, simple_walk, solution_cost,
    solvable,
    state_at, walk_cost, walk_end,
    walk_ok, well_formed, Problem,
};
use std::time::Instant;
use vstd::prelude::*;

verus! {

/// A* search: the frontier, a priority queue, gives out the node with the
/// least `f = g + h`, a table holds the least path cost known for each state, and a state is
/// expanded only the first time it is taken from the frontier.
///
/// The search does not reopen a state once expanded. Its solution is
/// cheapest when the estimate is admissible and consistent; with an estimate
/// that is not consistent it may return a solution that costs more.
pub struct AStar;

/// A node in the frontier, with the estimated cost of a solution through it.
pub struct AStarNode<S> {
    pub node: Node<S>,
    pub f_score: usize,
}

/// What holds of each waiting node: it records a walk, its score is its path
/// cost plus the estimate at its state, and the table knows a cost for its
/// state that is no more than its own.
pub open spec fn entry_ok<P: Problem>(
    p: &P,
    g: Map<<P::State as View>::V, usize>,
    e: AStarNode<P::State>,
) -> bool {
    &&& tracks(p, e.node)
    &&& e.f_score == e.node.path_cost + p.estimate(e.node.state@)
    &&& g.contains_key(e.node.state@)
    &&& g[e.node.state@] <= e.node.path_cost
}

/// Some waiting node is in state `v` at path cost `c`.
pub open spec fn holds_at<S: View>(frontier: Seq<AStarNode<S>>, v: S::V, c: int) -> bool {
    exists|k: int|
        0 <= k < frontier.len() && (#[trigger] frontier[k]).node.state@ == v
            && frontier[k].node.path_cost == c
}

/// What holds of the frontier, the table and the explored set between two
/// expansions.
pub open spec fn open_inv<P: Problem>(
    p: &P,
    explored: Set<<P::State as View>::V>,
    g: Map<<P::State as View>::V, usize>,
    frontier: Seq<AStarNode<P::State>>,
) -> bool {
    &&& explored.subset_of(p.space())
    &&& forall|s: <P::State as View>::V|
        explored.contains(s) ==> !p.goal(s) && g.contains_key(s)
    &&& forall|k: int| 0 <= k < frontier.len() ==> entry_ok(p, g, #[trigger] frontier[k])
    &&& g.contains_key(p.start()) && g[p.start()] == 0
    &&& forall|u: <P::State as View>::V|
        #[trigger] g.contains_key(u) && !explored.contains(u) ==> holds_at(frontier, u, g[u] as int)
    &&& p.goal(p.start()) ==> frontier.len() == 1 && frontier[0].node.depth == 0
}

/// The walk visits no state twice, and the table knows for each state
/// before its end a cost no higher than the walk's cost up to there.
pub open spec fn bounded<P: Problem>(
    p: &P,
    g: Map<<P::State as View>::V, usize>,
    actions: Seq<usize>,
) -> bool {
    &&& simple_walk(p, actions)
    &&& forall|j: int|
        0 <= j < actions.len() ==> g.contains_key(#[trigger] state_at(p, actions, j)) && g[state_at(
            p,
            actions,
            j,
        )] <= walk_cost(p, p.start(), actions.take(j))
}

/// The first `n` edges out of `s` have been followed: the table knows their
/// ends and, where `exact` holds, at no more than the cost through `s`.
pub open spec fn relaxed<P: Problem>(
    p: &P,
    g: Map<<P::State as View>::V, usize>,
    s: <P::State as View>::V,
    n: int,
    exact: bool,
) -> bool {
    forall|a: int|
        0 <= a < n && a < p.edges(s).len() ==> g.contains_key((#[trigger] p.edges(s)[a]).0) && (
        exact ==> g[p.edges(s)[a].0] <= g[s] + p.edges(s)[a].1)
}

/// All edges out of explored states have been followed.
pub open spec fn all_relaxed<P: Problem>(
    p: &P,
    explored: Set<<P::State as View>::V>,
    g: Map<<P::State as View>::V, usize>,
    exact: bool,
) -> bool {
    forall|s: <P::State as View>::V| #[trigger]
        explored.contains(s) ==> relaxed(p, g, s, p.edges(s).len() as int, exact)
}

/// The cost that the table holds for an explored state is the least cost of
/// any walk to it.
pub open spec fn settled<P: Problem>(
    p: &P,
    explored: Set<<P::State as View>::V>,
    g: Map<<P::State as View>::V, usize>,
) -> bool {
    forall|w: Seq<usize>| #[trigger]
        walk_ok(p, p.start(), w) && explored.contains(walk_end(p, p.start(), w)) ==> g[walk_end(
            p,
            p.start(),
            w,
        )] <= walk_cost(p, p.start(), w)
}

/// Each waiting node records a bounded walk.
pub open spec fn all_bounded<P: Problem>(
    p: &P,
    g: Map<<P::State as View>::V, usize>,
    frontier: Seq<AStarNode<P::State>>,
) -> bool {
    forall|k: int| 0 <= k < frontier.len() ==> bounded(p, g, (#[trigger] frontier[k]).node.actions())
}

/// `later` knows every state that `earlier` knows, at no higher cost.
pub open spec fn improves<V>(earlier: Map<V, usize>, later: Map<V, usize>) -> bool {
    forall|s: V| #[trigger]
        earlier.contains_key(s) ==> later.contains_key(s) && later[s] <= earlier[s]
}

/// On every walk from the start that leaves the explored set, the first
/// state outside it waits in the frontier at a cost no higher than the
/// walk's cost up to there.
proof fn lemma_separator<P: Problem>(
    p: &P,
    explored: Set<<P::State as View>::V>,
    g: Map<<P::State as View>::V, usize>,
    frontier: Seq<AStarNode<P::State>>,
    w: Seq<usize>,
) -> (r: (int, int))
    requires
        well_formed(p),
        open_inv(p, explored, g, frontier),
        all_relaxed(p, explored, g, true),
        settled(p, explored, g),
        walk_ok(p, p.start(), w),
        !explored.contains(walk_end(p, p.start(), w)),
    ensures
        0 <= r.0 <= w.len(),
        0 <= r.1 < frontier.len(),
        frontier[r.1].node.state@ == state_at(p, w, r.0),
        frontier[r.1].node.path_cost <= walk_cost(p, p.start(), w.take(r.0)),
{
    let i = lemma_first_outside(p, explored, w);
    let u = state_at(p, w, i);
    lemma_walk_take(p, p.start(), w, i);
    if i == 0 {
        assert(w.take(0) =~= Seq::<usize>::empty());
        assert(u == p.start());
        assert(g.contains_key(u));
    } else {
        let head = w.take(i);
        let before = w.take(i - 1);
        assert(head.drop_last() =~= before);
        assert(head.take(i - 1) =~= before);
        let v = state_at(p, head, i - 1);
        assert(explored.contains(v));
        lemma_walk_take(p, p.start(), w, i - 1);
        assert(g[v] <= walk_cost(p, p.start(), before));
        assert(relaxed(p, g, v, p.edges(v).len() as int, true));
        let a = head.last() as int;
        assert(u == p.edges(v)[a].0);
        assert(g.contains_key(u));
    }
    assert(holds_at(frontier, u, g[u] as int));
    let k = choose|k: int|
        0 <= k < frontier.len() && (#[trigger] frontier[k]).node.state@ == u
            && frontier[k].node.path_cost == g[u];
    (i, k)
}

/// Under an admissible estimate, a goal taken from the frontier with the
/// least score costs no more than any solution.
proof fn lemma_goal_is_cheapest<P: Problem>(
    p: &P,
    explored: Set<<P::State as View>::V>,
    g: Map<<P::State as View>::V, usize>,
    frontier: Seq<AStarNode<P::State>>,
    k0: int,
    w: Seq<usize>,
)
    requires
        well_formed(p),
        admissible(p),
        open_inv(p, explored, g, frontier),
        all_relaxed(p, explored, g, true),
        settled(p, explored, g),
        0 <= k0 < frontier.len(),
        forall|j: int| 0 <= j < frontier.len() ==> frontier[k0].f_score <= (
        #[trigger] frontier[j]).f_score,
        is_solution(p, w),
    ensures
        frontier[k0].node.path_cost <= solution_cost(p, w),
{
    let (i, k) = lemma_separator(p, explored, g, frontier, w);
    let u = state_at(p, w, i);
    lemma_walk_split(p, p.start(), w, i);
    lemma_walk_stays(p, p.start(), w.take(i));
    assert(p.estimate(u) <= walk_cost(p, u, w.skip(i)));
    assert(entry_ok(p, g, frontier[k]));
    assert(entry_ok(p, g, frontier[k0]));
}

/// Under an admissible estimate, the least score in the frontier is no
/// more than any solution costs.
proof fn lemma_pop_is_near<P: Problem>(
    p: &P,
    explored: Set<<P::State as View>::V>,
    g: Map<<P::State as View>::V, usize>,
    frontier: Seq<AStarNode<P::State>>,
    k0: int,
    w: Seq<usize>,
)
    requires
        well_formed(p),
        admissible(p),
        open_inv(p, explored, g, frontier),
        all_relaxed(p, explored, g, true),
        settled(p, explored, g),
        0 <= k0 < frontier.len(),
        forall|j: int| 0 <= j < frontier.len() ==> frontier[k0].f_score <= (
        #[trigger] frontier[j]).f_score,
        is_solution(p, w),
    ensures
        frontier[k0].f_score <= solution_cost(p, w),
{
    let (i, k) = lemma_separator(p, explored, g, frontier, w);
    let u = state_at(p, w, i);
    lemma_walk_split(p, p.start(), w, i);
    lemma_walk_stays(p, p.start(), w.take(i));
    assert(p.estimate(u) <= walk_cost(p, u, w.skip(i)));
    assert(entry_ok(p, g, frontier[k]));
    assert(entry_ok(p, g, frontier[k0]));
}

/// Under a consistent estimate, a node taken from the frontier with the
/// least score, whose state is not explored, costs no more than any walk to
/// its state.
proof fn lemma_pop_is_settled<P: Problem>(
    p: &P,
    explored: Set<<P::State as View>::V>,
    g: Map<<P::State as View>::V, usize>,
    frontier: Seq<AStarNode<P::State>>,
    k0: int,
    w: Seq<usize>,
)
    requires
        well_formed(p),
        consistent(p),
        open_inv(p, explored, g, frontier),
        all_relaxed(p, explored, g, true),
        settled(p, explored, g),
        0 <= k0 < frontier.len(),
        forall|j: int| 0 <= j < frontier.len() ==> frontier[k0].f_score <= (
        #[trigger] frontier[j]).f_score,
        !explored.contains(frontier[k0].node.state@),
        walk_ok(p, p.start(), w),
        walk_end(p, p.start(), w) == frontier[k0].node.state@,
    ensures
        frontier[k0].node.path_cost <= walk_cost(p, p.start(), w),
{
    let (i, k) = lemma_separator(p, explored, g, frontier, w);
    let u = state_at(p, w, i);
    lemma_walk_split(p, p.start(), w, i);
    lemma_walk_stays(p, p.start(), w.take(i));
    lemma_consistent_walk(p, u, w.skip(i));
    assert(entry_ok(p, g, frontier[k]));
    assert(entry_ok(p, g, frontier[k0]));
}

/// What holds between two expansions. `fits` and `exact` say how much is
/// known of the problem: that its scores fit in machine words, and that
/// moreover its estimate is admissible and consistent.
pub open spec fn searching<P: Problem>(
    p: &P,
    explored: Set<<P::State as View>::V>,
    g: Map<<P::State as View>::V, usize>,
    frontier: Seq<AStarNode<P::State>>,
    fits: bool,
    exact: bool,
) -> bool {
    &&& open_inv(p, explored, g, frontier)
    &&& fits ==> all_bounded(p, g, frontier) && all_relaxed(p, explored, g, exact)
    &&& exact ==> settled(p, explored, g)
}

/// What holds while `node` is expanded and its first `i` edges have been
/// followed. `explored` is the explored set before the expansion.
pub open spec fn expanding<P: Problem>(
    p: &P,
    explored: Set<<P::State as View>::V>,
    g: Map<<P::State as View>::V, usize>,
    frontier: Seq<AStarNode<P::State>>,
    node: Node<P::State>,
    i: int,
    fits: bool,
    exact: bool,
) -> bool {
    &&& !explored.contains(node.state@)
    &&& tracks(p, node)
    &&& !p.goal(p.start())
    &&& g.contains_key(node.state@) && g[node.state@] == node.path_cost
    &&& open_inv(p, explored.insert(node.state@), g, frontier)
    &&& fits ==> {
        &&& all_bounded(p, g, frontier)
        &&& bounded(p, g, node.actions())
        &&& all_relaxed(p, explored, g, exact)
        &&& relaxed(p, g, node.state@, i, exact)
    }
    &&& exact ==> settled(p, explored.insert(node.state@), g)
}

/// Taking a node whose state is explored already out of the frontier
/// changes nothing else.
proof fn lemma_drop_closed<P: Problem>(
    p: &P,
    explored: Set<<P::State as View>::V>,
    g: Map<<P::State as View>::V, usize>,
    frontier: Seq<AStarNode<P::State>>,
    k0: int,
    fits: bool,
    exact: bool,
)
    requires
        searching(p, explored, g, frontier, fits, exact),
        0 <= k0 < frontier.len(),
        explored.contains(frontier[k0].node.state@),
        !p.goal(frontier[k0].node.state@),
    ensures
        searching(p, explored, g, frontier.remove(k0), fits, exact),
{
    let rest = frontier.remove(k0);
    assert(entry_ok(p, g, frontier[k0]));
    assert(!p.goal(p.start())) by {
        if p.goal(p.start()) {
            assert(k0 == 0);
            assert(frontier[0].node.actions().len() == 0);
        }
    }
    assert forall|k: int| 0 <= k < rest.len() implies entry_ok(p, g, #[trigger] rest[k]) by {
        let k1 = if k < k0 { k } else { k + 1 };
        assert(rest[k] == frontier[k1]);
    }
    assert forall|u: <P::State as View>::V| #[trigger]
        g.contains_key(u) && !explored.contains(u) implies holds_at(rest, u, g[u] as int) by {
        let k = choose|k: int|
            0 <= k < frontier.len() && (#[trigger] frontier[k]).node.state@ == u
                && frontier[k].node.path_cost == g[u];
        let k1 = if k < k0 { k } else { k - 1 };
        assert(rest[k1] == frontier[k]);
    }
    if fits {
        assert forall|k: int| 0 <= k < rest.len() implies bounded(
            p,
            g,
            (#[trigger] rest[k]).node.actions(),
        ) by {
            let k1 = if k < k0 { k } else { k + 1 };
            assert(rest[k] == frontier[k1]);
        }
    }
}

/// Taking a node with the least score, whose state is neither a goal nor
/// explored, out of the frontier begins its expansion.
proof fn lemma_begin_expansion<P: Problem>(
    p: &P,
    explored: Set<<P::State as View>::V>,
    g: Map<<P::State as View>::V, usize>,
    frontier: Seq<AStarNode<P::State>>,
    k0: int,
    fits: bool,
    exact: bool,
)
    requires
        well_formed(p),
        exact ==> fits && consistent(p),
        searching(p, explored, g, frontier, fits, exact),
        0 <= k0 < frontier.len(),
        forall|j: int| 0 <= j < frontier.len() ==> frontier[k0].f_score <= (
        #[trigger] frontier[j]).f_score,
        !explored.contains(frontier[k0].node.state@),
        !p.goal(frontier[k0].node.state@),
    ensures
        expanding(p, explored, g, frontier.remove(k0), frontier[k0].node, 0, fits, exact),
{
    let rest = frontier.remove(k0);
    let node = frontier[k0].node;
    let t = node.state@;
    let e2 = explored.insert(t);
    assert(entry_ok(p, g, frontier[k0]));
    lemma_walk_stays(p, p.start(), node.actions());
    assert(!p.goal(p.start())) by {
        if p.goal(p.start()) {
            assert(k0 == 0);
            assert(frontier[0].node.actions().len() == 0);
        }
    }
    // The table holds the cost of the node taken: some node waits at the
    // table's cost, and none has a lower score than the one taken.
    assert(holds_at(frontier, t, g[t] as int));
    let kt = choose|k: int|
        0 <= k < frontier.len() && (#[trigger] frontier[k]).node.state@ == t
            && frontier[k].node.path_cost == g[t];
    assert(entry_ok(p, g, frontier[kt]));
    assert(g[t] == node.path_cost);
    assert forall|k: int| 0 <= k < rest.len() implies entry_ok(p, g, #[trigger] rest[k]) by {
        let k1 = if k < k0 { k } else { k + 1 };
        assert(rest[k] == frontier[k1]);
    }
    assert forall|u: <P::State as View>::V| #[trigger]
        g.contains_key(u) && !e2.contains(u) implies holds_at(rest, u, g[u] as int) by {
        let k = choose|k: int|
            0 <= k < frontier.len() && (#[trigger] frontier[k]).node.state@ == u
                && frontier[k].node.path_cost == g[u];
        let k1 = if k < k0 { k } else { k - 1 };
        assert(rest[k1] == frontier[k]);
    }
    if fits {
        assert forall|k: int| 0 <= k < rest.len() implies bounded(
            p,
            g,
            (#[trigger] rest[k]).node.actions(),
        ) by {
            let k1 = if k < k0 { k } else { k + 1 };
            assert(rest[k] == frontier[k1]);
        }
        assert(bounded(p, g, frontier[k0].node.actions()));
    }
    if exact {
        assert forall|w: Seq<usize>| #[trigger]
            walk_ok(p, p.start(), w) && e2.contains(walk_end(p, p.start(), w)) implies g[walk_end(
            p,
            p.start(),
            w,
        )] <= walk_cost(p, p.start(), w) by {
            if walk_end(p, p.start(), w) == t {
                lemma_pop_is_settled(p, explored, g, frontier, k0, w);
            }
        }
    }
}

/// An edge whose end the table knows at no more than the cost through the
/// node needs nothing done.
proof fn lemma_edge_known<P: Problem>(
    p: &P,
    explored: Set<<P::State as View>::V>,
    g: Map<<P::State as View>::V, usize>,
    frontier: Seq<AStarNode<P::State>>,
    node: Node<P::State>,
    i: usize,
    fits: bool,
    exact: bool,
)
    requires
        expanding(p, explored, g, frontier, node, i as int, fits, exact),
        0 <= i < p.edges(node.state@).len(),
        g.contains_key(p.edges(node.state@)[i as int].0),
        g[p.edges(node.state@)[i as int].0] <= node.path_cost + p.edges(node.state@)[i as int].1,
    ensures
        expanding(p, explored, g, frontier, node, i + 1, fits, exact),
{
}

/// An edge whose end the table does not know, or knows only at a higher
/// cost, extends the node's walk to a walk that visits no state twice.
proof fn lemma_edge_extends<P: Problem>(
    p: &P,
    g: Map<<P::State as View>::V, usize>,
    node: Node<P::State>,
    i: usize,
)
    requires
        tracks(p, node),
        bounded(p, g, node.actions()),
        g.contains_key(node.state@),
        g[node.state@] <= node.path_cost,
        0 <= i < p.edges(node.state@).len(),
        !g.contains_key(p.edges(node.state@)[i as int].0) || node.path_cost + p.edges(
            node.state@,
        )[i as int].1 < g[p.edges(node.state@)[i as int].0],
    ensures
        simple_walk(p, node.actions().push(i)),
        forall|j: int|
            0 <= j <= node.actions().len() ==> #[trigger] state_at(
                p,
                node.actions().push(i),
                j,
            ) != p.edges(node.state@)[i as int].0,
        forall|j: int|
            0 <= j <= node.actions().len() ==> g.contains_key(
                #[trigger] state_at(p, node.actions().push(i), j),
            ) && g[state_at(p, node.actions().push(i), j)] <= walk_cost(
                p,
                p.start(),
                node.actions().push(i).take(j),
            ),
{
    let w = node.actions();
    let longer = w.push(i);
    let u = p.edges(node.state@)[i as int].0;
    lemma_walk_push(p, p.start(), w, i);
    assert(longer.take(longer.len() as int) =~= longer);
    assert(longer.take(w.len() as int) =~= w);
    assert forall|j: int| 0 <= j <= w.len() implies g.contains_key(
        #[trigger] state_at(p, longer, j),
    ) && g[state_at(p, longer, j)] <= walk_cost(p, p.start(), longer.take(j)) && state_at(
        p,
        longer,
        j,
    ) != u by {
        if j < w.len() {
            assert(longer.take(j) =~= w.take(j));
            assert(g.contains_key(state_at(p, w, j)));
            lemma_walk_take(p, p.start(), w, j);
        }
    }
    assert forall|a: int, b: int| 0 <= a < b <= longer.len() implies state_at(p, longer, a)
        != state_at(p, longer, b) by {
        if b < longer.len() {
            assert(longer.take(a) =~= w.take(a));
            assert(longer.take(b) =~= w.take(b));
            assert(state_at(p, w, a) != state_at(p, w, b));
        } else {
            assert(state_at(p, longer, a) != u);
        }
    }
}

/// On a problem whose scores fit, or where the node is within a cost plus
/// estimate beyond which they fit, an edge that improves on the table can
/// be recorded: the depth, the path cost and the score of the node at its end
/// fit in machine words.
proof fn lemma_edge_fits<P: Problem>(
    p: &P,
    explored: Set<<P::State as View>::V>,
    g: Map<<P::State as View>::V, usize>,
    frontier: Seq<AStarNode<P::State>>,
    node: Node<P::State>,
    i: usize,
    exact: bool,
    cap: int,
)
    requires
        scores_fit(p) || (fit_beyond(p, cap) && node.path_cost + p.estimate(node.state@) <= cap),
        expanding(p, explored, g, frontier, node, i as int, true, exact),
        0 <= i < p.edges(node.state@).len(),
        !g.contains_key(p.edges(node.state@)[i as int].0) || node.path_cost + p.edges(
            node.state@,
        )[i as int].1 < g[p.edges(node.state@)[i as int].0],
    ensures
        node.depth + 1 <= usize::MAX,
        node.path_cost + p.edges(node.state@)[i as int].1 + p.estimate(p.edges(node.state@)[i as int].0)
            <= usize::MAX,
{
    lemma_edge_extends(p, g, node, i);
    lemma_walk_push(p, p.start(), node.actions(), i);
    assert(simple_walk(p, node.actions().push(i)));
    assert(node.actions().push(i).drop_last() =~= node.actions());
}

/// Recording an edge that improves on the table, and putting the node at
/// its end into the frontier, keeps the expansion in order.
proof fn lemma_edge_recorded<P: Problem>(
    p: &P,
    explored: Set<<P::State as View>::V>,
    g: Map<<P::State as View>::V, usize>,
    frontier: Seq<AStarNode<P::State>>,
    node: Node<P::State>,
    i: usize,
    entry: AStarNode<P::State>,
    fits: bool,
    exact: bool,
)
    requires
        well_formed(p),
        expanding(p, explored, g, frontier, node, i as int, fits, exact),
        0 <= i < p.edges(node.state@).len(),
        !g.contains_key(p.edges(node.state@)[i as int].0) || node.path_cost + p.edges(
            node.state@,
        )[i as int].1 < g[p.edges(node.state@)[i as int].0],
        entry.node.state@ == p.edges(node.state@)[i as int].0,
        entry.node.actions() == node.actions().push(i),
        entry.node.path_cost == node.path_cost + p.edges(node.state@)[i as int].1,
        entry.node.depth == node.depth + 1,
        entry.f_score == entry.node.path_cost + p.estimate(entry.node.state@),
    ensures
        expanding(
            p,
            explored,
            g.insert(entry.node.state@, entry.node.path_cost),
            frontier.push(entry),
            node,
            i + 1,
            fits,
            exact,
        ),
{
    let t = node.state@;
    let u = entry.node.state@;
    let e2 = explored.insert(t);
    let g2 = g.insert(u, entry.node.path_cost);
    let f2 = frontier.push(entry);
    lemma_walk_push(p, p.start(), node.actions(), i);
    assert(tracks(p, entry.node));
    assert(improves(g, g2));
    assert(u != t);
    assert(u != p.start());
    assert forall|k: int| 0 <= k < f2.len() implies entry_ok(p, g2, #[trigger] f2[k]) by {
        if k < frontier.len() {
            assert(f2[k] == frontier[k]);
            assert(entry_ok(p, g, frontier[k]));
        }
    }
    assert forall|v: <P::State as View>::V| #[trigger]
        g2.contains_key(v) && !e2.contains(v) implies holds_at(f2, v, g2[v] as int) by {
        if v == u {
            assert(f2[frontier.len() as int] == entry);
        } else {
            assert(g.contains_key(v));
            let k = choose|k: int|
                0 <= k < frontier.len() && (#[trigger] frontier[k]).node.state@ == v
                    && frontier[k].node.path_cost == g[v];
            assert(f2[k] == frontier[k]);
        }
    }
    assert(open_inv(p, e2, g2, f2));
    if exact {
        // The end of the edge is not explored: the table would hold its least cost.
        assert(!e2.contains(u)) by {
            if e2.contains(u) {
                assert(walk_ok(p, p.start(), entry.node.actions()));
                assert(g[u] <= walk_cost(p, p.start(), entry.node.actions()));
            }
        }
        assert forall|w: Seq<usize>| #[trigger]
            walk_ok(p, p.start(), w) && e2.contains(walk_end(p, p.start(), w)) implies g2[walk_end(
            p,
            p.start(),
            w,
        )] <= walk_cost(p, p.start(), w) by {}
    }
    if fits {
        lemma_edge_extends(p, g, node, i);
        assert forall|k: int| 0 <= k < f2.len() implies bounded(
            p,
            g2,
            (#[trigger] f2[k]).node.actions(),
        ) by {
            if k < frontier.len() {
                assert(f2[k] == frontier[k]);
                let w = frontier[k].node.actions();
                assert(bounded(p, g, w));
                assert forall|j: int| 0 <= j < w.len() implies g2.contains_key(
                    #[trigger] state_at(p, w, j),
                ) && g2[state_at(p, w, j)] <= walk_cost(p, p.start(), w.take(j)) by {
                    assert(g.contains_key(state_at(p, w, j)));
                }
            } else {
                let w = entry.node.actions();
                assert forall|j: int| 0 <= j < w.len() implies g2.contains_key(
                    #[trigger] state_at(p, w, j),
                ) && g2[state_at(p, w, j)] <= walk_cost(p, p.start(), w.take(j)) by {
                    assert(state_at(p, w, j) != u);
                }
            }
        }
        let w = node.actions();
        assert forall|j: int| 0 <= j < w.len() implies g2.contains_key(
            #[trigger] state_at(p, w, j),
        ) && g2[state_at(p, w, j)] <= walk_cost(p, p.start(), w.take(j)) by {
            assert(g.contains_key(state_at(p, w, j)));
        }
        assert forall|s: <P::State as View>::V| #[trigger] explored.contains(s) implies relaxed(
            p,
            g2,
            s,
            p.edges(s).len() as int,
            exact,
        ) by {
            assert(relaxed(p, g, s, p.edges(s).len() as int, exact));
            assert forall|a: int| 0 <= a < p.edges(s).len() implies g2.contains_key(
                (#[trigger] p.edges(s)[a]).0,
            ) && (exact ==> g2[p.edges(s)[a].0] <= g2[s] + p.edges(s)[a].1) by {
                assert(g.contains_key(p.edges(s)[a].0));
                if exact {
                    assert(e2.contains(s));
                }
            }
        }
        assert forall|a: int| 0 <= a < i + 1 && a < p.edges(t).len() implies g2.contains_key(
            (#[trigger] p.edges(t)[a]).0,
        ) && (exact ==> g2[p.edges(t)[a].0] <= g2[t] + p.edges(t)[a].1) by {
            if a < i {
                assert(g.contains_key(p.edges(t)[a].0));
            }
        }
    }
}

/// When every edge of the node has been followed, its expansion is over.
proof fn lemma_end_expansion<P: Problem>(
    p: &P,
    explored: Set<<P::State as View>::V>,
    g: Map<<P::State as View>::V, usize>,
    frontier: Seq<AStarNode<P::State>>,
    node: Node<P::State>,
    fits: bool,
    exact: bool,
)
    requires
        expanding(
            p,
            explored,
            g,
            frontier,
            node,
            p.edges(node.state@).len() as int,
            fits,
            exact,
        ),
    ensures
        searching(p, explored.insert(node.state@), g, frontier, fits, exact),
{
    let e2 = explored.insert(node.state@);
    if fits {
        assert forall|s: <P::State as View>::V| #[trigger] e2.contains(s) implies relaxed(
            p,
            g,
            s,
            p.edges(s).len() as int,
            exact,
        ) by {
            if s != node.state@ {
                assert(explored.contains(s));
            }
        }
    }
}

/// Two frontiers that hold the same nodes hold as many, and each holds
/// every node of the other.
proof fn lemma_same_nodes<S>(first: Seq<AStarNode<S>>, second: Seq<AStarNode<S>>)
    requires
        first.to_multiset() == second.to_multiset(),
    ensures
        first.len() == second.len(),
        forall|k: int| 0 <= k < second.len() ==> first.contains(#[trigger] second[k]),
        forall|k: int| 0 <= k < first.len() ==> second.contains(#[trigger] first[k]),
{
    first.to_multiset_ensures();
    second.to_multiset_ensures();
    assert forall|k: int| 0 <= k < second.len() implies first.contains(#[trigger] second[k]) by {
        assert(second.contains(second[k]));
        assert(second.to_multiset().count(second[k]) > 0);
        assert(first.to_multiset().count(second[k]) > 0);
    }
    assert forall|k: int| 0 <= k < first.len() implies second.contains(#[trigger] first[k]) by {
        assert(first.contains(first[k]));
        assert(first.to_multiset().count(first[k]) > 0);
        assert(second.to_multiset().count(first[k]) > 0);
    }
}

/// What holds of the nodes of a frontier holds in whatever order they are
/// kept.
proof fn lemma_order_is_free<P: Problem>(
    p: &P,
    explored: Set<<P::State as View>::V>,
    g: Map<<P::State as View>::V, usize>,
    first: Seq<AStarNode<P::State>>,
    second: Seq<AStarNode<P::State>>,
    fits: bool,
)
    requires
        first.to_multiset() == second.to_multiset(),
        open_inv(p, explored, g, first),
        fits ==> all_bounded(p, g, first),
    ensures
        open_inv(p, explored, g, second),
        fits ==> all_bounded(p, g, second),
{
    lemma_same_nodes(first, second);
    assert forall|k: int| 0 <= k < second.len() implies entry_ok(p, g, #[trigger] second[k]) && (
    fits ==> bounded(p, g, second[k].node.actions())) by {
        assert(first.contains(second[k]));
        let j = choose|j: int| 0 <= j < first.len() && first[j] == second[k];
        assert(entry_ok(p, g, first[j]));
    }
    assert forall|u: <P::State as View>::V| #[trigger]
        g.contains_key(u) && !explored.contains(u) implies holds_at(second, u, g[u] as int) by {
        let j = choose|j: int|
            0 <= j < first.len() && (#[trigger] first[j]).node.state@ == u
                && first[j].node.path_cost == g[u];
        assert(second.contains(first[j]));
        let k = choose|k: int| 0 <= k < second.len() && second[k] == first[j];
        assert(second[k].node.state@ == u);
    }
    if p.goal(p.start()) {
        assert(first.contains(second[0]));
    }
}

/// A waiting node as the course of the search tells it.
pub open spec fn seen_as<S: View>() -> spec_fn(AStarNode<S>) -> Waiting<S::V> {
    |e: AStarNode<S>| waiting(e.node, e.f_score)
}

/// The score of a waiting node in the course of the search.
pub open spec fn waiting_score<V>() -> spec_fn(Waiting<V>) -> usize {
    |w: Waiting<V>| w.score
}

/// How A* begins: the root waits with the estimate at the start as its
/// score, its path cost 0 is the best known, nothing is explored, and the
/// beginning has been reported.
pub open spec fn astar_first<P: Problem>(p: &P) -> Stage<<P::State as View>::V> {
    Stage {
        frontier: seq![
            Waiting {
                actions: Seq::<usize>::empty(),
                state: p.start(),
                path_cost: 0,
                depth: 0,
                score: p.estimate(p.start()),
            },
        ],
        explored: Set::empty(),
        best: Map::empty().insert(p.start(), 0),
        events: seq![Event::Started],
        ended: None,
    }
}

/// The search takes up the edge `i` out of `w`: the path cost
/// through it fits in a machine word and is less than the best known for
/// the state that it leads to, if any is known; and the node that it leads
/// to can wait: its score and its depth fit in machine words.
pub open spec fn takes_up<P: Problem>(
    p: &P,
    w: Waiting<<P::State as View>::V>,
    best: Map<<P::State as View>::V, usize>,
    i: int,
) -> bool {
    let edge = p.edges(w.state)[i];
    &&& w.path_cost + edge.1 <= usize::MAX
    &&& best.contains_key(edge.0) ==> w.path_cost + edge.1 < best[edge.0]
    &&& w.path_cost + edge.1 + p.estimate(edge.0) <= usize::MAX
    &&& w.depth < usize::MAX
}

/// A* expands `w` from its edge `i` on: each edge that it takes up sets the best path cost known for the state that it leads to and
/// puts a node into the queue, which is reported.
pub open spec fn astar_grow<P: Problem>(
    p: &P,
    w: Waiting<<P::State as View>::V>,
    s: Stage<<P::State as View>::V>,
    i: int,
) -> Stage<<P::State as View>::V>
    decreases p.edges(w.state).len() - i,
{
    if i < 0 || i >= p.edges(w.state).len() {
        s
    } else if takes_up(p, w, s.best, i) {
        astar_grow(p, w, astar_taken(p, w, s, i), i + 1)
    } else {
        astar_grow(p, w, s, i + 1)
    }
}

/// The stage `s` after the edge `i` out of `w` was taken up.
pub open spec fn astar_taken<P: Problem>(
    p: &P,
    w: Waiting<<P::State as View>::V>,
    s: Stage<<P::State as View>::V>,
    i: int,
) -> Stage<<P::State as View>::V> {
    let edge = p.edges(w.state)[i];
    Stage {
        frontier: with_pushed(
            s.frontier,
            waiting_score(),
            child_of(p, w, i, (w.path_cost + edge.1 + p.estimate(edge.0)) as usize),
        ),
        best: s.best.insert(edge.0, (w.path_cost + edge.1) as usize),
        events: s.events.push(Event::Generated),
        ..s
    }
}

/// One step of A*: the first node of the queue, one of the least score, is
/// taken and reported. In a goal state the search ends with its actions;
/// in a state explored before it is dropped; else its state is explored
/// and it is expanded. With an empty queue the search ends without a
/// solution.
pub open spec fn astar_step<P: Problem>(p: &P, s: Stage<<P::State as View>::V>) -> Stage<
    <P::State as View>::V,
> {
    if s.ended is Some {
        s
    } else if s.frontier.len() == 0 {
        Stage {
            events: s.events.push(Event::Memory(estimate_kb(p, s.explored, 0))),
            ended: Some(None),
            ..s
        }
    } else {
        let w = s.frontier[0];
        let rest = without_first(s.frontier, waiting_score());
        let seen = s.events.push(Event::Visited);
        if p.goal(w.state) {
            Stage {
                frontier: rest,
                events: seen.push(Event::Solved(w.actions.len() as usize)).push(
                    Event::Memory(estimate_kb(p, s.explored, rest.len())),
                ),
                ended: Some(Some(w.actions)),
                ..s
            }
        } else if s.explored.contains(w.state) {
            Stage { frontier: rest, events: seen, ..s }
        } else {
            let grown = astar_grow(
                p,
                w,
                Stage { frontier: rest, explored: s.explored.insert(w.state), events: seen, ..s },
                0,
            );
            Stage { events: grown.events.push(Event::Frontier(grown.frontier.len() as usize)), ..grown }
        }
    }
}

/// The steps of A*.
pub open spec fn astar_steps<P: Problem>(p: &P) -> spec_fn(Stage<<P::State as View>::V>) -> Stage<
    <P::State as View>::V,
> {
    |s: Stage<<P::State as View>::V>| astar_step(p, s)
}

/// The course of A* on `p`: the stage in which it ends. It holds the
/// solution found, if any, and every event reported, in order.
pub open spec fn astar_run<P: Problem>(p: &P) -> Stage<<P::State as View>::V> {
    last_stage(astar_first(p), astar_steps(p))
}

/// The stage of an A* search that has not ended, with the queue `queue`,
/// the states `explored` explored, the path costs `best` known and the
/// events `told` reported.
pub open spec fn astar_stage<S: View>(
    queue: Seq<AStarNode<S>>,
    explored: Set<S::V>,
    best: Map<S::V, usize>,
    told: Seq<Event>,
) -> Stage<S::V> {
    Stage { frontier: queue.map_values(seen_as()), explored, best, events: told, ended: None }
}

/// The queue as the course of the search tells it, after a node was put
/// into it and after its first node was taken out.
proof fn lemma_queue_as_told<S: View>(queue: Seq<AStarNode<S>>, entry: AStarNode<S>)
    ensures
        with_pushed(queue, node_score(), entry).map_values(seen_as()) == with_pushed(
            queue.map_values(seen_as()),
            waiting_score(),
            waiting(entry.node, entry.f_score),
        ),
        without_first(queue, node_score()).map_values(seen_as()) == without_first(
            queue.map_values(seen_as()),
            waiting_score(),
        ),
        without_first(queue, node_score()).len() == without_first(
            queue.map_values(seen_as()),
            waiting_score(),
        ).len(),
{
    assert forall|e: AStarNode<S>| #[trigger]
        node_score::<S>()(e) == waiting_score::<S::V>()(seen_as::<S>()(e)) by {}
    lemma_heap_maps(queue, seen_as::<S>(), node_score::<S>(), waiting_score::<S::V>(), entry);
}

/// The search itself, reporting to `rec`.
///
/// A solution, where one is returned, leads from the start to a goal. Where
/// the start is a goal the empty solution is returned. On a problem whose
/// scores fit in machine words, or where the cost of some solution is in
/// sight under an admissible and consistent estimate, the search finds a
/// solution whenever there is one; where moreover the estimate is
/// admissible and consistent, no solution costs less than the one it finds.
/// The search follows its course: it returns the solution found there and
/// reports its events, in order.
pub fn best_first<P: Problem, R: Recorder>(problem: &P, rec: &mut R) -> (found: Option<Vec<usize>>)
    requires
        well_formed(problem),
    ensures
        old(rec).counters() is Some <==> final(rec).counters() is Some,
        match found {
            Some(actions) => {
                &&& is_solution(problem, actions@)
                &&& problem.goal(problem.start()) ==> actions.len() == 0
                &&& keeps_scores(problem) && admissible(problem) && consistent(problem) ==> forall|
                    other: Seq<usize>,
                | #[trigger]
                    is_solution(problem, other) ==> solution_cost(problem, actions@)
                        <= solution_cost(problem, other)
                &&& final(rec).counters() matches Some(m) ==> m.solution_length == actions.len()
            },
            None => {
                &&& !problem.goal(problem.start())
                &&& keeps_scores(problem) ==> !solvable(problem)
            },
        },
        old(rec).counters() == Some(Metrics::zero()) ==> search_counted(
            final(rec).counters(),
            found,
            vstd::layout::size_of::<P::State>(),
        ),
        ran(astar_run(problem), found, old(rec).log(), final(rec).log()),
        found is None && scores_fit(problem) && old(rec).counters() == Some(Metrics::zero())
            ==> final(rec).counters().unwrap().nodes_visited >= capped_count(
            crate::problem::reachable(problem).len() as int,
        ),
{
    let ghost first_stage = astar_first(problem);
    let ghost steps = astar_steps(problem);
    let ghost said = old(rec).log();
    let ghost mut told: Seq<Event> = first_stage.events;
    let ghost mut n: nat = 0;
    let ghost fits = keeps_scores(problem);
    let ghost way: Seq<usize> = if !scores_fit(problem) && cost_in_sight(problem) {
        choose|w: Seq<usize>| #[trigger]
            is_solution(problem, w) && fit_beyond(problem, solution_cost(problem, w) as int)
    } else {
        Seq::empty()
    };
    let ghost cap: int = solution_cost(problem, way) as int;
    let ghost counting = old(rec).counters() == Some(Metrics::zero());
    let ghost mut visits: nat = 0;
    let ghost exact = fits && admissible(problem) && consistent(problem);
    let initial_state = problem.initial_state();
    let initial_h = problem.heuristic(&initial_state);
    let key = duplicate(&initial_state);
    let root = Node::new(initial_state);
    let mut frontier: MinQueue<P::State> = MinQueue::new();
    let first = AStarNode { node: root, f_score: initial_h };
    let ghost alone = Seq::<AStarNode<P::State>>::empty().push(first);
    assert(frontier@ =~= Seq::<AStarNode<P::State>>::empty());
    frontier.push(first);
    let mut explored: ExploredSet<P::State> = ExploredSet::new();
    let mut g_scores: ScoreTable<P::State> = ScoreTable::new();
    g_scores.insert(key, 0);
    rec.record(Event::Started);
    proof {
        assert(root.actions().take(0) =~= root.actions());
        assert(alone[0].node == root);
        assert(entry_ok(problem, g_scores@, alone[0]));
        assert(holds_at(alone, problem.start(), 0));
        assert(open_inv(problem, explored@, g_scores@, alone));
        lemma_order_is_free(problem, explored@, g_scores@, alone, frontier@, fits);
        lemma_same_nodes(alone, frontier@);
        explored.lemma_finite();
        vstd::set_lib::lemma_len_subset(explored@, problem.space());
        assert(rec.log() =~= said + told);
        assert(frontier@ =~= alone) by {
            assert(Seq::<AStarNode<P::State>>::empty().push(first) =~= alone);
        }
        assert(astar_stage(frontier@, explored@, g_scores@, told) =~= first_stage);
        assert(halts(steps));
    }
    while frontier.len() > 0
        invariant
            first_stage == astar_first(problem),
            steps == astar_steps(problem),
            halts(steps),
            said == old(rec).log(),
            rec.log() == said + told,
            astar_stage(frontier@, explored@, g_scores@, told) == after_steps(
                first_stage,
                steps,
                n,
            ),
            well_formed(problem),
            fits == keeps_scores(problem),
            fits && !scores_fit(problem) ==> is_solution(problem, way) && fit_beyond(problem, cap)
                && cap == solution_cost(problem, way),
            exact == (fits && admissible(problem) && consistent(problem)),
            explored.wf(),
            g_scores.wf(),
            frontier.wf(),
            searching(problem, explored@, g_scores@, frontier@, fits, exact),
            explored@.len() <= problem.space().len(),
            old(rec).counters() is Some <==> rec.counters() is Some,
            counting == (old(rec).counters() == Some(Metrics::zero())),
            counting ==> rec.counters() is Some && frontier_counts(
                rec.counters().unwrap(),
                visits,
                explored@.len(),
                frontier@.len(),
            ),
            frontier@.len() > 0 || visits > 0,
            forall|k: int|
                0 <= k < frontier@.len() ==> (#[trigger] frontier@[k]).node.depth <= visits,
        decreases problem.space().len() - explored@.len(), frontier@.len(),
    {
        let ghost f0 = frontier@;
        let ghost e0 = explored@;
        let ghost g0 = g_scores@;
        let ghost s0 = after_steps(first_stage, steps, n);
        let ghost t0 = told;
        let entry = frontier.pop().unwrap();
        let ghost f_rest = frontier@;
        let ghost w = waiting(entry.node, entry.f_score);
        let ghost k0 = choose|k: int| 0 <= k < f0.len() && f0[k] == entry;
        let ghost rest = f0.remove(k0);
        proof {
            vstd::seq_lib::to_multiset_remove(f0, k0);
            lemma_same_nodes(rest, frontier@);
            assert(entry.node.depth <= visits);
            assert forall|k: int| 0 <= k < frontier@.len() implies (
            #[trigger] frontier@[k]).node.depth <= visits by {
                assert(rest.contains(frontier@[k]));
                let j = choose|j: int| 0 <= j < rest.len() && rest[j] == frontier@[k];
                assert(rest[j] == f0[if j < k0 {
                    j
                } else {
                    j + 1
                }]);
            }
        }
        let node = entry.node;
        rec.record(Event::Visited);
        proof {
            told = told.push(Event::Visited);
            assert(rec.log() =~= said + told);
            lemma_queue_as_told(f0, entry);
            assert(w == s0.frontier[0]);
            assert(after_steps(first_stage, steps, n + 1) == astar_step(problem, s0));
            visits = visits + 1;
            explored.lemma_finite();
            assert(entry_ok(problem, g0, f0[k0]));
            lemma_walk_stays(problem, problem.start(), node.actions());
            if fits && !scores_fit(problem) {
                lemma_pop_is_near(problem, e0, g0, f0, k0, way);
            }
        }
        if problem.is_goal(&node.state) {
            let solution = node.extract_solution();
            rec.record(Event::Solved(solution.len()));
            let kb = memory_estimate_kb(
                explored.len(),
                frontier.len(),
                core::mem::size_of::<P::State>(),
            );
            rec.record(Event::Memory(kb));
            proof {
                told = told.push(Event::Solved(solution.len())).push(Event::Memory(kb));
                assert(rec.log() =~= said + told);
                let last = astar_step(problem, s0);
                assert(last.events =~= told);
                assert(last.ended == Some(Some(solution@)));
                lemma_ends_once(first_stage, steps, n + 1);
                if counting {
                    lemma_kilobytes_grow(
                        explored@.len() + frontier@.len(),
                        (visits - 1 + frontier@.len()) as nat,
                        vstd::layout::size_of::<P::State>(),
                    );
                }
                if problem.goal(problem.start()) {
                    assert(k0 == 0);
                }
                if exact {
                    assert forall|other: Seq<usize>| #[trigger]
                        is_solution(problem, other) implies solution_cost(problem, solution@)
                        <= solution_cost(problem, other) by {
                        lemma_goal_is_cheapest(problem, e0, g0, f0, k0, other);
                    }
                }
            }
            return Some(solution);
        }
        if explored.contains(&node.state) {
            proof {
                lemma_drop_closed(problem, e0, g0, f0, k0, fits, exact);
                lemma_order_is_free(problem, e0, g0, rest, frontier@, fits);
                assert(astar_stage(f_rest, e0, g0, told) =~= astar_step(problem, s0));
                n = n + 1;
            }
            continue ;
        }
        proof {
            lemma_begin_expansion(problem, e0, g0, f0, k0, fits, exact);
            lemma_order_is_free(problem, e0.insert(node.state@), g0, rest, frontier@, fits);
        }
        let copy = duplicate(&node.state);
        explored.insert(copy);
        proof {
            explored.lemma_finite();
            vstd::set_lib::lemma_len_subset(explored@, problem.space());
        }
        let successors = problem.successors(&node.state);
        let ghost e2 = explored@;
        let ghost opened = astar_stage(f_rest, e2, g0, told);
        let mut i: usize = 0;
        while i < successors.len()
            invariant
                said == old(rec).log(),
                rec.log() == said + told,
                w == waiting(node, entry.f_score),
                e2 == explored@,
                astar_grow(
                    problem,
                    w,
                    astar_stage(frontier@, e2, g_scores@, told),
                    i as int,
                ) == astar_grow(problem, w, opened, 0),
                well_formed(problem),
                fits == keeps_scores(problem),
                fits && !scores_fit(problem) ==> fit_beyond(problem, cap) && node.path_cost
                    + problem.estimate(node.state@) <= cap,
                exact == (fits && admissible(problem) && consistent(problem)),
                explored.wf(),
                g_scores.wf(),
                frontier.wf(),
                explored@ == e0.insert(node.state@),
                problem.space().contains(node.state@),
                i <= successors.len(),
                lists_edges(successors@, problem.edges(node.state@)),
                expanding(problem, e0, g_scores@, frontier@, node, i as int, fits, exact),
                old(rec).counters() is Some <==> rec.counters() is Some,
                counting == (old(rec).counters() == Some(Metrics::zero())),
                explored@.finite(),
                counting ==> rec.counters() is Some && frontier_counts(
                    rec.counters().unwrap(),
                    visits,
                    explored@.len(),
                    frontier@.len(),
                ),
                node.depth < visits,
                forall|k: int|
                    0 <= k < frontier@.len() ==> (#[trigger] frontier@[k]).node.depth <= visits,
            decreases successors.len() - i,
        {
            let ghost edge = problem.edges(node.state@)[i as int];
            let ghost g1 = g_scores@;
            let ghost f1 = frontier@;
            assert(successors@[i as int].0@ == edge.0);
            assert(problem.space().contains(edge.0));
            let cost: usize = successors[i].1;
            let known = g_scores.get(&successors[i].0);
            let tentative = node.path_cost.checked_add(cost);
            let better = match (tentative, known) {
                (Some(t), Some(x)) => t < x,
                (Some(_), None) => true,
                (None, Some(_)) => false,
                (None, None) => true,
            };
            if better {
                let h = problem.heuristic(&successors[i].0);
                let score = match tentative {
                    Some(t) => t.checked_add(h),
                    None => None,
                };
                proof {
                    if fits {
                        lemma_edge_fits(problem, e0, g1, f1, node, i, exact, cap);
                    }
                }
                if score.is_some() && node.depth < usize::MAX {
                    let tentative_g = tentative.unwrap();
                    let key = duplicate(&successors[i].0);
                    g_scores.insert(key, tentative_g);
                    let target = duplicate(&successors[i].0);
                    let child = node.child(target, i, cost);
                    let entry = AStarNode { node: child, f_score: score.unwrap() };
                    let ghost t2 = told;
                    frontier.push(entry);
                    rec.record(Event::Generated);
                    proof {
                        told = told.push(Event::Generated);
                        assert(rec.log() =~= said + told);
                        lemma_queue_as_told(f1, entry);
                        assert(takes_up(problem, w, g1, i as int));
                        assert(waiting(child, entry.f_score) =~= child_of(
                            problem,
                            w,
                            i as int,
                            entry.f_score,
                        ));
                        assert(astar_stage(frontier@, e2, g_scores@, told) =~= astar_taken(
                            problem,
                            w,
                            astar_stage(f1, e2, g1, t2),
                            i as int,
                        ));
                        lemma_edge_recorded(
                            problem,
                            e0,
                            g1,
                            f1,
                            node,
                            i,
                            entry,
                            fits,
                            exact,
                        );
                        lemma_order_is_free(
                            problem,
                            e0.insert(node.state@),
                            g_scores@,
                            f1.push(entry),
                            frontier@,
                            fits,
                        );
                        lemma_same_nodes(f1.push(entry), frontier@);
                        assert forall|k: int| 0 <= k < frontier@.len() implies (
                        #[trigger] frontier@[k]).node.depth <= visits by {
                            assert(f1.push(entry).contains(frontier@[k]));
                            let j = choose|j: int|
                                0 <= j < f1.push(entry).len() && f1.push(entry)[j] == frontier@[k];
                            if j < f1.len() {
                                assert(f1.push(entry)[j] == f1[j]);
                            }
                        }
                    }
                } else {
                    assert(!fits);
                    assert(!takes_up(problem, w, g1, i as int));
                }
            } else {
                proof {
                    lemma_edge_known(problem, e0, g1, f1, node, i, fits, exact);
                    assert(!takes_up(problem, w, g1, i as int));
                }
            }
            i = i + 1;
        }
        rec.record(Event::Frontier(frontier.len()));
        proof {
            told = told.push(Event::Frontier(frontier@.len() as usize));
            assert(rec.log() =~= said + told);
            assert(opened =~= (Stage {
                frontier: without_first(s0.frontier, waiting_score()),
                explored: s0.explored.insert(w.state),
                events: t0.push(Event::Visited),
                ..s0
            }));
            assert(astar_stage(frontier@, e2, g_scores@, told) =~= astar_step(problem, s0));
            n = n + 1;
            lemma_end_expansion(problem, e0, g_scores@, frontier@, node, fits, exact);
        }
    }
    let kb = memory_estimate_kb(explored.len(), 0, core::mem::size_of::<P::State>());
    rec.record(Event::Memory(kb));
    proof {
        told = told.push(Event::Memory(kb));
        assert(rec.log() =~= said + told);
        let last = astar_step(problem, after_steps(first_stage, steps, n));
        assert(last.events =~= told);
        assert(after_steps(first_stage, steps, n + 1) == last);
        lemma_ends_once(first_stage, steps, n + 1);
        if counting {
            lemma_kilobytes_grow(explored@.len(), visits, vstd::layout::size_of::<P::State>());
        }
        assert(!problem.goal(problem.start()));
        if fits {
            assert(explored@.contains(problem.start())) by {
                if !explored@.contains(problem.start()) {
                    assert(holds_at(frontier@, problem.start(), 0));
                }
            }
            assert forall|s: <P::State as View>::V, a: int|
                explored@.contains(s) && 0 <= a < problem.edges(s).len() implies explored@.contains(
                (#[trigger] problem.edges(s)[a]).0,
            ) by {
                assert(relaxed(problem, g_scores@, s, problem.edges(s).len() as int, exact));
                let u = problem.edges(s)[a].0;
                if !explored@.contains(u) {
                    assert(g_scores@.contains_key(u));
                    assert(holds_at(frontier@, u, g_scores@[u] as int));
                }
            }
            explored.lemma_finite();
            crate::problem::lemma_closed_set_holds_reachable(problem, explored@);
            if solvable(problem) {
                let w = choose|w: Seq<usize>| is_solution(problem, w);
                crate::problem::lemma_closed_set_holds_walks(problem, explored@, w);
            }
        }
    }
    None
}

/// What A* finds: a result that answers the problem and follows the course
/// of the search; a success without actions where the start is a goal;
/// where the search loses no node that matters, a success exactly when the
/// problem has a solution, and else at least as many nodes visited as
/// states can be reached; and, where moreover the estimate is admissible
/// and consistent, a solution that none is cheaper than.
pub open spec fn astar_finds<P: Problem>(p: &P, r: SearchResult) -> bool {
    &&& r.answers(p)
    &&& follows_course(astar_run(p), r)
    &&& p.goal(p.start()) ==> r.solved_in_place()
    &&& keeps_scores(p) ==> (r.status == STATUS_SUCCESS <==> solvable(p))
    &&& scores_fit(p) && r.solution is None ==> r.metrics.nodes_visited >= capped_count(
        crate::problem::reachable(p).len() as int,
    )
    &&& keeps_scores(p) && admissible(p) && consistent(p) ==> (r.solution matches Some(actions)
        ==> cheapest(p, actions@))
}

impl AStar {
    /// The search, reporting to `shared` as it goes. What `shared` recorded
    /// before is forgotten; afterwards it has recorded the events of the
    /// search, and the counters of the result are what it counted.
    pub fn search_reporting<P: Problem>(&self, problem: &P, shared: &mut SharedMetrics) -> (r:
        SearchResult)
        requires
            well_formed(problem),
        ensures
            astar_finds(problem, r),
            search_counts(r.metrics, r.solution, vstd::layout::size_of::<P::State>()),
            final(shared).log() == astar_run(problem).events,
            final(shared).counters() == Some(r.metrics.untimed()),
    {
        shared.restart();
        let found = best_first(problem, shared);
        proof {
            assert(Seq::<Event>::empty() + astar_run(problem).events =~= astar_run(problem).events);
        }
        conclude(found, shared.counted())
    }
}

impl SearchAlgorithm for AStar {
    /// A* search. Where the start is a goal it succeeds with no action. On a
    /// problem whose scores fit in machine words it succeeds exactly when a
    /// solution exists; where moreover the estimate is admissible and
    /// consistent, no solution costs less than the one it returns.
    fn search<P: Problem>(&self, problem: &P) -> (r: SearchResult)
        ensures
            astar_finds(problem, r),
            search_counts(r.metrics, r.solution, vstd::layout::size_of::<P::State>()),
    {
        let start = Instant::now();
        let mut tally = Tally::new();
        let found = best_first(problem, &mut tally);
        let mut metrics = tally.counts();
        proof {
            assert(Seq::<Event>::empty() + astar_run(problem).events =~= astar_run(problem).events);
        }
        metrics.time_ms = millis_since(&start);
        conclude(found, metrics)
    }

    /// The same search, with the same result: `shared` is told of each event
    /// as the search goes, and the counters of the result are what was told.
    fn search_with_shared_metrics<P: Problem>(&self, problem: &P, shared: SharedMetrics) -> (r:
        SearchResult)
        ensures
            astar_finds(problem, r),
            search_counts(r.metrics, r.solution, vstd::layout::size_of::<P::State>()),
    {
        let mut shared = shared;
        self.search_reporting(problem, &mut shared)
    }

    fn name(&self) -> (r: &str)
        ensures
            r@ == "A*"@,
    {
        "A*"
    }
}

} // verus!
