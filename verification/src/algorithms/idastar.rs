//! Iterative-deepening A*.
use crate::algorithms::{
    conclude, lemma_extend_thread, tracks, SearchAlgorithm, SearchResult, STATUS_SUCCESS,
};
use crate::algorithms::run::{child_of, follows, follows_course, ran, shown, waiting, Stage, Waiting};
use crate::benchmarking::metrics::{
    bump, capped_count, kilobytes, lemma_kilobytes_of_nothing, memory_estimate_kb, Event, Metrics,
    Recorder, Tally,
};
use crate::benchmarking::shared::SharedMetrics;
use crate::clock::millis_since;
use crate::node::Node;
use crate::path_set::PathSet;
use crate::problem::{
    admissible, cheapest, consistent, duplicate, is_solution, lemma_consistent_walk, lemma_simplify,
    lemma_walk_push, lemma_walk_split, lemma_walk_stays, lemma_walk_take, lists_edges, runs_inside,
    cost_in_sight, fit_beyond, keeps_scores, lemma_fit_beyond_less, scores_fit, simple_walk,
    solution_cost, state_at, walk_cost, walk_end, walk_ok, well_formed,
    Problem,
};
use std::time::Instant;
use vstd::prelude::*;

verus! {

/// Iterative-deepening A*: a depth-first search that gives up a path when
/// its cost plus the estimate exceeds a bound, run again and again with the
/// bound raised to the least value that exceeded it. Only the states on
/// the path from the root to the current node are remembered.
pub struct IDAStar {
    pub max_bound: usize,
}

impl IDAStar {
    /// A search that raises its bound no further once it has reached
    /// `max_bound`.
    pub fn new(max_bound: usize) -> (r: Self)
        ensures
            r.max_bound == max_bound,
    {
        IDAStar { max_bound }
    }
}

/// The cost of the first `j` of `actions` plus the estimate at the state
/// they lead to.
pub open spec fn f_at<P: Problem>(p: &P, actions: Seq<usize>, j: int) -> int {
    walk_cost(p, p.start(), actions.take(j)) + p.estimate(state_at(p, actions, j))
}

/// The states that `actions` pass through before their end.
pub open spec fn trail<P: Problem>(p: &P, actions: Seq<usize>) -> Set<<P::State as View>::V> {
    Set::new(
        |v: <P::State as View>::V|
            exists|j: int| 0 <= j < actions.len() && #[trigger] state_at(p, actions, j) == v,
    )
}

/// `actions` is a walk that the search follows below the node that records
/// `prefix`, when it runs with `bound`: it begins with `prefix`, visits no
/// state twice, and stays within the bound from the end of `prefix` up to,
/// but not including, its own end.
pub open spec fn probes<P: Problem>(
    p: &P,
    prefix: Seq<usize>,
    actions: Seq<usize>,
    bound: int,
) -> bool {
    &&& simple_walk(p, actions)
    &&& prefix.len() <= actions.len()
    &&& actions.take(prefix.len() as int) == prefix
    &&& forall|j: int| prefix.len() <= j < actions.len() ==> #[trigger] f_at(p, actions, j) <= bound
}

/// Nothing is left to find below `prefix` within `bound`: no walk that the
/// search follows there ends within the bound in a goal, and none ends
/// beyond the bound at less than `next`.
pub open spec fn exhausted<P: Problem>(p: &P, prefix: Seq<usize>, bound: int, next: int) -> bool {
    forall|w: Seq<usize>| #[trigger]
        probes(p, prefix, w, bound) ==> {
            &&& f_at(p, w, w.len() as int) <= bound ==> !p.goal(walk_end(p, p.start(), w))
            &&& f_at(p, w, w.len() as int) > bound ==> next <= f_at(p, w, w.len() as int)
        }
}

/// Below `prefix`, a search with `bound` comes to the value `value`: it is
/// cost plus estimate at the end of a walk that the search follows there.
pub open spec fn reaches<P: Problem>(p: &P, prefix: Seq<usize>, bound: int, value: int) -> bool {
    exists|w: Seq<usize>| #[trigger]
        probes(p, prefix, w, bound) && f_at(p, w, w.len() as int) == value
}

/// The search may come to try the bound `bound` when its limit is `limit`:
/// a descent from the root with some bound below the limit comes to that
/// value. The walk without actions gives the estimate at the start, the
/// first bound tried.
pub open spec fn proposed<P: Problem>(p: &P, limit: int, bound: int) -> bool {
    exists|below: int| below < limit && #[trigger] reaches(p, Seq::<usize>::empty(), below, bound)
}

/// `cost` is no more than some bound that the search may come to try when
/// its limit is `limit`.
pub open spec fn within_reach<P: Problem>(p: &P, limit: int, cost: int) -> bool {
    exists|bound: int| #[trigger] proposed(p, limit, bound) && cost <= bound
}

/// `actions` is a solution that never needs more than `bound`: along it,
/// cost plus estimate stay within the bound and below `usize::MAX`.
pub open spec fn affordable<P: Problem>(p: &P, actions: Seq<usize>, bound: int) -> bool {
    &&& is_solution(p, actions)
    &&& forall|j: int|
        0 <= j <= actions.len() ==> #[trigger] f_at(p, actions, j) <= bound && f_at(p, actions, j)
            < usize::MAX
}

/// The states before the end of a walk extended by one action are those
/// before its end, and its end.
proof fn lemma_trail_push<P: Problem>(p: &P, actions: Seq<usize>, a: usize)
    ensures
        trail(p, actions.push(a)) == trail(p, actions).insert(walk_end(p, p.start(), actions)),
{
    let longer = actions.push(a);
    let end = walk_end(p, p.start(), actions);
    assert(longer.take(actions.len() as int) =~= actions);
    assert forall|v: <P::State as View>::V| trail(p, longer).contains(v) <==> trail(
        p,
        actions,
    ).insert(end).contains(v) by {
        if trail(p, longer).contains(v) {
            let j = choose|j: int| 0 <= j < longer.len() && #[trigger] state_at(p, longer, j) == v;
            if j < actions.len() {
                assert(longer.take(j) =~= actions.take(j));
                assert(state_at(p, actions, j) == v);
            }
        }
        if trail(p, actions).contains(v) {
            let j = choose|j: int| 0 <= j < actions.len() && #[trigger] state_at(p, actions, j) == v;
            assert(longer.take(j) =~= actions.take(j));
            assert(state_at(p, longer, j) == v);
        }
        if v == end {
            assert(state_at(p, longer, actions.len() as int) == v);
        }
    }
    assert(trail(p, longer) =~= trail(p, actions).insert(end));
}

/// The states before the end of a walk from the start lie in the state
/// space, and are finitely many.
proof fn lemma_trail_in_space<P: Problem>(p: &P, actions: Seq<usize>)
    requires
        well_formed(p),
        walk_ok(p, p.start(), actions),
    ensures
        trail(p, actions).subset_of(p.space()),
{
    assert forall|v: <P::State as View>::V| trail(p, actions).contains(v) implies p.space().contains(
        v,
    ) by {
        let j = choose|j: int| 0 <= j < actions.len() && #[trigger] state_at(p, actions, j) == v;
        lemma_walk_take(p, p.start(), actions, j);
        lemma_walk_stays(p, p.start(), actions.take(j));
    }
}

/// Every beginning of a walk that visits no state twice visits no state
/// twice.
proof fn lemma_simple_take<P: Problem>(p: &P, actions: Seq<usize>, n: int)
    requires
        simple_walk(p, actions),
        0 <= n <= actions.len(),
    ensures
        simple_walk(p, actions.take(n)),
{
    lemma_walk_take(p, p.start(), actions, n);
    assert forall|i: int, j: int| 0 <= i < j <= n implies state_at(p, actions.take(n), i)
        != state_at(p, actions.take(n), j) by {
        assert(actions.take(n).take(i) =~= actions.take(i));
        assert(actions.take(n).take(j) =~= actions.take(j));
        assert(state_at(p, actions, i) != state_at(p, actions, j));
    }
}

/// Where cost plus estimate exceeds the bound somewhere along a walk, there
/// is a first place where it does.
proof fn lemma_first_over<P: Problem>(p: &P, actions: Seq<usize>, bound: int, n: int) -> (i: int)
    requires
        0 <= n <= actions.len(),
        f_at(p, actions, n) > bound,
    ensures
        0 <= i <= n,
        f_at(p, actions, i) > bound,
        forall|j: int| 0 <= j < i ==> #[trigger] f_at(p, actions, j) <= bound,
    decreases n,
{
    if forall|j: int| 0 <= j < n ==> #[trigger] f_at(p, actions, j) <= bound {
        n
    } else {
        let j = choose|j: int| 0 <= j < n && #[trigger] f_at(p, actions, j) > bound;
        lemma_first_over(p, actions, bound, j)
    }
}

/// A node whose cost plus estimate exceeds the bound leaves nothing to find
/// below it; the next bound to try is its own value.
proof fn lemma_cut_off<P: Problem>(p: &P, node: Node<P::State>, bound: int)
    requires
        tracks(p, node),
        node.path_cost + p.estimate(node.state@) > bound,
    ensures
        exhausted(p, node.actions(), bound, node.path_cost + p.estimate(node.state@)),
{
    let prefix = node.actions();
    assert forall|w: Seq<usize>| #[trigger] probes(p, prefix, w, bound) implies {
        &&& f_at(p, w, w.len() as int) <= bound ==> !p.goal(walk_end(p, p.start(), w))
        &&& f_at(p, w, w.len() as int) > bound ==> node.path_cost + p.estimate(node.state@)
            <= f_at(p, w, w.len() as int)
    } by {
        if w.len() == prefix.len() {
            assert(w.take(w.len() as int) =~= w);
        } else {
            assert(f_at(p, w, prefix.len() as int) <= bound);
        }
    }
}

/// The value at a node that exceeds the bound is one that the search comes
/// to there.
proof fn lemma_cut_off_reaches<P: Problem>(p: &P, node: Node<P::State>, bound: int)
    requires
        tracks(p, node),
        simple_walk(p, node.actions()),
    ensures
        reaches(p, node.actions(), bound, node.path_cost + p.estimate(node.state@)),
{
    let prefix = node.actions();
    assert(prefix.take(prefix.len() as int) =~= prefix);
    assert(probes(p, prefix, prefix, bound));
}

/// What the search comes to below a child of a node, it comes to below the
/// node, if the node itself is within the bound.
proof fn lemma_reaches_below<P: Problem>(
    p: &P,
    node: Node<P::State>,
    a: usize,
    bound: int,
    value: int,
)
    requires
        tracks(p, node),
        node.path_cost + p.estimate(node.state@) <= bound,
        reaches(p, node.actions().push(a), bound, value),
    ensures
        reaches(p, node.actions(), bound, value),
{
    let prefix = node.actions();
    let d = prefix.len() as int;
    let w = choose|w: Seq<usize>| #[trigger]
        probes(p, prefix.push(a), w, bound) && f_at(p, w, w.len() as int) == value;
    assert(w.take(d + 1).take(d) =~= w.take(d));
    assert(prefix.push(a).take(d) =~= prefix);
    assert(w.take(d) == prefix);
    assert(f_at(p, w, d) <= bound);
    assert(probes(p, prefix, w, bound));
}

/// No walk that visits no state twice passes through a state that lies
/// before the end of `prefix`, or is its end, after following `prefix`.
proof fn lemma_blocked<P: Problem>(p: &P, prefix: Seq<usize>, a: usize, bound: int, next: int)
    requires
        walk_ok(p, p.start(), prefix),
        a < p.edges(walk_end(p, p.start(), prefix)).len(),
        trail(p, prefix).insert(walk_end(p, p.start(), prefix)).contains(
            p.edges(walk_end(p, p.start(), prefix))[a as int].0,
        ),
    ensures
        exhausted(p, prefix.push(a), bound, next),
{
    let longer = prefix.push(a);
    let end = walk_end(p, p.start(), prefix);
    let u = p.edges(end)[a as int].0;
    lemma_walk_push(p, p.start(), prefix, a);
    assert forall|w: Seq<usize>| #[trigger] probes(p, longer, w, bound) implies false by {
        let d = prefix.len() as int;
        assert(w.take(d + 1).take(d) =~= w.take(d));
        assert(longer.take(d) =~= prefix);
        assert(state_at(p, w, d + 1) == u);
        assert(state_at(p, w, d) == end);
        if u != end {
            let j = choose|j: int| 0 <= j < prefix.len() && #[trigger] state_at(p, prefix, j) == u;
            assert(w.take(d).take(j) =~= w.take(j));
            assert(prefix.take(j) =~= w.take(j));
            assert(state_at(p, w, j) == u);
        }
    }
}

/// When the node itself is within the bound and no goal, and nothing is
/// left to find below any of its children, nothing is left to find below
/// the node.
proof fn lemma_children_exhausted<P: Problem>(p: &P, node: Node<P::State>, bound: int, next: int)
    requires
        tracks(p, node),
        node.path_cost + p.estimate(node.state@) <= bound,
        !p.goal(node.state@),
        forall|a: int|
            0 <= a < p.edges(node.state@).len() ==> exhausted(
                p,
                #[trigger] node.actions().push(a as usize),
                bound,
                next,
            ),
    ensures
        exhausted(p, node.actions(), bound, next),
{
    let prefix = node.actions();
    let d = prefix.len() as int;
    assert forall|w: Seq<usize>| #[trigger] probes(p, prefix, w, bound) implies {
        &&& f_at(p, w, w.len() as int) <= bound ==> !p.goal(walk_end(p, p.start(), w))
        &&& f_at(p, w, w.len() as int) > bound ==> next <= f_at(p, w, w.len() as int)
    } by {
        if w.len() == d {
            assert(w.take(d) =~= w);
        } else {
            let a = w[d];
            lemma_walk_take(p, p.start(), w, d + 1);
            assert(w.take(d + 1).drop_last() =~= w.take(d));
            assert(w.take(d + 1) =~= prefix.push(a));
            assert(a < p.edges(node.state@).len());
            assert(exhausted(p, node.actions().push(a as int as usize), bound, next));
            assert(probes(p, prefix.push(a), w, bound));
        }
    }
}

/// What a descent does to the counters: it counts nodes visited and
/// generated and leaves the rest. Where each node generated before had been
/// visited, but for one at most, each node generated has been visited
/// after.
pub open spec fn descended(before: Option<Metrics>, after: Option<Metrics>) -> bool {
    match before {
        Some(b) => {
            &&& after matches Some(a)
            &&& a == Metrics { nodes_visited: a.nodes_visited, nodes_generated: a.nodes_generated, ..b }
            &&& b.nodes_generated <= a.nodes_generated
            &&& b.nodes_visited <= a.nodes_visited
            &&& 1 <= a.nodes_visited
            &&& b.nodes_generated <= bump(b.nodes_visited) ==> a.nodes_generated <= a.nodes_visited
        },
        None => after is None,
    }
}

/// The counters at the end of a search that started from zero: each node
/// generated was visited, some, the root at least, more than once. No
/// frontier is kept, and the memory estimate is that of no state.
pub open spec fn descent_counts(m: Metrics, found: Option<Vec<usize>>) -> bool {
    &&& 1 <= m.nodes_generated <= m.nodes_visited
    &&& m.max_frontier_size == 0
    &&& m.memory_kb == 0
    &&& m.solution_length == match found {
        Some(actions) => actions.len(),
        None => 0,
    }
    &&& found matches Some(actions) ==> capped_count(actions.len() + 1) <= m.nodes_visited
}

/// A descent from a node at the depth `depth` that found `found` has
/// visited the nodes that lead from that node to the solution: one more
/// than the solution has actions beyond the node.
pub open spec fn visited_the_way(
    before: Option<Metrics>,
    after: Option<Metrics>,
    depth: usize,
    found: Option<Vec<usize>>,
) -> bool {
    found matches Some(actions) ==> depth <= actions.len() && (before matches Some(b)
        ==> after.unwrap().nodes_visited >= capped_count(
        b.nodes_visited + (actions.len() - depth) + 1,
    ))
}

/// The counters are known, no time has been recorded, and the counts are
/// those of a search that has ended.
pub open spec fn descent_counted(counters: Option<Metrics>, found: Option<Vec<usize>>) -> bool {
    counters matches Some(m) && m.time_ms == 0 && descent_counts(m, found)
}

/// What a descent comes to: the solution found, if any; else the least
/// cost plus estimate that exceeded the bound; and the events reported.
#[verifier::ext_equal]
pub struct Descent {
    pub found: Option<Seq<usize>>,
    pub next: usize,
    pub events: Seq<Event>,
}

/// The descent from the node `w` with the bound `bound`, where the states
/// of `path` lie on the way to `w` and `room` states of the space do not.
/// The node is reported. Where its cost plus estimate exceeds the bound,
/// that value is what the descent comes to; in a goal state the descent
/// ends with its actions; else the descent goes on below the node.
pub open spec fn descend<P: Problem>(
    p: &P,
    w: Waiting<<P::State as View>::V>,
    bound: usize,
    path: Set<<P::State as View>::V>,
    room: nat,
) -> Descent
    decreases room, p.edges(w.state).len() + 1,
{
    let seen = seq![Event::Visited];
    if w.path_cost + p.estimate(w.state) > usize::MAX {
        Descent { found: None, next: usize::MAX, events: seen }
    } else if w.path_cost + p.estimate(w.state) > bound {
        Descent { found: None, next: (w.path_cost + p.estimate(w.state)) as usize, events: seen }
    } else if p.goal(w.state) {
        Descent { found: Some(w.actions), next: 0, events: seen }
    } else {
        descend_below(p, w, bound, path.insert(w.state), room, 0, usize::MAX, seen)
    }
}

/// The descent below the node `w` from its edge `i` on, where `least` is
/// the least value that the descents below the edges before came to and
/// `events` are the events reported so far. Each edge to a state that is
/// not on the path and that can be followed is reported and descended
/// from; the first descent that finds a solution ends the search.
pub open spec fn descend_below<P: Problem>(
    p: &P,
    w: Waiting<<P::State as View>::V>,
    bound: usize,
    path: Set<<P::State as View>::V>,
    room: nat,
    i: int,
    least: usize,
    events: Seq<Event>,
) -> Descent
    decreases room, p.edges(w.state).len() - i,
{
    if i < 0 || i >= p.edges(w.state).len() {
        Descent { found: None, next: least, events }
    } else if room > 0 && !path.contains(p.edges(w.state)[i].0) && follows(p, w, i) {
        let below = descend(p, child_of(p, w, i, 0), bound, path, (room - 1) as nat);
        let told = events.push(Event::Generated) + below.events;
        if below.found is Some {
            Descent { found: below.found, next: 0, events: told }
        } else {
            descend_below(
                p,
                w,
                bound,
                path,
                room,
                i + 1,
                if below.next < least {
                    below.next
                } else {
                    least
                },
                told,
            )
        }
    } else {
        descend_below(p, w, bound, path, room, i + 1, least, events)
    }
}

/// The states of the space of `p` that are not in `path`, counted.
pub open spec fn room_beside<P: Problem>(p: &P, path: Set<<P::State as View>::V>) -> nat {
    (p.space().len() - path.len()) as nat
}

/// The descent `d` was made: it came to `r`, and its events were reported
/// after those that had been reported `before`.
pub open spec fn descent_made(
    d: Descent,
    r: (Option<Vec<usize>>, usize),
    before: Seq<Event>,
    after: Seq<Event>,
) -> bool {
    d.found == shown(r.0) && d.next == r.1 && after == before + d.events
}

/// The search from the bound `bound` on, after the events `events`: a
/// descent from the root with that bound. A solution found ends the search
/// and is reported with the memory estimate, which counts no state. Else
/// the search goes on with the value that the descent came to as its
/// bound, unless there is none or the bound has reached `max_bound`.
pub open spec fn bounds_from<P: Problem>(
    p: &P,
    max_bound: usize,
    bound: usize,
    events: Seq<Event>,
) -> Stage<<P::State as View>::V>
    decreases
            (if bound < max_bound {
                max_bound - bound
            } else {
                0
            }),
{
    let root = Waiting {
        actions: Seq::<usize>::empty(),
        state: p.start(),
        path_cost: 0,
        depth: 0,
        score: 0,
    };
    let d = descend(p, root, bound, Set::empty(), p.space().len());
    let told = events + d.events;
    let ended = Stage {
        frontier: Seq::empty(),
        explored: Set::empty(),
        best: Map::empty(),
        events: told,
        ended: Some(d.found),
    };
    if d.found is Some {
        Stage {
            events: told.push(Event::Solved(d.found.unwrap().len() as usize)).push(
                Event::Memory(kilobytes(0, vstd::layout::size_of::<P::State>())),
            ),
            ..ended
        }
    } else if d.next == usize::MAX || bound >= max_bound || d.next <= bound {
        ended
    } else {
        bounds_from(p, max_bound, d.next, told)
    }
}

/// The course of iterative-deepening A* on `p` with the limit `max_bound`:
/// the beginning is reported, and the first bound is the estimate at the
/// start.
pub open spec fn idastar_run<P: Problem>(p: &P, max_bound: usize) -> Stage<<P::State as View>::V> {
    bounds_from(p, max_bound, p.estimate(p.start()), seq![Event::Started])
}

/// One bounded depth-first descent from `node`. Returns a solution found at
/// or below the node, or else the least cost plus estimate that exceeded
/// the bound there (`usize::MAX` where none did). Such a value is one that
/// the search comes to below the node.
fn search_recursive<P: Problem, R: Recorder>(
    problem: &P,
    node: &Node<P::State>,
    bound: usize,
    explored: &mut PathSet<P::State>,
    rec: &mut R,
) -> (r: (Option<Vec<usize>>, usize))
    requires
        well_formed(problem),
        old(explored).wf(),
        tracks(problem, *node),
        simple_walk(problem, node.actions()),
        old(explored)@ == trail(problem, node.actions()),
        scores_fit(problem) || fit_beyond(problem, bound as int) ==> node.path_cost
            + problem.estimate(node.state@) <= usize::MAX,
    ensures
        final(explored).wf(),
        final(explored)@ == old(explored)@,
        descended(old(rec).counters(), final(rec).counters()),
        visited_the_way(old(rec).counters(), final(rec).counters(), node.depth, r.0),
        descent_made(
            descend(
                problem,
                waiting(*node, 0),
                bound,
                old(explored)@,
                room_beside(problem, old(explored)@),
            ),
            r,
            old(rec).log(),
            final(rec).log(),
        ),
        match r.0 {
            Some(actions) => {
                &&& is_solution(problem, actions@)
                &&& solution_cost(problem, actions@) <= bound
                &&& problem.goal(node.state@) ==> actions@ == node.actions()
            },
            None => {
                &&& r.1 > bound || r.1 == usize::MAX
                &&& node.path_cost + problem.estimate(node.state@) <= bound ==> !problem.goal(
                    node.state@,
                )
                &&& r.1 < usize::MAX ==> reaches(problem, node.actions(), bound as int, r.1 as int)
                &&& scores_fit(problem) || fit_beyond(problem, bound as int) ==> exhausted(
                    problem,
                    node.actions(),
                    bound as int,
                    r.1 as int,
                )
            },
        },
    decreases problem.space().len() - old(explored)@.len(),
{
    let ghost fits = scores_fit(problem) || fit_beyond(problem, bound as int);
    let ghost e0 = explored@;
    let ghost prefix = node.actions();
    let ghost said = old(rec).log();
    let ghost w = waiting(*node, 0);
    let ghost room = room_beside(problem, e0);
    let ghost mut told: Seq<Event> = seq![Event::Visited];
    rec.record(Event::Visited);
    proof {
        assert(rec.log() =~= said + told);
        lemma_walk_stays(problem, problem.start(), prefix);
        lemma_trail_in_space(problem, prefix);
        assert(prefix.take(prefix.len() as int) =~= prefix);
        assert(!e0.contains(node.state@)) by {
            if e0.contains(node.state@) {
                let j = choose|j: int|
                    0 <= j < prefix.len() && #[trigger] state_at(problem, prefix, j) == node.state@;
                assert(state_at(problem, prefix, j) != state_at(
                    problem,
                    prefix,
                    prefix.len() as int,
                ));
            }
        }
    }
    let h = problem.heuristic(&node.state);
    let f = match node.path_cost.checked_add(h) {
        Some(f) => f,
        None => {
            assert(!fits);
            return (None, usize::MAX);
        },
    };
    if f > bound {
        proof {
            lemma_cut_off(problem, *node, bound as int);
            lemma_cut_off_reaches(problem, *node, bound as int);
        }
        return (None, f);
    }
    if problem.is_goal(&node.state) {
        return (Some(node.extract_solution()), 0);
    }
    let copy = duplicate(&node.state);
    explored.insert(copy);
    let ghost e2 = explored@;
    proof {
        explored.lemma_finite();
        vstd::set_lib::lemma_len_subset(e2, problem.space());
        assert(e0.insert(node.state@).len() == e0.len() + 1) by {
            assert(e0.finite()) by {
                vstd::set_lib::lemma_len_subset(e0, problem.space());
            }
        }
        assert(runs_inside(problem, e2, prefix)) by {
            assert forall|j: int| 0 <= j < prefix.len() implies e2.contains(
                #[trigger] state_at(problem, prefix, j),
            ) by {
                assert(trail(problem, prefix).contains(state_at(problem, prefix, j)));
            }
        }
    }
    let mut min_bound: usize = usize::MAX;
    let successors = problem.successors(&node.state);
    let ghost whole = descend_below(problem, w, bound, e2, room, 0, usize::MAX, told);
    proof {
        assert(descend(problem, w, bound, e0, room) == whole);
        assert(room > 0);
    }
    let mut i: usize = 0;
    while i < successors.len()
        invariant
            said == old(rec).log(),
            rec.log() == said + told,
            w == waiting(*node, 0),
            room == room_beside(problem, e0),
            room > 0,
            descend_below(problem, w, bound, e2, room, i as int, min_bound, told) == whole,
            descend(problem, w, bound, e0, room) == whole,
            well_formed(problem),
            fits == (scores_fit(problem) || fit_beyond(problem, bound as int)),
            prefix == node.actions(),
            explored.wf(),
            explored@ == e2,
            e2 == e0.insert(node.state@),
            e0 == old(explored)@,
            !problem.goal(node.state@),
            e0 == trail(problem, prefix),
            !e0.contains(node.state@),
            e2.subset_of(problem.space()),
            e2.finite(),
            e2.len() == e0.len() + 1,
            e2.len() <= problem.space().len(),
            runs_inside(problem, e2, prefix),
            tracks(problem, *node),
            simple_walk(problem, prefix),
            i <= successors.len(),
            lists_edges(successors@, problem.edges(node.state@)),
            min_bound > bound || min_bound == usize::MAX,
            node.path_cost + problem.estimate(node.state@) <= bound,
            min_bound < usize::MAX ==> reaches(problem, prefix, bound as int, min_bound as int),
            fits ==> forall|a: int|
                0 <= a < i ==> exhausted(
                    problem,
                    #[trigger] prefix.push(a as usize),
                    bound as int,
                    min_bound as int,
                ),
            descended(old(rec).counters(), rec.counters()),
            old(rec).counters() matches Some(b) ==> rec.counters().unwrap().nodes_visited >= bump(
                b.nodes_visited,
            ),
            old(rec).counters() matches Some(b) ==> rec.counters().unwrap().nodes_visited >= 1 && (
            b.nodes_generated <= bump(b.nodes_visited) ==> rec.counters().unwrap().nodes_generated
                <= rec.counters().unwrap().nodes_visited),
        decreases successors.len() - i,
    {
        let ghost edge = problem.edges(node.state@)[i as int];
        let ghost before = min_bound;
        assert(successors@[i as int].0@ == edge.0);
        let cost: usize = successors[i].1;
        if !explored.contains(&successors[i].0) {
            proof {
                lemma_walk_push(problem, problem.start(), prefix, i);
                lemma_extend_thread(problem, e2, prefix, i);
                lemma_trail_push(problem, prefix, i);
                if fits {
                    let longer = prefix.push(i);
                    assert(longer.drop_last() =~= prefix);
                    assert(simple_walk(problem, longer));
                    assert(longer.len() <= usize::MAX && walk_cost(
                        problem,
                        problem.start(),
                        longer,
                    ) + problem.estimate(walk_end(problem, problem.start(), longer))
                        <= usize::MAX);
                }
            }
            if node.depth < usize::MAX && cost <= usize::MAX - node.path_cost {
                let target = duplicate(&successors[i].0);
                let child = node.child(target, i, cost);
                let ghost t1 = told;
                rec.record(Event::Generated);
                let (result, new_bound) = search_recursive(problem, &child, bound, explored, rec);
                proof {
                    assert(waiting(child, 0) =~= child_of(problem, w, i as int, 0));
                    assert(room_beside(problem, e2) == (room - 1) as nat);
                    let below = descend(
                        problem,
                        child_of(problem, w, i as int, 0),
                        bound,
                        e2,
                        (room - 1) as nat,
                    );
                    told = t1.push(Event::Generated) + below.events;
                    assert(rec.log() =~= said + told);
                    assert(follows(problem, w, i as int));
                    assert(!e2.contains(problem.edges(w.state)[i as int].0));
                    if result is Some {
                        assert(descend_below(problem, w, bound, e2, room, i as int, min_bound, t1)
                            == (Descent { found: below.found, next: 0, events: told }));
                    } else {
                        assert(descend_below(problem, w, bound, e2, room, i as int, min_bound, t1)
                            == descend_below(
                            problem,
                            w,
                            bound,
                            e2,
                            room,
                            i + 1,
                            if below.next < min_bound {
                                below.next
                            } else {
                                min_bound
                            },
                            told,
                        ));
                    }
                }
                if result.is_some() {
                    explored.remove(&node.state);
                    assert(explored@ =~= e0);
                    return (result, 0);
                }
                if new_bound < min_bound {
                    proof {
                        lemma_reaches_below(problem, *node, i, bound as int, new_bound as int);
                    }
                    min_bound = new_bound;
                }
            } else {
                assert(!fits);
            }
        } else {
            proof {
                lemma_blocked(problem, prefix, i, bound as int, min_bound as int);
            }
        }
        proof {
            if fits {
                assert forall|a: int| 0 <= a < i + 1 implies exhausted(
                    problem,
                    #[trigger] prefix.push(a as usize),
                    bound as int,
                    min_bound as int,
                ) by {
                    if a < i {
                        assert(exhausted(
                            problem,
                            prefix.push(a as usize),
                            bound as int,
                            before as int,
                        ));
                    }
                }
            }
        }
        i = i + 1;
    }
    explored.remove(&node.state);
    proof {
        assert(explored@ =~= e0);
        if fits {
            lemma_children_exhausted(problem, *node, bound as int, min_bound as int);
        }
    }
    (None, min_bound)
}

/// Under an admissible and consistent estimate, the bound that a failed
/// descent from the root proposes next is no more than any solution costs.
proof fn lemma_next_bound_is_lower<P: Problem>(p: &P, bound: int, next: int, w: Seq<usize>)
    requires
        well_formed(p),
        admissible(p),
        consistent(p),
        exhausted(p, Seq::<usize>::empty(), bound, next),
        is_solution(p, w),
    ensures
        next <= solution_cost(p, w),
{
    let s = lemma_simplify(p, w);
    let n = s.len() as int;
    let end = walk_end(p, p.start(), s);
    lemma_walk_stays(p, p.start(), s);
    assert(s.take(n) =~= s);
    assert(p.estimate(end) == 0) by {
        assert(walk_ok(p, end, Seq::<usize>::empty()));
    }
    assert(s.take(0) =~= Seq::<usize>::empty());
    if forall|j: int| 0 <= j <= n ==> #[trigger] f_at(p, s, j) <= bound {
        assert(probes(p, Seq::<usize>::empty(), s, bound));
        assert(f_at(p, s, n) <= bound);
    } else {
        let j0 = choose|j: int| 0 <= j <= n && #[trigger] f_at(p, s, j) > bound;
        let i = lemma_first_over(p, s, bound, j0);
        let head = s.take(i);
        lemma_simple_take(p, s, i);
        assert(head.take(0) =~= Seq::<usize>::empty());
        assert(head.take(i) =~= head);
        assert forall|j: int| 0 <= j < head.len() implies #[trigger] f_at(p, head, j) <= bound by {
            assert(head.take(j) =~= s.take(j));
            assert(f_at(p, s, j) <= bound);
        }
        assert(probes(p, Seq::<usize>::empty(), head, bound));
        assert(f_at(p, head, head.len() as int) == f_at(p, s, i));
        lemma_walk_split(p, p.start(), s, i);
        lemma_walk_stays(p, p.start(), head);
        lemma_consistent_walk(p, state_at(p, s, i), s.skip(i));
    }
}

/// When a descent from the root has failed and the search stops, no
/// solution stays within the limit.
proof fn lemma_nothing_affordable<P: Problem>(
    p: &P,
    bound: int,
    next: int,
    limit: int,
    w: Seq<usize>,
)
    requires
        well_formed(p),
        exhausted(p, Seq::<usize>::empty(), bound, next),
        next == usize::MAX || bound >= limit,
    ensures
        !affordable(p, w, limit),
{
    if affordable(p, w, limit) {
        lemma_affordable_found(p, bound, next, limit, w);
    }
}

/// A solution that stays within the limit is found by a descent from the
/// root, or makes it propose a bound within the limit.
proof fn lemma_affordable_found<P: Problem>(
    p: &P,
    bound: int,
    next: int,
    limit: int,
    w: Seq<usize>,
)
    requires
        well_formed(p),
        exhausted(p, Seq::<usize>::empty(), bound, next),
        affordable(p, w, limit),
    ensures
        next < usize::MAX,
        bound < limit,
{
    let s = lemma_simplify(p, w);
    let n = s.len() as int;
    assert(s.take(n) =~= s);
    assert(s.take(0) =~= Seq::<usize>::empty());
    assert forall|k: int| 0 <= k <= n implies #[trigger] f_at(p, s, k) <= limit && f_at(p, s, k)
        < usize::MAX by {
        let v = state_at(p, s, k);
        assert(crate::problem::passes(p, w, v, walk_cost(p, p.start(), s.take(k)) as int));
        let j = choose|j: int|
            0 <= j <= w.len() && #[trigger] state_at(p, w, j) == v && walk_cost(
                p,
                p.start(),
                s.take(k),
            ) <= walk_cost(p, p.start(), w.take(j));
        assert(f_at(p, w, j) <= limit);
    }
    if forall|j: int| 0 <= j <= n ==> #[trigger] f_at(p, s, j) <= bound {
        assert(probes(p, Seq::<usize>::empty(), s, bound));
        assert(f_at(p, s, n) <= bound);
    } else {
        let j0 = choose|j: int| 0 <= j <= n && #[trigger] f_at(p, s, j) > bound;
        let i = lemma_first_over(p, s, bound, j0);
        let head = s.take(i);
        lemma_simple_take(p, s, i);
        assert(head.take(0) =~= Seq::<usize>::empty());
        assert(head.take(i) =~= head);
        assert forall|j: int| 0 <= j < head.len() implies #[trigger] f_at(p, head, j) <= bound by {
            assert(head.take(j) =~= s.take(j));
            assert(f_at(p, s, j) <= bound);
        }
        assert(probes(p, Seq::<usize>::empty(), head, bound));
        assert(f_at(p, head, head.len() as int) == f_at(p, s, i));
        assert(f_at(p, s, i) <= limit);
    }
}

/// The search itself, reporting to `rec`.
///
/// A solution, where one is returned, leads from the start to a goal and
/// costs no more than a bound that the search came to try: the estimate at
/// the start, or a value that a descent with a bound below `max_bound` came
/// to. Where the start is a goal the empty solution is returned. Where the
/// search loses no node that matters, it finds a solution whenever some
/// solution keeps cost plus estimate within `max_bound` all along; where
/// moreover the estimate is admissible and consistent, no solution costs
/// less than the one it finds. The search follows its course: it returns
/// the solution found there and reports its events, in order.
pub fn bounded_descent<P: Problem, R: Recorder>(problem: &P, max_bound: usize, rec: &mut R) -> (found:
    Option<Vec<usize>>)
    requires
        well_formed(problem),
    ensures
        old(rec).counters() is Some <==> final(rec).counters() is Some,
        match found {
            Some(actions) => {
                &&& is_solution(problem, actions@)
                &&& within_reach(
                    problem,
                    max_bound as int,
                    solution_cost(problem, actions@) as int,
                )
                &&& problem.goal(problem.start()) ==> actions.len() == 0
                &&& keeps_scores(problem) && admissible(problem) && consistent(problem) ==> forall|
                    other: Seq<usize>,
                | #[trigger]
                    is_solution(problem, other) ==> solution_cost(problem, actions@)
                        <= solution_cost(problem, other)
                &&& final(rec).counters() matches Some(m) ==> m.solution_length == actions.len()
            },
            None => {
                &&& !problem.goal(problem.start())
                &&& keeps_scores(problem) ==> forall|w: Seq<usize>|
                    !#[trigger] affordable(problem, w, max_bound as int)
            },
        },
        old(rec).counters() == Some(Metrics::zero()) ==> descent_counted(
            final(rec).counters(),
            found,
        ),
        ran(idastar_run(problem, max_bound), found, old(rec).log(), final(rec).log()),
{
    let ghost said = old(rec).log();
    let ghost mut told: Seq<Event> = seq![Event::Started];
    let ghost fits = keeps_scores(problem);
    let ghost way: Seq<usize> = if !scores_fit(problem) && cost_in_sight(problem) {
        choose|w: Seq<usize>| #[trigger]
            is_solution(problem, w) && fit_beyond(problem, solution_cost(problem, w) as int)
    } else {
        Seq::empty()
    };
    let ghost counting = old(rec).counters() == Some(Metrics::zero());
    let ghost exact = fits && admissible(problem) && consistent(problem);
    let initial_state = problem.initial_state();
    let mut bound = problem.heuristic(&initial_state);
    let root = Node::new(initial_state);
    rec.record(Event::Started);
    proof {
        assert(rec.log() =~= said + told);
        let none = Seq::<usize>::empty();
        assert(none.take(0) =~= none);
        assert(probes(problem, none, none, -1));
        assert(reaches(problem, none, -1, bound as int));
        if exact {
            assert forall|w: Seq<usize>| #[trigger] is_solution(problem, w) implies bound
                <= solution_cost(problem, w) by {}
        }
    }
    loop
        invariant
            said == old(rec).log(),
            rec.log() == said + told,
            idastar_run(problem, max_bound) == bounds_from(problem, max_bound, bound, told),
            well_formed(problem),
            fits == keeps_scores(problem),
            fits && !scores_fit(problem) ==> is_solution(problem, way) && fit_beyond(
                problem,
                solution_cost(problem, way) as int,
            ),
            exact == (fits && admissible(problem) && consistent(problem)),
            tracks(problem, root),
            root.actions() == Seq::<usize>::empty(),
            root.state@ == problem.start(),
            bound >= problem.estimate(problem.start()),
            proposed(problem, max_bound as int, bound as int),
            exact ==> forall|w: Seq<usize>| #[trigger]
                is_solution(problem, w) ==> bound <= solution_cost(problem, w),
            old(rec).counters() is Some <==> rec.counters() is Some,
            counting == (old(rec).counters() == Some(Metrics::zero())),
            counting ==> rec.counters() is Some && rec.counters().unwrap() == (Metrics {
                nodes_visited: rec.counters().unwrap().nodes_visited,
                nodes_generated: rec.counters().unwrap().nodes_generated,
                ..Metrics::zero()
            }) && 1 <= rec.counters().unwrap().nodes_generated <= bump(
                rec.counters().unwrap().nodes_visited,
            ),
        decreases
                (if bound < max_bound {
                    max_bound - bound
                } else {
                    0
                }),
    {
        let mut explored: PathSet<P::State> = PathSet::new();
        proof {
            assert(trail(problem, root.actions()) =~= Set::<<P::State as View>::V>::empty());
        }
        let ghost t0 = told;
        let ghost d = descend(
            problem,
            waiting(root, 0),
            bound,
            Set::empty(),
            problem.space().len(),
        );
        proof {
            if fits && !scores_fit(problem) {
                lemma_fit_beyond_less(
                    problem,
                    solution_cost(problem, way) as int,
                    bound as int,
                );
            }
        }
        let (result, new_bound) = search_recursive(problem, &root, bound, &mut explored, rec);
        proof {
            assert(room_beside(problem, Set::<<P::State as View>::V>::empty())
                == problem.space().len());
            assert(waiting(root, 0) =~= (Waiting {
                actions: Seq::<usize>::empty(),
                state: problem.start(),
                path_cost: 0,
                depth: 0,
                score: 0,
            }));
            told = t0 + d.events;
            assert(rec.log() =~= said + told);
        }
        match result {
            Some(solution) => {
                rec.record(Event::Solved(solution.len()));
                let kb = memory_estimate_kb(explored.len(), 0, core::mem::size_of::<P::State>());
                rec.record(Event::Memory(kb));
                proof {
                    lemma_kilobytes_of_nothing(vstd::layout::size_of::<P::State>());
                    told = told.push(Event::Solved(solution.len())).push(Event::Memory(kb));
                    assert(rec.log() =~= said + told);
                    assert(bounds_from(problem, max_bound, bound, t0).events =~= told);
                }
                return Some(solution);
            },
            None => {},
        }
        if new_bound == usize::MAX || bound >= max_bound {
            proof {
                assert(bounds_from(problem, max_bound, bound, t0).events =~= told);
                if fits {
                    assert forall|w: Seq<usize>| !#[trigger] affordable(
                        problem,
                        w,
                        max_bound as int,
                    ) by {
                        lemma_nothing_affordable(
                            problem,
                            bound as int,
                            new_bound as int,
                            max_bound as int,
                            w,
                        );
                    }
                }
            }
            return None;
        }
        proof {
            if exact {
                assert forall|w: Seq<usize>| #[trigger] is_solution(problem, w) implies new_bound
                    <= solution_cost(problem, w) by {
                    lemma_next_bound_is_lower(problem, bound as int, new_bound as int, w);
                }
            }
        }
        bound = new_bound;
    }
}

/// What iterative-deepening A* with the limit `max_bound` finds: a result
/// that answers the problem and follows the course of the search, with a
/// solution that costs no more than a bound that the search came to try; a
/// success without actions where the start is a goal; where the search
/// loses no node that matters, a success whenever some solution stays
/// within the limit; and, where moreover the estimate is admissible and
/// consistent, a solution that none is cheaper than.
pub open spec fn idastar_finds<P: Problem>(p: &P, max_bound: usize, r: SearchResult) -> bool {
    &&& r.answers(p)
    &&& follows_course(idastar_run(p, max_bound), r)
    &&& r.solution matches Some(actions) ==> within_reach(
        p,
        max_bound as int,
        solution_cost(p, actions@) as int,
    )
    &&& p.goal(p.start()) ==> r.solved_in_place()
    &&& keeps_scores(p) && r.status != STATUS_SUCCESS ==> forall|w: Seq<usize>|
        !#[trigger] affordable(p, w, max_bound as int)
    &&& keeps_scores(p) && admissible(p) && consistent(p) ==> (r.solution matches Some(actions)
        ==> cheapest(p, actions@))
}

impl IDAStar {
    /// The search, reporting to `shared` as it goes. What `shared` recorded
    /// before is forgotten; afterwards it has recorded the events of the
    /// search, and the counters of the result are what it counted.
    pub fn search_reporting<P: Problem>(&self, problem: &P, shared: &mut SharedMetrics) -> (r:
        SearchResult)
        requires
            well_formed(problem),
        ensures
            idastar_finds(problem, self.max_bound, r),
            descent_counts(r.metrics, r.solution),
            final(shared).log() == idastar_run(problem, self.max_bound).events,
            final(shared).counters() == Some(r.metrics.untimed()),
    {
        shared.restart();
        let found = bounded_descent(problem, self.max_bound, shared);
        proof {
            assert(Seq::<Event>::empty() + idastar_run(problem, self.max_bound).events =~= idastar_run(problem, self.max_bound).events);
        }
        conclude(found, shared.counted())
    }
}

impl SearchAlgorithm for IDAStar {
    /// Iterative-deepening A*. Where the start is a goal it succeeds with no
    /// action. On a problem whose scores fit in machine words it succeeds
    /// whenever some solution keeps cost plus estimate within `max_bound`;
    /// where moreover the estimate is admissible and consistent, no
    /// solution costs less than the one it returns.
    fn search<P: Problem>(&self, problem: &P) -> (r: SearchResult)
        ensures
            idastar_finds(problem, self.max_bound, r),
            descent_counts(r.metrics, r.solution),
    {
        let start = Instant::now();
        let mut tally = Tally::new();
        let found = bounded_descent(problem, self.max_bound, &mut tally);
        let mut metrics = tally.counts();
        proof {
            assert(Seq::<Event>::empty() + idastar_run(problem, self.max_bound).events =~= idastar_run(problem, self.max_bound).events);
        }
        metrics.time_ms = millis_since(&start);
        conclude(found, metrics)
    }

    /// The same search, with the same result: `shared` is told of each event
    /// as the search goes, and the counters of the result are what was told.
    fn search_with_shared_metrics<P: Problem>(&self, problem: &P, shared: SharedMetrics) -> (r:
        SearchResult)
        ensures
            idastar_finds(problem, self.max_bound, r),
            descent_counts(r.metrics, r.solution),
    {
        let mut shared = shared;
        self.search_reporting(problem, &mut shared)
    }

    fn name(&self) -> (r: &str)
        ensures
            r@ == "IDA*"@,
    {
        "IDA*"
    }
}

} // verus!
