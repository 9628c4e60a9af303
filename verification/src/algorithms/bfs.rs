//! Breadth-first search.
use crate::algorithms::{
    conclude, holds, holds_within, lemma_extend_thread, lemma_runs_inside_larger, threads, tracks,
    SearchAlgorithm, SearchResult, STATUS_SUCCESS,
};
use crate::algorithms::run::{
    follows_course,
    after_steps, child_of, estimate_kb, follows, halts, last_stage, lemma_ends_once,
    lemma_waits_lined_up, lined_up, ran, waiting, waits, Stage, Waiting,
};
use crate::benchmarking::metrics::{
    capped_count, kilobytes, memory_estimate_kb, Event, Metrics, Recorder, Tally,
};
use crate::benchmarking::shared::SharedMetrics;
use crate::clock::millis_since;
use crate::explored::ExploredSet;
use crate::node::Node;
use crate::problem::{
    duplicate, is_solution, lemma_first_outside, lemma_walk_push, lemma_walk_stays, lemma_walk_take,
    fit_up_to, reachable, runs_inside, shortest, solvable, state_at, walk_end, walk_ok,
    walks_fit, well_formed, within_sight, Problem,
};
use std::collections::VecDeque;
use std::time::Instant;
use vstd::prelude::*;

verus! {

/// Breadth-first search: a first-in-first-out frontier and a permanent set
/// of explored states. A successor is generated only if its state is neither
/// explored nor already waiting in the frontier.
pub struct BFS;

/// What holds of the frontier and the explored set between two expansions.
pub open spec fn queue_inv<P: Problem>(
    p: &P,
    explored: Set<<P::State as View>::V>,
    frontier: Seq<Node<P::State>>,
) -> bool {
    &&& explored.subset_of(p.space())
    &&& forall|s: <P::State as View>::V| explored.contains(s) ==> !p.goal(s)
    &&& forall|k: int|
        0 <= k < frontier.len() ==> tracks(p, #[trigger] frontier[k]) && !explored.contains(
            frontier[k].state@,
        )
    &&& forall|i: int, j: int|
        0 <= i < j < frontier.len() ==> (#[trigger] frontier[i]).state@ != (
        #[trigger] frontier[j]).state@
    &&& forall|i: int, j: int|
        0 <= i <= j < frontier.len() ==> (#[trigger] frontier[i]).depth <= (
        #[trigger] frontier[j]).depth
    &&& forall|k: int|
        0 <= k < frontier.len() ==> (#[trigger] frontier[k]).depth <= frontier[0].depth + 1
    &&& p.goal(p.start()) ==> frontier.len() == 1 && frontier[0].depth == 0
}

/// The frontier separates the explored states from all others: every edge
/// out of an explored state ends in an explored or a waiting state, and the
/// first state outside the explored set on any walk from the start waits in
/// the frontier, no deeper than the walk reaches it.
pub open spec fn queue_covers<P: Problem>(
    p: &P,
    explored: Set<<P::State as View>::V>,
    frontier: Seq<Node<P::State>>,
) -> bool {
    &&& forall|k: int| 0 <= k < frontier.len() ==> threads(p, explored, #[trigger] frontier[k])
    &&& forall|s: <P::State as View>::V, a: int|
        explored.contains(s) && 0 <= a < p.edges(s).len() ==> explored.contains(
            (#[trigger] p.edges(s)[a]).0,
        ) || holds(frontier, p.edges(s)[a].0)
    &&& forall|w: Seq<usize>| #[trigger]
        runs_inside(p, explored, w) && !explored.contains(walk_end(p, p.start(), w))
            ==> holds_within(frontier, walk_end(p, p.start(), w), w.len() as int)
}

/// What the frontier is while the node `t` is being expanded: what was left
/// of the old frontier `before`, followed by children of `t`.
pub open spec fn expanding<P: Problem>(
    p: &P,
    explored: Set<<P::State as View>::V>,
    before: Seq<Node<P::State>>,
    now: Seq<Node<P::State>>,
    sure: bool,
) -> bool {
    &&& before.len() > 0
    &&& now.len() >= before.len() - 1
    &&& forall|k: int| 0 <= k < before.len() - 1 ==> #[trigger] now[k] == before[k + 1]
    &&& forall|k: int|
        before.len() - 1 <= k < now.len() ==> {
            &&& tracks(p, #[trigger] now[k])
            &&& !explored.contains(now[k].state@)
            &&& now[k].depth == before[0].depth + 1
            &&& sure ==> threads(p, explored, now[k])
        }
    &&& forall|i: int, j: int|
        0 <= i < j < now.len() ==> (#[trigger] now[i]).state@ != (#[trigger] now[j]).state@
}

/// Expanding the first node of the frontier keeps the frontier in order.
proof fn lemma_step_inv<P: Problem>(
    p: &P,
    e0: Set<<P::State as View>::V>,
    f0: Seq<Node<P::State>>,
    e2: Set<<P::State as View>::V>,
    f2: Seq<Node<P::State>>,
    sure: bool,
)
    requires
        well_formed(p),
        queue_inv(p, e0, f0),
        expanding(p, e2, f0, f2, sure),
        !p.goal(f0[0].state@),
        e2 == e0.insert(f0[0].state@),
    ensures
        queue_inv(p, e2, f2),
{
    let t = f0[0];
    lemma_walk_stays(p, p.start(), t.actions());
    assert(!p.goal(p.start())) by {
        if p.goal(p.start()) {
            assert(tracks(p, f0[0]));
            assert(f0[0].actions().len() == 0);
        }
    }
    assert forall|k: int| 0 <= k < f2.len() implies tracks(p, #[trigger] f2[k]) && !e2.contains(
        f2[k].state@,
    ) by {
        if k < f0.len() - 1 {
            assert(f2[k] == f0[k + 1]);
            assert(f0[k + 1].state@ != f0[0].state@);
        }
    }
    assert forall|k: int| 0 <= k < f2.len() implies (#[trigger] f2[k]).depth <= f2[0].depth
        + 1 && t.depth <= f2[k].depth <= t.depth + 1 by {
        if 0 < f0.len() - 1 {
            assert(f2[0] == f0[1]);
            assert(f0[0].depth <= f0[1].depth);
        }
        if k < f0.len() - 1 {
            assert(f2[k] == f0[k + 1]);
            assert(f0[0].depth <= f0[k + 1].depth);
        }
    }
    assert forall|i: int, j: int| 0 <= i <= j < f2.len() implies (#[trigger] f2[i]).depth <= (
    #[trigger] f2[j]).depth by {
        if j < f0.len() - 1 {
            assert(f2[i] == f0[i + 1]);
            assert(f2[j] == f0[j + 1]);
        } else {
            assert(t.depth <= f2[i].depth <= t.depth + 1);
        }
    }
}

/// Expanding the first node of the frontier keeps the frontier between the
/// explored states and all others.
proof fn lemma_step_covers<P: Problem>(
    p: &P,
    e0: Set<<P::State as View>::V>,
    f0: Seq<Node<P::State>>,
    e2: Set<<P::State as View>::V>,
    f2: Seq<Node<P::State>>,
)
    requires
        well_formed(p),
        queue_inv(p, e0, f0),
        queue_covers(p, e0, f0),
        expanding(p, e2, f0, f2, true),
        e2 == e0.insert(f0[0].state@),
        forall|a: int|
            0 <= a < p.edges(f0[0].state@).len() ==> e2.contains(
                (#[trigger] p.edges(f0[0].state@)[a]).0,
            ) || holds(f2, p.edges(f0[0].state@)[a].0),
    ensures
        queue_covers(p, e2, f2),
{
    let t = f0[0];
    assert forall|k: int| 0 <= k < f2.len() implies threads(p, e2, #[trigger] f2[k]) by {
        if k < f0.len() - 1 {
            assert(f2[k] == f0[k + 1]);
            assert(threads(p, e0, f0[k + 1]));
            lemma_runs_inside_larger(p, e0, e2, f0[k + 1].actions());
        }
    }
    assert forall|k: int| 0 <= k < f2.len() implies (#[trigger] f2[k]).depth <= t.depth + 1 by {
        if k < f0.len() - 1 {
            assert(f2[k] == f0[k + 1]);
        }
    }
    // Whatever waited behind `t` still waits, one place further on.
    assert forall|v: <P::State as View>::V| holds(f0, v) && v != t.state@ implies holds(f2, v) by {
        let k = choose|k: int| 0 <= k < f0.len() && (#[trigger] f0[k]).state@ == v;
        assert(f2[k - 1] == f0[k]);
    }
    assert forall|s: <P::State as View>::V, a: int|
        e2.contains(s) && 0 <= a < p.edges(s).len() implies e2.contains(
        (#[trigger] p.edges(s)[a]).0,
    ) || holds(f2, p.edges(s)[a].0) by {
        if s != t.state@ {
            assert(e0.contains(s));
        }
    }
    assert forall|w: Seq<usize>| #[trigger]
        runs_inside(p, e2, w) && !e2.contains(walk_end(p, p.start(), w)) implies holds_within(
        f2,
        walk_end(p, p.start(), w),
        w.len() as int,
    ) by {
        let end = walk_end(p, p.start(), w);
        if runs_inside(p, e0, w) {
            assert(holds_within(f0, end, w.len() as int));
            let k = choose|k: int|
                0 <= k < f0.len() && (#[trigger] f0[k]).state@ == end && f0[k].depth <= w.len();
            assert(f2[k - 1] == f0[k]);
        } else {
            // The walk passes through `t`, so it is longer than `t` is deep.
            let j = choose|j: int| 0 <= j < w.len() && !e0.contains(#[trigger] state_at(p, w, j));
            lemma_walk_take(p, p.start(), w, j);
            let i = lemma_first_outside(p, e0, w.take(j));
            assert(w.take(j).take(i) =~= w.take(i));
            assert(e2.contains(state_at(p, w, i)));
            assert(holds_within(f0, state_at(p, w, i), w.take(i).len() as int));
            let k0 = choose|k: int|
                0 <= k < f0.len() && (#[trigger] f0[k]).state@ == state_at(p, w, i) && f0[k].depth
                    <= w.take(i).len();
            assert(k0 == 0);
            assert(t.depth + 1 <= w.len());
            // Its last edge leaves an explored state.
            let last = w.len() - 1;
            let u = state_at(p, w, last);
            assert(w.take(last) =~= w.drop_last());
            assert(e2.contains(u));
            assert(end == p.edges(u)[w.last() as int].0);
            assert(holds(f2, end));
            let k2 = choose|k: int| 0 <= k < f2.len() && (#[trigger] f2[k]).state@ == end;
            assert(f2[k2].depth <= t.depth + 1);
        }
    }
}

/// The counters while the search runs, where it started from zero: every
/// explored state was visited once, and every explored or waiting state
/// was generated once.
pub open spec fn queue_counts(m: Metrics, explored: nat, waiting: nat) -> bool {
    &&& m.nodes_visited == capped_count(explored as int)
    &&& m.nodes_generated == capped_count((explored + waiting) as int)
    &&& m.max_frontier_size <= m.nodes_generated
    &&& m.solution_length == 0
    &&& m.memory_kb == 0
    &&& m.time_ms == 0
}

/// The counters at the end of a search that started from zero. Each state
/// is generated at most once and visited after it was generated; with a
/// solution, the states that lead to it were all visited: one more than it
/// has actions. The
/// memory estimate counts the states generated before the one that was
/// visited last; where no solution was found, those are all states visited.
pub open spec fn bfs_counts(m: Metrics, found: Option<Vec<usize>>, state_size: nat) -> bool {
    &&& 1 <= m.nodes_visited <= m.nodes_generated
    &&& m.max_frontier_size <= m.nodes_generated
    &&& match found {
        Some(actions) => {
            &&& m.solution_length == actions.len()
            &&& capped_count(actions.len() + 1) <= m.nodes_visited
            &&& m.nodes_generated < usize::MAX ==> m.memory_kb == kilobytes(
                (m.nodes_generated - 1) as nat,
                state_size,
            )
        },
        None => {
            &&& m.solution_length == 0
            &&& m.nodes_visited == m.nodes_generated
            &&& m.nodes_visited < usize::MAX ==> m.memory_kb == kilobytes(
                m.nodes_visited as nat,
                state_size,
            )
        },
    }
}

/// The counters are known, no time has been recorded, and the counts are
/// those of a search that has ended.
pub open spec fn counted(
    counters: Option<Metrics>,
    found: Option<Vec<usize>>,
    state_size: nat,
) -> bool {
    counters matches Some(m) && m.time_ms == 0 && bfs_counts(m, found, state_size)
}

/// Whether a node in the state of `state` waits in the frontier.
fn queued<S: View + PartialEq>(frontier: &VecDeque<Node<S>>, state: &S) -> (r: bool)
    requires
        crate::problem::eq_by_view::<S>(),
    ensures
        r == holds(frontier@, state@),
{
    let n: usize = frontier.len();
    let mut k: usize = 0;
    while k < n
        invariant
            crate::problem::eq_by_view::<S>(),
            n == frontier.len(),
            k <= n,
            forall|j: int| 0 <= j < k ==> (#[trigger] frontier@[j]).state@ != state@,
        decreases n - k,
    {
        if frontier[k].state == *state {
            return true;
        }
        k = k + 1;
    }
    false
}

/// While a solution is not found, a node no deeper than the solution has
/// actions waits at the head of the queue.
proof fn lemma_front_is_near<P: Problem>(
    p: &P,
    explored: Set<<P::State as View>::V>,
    frontier: Seq<Node<P::State>>,
    way: Seq<usize>,
)
    requires
        queue_inv(p, explored, frontier),
        queue_covers(p, explored, frontier),
        is_solution(p, way),
    ensures
        frontier.len() > 0,
        frontier[0].depth <= way.len(),
{
    let i = lemma_first_outside(p, explored, way);
    assert(holds_within(frontier, walk_end(p, p.start(), way.take(i)), way.take(i).len() as int));
    let k = choose|k: int|
        0 <= k < frontier.len() && (#[trigger] frontier[k]).state@ == walk_end(
            p,
            p.start(),
            way.take(i),
        ) && frontier[k].depth <= way.take(i).len();
    assert(frontier[0].depth <= frontier[k].depth);
}

/// How breadth-first search begins: the root waits, nothing is explored,
/// and the beginning has been reported.
pub open spec fn bfs_first<P: Problem>(p: &P) -> Stage<<P::State as View>::V> {
    Stage {
        frontier: seq![
            Waiting {
                actions: Seq::<usize>::empty(),
                state: p.start(),
                path_cost: 0,
                depth: 0,
                score: 0,
            },
        ],
        explored: Set::empty(),
        best: Map::empty(),
        events: seq![Event::Started],
        ended: None,
    }
}

/// Breadth-first search expands `w` from its edge `i` on: each edge to a
/// state that is neither explored nor waiting, and that can be followed,
/// puts a node at the end of the queue, which is reported.
pub open spec fn bfs_grow<P: Problem>(
    p: &P,
    w: Waiting<<P::State as View>::V>,
    s: Stage<<P::State as View>::V>,
    i: int,
) -> Stage<<P::State as View>::V>
    decreases p.edges(w.state).len() - i,
{
    if i < 0 || i >= p.edges(w.state).len() {
        s
    } else if !s.explored.contains(p.edges(w.state)[i].0) && !waits(
        s.frontier,
        p.edges(w.state)[i].0,
    ) && follows(p, w, i) {
        bfs_grow(
            p,
            w,
            Stage {
                frontier: s.frontier.push(child_of(p, w, i, 0)),
                events: s.events.push(Event::Generated),
                ..s
            },
            i + 1,
        )
    } else {
        bfs_grow(p, w, s, i + 1)
    }
}

/// One step of breadth-first search: the node at the head of the queue is
/// taken and reported. In a goal state the search ends with its actions;
/// else its state is explored and it is expanded. With an empty queue the
/// search ends without a solution.
pub open spec fn bfs_step<P: Problem>(p: &P, s: Stage<<P::State as View>::V>) -> Stage<
    <P::State as View>::V,
> {
    if s.ended is Some {
        s
    } else if s.frontier.len() == 0 {
        Stage {
            events: s.events.push(Event::Memory(estimate_kb(p, s.explored, 0))),
            ended: Some(None),
            ..s
        }
    } else {
        let w = s.frontier[0];
        let rest = s.frontier.subrange(1, s.frontier.len() as int);
        let seen = s.events.push(Event::Visited);
        if p.goal(w.state) {
            Stage {
                frontier: rest,
                events: seen.push(Event::Solved(w.actions.len() as usize)).push(
                    Event::Memory(estimate_kb(p, s.explored, rest.len())),
                ),
                ended: Some(Some(w.actions)),
                ..s
            }
        } else {
            let grown = bfs_grow(
                p,
                w,
                Stage { frontier: rest, explored: s.explored.insert(w.state), events: seen, ..s },
                0,
            );
            Stage { events: grown.events.push(Event::Frontier(grown.frontier.len() as usize)), ..grown }
        }
    }
}

/// The steps of breadth-first search.
pub open spec fn bfs_steps<P: Problem>(p: &P) -> spec_fn(Stage<<P::State as View>::V>) -> Stage<
    <P::State as View>::V,
> {
    |s: Stage<<P::State as View>::V>| bfs_step(p, s)
}

/// The course of breadth-first search on `p`: the stage in which it ends.
/// It holds the solution found, if any, and every event reported, in
/// order.
pub open spec fn bfs_run<P: Problem>(p: &P) -> Stage<<P::State as View>::V> {
    last_stage(bfs_first(p), bfs_steps(p))
}

/// The stage of a breadth-first search that has not ended, with the queue
/// `queue`, the states `explored` explored and the events `told` reported.
pub open spec fn bfs_stage<S: View>(queue: Seq<Node<S>>, explored: Set<S::V>, told: Seq<Event>) -> Stage<
    S::V,
> {
    Stage {
        frontier: lined_up(queue),
        explored,
        best: Map::empty(),
        events: told,
        ended: None,
    }
}

/// The search itself, reporting to `rec`.
///
/// A solution, where one is returned, leads from the start to a goal. Where
/// the start is a goal the empty solution is returned. On a problem whose
/// walks fit in machine words, or where some solution is in sight, the
/// search finds a solution whenever there is one, and no solution is
/// shorter than the one it finds. The search follows its course: it
/// returns the solution found there and reports its events, in order.
pub fn breadth_first<P: Problem, R: Recorder>(problem: &P, rec: &mut R) -> (found: Option<
    Vec<usize>,
>)
    requires
        well_formed(problem),
    ensures
        old(rec).counters() is Some <==> final(rec).counters() is Some,
        match found {
            Some(actions) => {
                &&& is_solution(problem, actions@)
                &&& problem.goal(problem.start()) ==> actions.len() == 0
                &&& walks_fit(problem) || within_sight(problem) ==> forall|other: Seq<usize>|
                    #[trigger] is_solution(problem, other) ==> actions.len() <= other.len()
                &&& final(rec).counters() matches Some(m) ==> m.solution_length == actions.len()
            },
            None => {
                &&& !problem.goal(problem.start())
                &&& walks_fit(problem) || within_sight(problem) ==> !solvable(problem)
            },
        },
        old(rec).counters() == Some(Metrics::zero()) ==> counted(
            final(rec).counters(),
            found,
            vstd::layout::size_of::<P::State>(),
        ),
        ran(bfs_run(problem), found, old(rec).log(), final(rec).log()),
        found is None && walks_fit(problem) && old(rec).counters() == Some(Metrics::zero())
            ==> final(rec).counters().unwrap().nodes_visited == capped_count(
            reachable(problem).len() as int,
        ),
{
    let ghost first = bfs_first(problem);
    let ghost steps = bfs_steps(problem);
    let ghost said = old(rec).log();
    let ghost mut told: Seq<Event> = first.events;
    let ghost mut n: nat = 0;
    let ghost sure = walks_fit(problem) || within_sight(problem);
    let ghost way: Seq<usize> = if !walks_fit(problem) && within_sight(problem) {
        choose|w: Seq<usize>| #[trigger]
            is_solution(problem, w) && fit_up_to(problem, w.len() as int + 1)
    } else {
        Seq::empty()
    };
    let ghost reach: int = if walks_fit(problem) {
        usize::MAX as int + 1
    } else {
        way.len() as int + 1
    };
    let ghost counting = old(rec).counters() == Some(Metrics::zero());
    let root = Node::new(problem.initial_state());
    let mut frontier: VecDeque<Node<P::State>> = VecDeque::new();
    frontier.push_back(root);
    let mut explored: ExploredSet<P::State> = ExploredSet::new();
    rec.record(Event::Started);
    proof {
        assert(root.actions().take(0) =~= root.actions());
        assert(frontier@[0] == root);
        assert(queue_inv(problem, explored@, frontier@));
        if sure {
            assert forall|w: Seq<usize>| #[trigger]
                runs_inside(problem, explored@, w) && !explored@.contains(
                    walk_end(problem, problem.start(), w),
                ) implies holds_within(
                frontier@,
                walk_end(problem, problem.start(), w),
                w.len() as int,
            ) by {
                if w.len() > 0 {
                    assert(explored@.contains(state_at(problem, w, 0)));
                }
            }
            assert(queue_covers(problem, explored@, frontier@));
        }
        explored.lemma_finite();
        vstd::set_lib::lemma_len_subset(explored@, problem.space());
        assert(rec.log() =~= said + told);
        assert(bfs_stage(frontier@, explored@, told) =~= first);
        assert(halts(steps));
    }
    while frontier.len() > 0
        invariant
            first == bfs_first(problem),
            steps == bfs_steps(problem),
            halts(steps),
            said == old(rec).log(),
            rec.log() == said + told,
            bfs_stage(frontier@, explored@, told) == after_steps(first, steps, n),
            well_formed(problem),
            sure == (walks_fit(problem) || within_sight(problem)),
            sure ==> fit_up_to(problem, reach),
            sure && !walks_fit(problem) ==> is_solution(problem, way) && reach == way.len() + 1,
            walks_fit(problem) ==> reach == usize::MAX + 1,
            sure && frontier@.len() > 0 ==> frontier@[0].depth < reach,
            explored.wf(),
            queue_inv(problem, explored@, frontier@),
            sure ==> queue_covers(problem, explored@, frontier@),
            explored@.len() <= problem.space().len(),
            old(rec).counters() is Some <==> rec.counters() is Some,
            counting == (old(rec).counters() == Some(Metrics::zero())),
            counting ==> rec.counters() is Some && queue_counts(
                rec.counters().unwrap(),
                explored@.len(),
                frontier@.len(),
            ),
            frontier@.len() > 0 || explored@.len() > 0,
            forall|k: int|
                0 <= k < frontier@.len() ==> (#[trigger] frontier@[k]).depth <= explored@.len(),
            explored@.subset_of(reachable(problem)),
        decreases problem.space().len() - explored@.len(),
    {
        let ghost f0 = frontier@;
        let ghost e0 = explored@;
        let ghost s0 = after_steps(first, steps, n);
        let ghost t0 = told;
        let node = frontier.pop_front().unwrap();
        let ghost f_rest = frontier@;
        let ghost w = waiting(node, 0);
        rec.record(Event::Visited);
        proof {
            told = told.push(Event::Visited);
            assert(rec.log() =~= said + told);
            assert(lined_up(f_rest) =~= lined_up(f0).subrange(1, f0.len() as int));
            assert(w == s0.frontier[0]);
            assert(after_steps(first, steps, n + 1) == bfs_step(problem, s0));
            assert(node == f0[0]);
            assert(tracks(problem, f0[0]));
            lemma_walk_stays(problem, problem.start(), node.actions());
        }
        if problem.is_goal(&node.state) {
            let solution = node.extract_solution();
            rec.record(Event::Solved(solution.len()));
            let kb = memory_estimate_kb(
                explored.len(),
                frontier.len(),
                core::mem::size_of::<P::State>(),
            );
            rec.record(Event::Memory(kb));
            proof {
                told = told.push(Event::Solved(solution.len())).push(Event::Memory(kb));
                assert(rec.log() =~= said + told);
                let last = bfs_step(problem, s0);
                assert(last.events =~= told);
                assert(last.ended == Some(Some(solution@)));
                lemma_ends_once(first, steps, n + 1);
                if sure {
                    assert forall|other: Seq<usize>| #[trigger]
                        is_solution(problem, other) implies solution.len() <= other.len() by {
                        let i = lemma_first_outside(problem, e0, other);
                        assert(holds_within(
                            f0,
                            walk_end(problem, problem.start(), other.take(i)),
                            other.take(i).len() as int,
                        ));
                        let k = choose|k: int|
                            0 <= k < f0.len() && (#[trigger] f0[k]).state@ == walk_end(
                                problem,
                                problem.start(),
                                other.take(i),
                            ) && f0[k].depth <= other.take(i).len();
                        assert(f0[0].depth <= f0[k].depth);
                    }
                }
            }
            return Some(solution);
        }
        let copy = duplicate(&node.state);
        explored.insert(copy);
        let ghost e2 = explored@;
        proof {
            assert(e2 == e0.insert(node.state@));
            assert(reachable(problem).contains(node.state@)) by {
                assert(walk_ok(problem, problem.start(), node.actions()));
            }
            assert(e2.subset_of(reachable(problem)));
            explored.lemma_finite();
            vstd::set_lib::lemma_len_subset(e2, problem.space());
            assert forall|k: int| 0 <= k < f0.len() - 1 implies #[trigger] frontier@[k] == f0[k
                + 1] by {}
            assert forall|i: int, j: int| 0 <= i < j < frontier@.len() implies (
            #[trigger] frontier@[i]).state@ != (#[trigger] frontier@[j]).state@ by {
                assert(frontier@[i] == f0[i + 1]);
                assert(frontier@[j] == f0[j + 1]);
            }
            assert(expanding(problem, e2, f0, frontier@, sure));
            if sure {
                assert(threads(problem, e0, f0[0]));
                lemma_runs_inside_larger(problem, e0, e2, node.actions());
            }
        }
        let successors = problem.successors(&node.state);
        let ghost opened = bfs_stage(f_rest, e2, told);
        let mut i: usize = 0;
        while i < successors.len()
            invariant
                said == old(rec).log(),
                rec.log() == said + told,
                w == waiting(node, 0),
                bfs_grow(problem, w, bfs_stage(frontier@, e2, told), i as int) == bfs_grow(
                    problem,
                    w,
                    opened,
                    0,
                ),
                well_formed(problem),
                sure == (walks_fit(problem) || within_sight(problem)),
                sure ==> fit_up_to(problem, reach),
                sure ==> node.depth < reach,
                explored.wf(),
                explored@ == e2,
                e2.contains(node.state@),
                i <= successors.len(),
                crate::problem::lists_edges(successors@, problem.edges(node.state@)),
                tracks(problem, node),
                sure ==> threads(problem, e2, node),
                node == f0[0],
                expanding(problem, e2, f0, frontier@, sure),
                sure ==> forall|a: int|
                    0 <= a < i ==> e2.contains((#[trigger] problem.edges(node.state@)[a]).0)
                        || holds(frontier@, problem.edges(node.state@)[a].0),
                old(rec).counters() is Some <==> rec.counters() is Some,
                counting == (old(rec).counters() == Some(Metrics::zero())),
                e2.finite(),
                counting ==> rec.counters() is Some && queue_counts(
                    rec.counters().unwrap(),
                    e2.len(),
                    frontier@.len(),
                ),
                node.depth < e2.len(),
                forall|k: int|
                    0 <= k < frontier@.len() ==> (#[trigger] frontier@[k]).depth <= e2.len(),
            decreases successors.len() - i,
        {
            let ghost f1 = frontier@;
            let ghost edge = problem.edges(node.state@)[i as int];
            assert(successors@[i as int].0@ == edge.0);
            let cost: usize = successors[i].1;
            proof {
                lemma_waits_lined_up(f1, edge.0);
            }
            if !explored.contains(&successors[i].0) && !queued(&frontier, &successors[i].0) {
                proof {
                    lemma_walk_push(problem, problem.start(), node.actions(), i);
                    if sure {
                        lemma_extend_thread(problem, e2, node.actions(), i);
                    }
                }
                if node.depth < usize::MAX && cost <= usize::MAX - node.path_cost {
                    let target = duplicate(&successors[i].0);
                    let child = node.child(target, i, cost);
                    let ghost t2 = told;
                    frontier.push_back(child);
                    rec.record(Event::Generated);
                    proof {
                        told = told.push(Event::Generated);
                        assert(rec.log() =~= said + told);
                        assert(waiting(child, 0) =~= child_of(problem, w, i as int, 0));
                        assert(lined_up(frontier@) =~= lined_up(f1).push(waiting(child, 0)));
                        assert(bfs_stage(frontier@, e2, told) =~= (Stage {
                            frontier: bfs_stage(f1, e2, t2).frontier.push(
                                child_of(problem, w, i as int, 0),
                            ),
                            events: t2.push(Event::Generated),
                            ..bfs_stage(f1, e2, t2)
                        }));
                        assert(frontier@ == f1.push(child));
                        assert(child.state@ == edge.0);
                        assert(tracks(problem, child));
                        assert forall|k: int| 0 <= k < f0.len() - 1 implies #[trigger] frontier@[k]
                            == f0[k + 1] by {
                            assert(frontier@[k] == f1[k]);
                        }
                        assert forall|a: int, b: int| 0 <= a < b < frontier@.len() implies (
                        #[trigger] frontier@[a]).state@ != (#[trigger] frontier@[b]).state@ by {
                            if b < f1.len() {
                                assert(frontier@[a] == f1[a]);
                                assert(frontier@[b] == f1[b]);
                            } else {
                                assert(frontier@[a] == f1[a]);
                            }
                        }
                        assert forall|k: int| f0.len() - 1 <= k < frontier@.len() implies {
                            &&& tracks(problem, #[trigger] frontier@[k])
                            &&& !e2.contains(frontier@[k].state@)
                            &&& frontier@[k].depth == f0[0].depth + 1
                            &&& sure ==> threads(problem, e2, frontier@[k])
                        } by {
                            if k < f1.len() {
                                assert(frontier@[k] == f1[k]);
                            }
                        }
                        assert(holds(frontier@, edge.0)) by {
                            assert(frontier@[f1.len() as int].state@ == edge.0);
                        }
                    }
                }
            }
            proof {
                if sure {
                    assert forall|a: int| 0 <= a < i + 1 implies e2.contains(
                        (#[trigger] problem.edges(node.state@)[a]).0,
                    ) || holds(frontier@, problem.edges(node.state@)[a].0) by {
                        let v = problem.edges(node.state@)[a].0;
                        if holds(f1, v) {
                            let k = choose|k: int| 0 <= k < f1.len() && (#[trigger] f1[k]).state@ == v;
                            assert(frontier@[k] == f1[k]);
                        }
                    }
                }
            }
            i = i + 1;
        }
        rec.record(Event::Frontier(frontier.len()));
        proof {
            if sure && !walks_fit(problem) {
                lemma_step_inv(problem, e0, f0, e2, frontier@, sure);
                lemma_step_covers(problem, e0, f0, e2, frontier@);
                lemma_front_is_near(problem, e2, frontier@, way);
            }
            told = told.push(Event::Frontier(frontier.len()));
            assert(rec.log() =~= said + told);
            assert(opened =~= (Stage {
                frontier: s0.frontier.subrange(1, s0.frontier.len() as int),
                explored: s0.explored.insert(w.state),
                events: t0.push(Event::Visited),
                ..s0
            }));
            assert(bfs_stage(frontier@, e2, told) =~= bfs_step(problem, s0));
            n = n + 1;
            lemma_step_inv(problem, e0, f0, e2, frontier@, sure);
            if sure {
                lemma_step_covers(problem, e0, f0, e2, frontier@);
            }
        }
    }
    let kb = memory_estimate_kb(explored.len(), 0, core::mem::size_of::<P::State>());
    rec.record(Event::Memory(kb));
    proof {
        told = told.push(Event::Memory(kb));
        assert(rec.log() =~= said + told);
        let last = bfs_step(problem, after_steps(first, steps, n));
        assert(last.events =~= told);
        assert(after_steps(first, steps, n + 1) == last);
        lemma_ends_once(first, steps, n + 1);
        if sure {
            assert forall|v: <P::State as View>::V| reachable(problem).contains(
                v,
            ) implies explored@.contains(v) by {
                let w = choose|w: Seq<usize>| #[trigger]
                    walk_ok(problem, problem.start(), w) && walk_end(problem, problem.start(), w)
                        == v;
                if !explored@.contains(v) {
                    let i = lemma_first_outside(problem, explored@, w);
                    assert(holds_within(
                        frontier@,
                        walk_end(problem, problem.start(), w.take(i)),
                        w.take(i).len() as int,
                    ));
                }
            }
            assert(explored@ =~= reachable(problem));
        }
        if sure && solvable(problem) {
            let w = choose|w: Seq<usize>| is_solution(problem, w);
            let i = lemma_first_outside(problem, explored@, w);
            assert(holds_within(
                frontier@,
                walk_end(problem, problem.start(), w.take(i)),
                w.take(i).len() as int,
            ));
        }
    }
    None
}

/// What breadth-first search finds: a result that answers the problem and
/// follows the course of the search; a success without actions where the
/// start is a goal; and, where the walks of the problem fit in machine
/// words, a success exactly when the problem has a solution, with a
/// solution that none is shorter than, and else as many nodes visited as
/// states can be reached.
pub open spec fn bfs_finds<P: Problem>(p: &P, r: SearchResult) -> bool {
    &&& r.answers(p)
    &&& follows_course(bfs_run(p), r)
    &&& p.goal(p.start()) ==> r.solved_in_place()
    &&& walks_fit(p) || within_sight(p) ==> (r.status == STATUS_SUCCESS <==> solvable(p))
    &&& walks_fit(p) || within_sight(p) ==> (r.solution matches Some(actions) ==> shortest(
        p,
        actions@,
    ))
    &&& walks_fit(p) && r.solution is None ==> r.metrics.nodes_visited == capped_count(
        reachable(p).len() as int,
    )
}

impl BFS {
    /// The search, reporting to `shared` as it goes. What `shared` recorded
    /// before is forgotten; afterwards it has recorded the events of the
    /// search, and the counters of the result are what it counted.
    pub fn search_reporting<P: Problem>(&self, problem: &P, shared: &mut SharedMetrics) -> (r:
        SearchResult)
        requires
            well_formed(problem),
        ensures
            bfs_finds(problem, r),
            bfs_counts(r.metrics, r.solution, vstd::layout::size_of::<P::State>()),
            final(shared).log() == bfs_run(problem).events,
            final(shared).counters() == Some(r.metrics.untimed()),
    {
        shared.restart();
        let found = breadth_first(problem, shared);
        proof {
            assert(Seq::<Event>::empty() + bfs_run(problem).events =~= bfs_run(problem).events);
        }
        conclude(found, shared.counted())
    }
}

impl SearchAlgorithm for BFS {
    /// Breadth-first search. On a problem whose walks fit in machine words it
    /// succeeds exactly when a solution exists, and no solution has fewer
    /// actions than the one it returns. The metrics count each state
    /// generated and visited.
    fn search<P: Problem>(&self, problem: &P) -> (r: SearchResult)
        ensures
            bfs_finds(problem, r),
            bfs_counts(r.metrics, r.solution, vstd::layout::size_of::<P::State>()),
    {
        let start = Instant::now();
        let mut tally = Tally::new();
        let found = breadth_first(problem, &mut tally);
        let mut metrics = tally.counts();
        proof {
            assert(Seq::<Event>::empty() + bfs_run(problem).events =~= bfs_run(problem).events);
        }
        metrics.time_ms = millis_since(&start);
        conclude(found, metrics)
    }

    /// The same search, with the same result: `shared` is told of each event
    /// as the search goes, and the counters of the result are what was told.
    fn search_with_shared_metrics<P: Problem>(&self, problem: &P, shared: SharedMetrics) -> (r:
        SearchResult)
        ensures
            bfs_finds(problem, r),
            bfs_counts(r.metrics, r.solution, vstd::layout::size_of::<P::State>()),
    {
        let mut shared = shared;
        self.search_reporting(problem, &mut shared)
    }

    fn name(&self) -> (r: &str)
        ensures
            r@ == "BFS"@,
    {
        "BFS"
    }
}

} // verus!
