//! Depth-first search, with an optional bound on the depth.
use crate::algorithms::{
    conclude, frontier_counts, holds, lemma_extend_thread, lemma_runs_inside_larger, search_counted,
    search_counts, threads, tracks, SearchAlgorithm, SearchResult, STATUS_SUCCESS,
};
use crate::algorithms::run::{
    follows_course,
    after_steps, child_of, estimate_kb, follows, halts, last_stage, lemma_ends_once, lined_up, ran,
    waiting, Stage, Waiting,
};
use crate::benchmarking::metrics::{
    capped_count, capped_sum, larger, lemma_kilobytes_grow, memory_estimate_kb, Event, Metrics, Recorder, Tally,
};
use crate::benchmarking::shared::SharedMetrics;
use crate::clock::millis_since;
use crate::explored::ExploredSet;
use crate::node::Node;
use crate::problem::{
    depth_suffices, duplicate, is_solution, lemma_closed_set_holds_reachable,
    lemma_closed_set_holds_walks, lemma_walk_push, lemma_walk_stays, lists_edges, reachable,
    simple_walk, solvable, walks_fit, well_formed, Problem,
};
use std::time::Instant;
use vstd::prelude::*;

verus! {

/// Depth-first search: a last-in-first-out frontier and a permanent set of
/// explored states. With a depth bound, a node deeper than the bound is
/// taken from the frontier but neither tested nor expanded.
pub struct DFS {
    pub max_depth: Option<usize>,
}

impl DFS {
    /// A search without a depth bound.
    pub fn new() -> (r: Self)
        ensures
            r.max_depth is None,
    {
        DFS { max_depth: None }
    }

    /// A search that goes no deeper than `max_depth`.
    pub fn with_max_depth(max_depth: usize) -> (r: Self)
        ensures
            r.max_depth == Some(max_depth),
    {
        DFS { max_depth: Some(max_depth) }
    }
}

/// The work that a waiting node stands for: one step to take it from the
/// stack and, where its state is explored already, one for each edge it may
/// follow again.
pub open spec fn node_weight<P: Problem>(
    p: &P,
    explored: Set<<P::State as View>::V>,
    n: Node<P::State>,
) -> nat {
    if explored.contains(n.state@) {
        1 + p.edges(n.state@).len()
    } else {
        1
    }
}

/// The work that a stack stands for.
pub open spec fn stack_weight<P: Problem>(
    p: &P,
    explored: Set<<P::State as View>::V>,
    stack: Seq<Node<P::State>>,
) -> nat
    decreases stack.len(),
{
    if stack.len() == 0 {
        0
    } else {
        stack_weight(p, explored, stack.drop_last()) + node_weight(p, explored, stack.last())
    }
}

/// What holds of the stack and the explored set between two expansions.
pub open spec fn stack_inv<P: Problem>(
    p: &P,
    explored: Set<<P::State as View>::V>,
    stack: Seq<Node<P::State>>,
) -> bool {
    &&& explored.subset_of(p.space())
    &&& forall|s: <P::State as View>::V| explored.contains(s) ==> !p.goal(s)
    &&& forall|k: int| 0 <= k < stack.len() ==> tracks(p, #[trigger] stack[k])
    &&& p.goal(p.start()) ==> stack.len() == 1 && stack[0].depth == 0
}

/// Nothing that can be reached has been lost: the start is explored or
/// waits, and so does the end of every edge out of an explored state.
pub open spec fn stack_covers<P: Problem>(
    p: &P,
    explored: Set<<P::State as View>::V>,
    stack: Seq<Node<P::State>>,
) -> bool {
    &&& explored.contains(p.start()) || holds(stack, p.start())
    &&& forall|s: <P::State as View>::V, a: int|
        explored.contains(s) && 0 <= a < p.edges(s).len() ==> explored.contains(
            (#[trigger] p.edges(s)[a]).0,
        ) || holds(stack, p.edges(s)[a].0)
}

/// Pushing a node adds its weight to that of the stack.
proof fn lemma_weight_push<P: Problem>(
    p: &P,
    explored: Set<<P::State as View>::V>,
    stack: Seq<Node<P::State>>,
    n: Node<P::State>,
)
    ensures
        stack_weight(p, explored, stack.push(n)) == stack_weight(p, explored, stack) + node_weight(
            p,
            explored,
            n,
        ),
{
    assert(stack.push(n).drop_last() =~= stack);
}

/// The counters `own` of a round that is running, counted on top of the
/// counters `before`: the nodes visited are added up, and so are the nodes
/// generated where the round is a further one, while a first round starts
/// that count again; the largest frontier is the larger of the two; the
/// rest is as it was before.
pub open spec fn counted_with(before: Metrics, further: bool, own: Metrics) -> Metrics {
    Metrics {
        nodes_visited: capped_sum(before.nodes_visited, own.nodes_visited),
        nodes_generated: if further {
            capped_sum(before.nodes_generated, own.nodes_generated)
        } else {
            own.nodes_generated
        },
        max_frontier_size: larger(before.max_frontier_size, own.max_frontier_size),
        ..before
    }
}

/// What a round that has ended leaves in counters that held `before`: its
/// own counters `own` counted on top of them, its memory estimate and,
/// where it found a solution, the length of that solution.
pub open spec fn round_added(before: Metrics, further: bool, own: Metrics, solved: bool) -> Metrics {
    Metrics {
        memory_kb: own.memory_kb,
        solution_length: if solved {
            own.solution_length
        } else {
            before.solution_length
        },
        ..counted_with(before, further, own)
    }
}

/// Where the counters are known before a round, they are known after it,
/// and hold what the round added: the round has counters of its own, those
/// of a search with a frontier that started from zero, which are counted
/// on top of what was there.
pub open spec fn adds_round(
    before: Option<Metrics>,
    further: bool,
    after: Option<Metrics>,
    found: Option<Vec<usize>>,
    state_size: nat,
) -> bool {
    before matches Some(b) ==> exists|own: Metrics| #[trigger]
        search_counted(Some(own), found, state_size) && after == Some(
            round_added(b, further, own, found is Some),
        )
}

/// How depth-first search begins: the root waits, nothing is explored, and
/// the beginning of the round has been reported.
pub open spec fn dfs_first<P: Problem>(p: &P, further: bool) -> Stage<<P::State as View>::V> {
    Stage {
        frontier: seq![
            Waiting {
                actions: Seq::<usize>::empty(),
                state: p.start(),
                path_cost: 0,
                depth: 0,
                score: 0,
            },
        ],
        explored: Set::empty(),
        best: Map::empty(),
        events: seq![
            if further {
                Event::Resumed
            } else {
                Event::Started
            },
        ],
        ended: None,
    }
}

/// Depth-first search expands `w` from its edge `i` on: each edge to a
/// state not explored that can be followed puts a node on the stack, which
/// is reported.
pub open spec fn dfs_grow<P: Problem>(
    p: &P,
    w: Waiting<<P::State as View>::V>,
    s: Stage<<P::State as View>::V>,
    i: int,
) -> Stage<<P::State as View>::V>
    decreases p.edges(w.state).len() - i,
{
    if i < 0 || i >= p.edges(w.state).len() {
        s
    } else if !s.explored.contains(p.edges(w.state)[i].0) && follows(p, w, i) {
        dfs_grow(
            p,
            w,
            Stage {
                frontier: s.frontier.push(child_of(p, w, i, 0)),
                events: s.events.push(Event::Generated),
                ..s
            },
            i + 1,
        )
    } else {
        dfs_grow(p, w, s, i + 1)
    }
}

/// One step of depth-first search: the node on top of the stack is taken
/// and reported. Beyond the depth bound it is dropped; in a goal state the
/// search ends with its actions; else its state is explored and it is
/// expanded. With an empty stack the search ends without a solution.
pub open spec fn dfs_step<P: Problem>(
    p: &P,
    max_depth: Option<usize>,
    s: Stage<<P::State as View>::V>,
) -> Stage<<P::State as View>::V> {
    if s.ended is Some {
        s
    } else if s.frontier.len() == 0 {
        Stage {
            events: s.events.push(Event::Memory(estimate_kb(p, s.explored, 0))),
            ended: Some(None),
            ..s
        }
    } else {
        let w = s.frontier.last();
        let rest = s.frontier.drop_last();
        let seen = s.events.push(Event::Visited);
        if max_depth is Some && w.depth > max_depth.unwrap() {
            Stage { frontier: rest, events: seen, ..s }
        } else if p.goal(w.state) {
            Stage {
                frontier: rest,
                events: seen.push(Event::Solved(w.actions.len() as usize)).push(
                    Event::Memory(estimate_kb(p, s.explored, rest.len())),
                ),
                ended: Some(Some(w.actions)),
                ..s
            }
        } else {
            let grown = dfs_grow(
                p,
                w,
                Stage { frontier: rest, explored: s.explored.insert(w.state), events: seen, ..s },
                0,
            );
            Stage { events: grown.events.push(Event::Frontier(grown.frontier.len() as usize)), ..grown }
        }
    }
}

/// The steps of depth-first search with the depth bound `max_depth`.
pub open spec fn dfs_steps<P: Problem>(p: &P, max_depth: Option<usize>) -> spec_fn(
    Stage<<P::State as View>::V>,
) -> Stage<<P::State as View>::V> {
    |s: Stage<<P::State as View>::V>| dfs_step(p, max_depth, s)
}

/// The course of depth-first search on `p` with the depth bound
/// `max_depth`: the stage in which it ends. It holds the solution found,
/// if any, and every event reported, in order.
pub open spec fn dfs_run<P: Problem>(p: &P, max_depth: Option<usize>, further: bool) -> Stage<
    <P::State as View>::V,
> {
    last_stage(dfs_first(p, further), dfs_steps(p, max_depth))
}

/// The stage of a depth-first search that has not ended, with the stack
/// `stack`, the states `explored` explored and the events `told` reported.
pub open spec fn dfs_stage<S: View>(stack: Seq<Node<S>>, explored: Set<S::V>, told: Seq<Event>) -> Stage<
    S::V,
> {
    Stage {
        frontier: lined_up(stack),
        explored,
        best: Map::empty(),
        events: told,
        ended: None,
    }
}

/// The search itself, reporting to `rec`.
///
/// Where `further` is set the search is a further round of a search made
/// of rounds, and counts its root on top of what `rec` has counted; else
/// it starts the count of generated nodes at its root. Either way it adds
/// the nodes it visits and generates to those that `rec` has counted.
///
/// A solution, where one is returned, leads from the start to a goal,
/// visits no state twice and is no longer than the depth bound. Where the
/// start is a goal the empty solution is returned. On a problem whose walks
/// fit in machine words the search finds a solution whenever there is one,
/// unless the depth bound cuts off a walk that visits no state twice. The
/// search follows its course: it returns the solution found there and
/// reports its events, in order.
pub fn depth_first<P: Problem, R: Recorder>(
    problem: &P,
    max_depth: Option<usize>,
    further: bool,
    rec: &mut R,
) -> (found: Option<Vec<usize>>)
    requires
        well_formed(problem),
    ensures
        old(rec).counters() is Some <==> final(rec).counters() is Some,
        match found {
            Some(actions) => {
                &&& is_solution(problem, actions@)
                &&& simple_walk(problem, actions@)
                &&& max_depth matches Some(d) ==> actions.len() <= d
                &&& problem.goal(problem.start()) ==> actions.len() == 0
                &&& final(rec).counters() matches Some(m) ==> m.solution_length == actions.len()
            },
            None => {
                &&& !problem.goal(problem.start())
                &&& walks_fit(problem) && depth_suffices(problem, max_depth) ==> !solvable(problem)
            },
        },
        old(rec).counters() == Some(Metrics::zero()) ==> search_counted(
            final(rec).counters(),
            found,
            vstd::layout::size_of::<P::State>(),
        ),
        adds_round(
            old(rec).counters(),
            further,
            final(rec).counters(),
            found,
            vstd::layout::size_of::<P::State>(),
        ),
        ran(dfs_run(problem, max_depth, further), found, old(rec).log(), final(rec).log()),
        found is None && walks_fit(problem) && depth_suffices(problem, max_depth) && old(
            rec,
        ).counters() == Some(Metrics::zero()) ==> final(rec).counters().unwrap().nodes_visited
            >= capped_count(reachable(problem).len() as int),
{
    let ghost first = dfs_first(problem, further);
    let ghost steps = dfs_steps(problem, max_depth);
    let ghost said = old(rec).log();
    let ghost mut told: Seq<Event> = first.events;
    let ghost mut n: nat = 0;
    let ghost fits = walks_fit(problem);
    let ghost before = old(rec).counters();
    let ghost mut own = Metrics::zero().after(Event::Started);
    let ghost mut visits: nat = 0;
    let ghost complete = fits && depth_suffices(problem, max_depth);
    let root = Node::new(problem.initial_state());
    let mut frontier: Vec<Node<P::State>> = Vec::new();
    frontier.push(root);
    let mut explored: ExploredSet<P::State> = ExploredSet::new();
    if further {
        rec.record(Event::Resumed);
    } else {
        rec.record(Event::Started);
    }
    proof {
        assert(root.actions().take(0) =~= root.actions());
        assert(frontier@[0] == root);
        assert(holds(frontier@, problem.start()));
        explored.lemma_finite();
        vstd::set_lib::lemma_len_subset(explored@, problem.space());
        assert(rec.log() =~= said + told);
        assert(dfs_stage(frontier@, explored@, told) =~= first);
        assert(halts(steps));
    }
    while frontier.len() > 0
        invariant
            first == dfs_first(problem, further),
            steps == dfs_steps(problem, max_depth),
            halts(steps),
            said == old(rec).log(),
            rec.log() == said + told,
            dfs_stage(frontier@, explored@, told) == after_steps(first, steps, n),
            well_formed(problem),
            fits == walks_fit(problem),
            complete == (fits && depth_suffices(problem, max_depth)),
            explored.wf(),
            stack_inv(problem, explored@, frontier@),
            forall|k: int|
                0 <= k < frontier@.len() ==> threads(problem, explored@, #[trigger] frontier@[k]),
            complete ==> stack_covers(problem, explored@, frontier@),
            explored@.len() <= problem.space().len(),
            old(rec).counters() is Some <==> rec.counters() is Some,
            before == old(rec).counters(),
            frontier_counts(own, visits, explored@.len(), frontier@.len()),
            before matches Some(b) ==> rec.counters() == Some(counted_with(b, further, own)),
            frontier@.len() > 0 || visits > 0,
            forall|k: int| 0 <= k < frontier@.len() ==> (#[trigger] frontier@[k]).depth <= visits,
        decreases
                problem.space().len() - explored@.len(),
                stack_weight(problem, explored@, frontier@),
    {
        let ghost f0 = frontier@;
        let ghost e0 = explored@;
        let ghost s0 = after_steps(first, steps, n);
        let ghost t0 = told;
        let node = frontier.pop().unwrap();
        let ghost f1 = frontier@;
        let ghost w = waiting(node, 0);
        rec.record(Event::Visited);
        proof {
            told = told.push(Event::Visited);
            assert(rec.log() =~= said + told);
            assert(lined_up(f1) =~= lined_up(f0).drop_last());
            assert(w == s0.frontier.last());
            assert(after_steps(first, steps, n + 1) == dfs_step(problem, max_depth, s0));
            own = own.after(Event::Visited);
            visits = visits + 1;
            explored.lemma_finite();
        }
        proof {
            assert(node == f0[f0.len() - 1]);
            assert(f1 =~= f0.drop_last());
            assert(tracks(problem, f0[f0.len() - 1]));
            lemma_walk_stays(problem, problem.start(), node.actions());
            assert forall|k: int| 0 <= k < f1.len() implies #[trigger] f1[k] == f0[k] by {}
        }
        let too_deep = match max_depth {
            Some(d) => node.depth > d,
            None => false,
        };
        proof {
            assert(threads(problem, e0, f0[f0.len() - 1]));
        }
        if too_deep {
            proof {
                assert(!complete);
                assert(!problem.goal(problem.start()));
                assert forall|k: int| 0 <= k < f1.len() implies tracks(
                    problem,
                    #[trigger] f1[k],
                ) by {
                    assert(f1[k] == f0[k]);
                }
                assert forall|k: int| 0 <= k < f1.len() implies threads(
                    problem,
                    e0,
                    #[trigger] f1[k],
                ) by {
                    assert(f1[k] == f0[k]);
                }
                assert(dfs_stage(f1, e0, told) =~= dfs_step(problem, max_depth, s0));
                n = n + 1;
            }
            continue ;
        }
        if problem.is_goal(&node.state) {
            let solution = node.extract_solution();
            rec.record(Event::Solved(solution.len()));
            let kb = memory_estimate_kb(
                explored.len(),
                frontier.len(),
                core::mem::size_of::<P::State>(),
            );
            rec.record(Event::Memory(kb));
            proof {
                told = told.push(Event::Solved(solution.len())).push(Event::Memory(kb));
                assert(rec.log() =~= said + told);
                let last = dfs_step(problem, max_depth, s0);
                assert(last.events =~= told);
                assert(last.ended == Some(Some(solution@)));
                lemma_ends_once(first, steps, n + 1);
                own = own.after(Event::Solved(solution.len())).after(Event::Memory(kb));
                lemma_kilobytes_grow(
                    explored@.len() + frontier@.len(),
                    (visits - 1 + frontier@.len()) as nat,
                    vstd::layout::size_of::<P::State>(),
                );
                assert(search_counted(
                    Some(own),
                    Some(solution),
                    vstd::layout::size_of::<P::State>(),
                ));
            }
            return Some(solution);
        }
        let copy = duplicate(&node.state);
        explored.insert(copy);
        let ghost e2 = explored@;
        let ghost fresh = !e0.contains(node.state@);
        proof {
            assert(e2 == e0.insert(node.state@));
            if !fresh {
                assert(e2 =~= e0);
            }
            explored.lemma_finite();
            vstd::set_lib::lemma_len_subset(e2, problem.space());
            assert(!problem.goal(problem.start()));
            assert(threads(problem, e0, f0[f0.len() - 1]));
            lemma_runs_inside_larger(problem, e0, e2, node.actions());
        }
        let successors = problem.successors(&node.state);
        let ghost mut pushed: nat = 0;
        let ghost opened = dfs_stage(f1, e2, told);
        let mut i: usize = 0;
        while i < successors.len()
            invariant
                said == old(rec).log(),
                rec.log() == said + told,
                w == waiting(node, 0),
                dfs_grow(problem, w, dfs_stage(frontier@, e2, told), i as int) == dfs_grow(
                    problem,
                    w,
                    opened,
                    0,
                ),
                well_formed(problem),
                fits == walks_fit(problem),
                explored.wf(),
                explored@ == e2,
                e2.contains(node.state@),
                i <= successors.len(),
                lists_edges(successors@, problem.edges(node.state@)),
                tracks(problem, node),
                threads(problem, e2, node),
                frontier@.len() >= f1.len(),
                frontier@.subrange(0, f1.len() as int) == f1,
                forall|k: int|
                    f1.len() <= k < frontier@.len() ==> {
                        &&& tracks(problem, #[trigger] frontier@[k])
                        &&& !e2.contains(frontier@[k].state@)
                        &&& threads(problem, e2, frontier@[k])
                    },
                pushed <= i,
                stack_weight(problem, e2, frontier@) == stack_weight(problem, e2, f1) + pushed,
                before == old(rec).counters(),
                e2.finite(),
                frontier_counts(own, visits, e2.len(), frontier@.len()),
                before matches Some(b) ==> rec.counters() == Some(counted_with(b, further, own)),
                node.depth < visits,
                forall|k: int|
                    0 <= k < frontier@.len() ==> (#[trigger] frontier@[k]).depth <= visits,
                fits ==> forall|a: int|
                    0 <= a < i ==> e2.contains((#[trigger] problem.edges(node.state@)[a]).0)
                        || holds(frontier@, problem.edges(node.state@)[a].0),
                old(rec).counters() is Some <==> rec.counters() is Some,
            decreases successors.len() - i,
        {
            let ghost f2 = frontier@;
            let ghost edge = problem.edges(node.state@)[i as int];
            assert(successors@[i as int].0@ == edge.0);
            let cost: usize = successors[i].1;
            if !explored.contains(&successors[i].0) {
                proof {
                    lemma_walk_push(problem, problem.start(), node.actions(), i);
                    lemma_extend_thread(problem, e2, node.actions(), i);
                }
                if node.depth < usize::MAX && cost <= usize::MAX - node.path_cost {
                    let target = duplicate(&successors[i].0);
                    let child = node.child(target, i, cost);
                    let ghost t2 = told;
                    frontier.push(child);
                    rec.record(Event::Generated);
                    proof {
                        told = told.push(Event::Generated);
                        assert(rec.log() =~= said + told);
                        assert(waiting(child, 0) =~= child_of(problem, w, i as int, 0));
                        assert(lined_up(frontier@) =~= lined_up(f2).push(waiting(child, 0)));
                        assert(dfs_stage(frontier@, e2, told) =~= (Stage {
                            frontier: dfs_stage(f2, e2, t2).frontier.push(
                                child_of(problem, w, i as int, 0),
                            ),
                            events: t2.push(Event::Generated),
                            ..dfs_stage(f2, e2, t2)
                        }));
                        own = own.after(Event::Generated);
                        assert(frontier@ == f2.push(child));
                        assert(tracks(problem, child));
                        lemma_weight_push(problem, e2, f2, child);
                        pushed = pushed + 1;
                        assert(frontier@.subrange(0, f1.len() as int) =~= f2.subrange(
                            0,
                            f1.len() as int,
                        ));
                        assert forall|k: int| f1.len() <= k < frontier@.len() implies {
                            &&& tracks(problem, #[trigger] frontier@[k])
                            &&& !e2.contains(frontier@[k].state@)
                            &&& threads(problem, e2, frontier@[k])
                        } by {
                            if k < f2.len() {
                                assert(frontier@[k] == f2[k]);
                            }
                        }
                        assert(holds(frontier@, edge.0)) by {
                            assert(frontier@[f2.len() as int].state@ == edge.0);
                        }
                    }
                }
            }
            proof {
                if fits {
                    assert forall|a: int| 0 <= a < i + 1 implies e2.contains(
                        (#[trigger] problem.edges(node.state@)[a]).0,
                    ) || holds(frontier@, problem.edges(node.state@)[a].0) by {
                        let v = problem.edges(node.state@)[a].0;
                        if holds(f2, v) {
                            let k = choose|k: int| 0 <= k < f2.len() && (#[trigger] f2[k]).state@ == v;
                            assert(frontier@[k] == f2[k]);
                        }
                    }
                }
            }
            i = i + 1;
        }
        let ghost grown = dfs_stage(frontier@, e2, told);
        rec.record(Event::Frontier(frontier.len()));
        proof {
            told = told.push(Event::Frontier(frontier.len()));
            assert(rec.log() =~= said + told);
            assert(opened =~= (Stage {
                frontier: s0.frontier.drop_last(),
                explored: s0.explored.insert(w.state),
                events: t0.push(Event::Visited),
                ..s0
            }));
            assert(dfs_stage(frontier@, e2, told) =~= dfs_step(problem, max_depth, s0));
            n = n + 1;
            own = own.after(Event::Frontier(frontier.len()));
            let f3 = frontier@;
            assert forall|k: int| 0 <= k < f1.len() implies #[trigger] f3[k] == f0[k] by {
                assert(f3.subrange(0, f1.len() as int)[k] == f3[k]);
            }
            assert forall|k: int| 0 <= k < f3.len() implies tracks(problem, #[trigger] f3[k]) by {
                if k < f1.len() {
                    assert(f3[k] == f0[k]);
                }
            }
            assert forall|k: int| 0 <= k < f3.len() implies threads(
                problem,
                e2,
                #[trigger] f3[k],
            ) by {
                if k < f1.len() {
                    assert(f3[k] == f0[k]);
                    assert(threads(problem, e0, f0[k]));
                    lemma_runs_inside_larger(problem, e0, e2, f0[k].actions());
                }
            }
            if complete {
                assert forall|v: <P::State as View>::V| holds(f0, v) implies e2.contains(v)
                    || holds(f3, v) by {
                    let k = choose|k: int| 0 <= k < f0.len() && (#[trigger] f0[k]).state@ == v;
                    if k < f1.len() {
                        assert(f3[k] == f0[k]);
                    }
                }
                assert forall|s: <P::State as View>::V, a: int|
                    e2.contains(s) && 0 <= a < problem.edges(s).len() implies e2.contains(
                    (#[trigger] problem.edges(s)[a]).0,
                ) || holds(f3, problem.edges(s)[a].0) by {
                    if s != node.state@ {
                        assert(e0.contains(s));
                    }
                }
            }
            // The measure: a new state is explored, or the stack has less work left.
            if !fresh {
                assert(stack_weight(problem, e0, f0) == stack_weight(problem, e0, f1)
                    + node_weight(problem, e0, node));
                assert(pushed <= problem.edges(node.state@).len());
            }
        }
    }
    let kb = memory_estimate_kb(explored.len(), 0, core::mem::size_of::<P::State>());
    rec.record(Event::Memory(kb));
    proof {
        told = told.push(Event::Memory(kb));
        assert(rec.log() =~= said + told);
        let last = dfs_step(problem, max_depth, after_steps(first, steps, n));
        assert(last.events =~= told);
        assert(after_steps(first, steps, n + 1) == last);
        lemma_ends_once(first, steps, n + 1);
        own = own.after(Event::Memory(kb));
        lemma_kilobytes_grow(explored@.len(), visits, vstd::layout::size_of::<P::State>());
        assert(search_counted(Some(own), None, vstd::layout::size_of::<P::State>()));
        if complete {
            assert(!holds(frontier@, problem.start()));
            assert forall|s: <P::State as View>::V, a: int|
                explored@.contains(s) && 0 <= a < problem.edges(s).len() implies explored@.contains(
                (#[trigger] problem.edges(s)[a]).0,
            ) by {
                assert(!holds(frontier@, problem.edges(s)[a].0));
            }
            explored.lemma_finite();
            lemma_closed_set_holds_reachable(problem, explored@);
            if solvable(problem) {
                let w = choose|w: Seq<usize>| is_solution(problem, w);
                lemma_closed_set_holds_walks(problem, explored@, w);
            }
        }
    }
    None
}

/// What depth-first search with the depth bound `max_depth` finds: a
/// result that answers the problem and follows the course of the search,
/// with a solution that visits no state twice and is no longer than the
/// bound; a success without actions where the start is a goal; and, where
/// the bound cuts nothing off and the walks of the problem fit in machine
/// words, a success exactly when the problem has a solution, and else at
/// least as many nodes visited as states can be reached.
pub open spec fn dfs_finds<P: Problem>(p: &P, max_depth: Option<usize>, r: SearchResult) -> bool {
    &&& r.answers(p)
    &&& follows_course(dfs_run(p, max_depth, false), r)
    &&& r.solution matches Some(actions) ==> simple_walk(p, actions@) && (max_depth matches Some(d)
        ==> actions.len() <= d)
    &&& p.goal(p.start()) ==> r.solved_in_place()
    &&& walks_fit(p) && depth_suffices(p, max_depth) ==> (r.status == STATUS_SUCCESS
        <==> solvable(p))
    &&& walks_fit(p) && depth_suffices(p, max_depth) && r.solution is None
        ==> r.metrics.nodes_visited >= capped_count(reachable(p).len() as int)
}

impl DFS {
    /// The search, reporting to `shared` as it goes. What `shared` recorded
    /// before is forgotten; afterwards it has recorded the events of the
    /// search, and the counters of the result are what it counted.
    pub fn search_reporting<P: Problem>(&self, problem: &P, shared: &mut SharedMetrics) -> (r:
        SearchResult)
        requires
            well_formed(problem),
        ensures
            dfs_finds(problem, self.max_depth, r),
            search_counts(r.metrics, r.solution, vstd::layout::size_of::<P::State>()),
            final(shared).log() == dfs_run(problem, self.max_depth, false).events,
            final(shared).counters() == Some(r.metrics.untimed()),
    {
        shared.restart();
        let found = depth_first(problem, self.max_depth, false, shared);
        proof {
            assert(Seq::<Event>::empty() + dfs_run(problem, self.max_depth, false).events =~= dfs_run(problem, self.max_depth, false).events);
        }
        conclude(found, shared.counted())
    }
}

impl SearchAlgorithm for DFS {
    /// Depth-first search. A solution is no longer than the depth bound;
    /// where the start is a goal the search succeeds with no action. Where
    /// the bound cuts nothing off, on a problem whose walks fit in machine
    /// words, it succeeds exactly when a solution exists.
    fn search<P: Problem>(&self, problem: &P) -> (r: SearchResult)
        ensures
            dfs_finds(problem, self.max_depth, r),
            search_counts(r.metrics, r.solution, vstd::layout::size_of::<P::State>()),
    {
        let start = Instant::now();
        let mut tally = Tally::new();
        let found = depth_first(problem, self.max_depth, false, &mut tally);
        let mut metrics = tally.counts();
        proof {
            assert(Seq::<Event>::empty() + dfs_run(problem, self.max_depth, false).events =~= dfs_run(problem, self.max_depth, false).events);
        }
        metrics.time_ms = millis_since(&start);
        conclude(found, metrics)
    }

    /// The same search, with the same result: `shared` is told of each event
    /// as the search goes, and the counters of the result are what was told.
    fn search_with_shared_metrics<P: Problem>(&self, problem: &P, shared: SharedMetrics) -> (r:
        SearchResult)
        ensures
            dfs_finds(problem, self.max_depth, r),
            search_counts(r.metrics, r.solution, vstd::layout::size_of::<P::State>()),
    {
        let mut shared = shared;
        self.search_reporting(problem, &mut shared)
    }

    fn name(&self) -> (r: &str)
        ensures
            r@ == "DFS"@,
    {
        "DFS"
    }
}

} // verus!
