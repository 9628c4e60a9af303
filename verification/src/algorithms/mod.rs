//! The search algorithms and what they have in common.
pub mod astar;
pub mod bfs;
pub mod dfs;
pub mod guarantees;
pub mod idastar;
pub mod iterative_deepening;
pub mod min_queue;
pub mod run;

use crate::benchmarking::metrics::{capped_count, kilobytes, Metrics};
use crate::benchmarking::shared::SharedMetrics;
use crate::node::Node;
use crate::problem::{
    is_solution, lemma_walk_push, runs_inside, simple_walk, state_at, walk_cost, walk_end, walk_ok,
    well_formed, Problem,
};
use vstd::prelude::*;

verus! {

/// The search found a solution.
pub const STATUS_SUCCESS: u8 = 0;

/// The search was abandoned when its time ran out.
pub const STATUS_TIMEOUT: u8 = 1;

/// The search ended without a solution.
pub const STATUS_NO_SOLUTION: u8 = 2;

/// What a search returns: the actions of the solution if one was found, each
/// the index of the edge taken among the successors of the state it leaves;
/// what the search cost; and how it ended.
#[derive(Debug, Clone)]
pub struct SearchResult {
    pub solution: Option<Vec<usize>>,
    pub metrics: Metrics,
    pub status: u8,
}

impl SearchResult {
    /// The search succeeded without taking any action.
    pub open spec fn solved_in_place(self) -> bool {
        self.solution matches Some(actions) && actions.len() == 0
    }

    /// The result is that of a search that ran to its end on `p`: it either
    /// succeeded with actions that lead from the start to a goal, or found
    /// no solution and holds none.
    pub open spec fn answers<P: Problem>(self, p: &P) -> bool {
        match self.solution {
            Some(actions) => self.status == STATUS_SUCCESS && is_solution(p, actions@),
            None => self.status == STATUS_NO_SOLUTION,
        }
    }
}

/// The result of a search that ran to its end: success with the solution
/// found, or no solution.
pub fn conclude(found: Option<Vec<usize>>, metrics: Metrics) -> (r: SearchResult)
    ensures
        r.solution == found,
        r.metrics == metrics,
        r.status == if found is Some {
            STATUS_SUCCESS
        } else {
            STATUS_NO_SOLUTION
        },
{
    match found {
        Some(actions) => SearchResult { solution: Some(actions), metrics, status: STATUS_SUCCESS },
        None => SearchResult { solution: None, metrics, status: STATUS_NO_SOLUTION },
    }
}

/// What the five algorithms have in common.
pub trait SearchAlgorithm {
    /// Searches `problem` from its start. The result is a success with
    /// actions that lead to a goal, or holds no solution. Where the start
    /// is a goal, the search succeeds without an action. Each algorithm
    /// says which course its search takes; the result follows it.
    fn search<P: Problem>(&self, problem: &P) -> (r: SearchResult)
        requires
            well_formed(problem),
        ensures
            r.answers(problem),
            problem.goal(problem.start()) ==> r.solved_in_place(),
            r.solution matches Some(actions) ==> r.metrics.solution_length == actions.len(),
    ;

    /// The same search, with the same result but for the time, reporting to
    /// `shared` while it runs, so that another thread can read how far it
    /// has come. The counters of the result are those of the events
    /// reported; they are what `shared` holds at the end unless another
    /// thread has written to it.
    ///
    /// Unless an algorithm says otherwise, it searches first and stores its
    /// metrics in `shared` afterwards.
    fn search_with_shared_metrics<P: Problem>(&self, problem: &P, shared: SharedMetrics) -> (r:
        SearchResult)
        requires
            well_formed(problem),
        ensures
            r.answers(problem),
            problem.goal(problem.start()) ==> r.solved_in_place(),
            r.solution matches Some(actions) ==> r.metrics.solution_length == actions.len(),
    {
        let result = self.search(problem);
        let metrics = result.metrics;
        let replace = |m: Metrics| -> (out: Metrics) { metrics };
        shared.update(replace);
        result
    }

    /// The name under which the algorithm is reported.
    fn name(&self) -> &str;
}

/// The counters while a search with a frontier runs, where it started from
/// zero: `visits` nodes were taken from the frontier, and every node taken
/// or still waiting was generated.
pub open spec fn frontier_counts(m: Metrics, visits: nat, explored: nat, waiting: nat) -> bool {
    &&& explored <= visits
    &&& m.nodes_visited == capped_count(visits as int)
    &&& m.nodes_generated == capped_count((visits + waiting) as int)
    &&& m.max_frontier_size <= m.nodes_generated
    &&& m.solution_length == 0
    &&& m.memory_kb == 0
    &&& m.time_ms == 0
}

/// The counters at the end of a search with a frontier that started from
/// zero. Every node visited was generated before, and with a solution the
/// nodes that lead to it were all visited: one more than it has actions.
/// The memory estimate
/// counts no more states than were generated before the last one visited;
/// where no solution was found, all nodes generated were visited.
pub open spec fn search_counts(m: Metrics, found: Option<Vec<usize>>, state_size: nat) -> bool {
    &&& 1 <= m.nodes_visited <= m.nodes_generated
    &&& m.max_frontier_size <= m.nodes_generated
    &&& match found {
        Some(actions) => {
            &&& m.solution_length == actions.len()
            &&& capped_count(actions.len() + 1) <= m.nodes_visited
            &&& m.nodes_generated < usize::MAX ==> m.memory_kb <= kilobytes(
                (m.nodes_generated - 1) as nat,
                state_size,
            )
        },
        None => {
            &&& m.solution_length == 0
            &&& m.nodes_visited == m.nodes_generated
            &&& m.nodes_visited < usize::MAX ==> m.memory_kb <= kilobytes(
                m.nodes_visited as nat,
                state_size,
            )
        },
    }
}

/// The counters are known, no time has been recorded, and the counts are
/// those of a search with a frontier that has ended.
pub open spec fn search_counted(
    counters: Option<Metrics>,
    found: Option<Vec<usize>>,
    state_size: nat,
) -> bool {
    counters matches Some(m) && m.time_ms == 0 && search_counts(m, found, state_size)
}

/// The node records a walk from the start of `p` to its state: its actions
/// can be taken from the start and end in its state, its depth is their
/// number and its path cost is their cost.
pub open spec fn tracks<P: Problem>(p: &P, n: Node<P::State>) -> bool {
    &&& walk_ok(p, p.start(), n.actions())
    &&& walk_end(p, p.start(), n.actions()) == n.state@
    &&& n.depth == n.actions().len()
    &&& n.path_cost == walk_cost(p, p.start(), n.actions())
}

/// The node records a walk that visits no state twice and, before its end,
/// only states of `inside`.
pub open spec fn threads<P: Problem>(
    p: &P,
    inside: Set<<P::State as View>::V>,
    n: Node<P::State>,
) -> bool {
    simple_walk(p, n.actions()) && runs_inside(p, inside, n.actions())
}

/// Some node of `nodes` is in state `v`.
pub open spec fn holds<S: View>(nodes: Seq<Node<S>>, v: S::V) -> bool {
    exists|k: int| 0 <= k < nodes.len() && (#[trigger] nodes[k]).state@ == v
}

/// Some node of `nodes` is in state `v` at depth `d` or less.
pub open spec fn holds_within<S: View>(nodes: Seq<Node<S>>, v: S::V, d: int) -> bool {
    exists|k: int| 0 <= k < nodes.len() && (#[trigger] nodes[k]).state@ == v && nodes[k].depth <= d
}

/// A walk that has run inside a set and ends in it, extended by an edge
/// that leaves the set, visits no state twice and still runs inside the set.
pub proof fn lemma_extend_thread<P: Problem>(
    p: &P,
    inside: Set<<P::State as View>::V>,
    actions: Seq<usize>,
    a: usize,
)
    requires
        simple_walk(p, actions),
        runs_inside(p, inside, actions),
        inside.contains(walk_end(p, p.start(), actions)),
        a < p.edges(walk_end(p, p.start(), actions)).len(),
        !inside.contains(p.edges(walk_end(p, p.start(), actions))[a as int].0),
    ensures
        simple_walk(p, actions.push(a)),
        runs_inside(p, inside, actions.push(a)),
{
    let longer = actions.push(a);
    lemma_walk_push(p, p.start(), actions, a);
    assert(longer.take(longer.len() as int) =~= longer);
    assert(longer.take(actions.len() as int) =~= actions);
    assert forall|j: int| 0 <= j < longer.len() implies inside.contains(
        #[trigger] state_at(p, longer, j),
    ) by {
        if j < actions.len() {
            assert(longer.take(j) =~= actions.take(j));
            assert(inside.contains(state_at(p, actions, j)));
        }
    }
    assert forall|i: int, j: int| 0 <= i < j <= longer.len() implies state_at(p, longer, i)
        != state_at(p, longer, j) by {
        assert(inside.contains(state_at(p, longer, i)));
        if j < longer.len() {
            assert(longer.take(j) =~= actions.take(j));
            assert(longer.take(i) =~= actions.take(i));
            assert(state_at(p, actions, i) != state_at(p, actions, j));
        } else {
            assert(longer.take(j) =~= longer);
        }
    }
}

/// A walk that runs inside a set runs inside every larger one.
pub proof fn lemma_runs_inside_larger<P: Problem>(
    p: &P,
    inside: Set<<P::State as View>::V>,
    larger: Set<<P::State as View>::V>,
    actions: Seq<usize>,
)
    requires
        runs_inside(p, inside, actions),
        inside.subset_of(larger),
    ensures
        runs_inside(p, larger, actions),
{
    assert forall|j: int| 0 <= j < actions.len() implies larger.contains(
        #[trigger] state_at(p, actions, j),
    ) by {
        assert(inside.contains(state_at(p, actions, j)));
    }
}

} // verus!
