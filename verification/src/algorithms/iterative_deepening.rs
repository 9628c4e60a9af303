//! Iterative deepening: depth-first search with a growing depth bound.
use crate::algorithms::dfs::{depth_first, dfs_run, round_added};
use crate::algorithms::run::{follows_course, ran, Stage};
use crate::algorithms::{conclude, search_counted, SearchAlgorithm, SearchResult, STATUS_SUCCESS};
use crate::benchmarking::metrics::{
    capped_count, lemma_replay_keeps_time, Event, Metrics, Recorder, Tally,
};
use crate::benchmarking::shared::SharedMetrics;
use crate::clock::millis_since;
use crate::problem::{
    depth_suffices, is_solution, simple_walk, solvable, walks_fit, well_formed, Problem,
};
use std::time::Instant;
use vstd::prelude::*;

verus! {

/// Iterative deepening: depth-first searches with the depth bounds 0, 1, ...
/// up to `max_depth`, each with an explored set of its own; the first that
/// succeeds gives the result.
pub struct IterativeDeepening {
    pub max_depth: usize,
}

impl IterativeDeepening {
    /// A search that tries the depth bounds from 0 to `max_depth`.
    pub fn new(max_depth: usize) -> (r: Self)
        ensures
            r.max_depth == max_depth,
    {
        IterativeDeepening { max_depth }
    }
}

/// A stage with the events `events` reported before its own.
pub open spec fn after_events<V>(events: Seq<Event>, s: Stage<V>) -> Stage<V> {
    Stage { events: events + s.events, ..s }
}

/// The course of the rounds from the depth bound `depth` on: the round
/// with that bound, a first round if the bound is 0 and a further one
/// else; and, where it finds nothing and the bound is less than
/// `max_depth`, the rounds that follow it, whose events follow its own.
pub open spec fn rounds_from<P: Problem>(p: &P, max_depth: usize, depth: int) -> Stage<
    <P::State as View>::V,
>
    decreases max_depth - depth,
{
    let round = dfs_run(p, Some(depth as usize), depth > 0);
    if 0 <= depth < max_depth && round.ended == Some(None::<Seq<usize>>) {
        after_events(round.events, rounds_from(p, max_depth, depth + 1))
    } else {
        round
    }
}

/// The course of iterative deepening on `p` up to `max_depth`: the last
/// stage of its last round, with the events of all its rounds, in order.
pub open spec fn deepening_run<P: Problem>(p: &P, max_depth: usize) -> Stage<
    <P::State as View>::V,
> {
    rounds_from(p, max_depth, 0)
}

/// What iterative deepening up to `max_depth` finds: a result that answers
/// the problem and follows the course of the rounds, with a solution that
/// visits no state twice and is no longer than `max_depth`; a success
/// without actions where the start is a goal; and, where `max_depth` cuts
/// nothing off and the walks of the problem fit in machine words, a
/// success exactly when the problem has a solution.
pub open spec fn deepening_finds<P: Problem>(p: &P, max_depth: usize, r: SearchResult) -> bool {
    &&& r.answers(p)
    &&& follows_course(deepening_run(p, max_depth), r)
    &&& r.solution matches Some(actions) ==> simple_walk(p, actions@) && actions.len() <= max_depth
    &&& p.goal(p.start()) ==> r.solved_in_place()
    &&& walks_fit(p) && depth_suffices(p, Some(max_depth)) ==> (r.status == STATUS_SUCCESS
        <==> solvable(p))
}

/// The counters at the end of the search: over all rounds, every node
/// visited was generated before, and no frontier held more nodes than
/// were generated. With a solution, the nodes that lead to it were all
/// visited: one more than it has actions. Without a solution no solution
/// length is recorded.
pub open spec fn deepening_counts(m: Metrics, found: Option<Vec<usize>>) -> bool {
    &&& 1 <= m.nodes_visited <= m.nodes_generated
    &&& m.max_frontier_size <= m.nodes_generated
    &&& match found {
        Some(actions) => m.solution_length == actions.len() && capped_count(actions.len() + 1)
            <= m.nodes_visited,
        None => m.solution_length == 0,
    }
}

/// What the first `n` rounds leave in counters that held `before`, where
/// `rounds` are the counters of each round taken by itself: the first round
/// starts the count of generated nodes, each later one counts on top of the
/// rounds before it. All rounds but the last found nothing; `solved` says
/// whether the last did.
pub open spec fn rounds_added(before: Metrics, rounds: Seq<Metrics>, n: int, solved: bool) -> Metrics
    decreases n,
{
    if n <= 0 {
        before
    } else {
        round_added(rounds_added(before, rounds, n - 1, false), n > 1, rounds[n - 1], solved)
    }
}

/// Where the counters are known before the rounds of a search to the depth
/// `max_depth`, they are known after them and hold what the rounds added:
/// each round has counters of its own, those of a depth-first search that
/// started from zero; all but the last found nothing, and where the last
/// found nothing either, all the rounds up to the depth were made.
pub open spec fn adds_rounds(
    before: Option<Metrics>,
    after: Option<Metrics>,
    found: Option<Vec<usize>>,
    max_depth: usize,
    state_size: nat,
) -> bool {
    before matches Some(b) ==> exists|rounds: Seq<Metrics>|
        {
            &&& 1 <= rounds.len() <= max_depth + 1
            &&& found is None ==> rounds.len() == max_depth + 1
            &&& forall|i: int|
                0 <= i < rounds.len() - 1 ==> search_counted(
                    Some(#[trigger] rounds[i]),
                    None,
                    state_size,
                )
            &&& search_counted(Some(rounds.last()), found, state_size)
            &&& after == Some(
                #[trigger] rounds_added(b, rounds, rounds.len() as int, found is Some),
            )
        }
}

/// What the rounds made before have left does not change when one more
/// round is made.
proof fn lemma_rounds_stay(
    before: Metrics,
    earlier: Seq<Metrics>,
    later: Seq<Metrics>,
    n: int,
    solved: bool,
)
    requires
        0 <= n <= earlier.len() <= later.len(),
        forall|i: int| 0 <= i < earlier.len() ==> earlier[i] == later[i],
    ensures
        rounds_added(before, later, n, solved) == rounds_added(before, earlier, n, solved),
    decreases n,
{
    if n > 0 {
        lemma_rounds_stay(before, earlier, later, n - 1, false);
    }
}

/// What rounds leave in counters at zero: every node visited was
/// generated before, no frontier held more nodes than were generated, and
/// unless the last round found a solution no solution length is recorded.
proof fn lemma_rounds_count(rounds: Seq<Metrics>, n: int, solved: bool)
    requires
        1 <= n <= rounds.len(),
        forall|i: int|
            0 <= i < n ==> 1 <= (#[trigger] rounds[i]).nodes_visited <= rounds[i].nodes_generated
                && rounds[i].max_frontier_size <= rounds[i].nodes_generated,
    ensures
        ({
            let left = rounds_added(Metrics::zero(), rounds, n, solved);
            &&& 1 <= left.nodes_visited <= left.nodes_generated
            &&& left.max_frontier_size <= left.nodes_generated
            &&& !solved ==> left.solution_length == 0
            &&& rounds[n - 1].nodes_visited <= left.nodes_visited
        }),
    decreases n,
{
    reveal_with_fuel(rounds_added, 2);
    assert(1 <= rounds[n - 1].nodes_visited);
    if n > 1 {
        lemma_rounds_count(rounds, n - 1, false);
        let earlier = rounds_added(Metrics::zero(), rounds, n - 1, false);
        assert(rounds_added(Metrics::zero(), rounds, n, solved) == round_added(
            earlier,
            true,
            rounds[n - 1],
            solved,
        ));
    } else {
        assert(rounds_added(Metrics::zero(), rounds, 1, solved) == round_added(
            Metrics::zero(),
            false,
            rounds[0],
            solved,
        ));
    }
}

/// The counters that the rounds of a search leave in counters at zero are
/// those of a search made of rounds.
proof fn lemma_rounds_counted(
    after: Option<Metrics>,
    found: Option<Vec<usize>>,
    max_depth: usize,
    state_size: nat,
)
    requires
        adds_rounds(Some(Metrics::zero()), after, found, max_depth, state_size),
        found matches Some(actions) ==> after.unwrap().solution_length == actions.len(),
    ensures
        after is Some,
        deepening_counts(after.unwrap(), found),
{
    let rounds = choose|rounds: Seq<Metrics>|
        {
            &&& 1 <= rounds.len() <= max_depth + 1
            &&& found is None ==> rounds.len() == max_depth + 1
            &&& forall|i: int|
                0 <= i < rounds.len() - 1 ==> search_counted(
                    Some(#[trigger] rounds[i]),
                    None,
                    state_size,
                )
            &&& search_counted(Some(rounds.last()), found, state_size)
            &&& after == Some(
                #[trigger] rounds_added(
                    Metrics::zero(),
                    rounds,
                    rounds.len() as int,
                    found is Some,
                ),
            )
        };
    assert forall|i: int| 0 <= i < rounds.len() implies 1 <= (#[trigger] rounds[i]).nodes_visited
        <= rounds[i].nodes_generated && rounds[i].max_frontier_size
        <= rounds[i].nodes_generated by {
        if i < rounds.len() - 1 {
            assert(search_counted(Some(rounds[i]), None, state_size));
        } else {
            assert(rounds[i] == rounds.last());
        }
    }
    lemma_rounds_count(rounds, rounds.len() as int, found is Some);
}

/// The rounds themselves, reporting to `rec`: depth-first searches with the
/// depth bounds 0, 1, ... up to `max_depth`, until one finds a solution.
/// The first starts the count of generated nodes at its root and each later
/// one counts its root as one more, so that `rec` adds up what all of them
/// visit and generate.
///
/// A solution, where one is returned, leads from the start to a goal,
/// visits no state twice and is no longer than `max_depth`. Where the start
/// is a goal the empty solution is returned. On a problem whose walks fit
/// in machine words a solution is found whenever there is one, unless
/// `max_depth` cuts off a walk that visits no state twice.
pub fn deepening<P: Problem, R: Recorder>(problem: &P, max_depth: usize, rec: &mut R) -> (found:
    Option<Vec<usize>>)
    requires
        well_formed(problem),
    ensures
        old(rec).counters() is Some <==> final(rec).counters() is Some,
        match found {
            Some(actions) => {
                &&& is_solution(problem, actions@)
                &&& simple_walk(problem, actions@)
                &&& actions.len() <= max_depth
                &&& problem.goal(problem.start()) ==> actions.len() == 0
                &&& final(rec).counters() matches Some(m) ==> m.solution_length == actions.len()
            },
            None => {
                &&& !problem.goal(problem.start())
                &&& walks_fit(problem) && depth_suffices(problem, Some(max_depth)) ==> !solvable(
                    problem,
                )
            },
        },
        adds_rounds(
            old(rec).counters(),
            final(rec).counters(),
            found,
            max_depth,
            vstd::layout::size_of::<P::State>(),
        ),
        ran(deepening_run(problem, max_depth), found, old(rec).log(), final(rec).log()),
{
    let ghost said = old(rec).log();
    let ghost mut told: Seq<Event> = Seq::empty();
    let ghost before = old(rec).counters();
    let ghost size = vstd::layout::size_of::<P::State>();
    let ghost mut rounds: Seq<Metrics> = Seq::empty();
    let mut depth: usize = 0;
    proof {
        assert(rec.log() =~= said + told);
        assert(after_events(told, rounds_from(problem, max_depth, 0)) =~= deepening_run(
            problem,
            max_depth,
        ));
    }
    loop
        invariant
            said == old(rec).log(),
            rec.log() == said + told,
            deepening_run(problem, max_depth) == after_events(
                told,
                rounds_from(problem, max_depth, depth as int),
            ),
            well_formed(problem),
            depth <= max_depth,
            !problem.goal(problem.start()) || depth == 0,
            before == old(rec).counters(),
            size == vstd::layout::size_of::<P::State>(),
            old(rec).counters() is Some <==> rec.counters() is Some,
            before matches Some(b) ==> {
                &&& rounds.len() == depth
                &&& forall|i: int|
                    0 <= i < rounds.len() ==> search_counted(Some(#[trigger] rounds[i]), None, size)
                &&& rec.counters() == Some(rounds_added(b, rounds, depth as int, false))
            },
        decreases max_depth - depth,
    {
        let ghost at_entry = rec.counters();
        let found = depth_first(problem, Some(depth), depth > 0, rec);
        proof {
            let round = dfs_run(problem, Some(depth), depth > 0);
            let so_far = told;
            told = told + round.events;
            assert(rec.log() =~= said + told);
            if found is None && depth < max_depth {
                assert(after_events(
                    so_far,
                    after_events(round.events, rounds_from(problem, max_depth, depth + 1)),
                ) =~= after_events(told, rounds_from(problem, max_depth, depth + 1)));
            } else {
                assert(after_events(so_far, round) =~= deepening_run(problem, max_depth));
            }
        }
        proof {
            if before is Some {
                let own = choose|own: Metrics| #[trigger]
                    search_counted(Some(own), found, size) && rec.counters() == Some(
                        round_added(at_entry.unwrap(), depth > 0, own, found is Some),
                    );
                let earlier = rounds;
                rounds = rounds.push(own);
                lemma_rounds_stay(before.unwrap(), earlier, rounds, depth as int, false);
                assert(rounds.last() == own);
                assert forall|i: int| 0 <= i < rounds.len() - 1 implies search_counted(
                    Some(#[trigger] rounds[i]),
                    None,
                    size,
                ) by {
                    assert(rounds[i] == earlier[i]);
                }
                assert(rec.counters() == Some(
                    rounds_added(before.unwrap(), rounds, depth + 1, found is Some),
                ));
            }
        }
        if found.is_some() {
            return found;
        }
        if depth == max_depth {
            return None;
        }
        depth = depth + 1;
    }
}

impl IterativeDeepening {
    /// The search, reporting to `shared` as it goes. What `shared` recorded
    /// before is forgotten; afterwards it has recorded the events of the
    /// search, and the counters of the result are what it counted.
    pub fn search_reporting<P: Problem>(&self, problem: &P, shared: &mut SharedMetrics) -> (r:
        SearchResult)
        requires
            well_formed(problem),
        ensures
            deepening_finds(problem, self.max_depth, r),
            deepening_counts(r.metrics, r.solution),
            adds_rounds(
                Some(Metrics::zero()),
                Some(r.metrics.untimed()),
                r.solution,
                self.max_depth,
                vstd::layout::size_of::<P::State>(),
            ),
            final(shared).log() == deepening_run(problem, self.max_depth).events,
            final(shared).counters() == Some(r.metrics.untimed()),
    {
        shared.restart();
        let found = deepening(problem, self.max_depth, shared);
        let metrics = shared.counted();
        proof {
            let run = deepening_run(problem, self.max_depth);
            assert(Seq::<Event>::empty() + run.events =~= run.events);
            lemma_rounds_counted(
                Some(metrics.untimed()),
                found,
                self.max_depth,
                vstd::layout::size_of::<P::State>(),
            );
        }
        conclude(found, metrics)
    }
}

impl SearchAlgorithm for IterativeDeepening {
    /// Iterative deepening. A solution visits no state twice and is no
    /// longer than `max_depth`; where the start is a goal the search
    /// succeeds with no action. The result follows the course of the
    /// rounds: its counters are what the events of all rounds make of
    /// counters at zero.
    fn search<P: Problem>(&self, problem: &P) -> (r: SearchResult)
        ensures
            deepening_finds(problem, self.max_depth, r),
            deepening_counts(r.metrics, r.solution),
            adds_rounds(
                Some(Metrics::zero()),
                Some(r.metrics.untimed()),
                r.solution,
                self.max_depth,
                vstd::layout::size_of::<P::State>(),
            ),
    {
        let start = Instant::now();
        let mut tally = Tally::new();
        let found = deepening(problem, self.max_depth, &mut tally);
        let mut metrics = tally.counts();
        proof {
            let run = deepening_run(problem, self.max_depth);
            assert(Seq::<Event>::empty() + run.events =~= run.events);
            lemma_rounds_counted(
                Some(metrics),
                found,
                self.max_depth,
                vstd::layout::size_of::<P::State>(),
            );
            lemma_replay_keeps_time(Metrics::zero(), tally.log());
        }
        metrics.time_ms = millis_since(&start);
        conclude(found, metrics)
    }

    /// The same search, with the same result: `shared` is told of each event
    /// as the search goes, and the counters of the result are what was told.
    fn search_with_shared_metrics<P: Problem>(&self, problem: &P, shared: SharedMetrics) -> (r:
        SearchResult)
        ensures
            deepening_finds(problem, self.max_depth, r),
            deepening_counts(r.metrics, r.solution),
            adds_rounds(
                Some(Metrics::zero()),
                Some(r.metrics.untimed()),
                r.solution,
                self.max_depth,
                vstd::layout::size_of::<P::State>(),
            ),
    {
        let mut shared = shared;
        self.search_reporting(problem, &mut shared)
    }

    fn name(&self) -> (r: &str)
        ensures
            r@ == "Iterative Deepening"@,
    {
        "Iterative Deepening"
    }
}

} // verus!
