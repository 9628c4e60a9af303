//! What holds of the algorithms taken together.
use crate::algorithms::run::{follows_course, shown, Stage};
use crate::algorithms::{SearchResult, STATUS_NO_SOLUTION, STATUS_SUCCESS, STATUS_TIMEOUT};
use crate::algorithms::astar::astar_finds;
use crate::algorithms::bfs::bfs_finds;
use crate::algorithms::dfs::dfs_finds;
use crate::algorithms::idastar::{affordable, f_at, idastar_finds, probes, proposed, reaches};
use crate::algorithms::iterative_deepening::deepening_finds;
use crate::benchmarking::runner::reported;
use crate::problem::{
    admissible, cheapest, consistent, cost_in_sight, fit_beyond, fit_up_to, is_solution,
    keeps_scores, lemma_unit_cost_is_length, lemma_unit_costs_fit, lemma_walk_split,
    lemma_walk_stays, lemma_walk_take, shortest, simple_walk, solution_cost, solvable,
    unit_costs, walk_cost, walk_end, well_formed, within_sight, Problem,
};
use crate::problems::shortest_path::{
    first_edges, lemma_grid_depth_suffices, lemma_grid_is_searchable, lemma_grid_least_steps,
    lemma_grid_walks_fit, ShortestPath,
};
use crate::problems::taquin::{
    lemma_fifteen_puzzle_walks_fit, lemma_moves_cost_one, lemma_puzzle_walks_are_short,
    lemma_scrambled_is_solvable, lemma_small_puzzles_fit, lemma_taquin_estimates_hold,
    lemma_taquin_well_formed, Taquin,
};
use vstd::prelude::*;

verus! {

impl SearchResult {
    /// The cost of the solution held.
    pub open spec fn cost<P: Problem>(self, p: &P) -> nat {
        solution_cost(p, self.solution.unwrap()@)
    }
}

/// On a problem whose edges all cost 1 and whose states can be counted in a
/// machine word, breadth-first search succeeds exactly when there is a
/// solution, and its solution has the least number of actions that any
/// solution has.
pub proof fn bfs_is_shortest_on_unit_costs<P: Problem>(p: &P, found: SearchResult)
    requires
        well_formed(p),
        unit_costs(p),
        p.space().len() <= usize::MAX + 1,
        bfs_finds(p, found),
    ensures
        found.status == STATUS_SUCCESS <==> solvable(p),
        found.solution matches Some(actions) ==> shortest(p, actions@),
{
    lemma_unit_costs_fit(p);
}

/// On a problem whose edges all cost 1, breadth-first search finds a
/// solution with the least number of actions whenever some solution has
/// fewer actions than a machine word can count, however many states there
/// are.
pub proof fn bfs_is_shortest_where_a_solution_is_in_sight<P: Problem>(
    p: &P,
    some: Seq<usize>,
    found: SearchResult,
)
    requires
        well_formed(p),
        unit_costs(p),
        is_solution(p, some),
        some.len() < usize::MAX,
        bfs_finds(p, found),
    ensures
        found.status == STATUS_SUCCESS,
        shortest(p, found.solution.unwrap()@),
        found.solution.unwrap().len() <= some.len(),
{
    assert(fit_up_to(p, some.len() as int + 1)) by {
        assert forall|actions: Seq<usize>| #[trigger]
            simple_walk(p, actions) && actions.len() <= some.len() + 1 implies actions.len()
            <= usize::MAX && walk_cost(p, p.start(), actions) <= usize::MAX by {
            lemma_unit_cost_is_length(p, actions);
        }
    }
    assert(within_sight(p));
    assert(solvable(p));
}

/// On a problem with an admissible and consistent estimate whose scores fit
/// in machine words, or where the cost of some solution is in sight, the
/// solutions that A* and iterative-deepening A* find cost the same, which
/// is the least that any solution costs: no more than the solution that
/// any other search finds.
pub proof fn informed_searches_agree<P: Problem>(
    p: &P,
    max_bound: usize,
    astar: SearchResult,
    idastar: SearchResult,
    other: SearchResult,
)
    requires
        well_formed(p),
        keeps_scores(p),
        admissible(p),
        consistent(p),
        astar_finds(p, astar),
        idastar_finds(p, max_bound, idastar),
        other.answers(p),
    ensures
        astar.solution is Some && idastar.solution is Some ==> astar.cost(p) == idastar.cost(p),
        astar.solution is Some && other.solution is Some ==> astar.cost(p) <= other.cost(p),
        idastar.solution is Some && other.solution is Some ==> idastar.cost(p) <= other.cost(p),
{
    if astar.solution is Some && idastar.solution is Some {
        assert(is_solution(p, astar.solution.unwrap()@));
        assert(is_solution(p, idastar.solution.unwrap()@));
    }
    if other.solution is Some {
        assert(is_solution(p, other.solution.unwrap()@));
    }
}

/// On a problem with an admissible and consistent estimate, A* finds a
/// solution of the least cost, no more than any other search's, whenever
/// the cost of some solution is in sight: the walks that go one action
/// beyond a cost plus estimate of what it costs fit in machine words.
pub proof fn astar_is_cheapest_where_a_cost_is_in_sight<P: Problem>(
    p: &P,
    some: Seq<usize>,
    astar: SearchResult,
    other: SearchResult,
)
    requires
        well_formed(p),
        admissible(p),
        consistent(p),
        is_solution(p, some),
        fit_beyond(p, solution_cost(p, some) as int),
        astar_finds(p, astar),
        other.answers(p),
    ensures
        astar.status == STATUS_SUCCESS,
        cheapest(p, astar.solution.unwrap()@),
        astar.cost(p) <= solution_cost(p, some),
        other.solution is Some ==> astar.cost(p) <= other.cost(p),
{
    assert(cost_in_sight(p));
    assert(solvable(p));
    if other.solution is Some {
        assert(is_solution(p, other.solution.unwrap()@));
    }
}

/// On a problem with an admissible and consistent estimate, where the cost
/// of some solution is in sight and within the limit, iterative-deepening
/// A* finds a solution of the least cost, the same as that of A*.
pub proof fn idastar_is_cheapest_within_its_limit<P: Problem>(
    p: &P,
    max_bound: usize,
    some: Seq<usize>,
    idastar: SearchResult,
    astar: SearchResult,
)
    requires
        well_formed(p),
        admissible(p),
        consistent(p),
        is_solution(p, some),
        solution_cost(p, some) <= max_bound,
        solution_cost(p, some) < usize::MAX,
        fit_beyond(p, solution_cost(p, some) as int),
        idastar_finds(p, max_bound, idastar),
        astar_finds(p, astar),
    ensures
        idastar.status == STATUS_SUCCESS,
        astar.status == STATUS_SUCCESS,
        cheapest(p, idastar.solution.unwrap()@),
        idastar.cost(p) == astar.cost(p),
        idastar.cost(p) <= solution_cost(p, some),
{
    assert(cost_in_sight(p));
    assert(solvable(p));
    assert(affordable(p, some, max_bound as int)) by {
        assert forall|j: int| 0 <= j <= some.len() implies #[trigger] f_at(p, some, j)
            <= max_bound && f_at(p, some, j) < usize::MAX by {
            lemma_walk_split(p, p.start(), some, j);
            lemma_walk_stays(p, p.start(), some.take(j));
        }
    }
    assert(is_solution(p, idastar.solution.unwrap()@));
    assert(is_solution(p, astar.solution.unwrap()@));
}

/// Through a grid of `width` by `height` cells, breadth-first search finds
/// a way of the least number of steps there is: the lengths of the two
/// sides together, less two. So does A*, as long as the number of the cells
/// and the lengths of the sides together fit in a machine word.
pub proof fn grid_is_crossed_in_least_steps(
    g: &ShortestPath,
    width: usize,
    height: usize,
    bfs: SearchResult,
    astar: SearchResult,
)
    requires
        g.is_grid(width, height),
        bfs_finds(g, bfs),
        astar_finds(g, astar),
    ensures
        bfs.status == STATUS_SUCCESS,
        bfs.solution.unwrap().len() == width + height - 2,
        width * height + width + height <= usize::MAX ==> astar.status == STATUS_SUCCESS
            && astar.solution.unwrap().len() == width + height - 2,
{
    lemma_grid_walks_fit(g, width, height);
    lemma_grid_least_steps(g, width, height);
    let way = first_edges((width + height - 2) as nat);
    assert(is_solution(g, way));
    assert(width >= 1 && height >= 1) by (nonlinear_arith)
        requires
            1 <= width * height,
    ;
    assert(way.len() == width + height - 2);
    assert(solvable(g));
    let short = bfs.solution.unwrap()@;
    assert(shortest(g, short));
    assert(short.len() <= way.len());
    if width * height + width + height <= usize::MAX {
        lemma_grid_is_searchable(g, width, height);
        let cheap = astar.solution.unwrap()@;
        assert(cheapest(g, cheap));
        assert(solution_cost(g, cheap) <= solution_cost(g, way));
        assert(solution_cost(g, cheap) == cheap.len());
        assert(solution_cost(g, way) == way.len());
    }
}

/// Through a grid, depth-first search and iterative deepening find a way
/// whenever their depth bound is the number of the cells, less one, or
/// more.
pub proof fn grid_is_crossed_within_depth(
    g: &ShortestPath,
    width: usize,
    height: usize,
    max_depth: usize,
    dfs: SearchResult,
    deepening: SearchResult,
)
    requires
        g.is_grid(width, height),
        width * height <= max_depth + 1,
        dfs_finds(g, Some(max_depth), dfs),
        deepening_finds(g, max_depth, deepening),
    ensures
        dfs.status == STATUS_SUCCESS,
        deepening.status == STATUS_SUCCESS,
{
    lemma_grid_walks_fit(g, width, height);
    lemma_grid_least_steps(g, width, height);
    lemma_grid_depth_suffices(g, width, height, max_depth);
}

/// On a puzzle with sides of 3 or less, whatever its initial board and its
/// estimate, breadth-first search and A* succeed exactly when the puzzle
/// can be solved; the solution of breadth-first search has the least
/// number of moves, and those of A* and of iterative-deepening A* cost the
/// least.
pub proof fn small_puzzles_are_solved_at_least_cost(
    t: &Taquin,
    max_bound: usize,
    bfs: SearchResult,
    astar: SearchResult,
    idastar: SearchResult,
)
    requires
        t.valid(),
        t.side() <= 3,
        bfs_finds(t, bfs),
        astar_finds(t, astar),
        idastar_finds(t, max_bound, idastar),
    ensures
        bfs.status == STATUS_SUCCESS <==> solvable(t),
        astar.status == STATUS_SUCCESS <==> solvable(t),
        bfs.solution matches Some(actions) ==> shortest(t, actions@),
        astar.solution matches Some(actions) ==> cheapest(t, actions@),
        idastar.solution matches Some(actions) ==> cheapest(t, actions@),
{
    lemma_small_puzzles_fit(t);
    lemma_taquin_estimates_hold(t);
}

/// A puzzle with sides of 3 or less that was scrambled from its goal by
/// `limit` moves or fewer is solved by breadth-first search and by A*, in
/// no more moves than it was scrambled by.
pub proof fn scrambled_small_puzzles_are_solved(
    t: &Taquin,
    limit: nat,
    bfs: SearchResult,
    astar: SearchResult,
)
    requires
        t.valid(),
        t.side() <= 3,
        t.scrambled(t.target(), t.initial(), limit),
        bfs_finds(t, bfs),
        astar_finds(t, astar),
    ensures
        bfs.status == STATUS_SUCCESS,
        bfs.solution.unwrap().len() <= limit,
        astar.status == STATUS_SUCCESS,
        astar.solution.unwrap().len() <= limit,
{
    lemma_taquin_well_formed(t);
    lemma_small_puzzles_fit(t);
    lemma_taquin_estimates_hold(t);
    lemma_moves_cost_one(t);
    let back = lemma_scrambled_is_solvable(t, limit);
    assert(solvable(t));
    let short = bfs.solution.unwrap()@;
    assert(shortest(t, short));
    let cheap = astar.solution.unwrap()@;
    assert(cheapest(t, cheap));
    lemma_unit_cost_is_length(t, cheap);
    lemma_unit_cost_is_length(t, back);
}

/// A puzzle of any size that was scrambled from its goal by `limit` moves
/// or fewer is solved by breadth-first search, in the least number of
/// moves, which is no more than it was scrambled by.
pub proof fn scrambled_puzzles_are_solved_by_bfs(t: &Taquin, limit: nat, bfs: SearchResult)
    requires
        t.valid(),
        limit < usize::MAX,
        t.scrambled(t.target(), t.initial(), limit),
        bfs_finds(t, bfs),
    ensures
        bfs.status == STATUS_SUCCESS,
        shortest(t, bfs.solution.unwrap()@),
        bfs.solution.unwrap().len() <= limit,
{
    lemma_taquin_well_formed(t);
    lemma_moves_cost_one(t);
    let back = lemma_scrambled_is_solvable(t, limit);
    assert(fit_up_to(t, back.len() as int + 1)) by {
        assert forall|actions: Seq<usize>| #[trigger]
            simple_walk(t, actions) && actions.len() <= back.len() + 1 implies actions.len()
            <= usize::MAX && walk_cost(t, t.start(), actions) <= usize::MAX by {
            lemma_unit_cost_is_length(t, actions);
        }
    }
    assert(within_sight(t));
    assert(solvable(t));
}

/// A puzzle of any size that was scrambled from its goal by `limit` moves
/// or fewer is solved by A* at the least cost, which is no more than it
/// was scrambled by, as long as `limit` falls short of the largest machine
/// word by what the estimate can come to.
pub proof fn scrambled_puzzles_are_solved_by_astar(t: &Taquin, limit: nat, astar: SearchResult)
    requires
        t.valid(),
        limit + 510 * 255 + 1 <= usize::MAX,
        t.scrambled(t.target(), t.initial(), limit),
        astar_finds(t, astar),
    ensures
        astar.status == STATUS_SUCCESS,
        cheapest(t, astar.solution.unwrap()@),
        astar.solution.unwrap().len() <= limit,
{
    lemma_taquin_well_formed(t);
    lemma_taquin_estimates_hold(t);
    lemma_moves_cost_one(t);
    let back = lemma_scrambled_is_solvable(t, limit);
    lemma_unit_cost_is_length(t, back);
    assert(fit_beyond(t, solution_cost(t, back) as int)) by {
        assert forall|actions: Seq<usize>| #[trigger]
            simple_walk(t, actions) && actions.len() > 0 && walk_cost(
                t,
                t.start(),
                actions.drop_last(),
            ) + t.estimate(walk_end(t, t.start(), actions.drop_last())) <= solution_cost(
                t,
                back,
            ) implies actions.len() <= usize::MAX && walk_cost(t, t.start(), actions) + t.estimate(
            walk_end(t, t.start(), actions),
        ) <= usize::MAX by {
            lemma_walk_take(t, t.start(), actions, actions.len() - 1);
            assert(actions.take(actions.len() - 1) =~= actions.drop_last());
            lemma_unit_cost_is_length(t, actions.drop_last());
            lemma_unit_cost_is_length(t, actions);
            lemma_puzzle_walks_are_short(t, actions);
        }
    }
    assert(cost_in_sight(t));
    assert(solvable(t));
    lemma_unit_cost_is_length(t, astar.solution.unwrap()@);
}

/// On a puzzle with sides of 4 and a machine with words of 64 bits,
/// breadth-first search succeeds exactly when the puzzle can be solved, and
/// its solution has the least number of moves.
pub proof fn fifteen_puzzle_is_solved_in_least_moves(t: &Taquin, bfs: SearchResult)
    requires
        t.valid(),
        t.side() == 4,
        usize::MAX >= 0xffff_ffff_ffff_ffff,
        bfs_finds(t, bfs),
    ensures
        bfs.status == STATUS_SUCCESS <==> solvable(t),
        bfs.solution matches Some(actions) ==> shortest(t, actions@),
{
    lemma_taquin_well_formed(t);
    lemma_fifteen_puzzle_walks_fit(t);
}

/// On a problem whose edges all cost 1 and whose estimate is 0 everywhere,
/// iterative-deepening A* tries no bound beyond its limit: where every
/// solution has more actions than `max_bound`, it ends without a solution.
pub proof fn idastar_stops_at_its_limit<P: Problem>(p: &P, max_bound: usize, found: SearchResult)
    requires
        well_formed(p),
        unit_costs(p),
        forall|s: <P::State as View>::V| p.estimate(s) == 0,
        forall|w: Seq<usize>| #[trigger] is_solution(p, w) ==> w.len() > max_bound,
        idastar_finds(p, max_bound, found),
    ensures
        found.status == STATUS_NO_SOLUTION,
        found.solution is None,
{
    if found.solution is Some {
        let actions = found.solution.unwrap()@;
        let limit = max_bound as int;
        lemma_unit_cost_is_length(p, actions);
        let bound = choose|bound: int| #[trigger]
            proposed(p, limit, bound) && solution_cost(p, actions) <= bound;
        let below = choose|below: int|
            below < limit && #[trigger] reaches(p, Seq::<usize>::empty(), below, bound);
        let w = choose|w: Seq<usize>| #[trigger]
            probes(p, Seq::<usize>::empty(), w, below) && f_at(p, w, w.len() as int) == bound;
        let n = w.len() as int;
        assert(w.take(n) =~= w);
        lemma_unit_cost_is_length(p, w);
        if n > 0 {
            lemma_walk_take(p, p.start(), w, n - 1);
            lemma_unit_cost_is_length(p, w.take(n - 1));
            assert(f_at(p, w, n - 1) <= below);
        }
        assert(is_solution(p, actions));
    }
}

/// The search that reports to shared metrics gives the result of the plain
/// search: two results that follow one course, as those of one algorithm
/// on one problem do, have the same status, the same solution and, the
/// time apart, the same metrics.
pub proof fn shared_search_gives_the_same_result<P: Problem>(
    p: &P,
    course: Stage<<P::State as View>::V>,
    plain: SearchResult,
    shared: SearchResult,
)
    requires
        plain.answers(p),
        shared.answers(p),
        follows_course(course, plain),
        follows_course(course, shared),
    ensures
        shared.status == plain.status,
        shown(shared.solution) == shown(plain.solution),
        shared.metrics.untimed() == plain.metrics.untimed(),
        shared.metrics.nodes_visited == plain.metrics.nodes_visited,
        shared.metrics.nodes_generated == plain.metrics.nodes_generated,
        shared.metrics.max_frontier_size == plain.metrics.max_frontier_size,
        shared.metrics.memory_kb == plain.metrics.memory_kb,
        shared.metrics.solution_length == plain.metrics.solution_length,
{
}

/// A search that ran to its end never counts as a timeout, whatever it
/// found: where no timeout is set, no task is reported as one.
pub proof fn finished_search_is_no_timeout<P: Problem>(p: &P, found: SearchResult)
    requires
        found.answers(p),
    ensures
        found.status != STATUS_TIMEOUT,
        reported(found.status, None).0 == found.status,
{
}

/// A solution of the least cost costs what any other solution of the least
/// cost costs.
pub proof fn cheapest_cost_is_unique<P: Problem>(p: &P, first: Seq<usize>, second: Seq<usize>)
    requires
        cheapest(p, first),
        cheapest(p, second),
    ensures
        solution_cost(p, first) == solution_cost(p, second),
{
}

} // verus!
