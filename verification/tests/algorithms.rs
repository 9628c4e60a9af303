use search_bench::algorithms::astar::AStar;
use search_bench::algorithms::bfs::BFS;
use search_bench::algorithms::dfs::{depth_first, DFS};
use search_bench::algorithms::idastar::IDAStar;
use search_bench::algorithms::iterative_deepening::{deepening, IterativeDeepening};
use search_bench::algorithms::{
    SearchAlgorithm, SearchResult, STATUS_NO_SOLUTION, STATUS_SUCCESS, STATUS_TIMEOUT,
};
use search_bench::benchmarking::metrics::{Event, Recorder, Tally};
use search_bench::benchmarking::SharedMetrics;
use search_bench::problem::Problem;
use search_bench::problems::shortest_path::ShortestPath;
use search_bench::problems::taquin::{HeuristicType, Taquin};

/// Follows `actions` from the start of `problem`: each is the index of the
/// successor taken. Gives the state reached and the cost.
fn replay<P: Problem>(problem: &P, actions: &[usize]) -> (P::State, usize) {
    let mut state = problem.initial_state();
    let mut cost = 0;
    for action in actions {
        let mut successors = problem.successors(&state);
        assert!(*action < successors.len());
        let (next, step) = successors.swap_remove(*action);
        state = next;
        cost += step;
    }
    (state, cost)
}

fn check_success<P: Problem>(problem: &P, result: &SearchResult) -> usize {
    assert_eq!(result.status, STATUS_SUCCESS);
    let actions = result.solution.as_ref().unwrap();
    let (end, cost) = replay(problem, actions);
    assert!(problem.is_goal(&end));
    cost
}

fn weighted_graph() -> ShortestPath {
    // 0 -> 1 -> 2 -> 5 costs 1 + 1 + 1; 0 -> 5 directly costs 10; 0 -> 3 -> 5 costs 2 + 4.
    let mut graph = ShortestPath::new(0, 5);
    graph.add_edge(0, 5, 10);
    graph.add_edge(0, 3, 2);
    graph.add_edge(0, 1, 1);
    graph.add_edge(1, 2, 1);
    graph.add_edge(1, 0, 1);
    graph.add_edge(2, 5, 1);
    graph.add_edge(3, 5, 4);
    graph.add_edge(5, 4, 1);
    graph.set_heuristic(0, 3);
    graph.set_heuristic(1, 2);
    graph.set_heuristic(2, 1);
    graph.set_heuristic(3, 3);
    graph
}

fn long_line() -> ShortestPath {
    let mut graph = ShortestPath::new(0, 10);
    for node in 0..10 {
        graph.add_edge(node, node + 1, 1);
    }
    graph
}

fn dead_end() -> ShortestPath {
    let mut graph = ShortestPath::new(0, 9);
    graph.add_edge(0, 1, 1);
    graph.add_edge(1, 2, 1);
    graph.add_edge(2, 0, 1);
    graph.add_edge(2, 3, 1);
    graph
}

#[test]
fn bfs_finds_the_shortest_way_through_a_grid() {
    for n in 1..7 {
        let graph = ShortestPath::generate_grid(n, n);
        let result = BFS.search(&graph);
        check_success(&graph, &result);
        let actions = result.solution.unwrap();
        assert_eq!(actions.len(), 2 * (n - 1));
        assert_eq!(result.metrics.solution_length, 2 * (n - 1));
    }
}

#[test]
fn astar_matches_bfs_on_a_grid() {
    for n in 1..7 {
        let graph = ShortestPath::generate_grid(n, n);
        let bfs = BFS.search(&graph);
        let astar = AStar.search(&graph);
        let cost = check_success(&graph, &astar);
        assert_eq!(cost, 2 * (n - 1));
        assert_eq!(astar.solution.unwrap().len(), bfs.solution.unwrap().len());
    }
}

#[test]
fn idastar_matches_astar_on_a_grid() {
    for n in 1..5 {
        let graph = ShortestPath::generate_grid(n, n);
        let result = IDAStar::new(100).search(&graph);
        let cost = check_success(&graph, &result);
        assert_eq!(cost, 2 * (n - 1));
    }
}

#[test]
fn bfs_counts_actions_not_costs() {
    let graph = weighted_graph();
    let result = BFS.search(&graph);
    let cost = check_success(&graph, &result);
    assert_eq!(result.solution, Some(vec![0]));
    assert_eq!(cost, 10);
}

#[test]
fn astar_and_idastar_find_the_cheapest_way() {
    let graph = weighted_graph();
    let astar = AStar.search(&graph);
    assert_eq!(check_success(&graph, &astar), 3);
    assert_eq!(astar.solution, Some(vec![2, 0, 0]));
    let idastar = IDAStar::new(50).search(&graph);
    assert_eq!(check_success(&graph, &idastar), 3);
    assert_eq!(idastar.solution, Some(vec![2, 0, 0]));
    let bfs = BFS.search(&graph);
    let dfs = DFS::new().search(&graph);
    let ids = IterativeDeepening::new(10).search(&graph);
    assert!(3 <= check_success(&graph, &bfs));
    assert!(3 <= check_success(&graph, &dfs));
    assert!(3 <= check_success(&graph, &ids));
}

#[test]
fn dfs_follows_the_last_successor_first() {
    let graph = weighted_graph();
    let result = DFS::new().search(&graph);
    // The stack gives out the last edge pushed: 0 -> 1, then 1 -> 2, then 2 -> 5.
    assert_eq!(result.solution, Some(vec![2, 0, 0]));
    assert_eq!(result.metrics.nodes_visited, 4);
    assert_eq!(result.metrics.nodes_generated, 6);
    assert_eq!(result.metrics.solution_length, 3);
}

#[test]
fn solved_puzzle_needs_no_action() {
    let mut taquin = Taquin::new(3, HeuristicType::Manhattan);
    taquin.generate_random(0);
    assert!(taquin.is_goal(&taquin.initial_state()));
    let results = vec![
        BFS.search(&taquin),
        DFS::new().search(&taquin),
        DFS::with_max_depth(0).search(&taquin),
        IterativeDeepening::new(5).search(&taquin),
        AStar.search(&taquin),
        IDAStar::new(10).search(&taquin),
        BFS.search_with_shared_metrics(&taquin, SharedMetrics::new()),
        DFS::new().search_with_shared_metrics(&taquin, SharedMetrics::new()),
        IterativeDeepening::new(5).search_with_shared_metrics(&taquin, SharedMetrics::new()),
        AStar.search_with_shared_metrics(&taquin, SharedMetrics::new()),
        IDAStar::new(10).search_with_shared_metrics(&taquin, SharedMetrics::new()),
    ];
    for result in results {
        assert_eq!(result.status, STATUS_SUCCESS);
        assert_eq!(result.solution, Some(vec![]));
        assert_eq!(result.metrics.solution_length, 0);
        assert_eq!(result.metrics.nodes_visited, 1);
    }
}

#[test]
fn bounded_searches_report_no_solution() {
    let graph = ShortestPath::generate_grid(4, 4);
    let dfs = DFS::with_max_depth(3).search(&graph);
    assert_eq!(dfs.status, STATUS_NO_SOLUTION);
    assert_ne!(dfs.status, STATUS_TIMEOUT);
    assert_eq!(dfs.solution, None);
    let ids = IterativeDeepening::new(5).search(&graph);
    assert_eq!(ids.status, STATUS_NO_SOLUTION);
    assert_eq!(ids.solution, None);
    let line = long_line();
    let idastar = IDAStar::new(3).search(&line);
    assert_eq!(idastar.status, STATUS_NO_SOLUTION);
    assert_ne!(idastar.status, STATUS_TIMEOUT);
    assert_eq!(idastar.solution, None);
    // One descent for each of the bounds 0, 1, 2 and 3.
    assert_eq!(idastar.metrics.nodes_visited, 2 + 3 + 4 + 5);
    let shared = IDAStar::new(3).search_with_shared_metrics(&line, SharedMetrics::new());
    assert_eq!(shared.status, STATUS_NO_SOLUTION);
    let enough = IDAStar::new(10).search(&line);
    assert_eq!(check_success(&line, &enough), 10);
    // The bound that a descent proposes is tried even where it exceeds the limit.
    let grid = IDAStar::new(5).search(&graph);
    assert_eq!(check_success(&graph, &grid), 6);
    let shared = DFS::with_max_depth(3).search_with_shared_metrics(&graph, SharedMetrics::new());
    assert_eq!(shared.status, STATUS_NO_SOLUTION);
    let shared =
        IterativeDeepening::new(5).search_with_shared_metrics(&graph, SharedMetrics::new());
    assert_eq!(shared.status, STATUS_NO_SOLUTION);
}

#[test]
fn unreachable_goal_is_no_solution_for_all() {
    let graph = dead_end();
    let results = vec![
        BFS.search(&graph),
        DFS::new().search(&graph),
        IterativeDeepening::new(6).search(&graph),
        AStar.search(&graph),
        IDAStar::new(20).search(&graph),
    ];
    for result in results {
        assert_eq!(result.status, STATUS_NO_SOLUTION);
        assert_eq!(result.solution, None);
        assert_eq!(result.metrics.solution_length, 0);
    }
    let bfs = BFS.search(&graph);
    assert_eq!(bfs.metrics.nodes_visited, 4);
    assert_eq!(bfs.metrics.nodes_generated, 4);
    let dfs = DFS::new().search(&graph);
    assert_eq!(dfs.metrics.nodes_visited, 4);
}

#[test]
fn depth_bound_limits_the_solution() {
    let graph = ShortestPath::generate_grid(3, 3);
    for bound in 4..12 {
        let result = DFS::with_max_depth(bound).search(&graph);
        if result.status == STATUS_SUCCESS {
            check_success(&graph, &result);
            assert!(result.solution.unwrap().len() <= bound);
        }
    }
    let ids = IterativeDeepening::new(20).search(&graph);
    check_success(&graph, &ids);
    assert!(ids.solution.unwrap().len() <= 20);
}

#[test]
fn iterative_deepening_adds_up_its_rounds() {
    let graph = ShortestPath::generate_grid(2, 2);
    // Bound 0 visits the root; bound 1 visits the root and its two children;
    // bound 2 finds the goal.
    let result = IterativeDeepening::new(4).search(&graph);
    assert_eq!(result.status, STATUS_SUCCESS);
    assert_eq!(result.solution.as_ref().unwrap().len(), 2);
    let zero = DFS::with_max_depth(0).search(&graph);
    let one = DFS::with_max_depth(1).search(&graph);
    let two = DFS::with_max_depth(2).search(&graph);
    assert_eq!(zero.status, STATUS_NO_SOLUTION);
    assert_eq!(one.status, STATUS_NO_SOLUTION);
    assert_eq!(two.status, STATUS_SUCCESS);
    assert_eq!(
        result.metrics.nodes_visited,
        zero.metrics.nodes_visited + one.metrics.nodes_visited + two.metrics.nodes_visited
    );
    assert_eq!(
        result.metrics.nodes_generated,
        zero.metrics.nodes_generated + one.metrics.nodes_generated + two.metrics.nodes_generated
    );
    assert_eq!(result.metrics.max_frontier_size, two.metrics.max_frontier_size);
    assert_eq!(result.metrics.solution_length, 2);
}

#[test]
fn puzzles_a_few_moves_off_are_solved() {
    // Two moves from the goal: the blank went right, then down.
    let board = vec![1, 4, 2, 3, 0, 5, 6, 7, 8];
    let taquin = Taquin::from_state(3, board, HeuristicType::Manhattan);
    let bfs = BFS.search(&taquin);
    assert_eq!(check_success(&taquin, &bfs), 2);
    let astar = AStar.search(&taquin);
    assert_eq!(check_success(&taquin, &astar), 2);
    let idastar = IDAStar::new(40).search(&taquin);
    assert_eq!(check_success(&taquin, &idastar), 2);
    let ids = IterativeDeepening::new(10).search(&taquin);
    assert_eq!(check_success(&taquin, &ids), 2);
    let hamming = Taquin::from_state(3, vec![1, 4, 2, 3, 0, 5, 6, 7, 8], HeuristicType::Hamming);
    assert_eq!(check_success(&hamming, &AStar.search(&hamming)), 2);
    assert_eq!(check_success(&hamming, &IDAStar::new(40).search(&hamming)), 2);
    let zero = Taquin::from_state(3, vec![1, 4, 2, 3, 0, 5, 6, 7, 8], HeuristicType::Zero);
    assert_eq!(check_success(&zero, &AStar.search(&zero)), 2);
}

#[test]
fn scrambled_puzzles_are_solved_at_the_least_cost() {
    for _ in 0..5 {
        let mut taquin = Taquin::new(3, HeuristicType::Manhattan);
        taquin.generate_random(12);
        let bfs = BFS.search(&taquin);
        let astar = AStar.search(&taquin);
        let idastar = IDAStar::new(60).search(&taquin);
        let least = check_success(&taquin, &bfs);
        assert!(least <= 12);
        assert_eq!(check_success(&taquin, &astar), least);
        assert_eq!(check_success(&taquin, &idastar), least);
    }
}

#[test]
fn shared_metrics_give_the_same_answers() {
    let graph = ShortestPath::generate_grid(4, 4);
    let shared = SharedMetrics::new();
    let bfs = BFS.search_with_shared_metrics(&graph, shared.clone());
    assert_eq!(check_success(&graph, &bfs), 6);
    let seen = shared.get();
    assert_eq!(seen.solution_length, 6);
    assert_eq!(seen.nodes_visited, bfs.metrics.nodes_visited);
    assert_eq!(seen.nodes_generated, bfs.metrics.nodes_generated);
    let plain = BFS.search(&graph);
    assert_eq!(plain.metrics.nodes_visited, seen.nodes_visited);
    assert_eq!(plain.metrics.nodes_generated, seen.nodes_generated);
    assert_eq!(plain.metrics.max_frontier_size, seen.max_frontier_size);
    assert_eq!(plain.metrics.memory_kb, seen.memory_kb);
    assert_eq!(plain.solution, bfs.solution);

    let astar = AStar.search_with_shared_metrics(&graph, SharedMetrics::new());
    assert_eq!(check_success(&graph, &astar), 6);
    assert_eq!(astar.solution, AStar.search(&graph).solution);
    let dfs = DFS::new().search_with_shared_metrics(&graph, SharedMetrics::new());
    check_success(&graph, &dfs);
    assert_eq!(dfs.solution, DFS::new().search(&graph).solution);
    let idastar = IDAStar::new(30).search_with_shared_metrics(&graph, SharedMetrics::new());
    assert_eq!(check_success(&graph, &idastar), 6);
    let ids = IterativeDeepening::new(30).search_with_shared_metrics(&graph, SharedMetrics::new());
    check_success(&graph, &ids);
}

#[test]
fn iterative_deepening_shares_the_sums_of_its_rounds() {
    let graph = ShortestPath::generate_grid(2, 2);
    let shared = SharedMetrics::new();
    let result = IterativeDeepening::new(4).search_with_shared_metrics(&graph, shared.clone());
    let plain = IterativeDeepening::new(4).search(&graph);
    assert_eq!(result.status, plain.status);
    assert_eq!(result.solution, plain.solution);
    assert_eq!(result.metrics.nodes_visited, plain.metrics.nodes_visited);
    assert_eq!(result.metrics.nodes_generated, plain.metrics.nodes_generated);
    assert_eq!(result.metrics.max_frontier_size, plain.metrics.max_frontier_size);
    assert_eq!(result.metrics.solution_length, plain.metrics.solution_length);
    // The generated nodes of all three rounds, not those of the last alone.
    let zero = DFS::with_max_depth(0).search(&graph);
    let one = DFS::with_max_depth(1).search(&graph);
    let two = DFS::with_max_depth(2).search(&graph);
    assert_eq!(
        result.metrics.nodes_generated,
        zero.metrics.nodes_generated + one.metrics.nodes_generated + two.metrics.nodes_generated
    );
    assert!(result.metrics.nodes_generated > two.metrics.nodes_generated);
    let seen = shared.get();
    assert_eq!(seen.nodes_visited, plain.metrics.nodes_visited);
    assert_eq!(seen.nodes_generated, plain.metrics.nodes_generated);

    // The same where no round succeeds.
    let wide = ShortestPath::generate_grid(4, 4);
    let shared = SharedMetrics::new();
    let failed = IterativeDeepening::new(3).search_with_shared_metrics(&wide, shared.clone());
    let plain = IterativeDeepening::new(3).search(&wide);
    assert_eq!(failed.status, STATUS_NO_SOLUTION);
    assert_eq!(failed.status, plain.status);
    assert_eq!(failed.metrics.nodes_visited, plain.metrics.nodes_visited);
    assert_eq!(failed.metrics.nodes_generated, plain.metrics.nodes_generated);
    assert_eq!(shared.get().nodes_generated, plain.metrics.nodes_generated);
}

/// The states that `actions` lead through from the start, the start
/// included.
fn states_along<P: Problem>(problem: &P, actions: &[usize]) -> Vec<P::State> {
    let mut states = vec![problem.initial_state()];
    for action in actions {
        let mut successors = problem.successors(states.last().unwrap());
        states.push(successors.swap_remove(*action).0);
    }
    states
}

#[test]
fn depth_first_solutions_visit_no_state_twice() {
    let mut loops = ShortestPath::new(0, 4);
    loops.add_edge(0, 1, 1);
    loops.add_edge(1, 0, 1);
    loops.add_edge(1, 2, 1);
    loops.add_edge(2, 1, 1);
    loops.add_edge(2, 0, 1);
    loops.add_edge(2, 3, 1);
    loops.add_edge(3, 2, 1);
    loops.add_edge(3, 4, 1);
    let grid = ShortestPath::generate_grid(4, 4);
    for graph in [loops, grid] {
        let results = vec![
            DFS::new().search(&graph),
            DFS::with_max_depth(12).search(&graph),
            DFS::new().search_with_shared_metrics(&graph, SharedMetrics::new()),
            IterativeDeepening::new(12).search(&graph),
        ];
        for result in results {
            check_success(&graph, &result);
            let states = states_along(&graph, result.solution.as_ref().unwrap());
            for later in 0..states.len() {
                for earlier in 0..later {
                    assert!(states[earlier] != states[later]);
                }
            }
        }
    }
}

#[test]
fn idastar_tries_no_bound_beyond_its_limit() {
    let mut line = ShortestPath::new(0, 4);
    line.add_edge(0, 1, 1);
    line.add_edge(1, 2, 1);
    line.add_edge(2, 3, 1);
    line.add_edge(3, 4, 1);
    // The bounds 0, 1 and 2 fail; the goal costs 4.
    let result = IDAStar::new(2).search(&line);
    assert_eq!(result.status, STATUS_NO_SOLUTION);
    assert_eq!(result.solution, None);
    assert_eq!(result.metrics.solution_length, 0);
    let shared = IDAStar::new(2).search_with_shared_metrics(&line, SharedMetrics::new());
    assert_eq!(shared.status, STATUS_NO_SOLUTION);
    assert_eq!(shared.solution, None);
    // With the limit 3 the bound 3 fails too; with 4 the goal is found.
    assert_eq!(IDAStar::new(3).search(&line).status, STATUS_NO_SOLUTION);
    assert_eq!(check_success(&line, &IDAStar::new(4).search(&line)), 4);
}

#[test]
fn algorithms_have_names() {
    assert_eq!(BFS.name(), "BFS");
    assert_eq!(DFS::new().name(), "DFS");
    assert_eq!(IterativeDeepening::new(3).name(), "Iterative Deepening");
    assert_eq!(AStar.name(), "A*");
    assert_eq!(IDAStar::new(3).name(), "IDA*");
    assert_eq!(DFS::new().max_depth, None);
    assert_eq!(DFS::with_max_depth(7).max_depth, Some(7));
    assert_eq!(IterativeDeepening::new(3).max_depth, 3);
    assert_eq!(IDAStar::new(9).max_bound, 9);
}

#[test]
fn bfs_metrics_on_a_small_grid() {
    let graph = ShortestPath::generate_grid(2, 2);
    let result = BFS.search(&graph);
    assert_eq!(result.solution, Some(vec![0, 0]));
    assert_eq!(result.metrics.nodes_visited, 4);
    assert_eq!(result.metrics.nodes_generated, 4);
    assert_eq!(result.metrics.max_frontier_size, 2);
    assert_eq!(result.metrics.solution_length, 2);
    assert_eq!(result.metrics.memory_kb, 0);
}

#[test]
fn inconsistent_estimate_may_cost_more() {
    // The estimate at 1 is too high, so the way through 2 is taken first and
    // the goal is reached at cost 4 although 3 is possible.
    let mut graph = ShortestPath::new(0, 3);
    graph.add_edge(0, 1, 1);
    graph.add_edge(0, 2, 2);
    graph.add_edge(1, 3, 2);
    graph.add_edge(2, 3, 2);
    graph.set_heuristic(1, 10);
    let result = AStar.search(&graph);
    assert_eq!(check_success(&graph, &result), 4);
}

#[test]
fn rectangles_are_crossed_in_the_least_steps() {
    for (width, height) in [(1, 5), (5, 1), (3, 5), (6, 2), (4, 4)] {
        let graph = ShortestPath::generate_grid(width, height);
        let least = width + height - 2;
        let bfs = BFS.search(&graph);
        assert_eq!(check_success(&graph, &bfs), least);
        assert_eq!(bfs.solution.as_ref().unwrap().len(), least);
        let astar = AStar.search(&graph);
        assert_eq!(check_success(&graph, &astar), least);
        let idastar = IDAStar::new(least).search(&graph);
        assert_eq!(check_success(&graph, &idastar), least);
        // Always taking the first edge leads along the first row and down the last column.
        let first_edges = vec![0; least];
        let (end, cost) = replay(&graph, &first_edges);
        assert_eq!(end, graph.goal_vertex());
        assert_eq!(cost, least);
    }
}

#[test]
fn taquin_estimates_never_fall_faster_than_moves_cost() {
    for kind in [HeuristicType::Manhattan, HeuristicType::Hamming, HeuristicType::Zero] {
        let mut taquin = Taquin::new(3, kind);
        taquin.generate_random(25);
        let mut state = taquin.initial_state();
        for step in 0..40 {
            let here = taquin.heuristic(&state);
            let successors = taquin.successors(&state);
            for (next, cost) in &successors {
                assert_eq!(*cost, 1);
                assert!(here <= 1 + taquin.heuristic(next));
                assert!(taquin.heuristic(next) <= 1 + here);
            }
            state = successors[step % successors.len()].0.clone();
        }
        assert_eq!(taquin.heuristic(taquin.goal_state()), 0);
    }
}

#[test]
fn larger_searches_end_in_time() {
    let graph = ShortestPath::generate_grid(30, 30);
    let bfs = BFS.search(&graph);
    assert_eq!(bfs.solution.as_ref().unwrap().len(), 58);
    assert_eq!(bfs.metrics.nodes_visited, 900);
    assert_eq!(bfs.metrics.nodes_generated, 900);
    let astar = AStar.search(&graph);
    assert_eq!(check_success(&graph, &astar), 58);
    let dfs = DFS::new().search(&graph);
    check_success(&graph, &dfs);
    let mut taquin = Taquin::new(3, HeuristicType::Manhattan);
    taquin.generate_random(200);
    let astar = AStar.search(&taquin);
    let cost = check_success(&taquin, &astar);
    assert!(cost <= 31);
    let idastar = IDAStar::new(62).search(&taquin);
    assert_eq!(check_success(&taquin, &idastar), cost);
}

#[test]
fn a_further_round_counts_on_top() {
    let graph = ShortestPath::generate_grid(3, 3);
    let one = DFS::with_max_depth(1).search(&graph);
    let two = DFS::with_max_depth(2).search(&graph);
    assert_eq!(one.status, STATUS_NO_SOLUTION);
    assert_eq!(two.status, STATUS_NO_SOLUTION);
    let mut tally = Tally::new();
    assert_eq!(depth_first(&graph, Some(1), false, &mut tally), None);
    assert_eq!(tally.counts().nodes_generated, one.metrics.nodes_generated);
    assert_eq!(depth_first(&graph, Some(2), true, &mut tally), None);
    let counts = tally.counts();
    assert_eq!(counts.nodes_visited, one.metrics.nodes_visited + two.metrics.nodes_visited);
    assert_eq!(counts.nodes_generated, one.metrics.nodes_generated + two.metrics.nodes_generated);
    assert_eq!(counts.max_frontier_size, two.metrics.max_frontier_size);
    assert_eq!(counts.memory_kb, two.metrics.memory_kb);
    assert_eq!(counts.solution_length, 0);
    assert_eq!(counts.time_ms, 0);

    // A first round starts the count of generated nodes again.
    let found = depth_first(&graph, Some(8), false, &mut tally);
    let alone = DFS::with_max_depth(8).search(&graph);
    assert_eq!(found, alone.solution);
    assert!(found.is_some());
    let after = tally.counts();
    assert_eq!(after.nodes_visited, counts.nodes_visited + alone.metrics.nodes_visited);
    assert_eq!(after.nodes_generated, alone.metrics.nodes_generated);
    assert_eq!(after.solution_length, alone.metrics.solution_length);
}

#[test]
fn rounds_add_up_in_any_recorder() {
    for (graph, max_depth) in [
        (ShortestPath::generate_grid(2, 2), 4),
        (ShortestPath::generate_grid(3, 3), 9),
        (ShortestPath::generate_grid(4, 4), 3),
    ] {
        let plain = IterativeDeepening::new(max_depth).search(&graph);
        let mut tally = Tally::new();
        let found = deepening(&graph, max_depth, &mut tally);
        let counts = tally.counts();
        assert_eq!(found, plain.solution);
        assert_eq!(counts.nodes_visited, plain.metrics.nodes_visited);
        assert_eq!(counts.nodes_generated, plain.metrics.nodes_generated);
        assert_eq!(counts.max_frontier_size, plain.metrics.max_frontier_size);
        assert_eq!(counts.solution_length, plain.metrics.solution_length);
        assert_eq!(counts.memory_kb, plain.metrics.memory_kb);
        assert_eq!(counts.time_ms, 0);
    }
}

/// The two results are the same but for the time.
fn assert_same(plain: &SearchResult, shared: &SearchResult) {
    assert_eq!(plain.status, shared.status);
    assert_eq!(plain.solution, shared.solution);
    assert_eq!(plain.metrics.nodes_visited, shared.metrics.nodes_visited);
    assert_eq!(plain.metrics.nodes_generated, shared.metrics.nodes_generated);
    assert_eq!(plain.metrics.max_frontier_size, shared.metrics.max_frontier_size);
    assert_eq!(plain.metrics.memory_kb, shared.metrics.memory_kb);
    assert_eq!(plain.metrics.solution_length, shared.metrics.solution_length);
}

#[test]
fn shared_searches_give_the_results_of_the_plain_ones() {
    let mut puzzle = Taquin::new(3, HeuristicType::Manhattan);
    puzzle.generate_random(14);
    let grid = ShortestPath::generate_grid(4, 4);
    let graph = weighted_graph();
    let lost = dead_end();
    for problem in [grid, graph, lost] {
        let shared = SharedMetrics::new();
        let result = AStar.search_with_shared_metrics(&problem, shared.clone());
        assert_same(&AStar.search(&problem), &result);
        // Nobody else wrote: the lock holds the counters of the result.
        let seen = shared.get();
        assert_eq!(seen.nodes_visited, result.metrics.nodes_visited);
        assert_eq!(seen.nodes_generated, result.metrics.nodes_generated);
        assert_eq!(seen.max_frontier_size, result.metrics.max_frontier_size);
        assert_eq!(seen.memory_kb, result.metrics.memory_kb);
        assert_eq!(seen.solution_length, result.metrics.solution_length);
        assert_same(
            &BFS.search(&problem),
            &BFS.search_with_shared_metrics(&problem, SharedMetrics::new()),
        );
        assert_same(
            &DFS::with_max_depth(9).search(&problem),
            &DFS::with_max_depth(9).search_with_shared_metrics(&problem, SharedMetrics::new()),
        );
        assert_same(
            &IterativeDeepening::new(5).search(&problem),
            &IterativeDeepening::new(5).search_with_shared_metrics(&problem, SharedMetrics::new()),
        );
        assert_same(
            &IDAStar::new(12).search(&problem),
            &IDAStar::new(12).search_with_shared_metrics(&problem, SharedMetrics::new()),
        );
    }
    // A handle that has recorded before starts its count again.
    let mut used = SharedMetrics::new();
    used.record(Event::Visited);
    used.record(Event::Generated);
    assert_same(&AStar.search(&puzzle), &AStar.search_with_shared_metrics(&puzzle, used));
    assert_same(
        &BFS.search(&puzzle),
        &BFS.search_with_shared_metrics(&puzzle, SharedMetrics::new()),
    );
}

#[test]
fn scrambled_puzzles_are_solved_within_their_moves() {
    for moves in [0usize, 1, 4, 9] {
        let mut puzzle = Taquin::new(3, HeuristicType::Manhattan);
        puzzle.generate_random(moves);
        let bfs = BFS.search(&puzzle);
        assert!(check_success(&puzzle, &bfs) <= moves);
        let astar = AStar.search(&puzzle);
        assert_eq!(check_success(&puzzle, &astar), bfs.solution.as_ref().unwrap().len());
        // Every move back and forth leaves the parity of the distance.
        assert_eq!(bfs.solution.as_ref().unwrap().len() % 2, moves % 2);
    }
}

#[test]
fn a_reporting_search_leaves_its_counts_in_the_handle() {
    let grid = ShortestPath::generate_grid(3, 3);
    let mut shared = SharedMetrics::new();
    shared.record(Event::Visited);
    let watcher = shared.clone();
    let result = AStar.search_reporting(&grid, &mut shared);
    assert_same(&AStar.search(&grid), &result);
    let counted = shared.counted();
    assert_eq!(counted.nodes_visited, result.metrics.nodes_visited);
    assert_eq!(counted.nodes_generated, result.metrics.nodes_generated);
    assert_eq!(counted.max_frontier_size, result.metrics.max_frontier_size);
    assert_eq!(counted.memory_kb, result.metrics.memory_kb);
    assert_eq!(counted.solution_length, result.metrics.solution_length);
    // Another handle sees what the lock holds: the visit recorded before
    // the search is in it too.
    assert_eq!(watcher.get().nodes_visited, result.metrics.nodes_visited + 1);
    assert_eq!(watcher.get().nodes_generated, result.metrics.nodes_generated);
    let mut other = SharedMetrics::new();
    assert_same(&BFS.search(&grid), &BFS.search_reporting(&grid, &mut other));
    assert_eq!(other.get().nodes_visited, other.counted().nodes_visited);
    assert_same(
        &DFS::with_max_depth(8).search(&grid),
        &DFS::with_max_depth(8).search_reporting(&grid, &mut other),
    );
    assert_same(
        &IterativeDeepening::new(8).search(&grid),
        &IterativeDeepening::new(8).search_reporting(&grid, &mut other),
    );
    assert_same(
        &IDAStar::new(8).search(&grid),
        &IDAStar::new(8).search_reporting(&grid, &mut other),
    );
}

#[test]
fn larger_puzzles_a_few_moves_off_are_solved_in_the_least_moves() {
    for size in [4usize, 5, 6] {
        let mut puzzle = Taquin::new(size, HeuristicType::Manhattan);
        puzzle.generate_random(8);
        let bfs = BFS.search(&puzzle);
        let least = check_success(&puzzle, &bfs);
        assert!(least <= 8);
        assert_eq!(least % 2, 0);
        let astar = AStar.search(&puzzle);
        assert_eq!(check_success(&puzzle, &astar), least);
        let idastar = IDAStar::new(16).search(&puzzle);
        assert_eq!(check_success(&puzzle, &idastar), least);
        // With a solution, the nodes that lead to it were all visited.
        assert!(bfs.metrics.nodes_visited >= least + 1);
        assert!(astar.metrics.nodes_visited >= least + 1);
        assert!(idastar.metrics.nodes_visited >= least + 1);
    }
}

#[test]
fn a_failed_search_has_visited_what_can_be_reached() {
    // Four states can be reached in the graph without a way to the goal.
    let lost = dead_end();
    assert_eq!(BFS.search(&lost).metrics.nodes_visited, 4);
    assert!(DFS::new().search(&lost).metrics.nodes_visited >= 4);
    assert!(AStar.search(&lost).metrics.nodes_visited >= 4);
}
