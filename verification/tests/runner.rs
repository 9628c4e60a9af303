use search_bench::algorithms::{
    SearchResult, STATUS_NO_SOLUTION, STATUS_SUCCESS, STATUS_TIMEOUT,
};
use search_bench::benchmarking::results::{is_first_of_run, is_same_run, run_of};
use search_bench::benchmarking::runner::{ProblemKind, TaskOutcome};
use search_bench::benchmarking::{
    AggregatedResults, BenchmarkConfig, BenchmarkResult, BenchmarkRunner, Metrics, SharedMetrics,
};
use search_bench::problem::Problem;
use search_bench::problems::shortest_path::ShortestPath;

fn runner(algorithm: &str, problem: &str, size: usize, timeout_secs: u64) -> BenchmarkRunner {
    BenchmarkRunner::new(BenchmarkConfig {
        algorithm: algorithm.to_string(),
        problem: problem.to_string(),
        size,
        iterations: 3,
        output_file: "results/out.json".to_string(),
        threads: 2,
        timeout_secs,
    })
}

fn result(algorithm: &str, problem: &str, status: u8, visited: usize, time_ms: u128) -> BenchmarkResult {
    BenchmarkResult {
        algorithm: algorithm.to_string(),
        problem: problem.to_string(),
        problem_size: 3,
        instance_id: 0,
        status,
        metrics: Metrics {
            time_ms,
            memory_kb: visited / 2,
            nodes_visited: visited,
            nodes_generated: visited * 2,
            max_frontier_size: 4,
            solution_length: visited / 10,
        },
        timestamp: "2024-01-01T00:00:00+00:00".to_string(),
        initial_state: None,
        error: None,
    }
}

#[test]
fn algorithm_names_follow_the_selection() {
    let all = runner("all", "taquin", 3, 0);
    assert_eq!(
        all.get_algorithm_names(true),
        Ok(vec!["BFS", "DFS", "ID", "A*-Manhattan", "IDA*-Manhattan"])
    );
    assert_eq!(all.get_algorithm_names(false), Ok(vec!["BFS", "DFS", "ID", "A*", "IDA*"]));
    assert_eq!(runner("bfs", "all", 3, 0).get_algorithm_names(true), Ok(vec!["BFS"]));
    assert_eq!(runner("dfs", "all", 3, 0).get_algorithm_names(false), Ok(vec!["DFS"]));
    assert_eq!(runner("id", "all", 3, 0).get_algorithm_names(true), Ok(vec!["ID"]));
    assert_eq!(runner("astar", "all", 3, 0).get_algorithm_names(true), Ok(vec!["A*-Manhattan"]));
    assert_eq!(runner("astar", "all", 3, 0).get_algorithm_names(false), Ok(vec!["A*"]));
    assert_eq!(
        runner("idastar", "all", 3, 0).get_algorithm_names(true),
        Ok(vec!["IDA*-Manhattan"])
    );
    assert_eq!(runner("idastar", "all", 3, 0).get_algorithm_names(false), Ok(vec!["IDA*"]));
}

#[test]
fn unknown_algorithm_is_an_error() {
    assert_eq!(
        runner("dijkstra", "taquin", 3, 0).get_algorithm_names(true),
        Err("Algorithme inconnu: dijkstra".to_string())
    );
    assert_eq!(
        runner("BFS", "taquin", 3, 0).get_algorithm_names(false),
        Err("Algorithme inconnu: BFS".to_string())
    );
    assert_eq!(
        runner("", "taquin", 3, 0).get_algorithm_names(false),
        Err("Algorithme inconnu: ".to_string())
    );
}

#[test]
fn problems_follow_the_selection() {
    assert_eq!(runner("all", "taquin", 3, 0).selected(), Ok(ProblemKind::Taquin));
    assert_eq!(runner("all", "all", 3, 0).selected(), Ok(ProblemKind::Taquin));
    assert_eq!(runner("all", "shortest-path", 3, 0).selected(), Ok(ProblemKind::Grid));
    assert_eq!(
        runner("all", "shortest-path-random", 3, 0).selected(),
        Ok(ProblemKind::RandomGraph)
    );
    assert_eq!(
        runner("all", "maze", 3, 0).selected(),
        Err("Problème inconnu: maze".to_string())
    );
}

#[test]
fn plans_give_names_and_depth() {
    let plan = runner("all", "taquin", 3, 0).plan().ok().unwrap();
    assert_eq!(plan.kind, ProblemKind::Taquin);
    assert_eq!(plan.algorithm_names, vec!["BFS", "DFS", "ID", "A*-Manhattan", "IDA*-Manhattan"]);
    assert_eq!(plan.max_depth, 90);
    let plan = runner("astar", "shortest-path", 10, 0).plan().ok().unwrap();
    assert_eq!(plan.kind, ProblemKind::Grid);
    assert_eq!(plan.algorithm_names, vec!["A*"]);
    assert_eq!(plan.max_depth, 100);
    let plan = runner("id", "shortest-path", 30, 0).plan().ok().unwrap();
    assert_eq!(plan.max_depth, 500);
    let plan = runner("bfs", "shortest-path-random", 40, 0).plan().ok().unwrap();
    assert_eq!(plan.kind, ProblemKind::RandomGraph);
    assert_eq!(plan.max_depth, 40);
}

#[test]
fn an_unknown_problem_is_reported_before_an_unknown_algorithm() {
    assert_eq!(
        runner("nothing", "maze", 3, 0).plan().err(),
        Some("Problème inconnu: maze".to_string())
    );
    assert_eq!(
        runner("nothing", "taquin", 3, 0).plan().err(),
        Some("Algorithme inconnu: nothing".to_string())
    );
}

#[test]
fn labels_name_problem_and_size() {
    assert_eq!(ProblemKind::Taquin.label(3), "Taquin-3x3");
    assert_eq!(ProblemKind::Grid.label(12), "ShortestPath-12x12");
    assert_eq!(ProblemKind::RandomGraph.label(100), "ShortestPath-Random-100");
}

#[test]
fn a_timeout_sets_the_worker_to_work() {
    assert!(!runner("all", "all", 3, 0).uses_worker());
    assert!(runner("all", "all", 3, 1).uses_worker());
    assert_eq!(runner("all", "all", 3, 60).config().timeout_secs, 60);
}

#[test]
fn outcomes_are_settled() {
    let run = runner("all", "all", 3, 60);
    let mut metrics = Metrics::default();
    metrics.nodes_visited = 17;
    let finished = SearchResult { solution: Some(vec![1, 2]), metrics, status: STATUS_SUCCESS };
    let (result, message) = run.settle(TaskOutcome::Finished(finished));
    assert_eq!(result.status, STATUS_SUCCESS);
    assert_eq!(result.solution, Some(vec![1, 2]));
    assert_eq!(message, None);

    let (result, message) = run.settle(TaskOutcome::TimedOut(metrics));
    assert_eq!(result.status, STATUS_TIMEOUT);
    assert_eq!(result.solution, None);
    assert_eq!(result.metrics.nodes_visited, 17);
    assert_eq!(message, Some("Timeout après 60 secondes".to_string()));

    let (result, message) = run.settle(TaskOutcome::Lost);
    assert_eq!(result.status, STATUS_NO_SOLUTION);
    assert_eq!(result.solution, None);
    assert_eq!(result.metrics.nodes_visited, 0);
    assert_eq!(message, Some("Erreur de communication".to_string()));
}

#[test]
fn final_status_goes_by_status_and_message() {
    assert_eq!(BenchmarkRunner::final_status(0, None), (0, None));
    assert_eq!(BenchmarkRunner::final_status(0, Some("Timeout".to_string())), (0, None));
    assert_eq!(
        BenchmarkRunner::final_status(1, Some("Timeout après 5 secondes".to_string())),
        (1, Some("Timeout après 5 secondes".to_string()))
    );
    assert_eq!(
        BenchmarkRunner::final_status(2, Some("xTimeouty".to_string())),
        (1, Some("xTimeouty".to_string()))
    );
    assert_eq!(
        BenchmarkRunner::final_status(2, Some("Erreur de communication".to_string())),
        (2, Some("Erreur de communication".to_string()))
    );
    assert_eq!(
        BenchmarkRunner::final_status(2, Some("timeout".to_string())),
        (2, Some("timeout".to_string()))
    );
    assert_eq!(
        BenchmarkRunner::final_status(2, None),
        (2, Some("Pas de solution trouvée".to_string()))
    );
    assert_eq!(
        BenchmarkRunner::final_status(1, None),
        (2, Some("Pas de solution trouvée".to_string()))
    );
}

#[test]
fn records_carry_the_task() {
    let run = runner("all", "shortest-path", 4, 60);
    let mut metrics = Metrics::default();
    metrics.nodes_visited = 9;
    let found = SearchResult { solution: Some(vec![0]), metrics, status: STATUS_SUCCESS };
    let record = run.record_at(
        ProblemKind::Grid,
        "A*",
        2,
        found,
        None,
        "Start: 0 -> Goal: 15".to_string(),
        "2024-05-06T07:08:09+02:00".to_string(),
    );
    assert_eq!(record.algorithm, "A*");
    assert_eq!(record.problem, "ShortestPath-4x4");
    assert_eq!(record.problem_size, 4);
    assert_eq!(record.instance_id, 2);
    assert_eq!(record.status, 0);
    assert_eq!(record.metrics.nodes_visited, 9);
    assert_eq!(record.timestamp, "2024-05-06T07:08:09+02:00");
    assert_eq!(record.initial_state, Some("Start: 0 -> Goal: 15".to_string()));
    assert_eq!(record.error, None);

    let (timed_out, message) = run.settle(TaskOutcome::TimedOut(metrics));
    let record = run.record(ProblemKind::Taquin, "BFS", 0, timed_out, message, "board".to_string());
    assert_eq!(record.status, 1);
    assert_eq!(record.problem, "Taquin-4x4");
    assert_eq!(record.error, Some("Timeout après 60 secondes".to_string()));
    // The timestamp is a date, a `T` and a time with its offset.
    assert!(record.timestamp.len() >= 20);
    assert_eq!(record.timestamp.as_bytes()[4], b'-');
    assert_eq!(record.timestamp.as_bytes()[10], b'T');

    let none = SearchResult { solution: None, metrics, status: STATUS_NO_SOLUTION };
    let record = run.record(ProblemKind::RandomGraph, "DFS", 1, none, None, "Seed: 1".to_string());
    assert_eq!(record.status, 2);
    assert_eq!(record.problem, "ShortestPath-Random-4");
    assert_eq!(record.error, Some("Pas de solution trouvée".to_string()));
}

#[test]
fn tasks_run_algorithm_by_algorithm() {
    let names = vec!["BFS", "DFS"];
    assert_eq!(
        BenchmarkRunner::task_list(&names, 3),
        vec![(0, "BFS"), (1, "BFS"), (2, "BFS"), (0, "DFS"), (1, "DFS"), (2, "DFS")]
    );
    assert_eq!(BenchmarkRunner::task_list(&names, 0), vec![]);
    assert_eq!(BenchmarkRunner::task_list(&vec![], 5), vec![]);
    assert_eq!(BenchmarkRunner::task_list(&vec!["ID"], 1), vec![(0, "ID")]);
}

#[test]
fn algorithms_run_by_name() {
    let graph = ShortestPath::generate_grid(3, 3);
    for name in ["BFS", "A*", "A*-Manhattan", "IDA*", "IDA*-Manhattan"] {
        let result = BenchmarkRunner::execute_algorithm(name, &graph, 9);
        assert_eq!(result.status, STATUS_SUCCESS);
        assert_eq!(result.solution.unwrap().len(), 4);
        let shared =
            BenchmarkRunner::execute_algorithm_with_shared(name, &graph, SharedMetrics::new(), 9);
        assert_eq!(shared.status, STATUS_SUCCESS);
        assert_eq!(shared.solution.unwrap().len(), 4);
    }
    for name in ["DFS", "ID"] {
        let result = BenchmarkRunner::execute_algorithm(name, &graph, 9);
        assert_eq!(result.status, STATUS_SUCCESS);
        assert!(result.solution.unwrap().len() <= 9);
        let short = BenchmarkRunner::execute_algorithm(name, &graph, 3);
        assert_eq!(short.status, STATUS_NO_SOLUTION);
        let shared =
            BenchmarkRunner::execute_algorithm_with_shared(name, &graph, SharedMetrics::new(), 3);
        assert_eq!(shared.status, STATUS_NO_SOLUTION);
    }
    // IDA* is bound by twice the depth.
    let mut line = ShortestPath::new(0, 10);
    for node in 0..10 {
        line.add_edge(node, node + 1, 1);
    }
    assert_eq!(BenchmarkRunner::execute_algorithm("IDA*", &line, 1).status, STATUS_NO_SOLUTION);
    assert_eq!(BenchmarkRunner::execute_algorithm("IDA*", &line, 5).status, STATUS_SUCCESS);
    let unknown = BenchmarkRunner::execute_algorithm("Dijkstra", &graph, 9);
    assert_eq!(unknown.status, STATUS_NO_SOLUTION);
    assert_eq!(unknown.solution, None);
    assert_eq!(unknown.metrics.nodes_visited, 0);
    let unknown =
        BenchmarkRunner::execute_algorithm_with_shared("bfs", &graph, SharedMetrics::new(), 9);
    assert_eq!(unknown.status, STATUS_NO_SOLUTION);
}

#[test]
fn instances_are_made_to_size() {
    let run = runner("all", "taquin", 3, 0);
    let taquin = run.taquin_instance();
    let mut board = taquin.initial_state();
    board.sort();
    assert_eq!(board, vec![0, 1, 2, 3, 4, 5, 6, 7, 8]);
    assert_eq!(taquin.description(), "Taquin 3x3 - Heuristique: Manhattan");
    let grid = run.grid_instance();
    assert_eq!(grid.goal_vertex(), 8);
    assert_eq!(grid.successors(&4).len(), 4);
    let graph = run.random_graph_instance(77);
    assert_eq!(graph.start_vertex(), 0);
    assert_eq!(graph.goal_vertex(), 2);
    assert_eq!(graph.seed(), Some(77));
    assert_eq!(graph.initial_state_string(), "Seed: 77");
    let empty = runner("all", "taquin", 0, 0).taquin_instance();
    assert_eq!(empty.initial_state(), Vec::<u8>::new());
    assert!(empty.is_goal(&empty.initial_state()));
}

#[test]
fn totals_run_over_the_successes() {
    let results = vec![
        result("BFS", "Taquin-3x3", 0, 100, 5),
        result("BFS", "Taquin-3x3", 1, 1000, 60000),
        result("BFS", "Taquin-3x3", 0, 50, 7),
        result("BFS", "Taquin-3x3", 2, 70, 9),
    ];
    let totals = AggregatedResults::from_results(&results);
    assert_eq!(totals.algorithm, "BFS");
    assert_eq!(totals.problem, "Taquin-3x3");
    assert_eq!(totals.problem_size, 3);
    assert_eq!(totals.total_instances, 4);
    assert_eq!(totals.successful_instances, 2);
    assert_eq!(totals.total_time_ms, 12);
    assert_eq!(totals.total_memory_kb, 75);
    assert_eq!(totals.total_nodes_visited, 150);
    assert_eq!(totals.total_nodes_generated, 300);
    assert_eq!(totals.total_solution_length, 15);
}

#[test]
fn totals_without_success_are_zero() {
    let results = vec![result("DFS", "Grid", 2, 100, 5), result("DFS", "Grid", 1, 10, 50)];
    let totals = AggregatedResults::from_results(&results);
    assert_eq!(totals.total_instances, 2);
    assert_eq!(totals.successful_instances, 0);
    assert_eq!(totals.total_time_ms, 0);
    assert_eq!(totals.total_memory_kb, 0);
    assert_eq!(totals.total_nodes_visited, 0);
    assert_eq!(totals.total_nodes_generated, 0);
    assert_eq!(totals.total_solution_length, 0);
}

#[test]
fn totals_of_time_stop_at_the_largest_number() {
    let results = vec![
        result("BFS", "Grid", 0, 1, u128::MAX - 1),
        result("BFS", "Grid", 0, usize::MAX, 5),
        result("BFS", "Grid", 0, usize::MAX, 0),
    ];
    let totals = AggregatedResults::from_results(&results);
    assert_eq!(totals.total_time_ms, u128::MAX);
    assert_eq!(totals.total_nodes_visited, 2 * (usize::MAX as u128) + 1);
}

#[test]
fn records_are_grouped_by_algorithm_and_problem() {
    let results = vec![
        result("BFS", "Taquin-3x3", 0, 1, 1),
        result("DFS", "Taquin-3x3", 0, 1, 1),
        result("BFS", "Grid", 0, 1, 1),
        result("BFS", "Taquin-3x3", 2, 1, 1),
        result("DFS", "Taquin-3x3", 1, 1, 1),
    ];
    assert!(is_same_run(&results[0], &results[3]));
    assert!(!is_same_run(&results[0], &results[1]));
    assert!(!is_same_run(&results[0], &results[2]));
    let firsts: Vec<bool> = (0..5).map(|i| is_first_of_run(&results, i)).collect();
    assert_eq!(firsts, vec![true, true, true, false, false]);
    assert_eq!(run_of(&results, 0), vec![0, 3]);
    assert_eq!(run_of(&results, 3), vec![0, 3]);
    assert_eq!(run_of(&results, 1), vec![1, 4]);
    assert_eq!(run_of(&results, 2), vec![2]);
}

#[test]
fn a_run_in_place_gives_the_search_its_own_result() {
    let config = BenchmarkConfig {
        algorithm: "all".to_string(),
        problem: "shortest-path".to_string(),
        size: 3,
        iterations: 1,
        output_file: "out.json".to_string(),
        threads: 1,
        timeout_secs: 0,
    };
    let run = BenchmarkRunner::new(config);
    assert!(!run.uses_worker());
    let grid = ShortestPath::generate_grid(3, 3);
    for name in ["BFS", "DFS", "ID", "A*", "IDA*"] {
        let (result, message) = run.execute_in_place(name, &grid, 9);
        assert_eq!(result.status, STATUS_SUCCESS);
        assert!(message.is_none());
    }
    // A search that ends at its bound is no timeout.
    let mut line = ShortestPath::new(0, 4);
    for node in 0..4 {
        line.add_edge(node, node + 1, 1);
    }
    for name in ["DFS", "ID", "IDA*"] {
        let (result, message) = run.execute_in_place(name, &line, 1);
        assert_eq!(result.status, STATUS_NO_SOLUTION);
        assert_ne!(result.status, STATUS_TIMEOUT);
        assert_eq!(result.solution, None);
        assert!(message.is_none());
    }
    // IDA* is given twice the bound: 2 fails on four steps, 4 succeeds.
    assert_eq!(run.execute_in_place("IDA*", &line, 2).0.status, STATUS_SUCCESS);
    assert_eq!(run.execute_in_place("DFS", &line, 2).0.status, STATUS_NO_SOLUTION);
    // Only IDA* doubles the bound: the others take the largest.
    let (result, _) = run.execute_in_place("DFS", &grid, usize::MAX);
    assert_eq!(result.status, STATUS_SUCCESS);
    let (result, _) = run.execute_in_place("none", &grid, usize::MAX);
    assert_eq!(result.status, STATUS_NO_SOLUTION);
}
