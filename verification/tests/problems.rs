use search_bench::problem::Problem;
use search_bench::problems::shortest_path::ShortestPath;
use search_bench::problems::taquin::{HeuristicType, Taquin};
use search_bench::utils::heuristics::{chebyshev_distance, distance, manhattan_distance_2d};

#[test]
fn test_grid_graph() {
    let graph = ShortestPath::generate_grid(3, 3);
    assert_eq!(graph.start_vertex(), 0);
    assert_eq!(graph.goal_vertex(), 8);
}

#[test]
fn shortest_path_test_successors() {
    let graph = ShortestPath::generate_grid(3, 3);
    let successors = graph.successors(&4);
    assert_eq!(successors.len(), 4);
}

#[test]
fn test_taquin_3x3() {
    let taquin = Taquin::new(3, HeuristicType::Manhattan);
    assert_eq!(taquin.initial_state().len(), 9);
    assert!(taquin.is_goal(taquin.goal_state()));
}

#[test]
fn test_manhattan_distance() {
    let taquin = Taquin::new(3, HeuristicType::Manhattan);
    let goal_state = vec![0, 1, 2, 3, 4, 5, 6, 7, 8];
    assert_eq!(taquin.manhattan_distance(&goal_state), 0);

    let state = vec![1, 0, 2, 3, 4, 5, 6, 7, 8];
    assert_eq!(taquin.manhattan_distance(&state), 1);
}

#[test]
fn taquin_test_successors() {
    let state = vec![1, 2, 3, 4, 0, 5, 6, 7, 8];
    let taquin = Taquin::from_state(3, state.clone(), HeuristicType::Manhattan);
    let successors = taquin.get_successors(&state);
    assert_eq!(successors.len(), 4);
}

#[test]
fn test_manhattan() {
    assert_eq!(manhattan_distance_2d(0, 0, 3, 4), 7);
    assert_eq!(manhattan_distance_2d(5, 5, 5, 5), 0);
}

#[test]
fn chebyshev_takes_the_larger_gap() {
    assert_eq!(chebyshev_distance(0, 0, 3, 4), 4);
    assert_eq!(chebyshev_distance(7, 2, 1, 3), 6);
    assert_eq!(chebyshev_distance(5, 5, 5, 5), 0);
    assert_eq!(distance(3, 10), 7);
    assert_eq!(distance(10, 3), 7);
}

#[test]
fn grid_edges_come_right_down_left_up() {
    let graph = ShortestPath::generate_grid(3, 3);
    assert_eq!(graph.successors(&4), vec![(5, 1), (7, 1), (3, 1), (1, 1)]);
    assert_eq!(graph.successors(&0), vec![(1, 1), (3, 1)]);
    assert_eq!(graph.successors(&8), vec![(7, 1), (5, 1)]);
    assert_eq!(graph.successors(&2), vec![(5, 1), (1, 1)]);
    assert_eq!(graph.successors(&9), vec![]);
}

#[test]
fn grid_estimate_is_the_distance_to_the_last_cell() {
    let graph = ShortestPath::generate_grid(4, 3);
    assert_eq!(graph.goal_vertex(), 11);
    assert_eq!(graph.heuristic(&0), 5);
    assert_eq!(graph.heuristic(&5), 3);
    assert_eq!(graph.heuristic(&11), 0);
    assert_eq!(graph.heuristic(&12), 0);
    assert!(graph.is_goal(&11));
    assert!(!graph.is_goal(&0));
    assert_eq!(graph.initial_state(), 0);
}

#[test]
fn single_cell_grid_has_no_edges() {
    let graph = ShortestPath::generate_grid(1, 1);
    assert_eq!(graph.start_vertex(), 0);
    assert_eq!(graph.goal_vertex(), 0);
    assert_eq!(graph.successors(&0), vec![]);
    assert_eq!(graph.heuristic(&0), 0);
}

#[test]
fn edges_are_kept_in_the_order_added() {
    let mut graph = ShortestPath::new(2, 7);
    assert_eq!(graph.successors(&2), vec![]);
    graph.add_edge(2, 3, 10);
    graph.add_edge(2, 7, 4);
    graph.add_edge(3, 7, 1);
    assert_eq!(graph.successors(&2), vec![(3, 10), (7, 4)]);
    assert_eq!(graph.successors(&3), vec![(7, 1)]);
    assert_eq!(graph.heuristic(&3), 0);
    graph.set_heuristic(3, 9);
    graph.set_heuristic(3, 1);
    assert_eq!(graph.heuristic(&3), 1);
    assert_eq!(graph.seed(), None);
}

#[test]
fn graph_texts() {
    let mut graph = ShortestPath::new(0, 8);
    assert_eq!(graph.initial_state_string(), "Start: 0 -> Goal: 8");
    assert_eq!(graph.description(), "Plus court chemin: 0 nœuds, de 0 à 8");
    graph.add_edge(0, 1, 1);
    graph.add_edge(1, 8, 1);
    graph.add_edge(1, 0, 1);
    assert_eq!(graph.description(), "Plus court chemin: 2 nœuds, de 0 à 8");
    let drawn = ShortestPath::generate_random_with_seed(5, 15, 0, 4, Some(1234567));
    assert_eq!(drawn.initial_state_string(), "Seed: 1234567");
}

#[test]
fn drawn_graph_stays_within_its_bounds() {
    let graph = ShortestPath::generate_random_with_seed(10, 30, 0, 9, Some(7));
    assert_eq!(graph.start_vertex(), 0);
    assert_eq!(graph.goal_vertex(), 9);
    assert_eq!(graph.seed(), Some(7));
    let mut edges = 0;
    for node in 0..12 {
        for (to, cost) in graph.successors(&node) {
            assert!(node < 10);
            assert!(to < 10);
            assert_ne!(to, node);
            assert!((1..10).contains(&cost));
            edges += 1;
        }
        assert!(graph.heuristic(&node) < 20);
    }
    assert!(edges <= 30);
    assert!(edges >= 15);
    let estimates: Vec<usize> = (0..9).map(|node| graph.heuristic(&node)).collect();
    assert!(estimates.iter().any(|h| *h != estimates[0]));
    assert_eq!(graph.heuristic(&9), 0);
    assert_eq!(graph.heuristic(&10), 0);
}

#[test]
fn a_seed_fixes_the_graph() {
    let first = ShortestPath::generate_random_with_seed(8, 24, 0, 7, Some(99));
    let second = ShortestPath::generate_random_with_seed(8, 24, 0, 7, Some(99));
    for node in 0..8 {
        assert_eq!(first.successors(&node), second.successors(&node));
        assert_eq!(first.heuristic(&node), second.heuristic(&node));
    }
}

#[test]
fn unseeded_graph_has_no_seed() {
    let graph = ShortestPath::generate_random(6, 10, 1, 5);
    assert_eq!(graph.seed(), None);
    assert_eq!(graph.start_vertex(), 1);
    assert_eq!(graph.goal_vertex(), 5);
    assert_eq!(graph.initial_state_string(), "Start: 1 -> Goal: 5");
    let empty = ShortestPath::generate_random(0, 0, 0, 0);
    assert_eq!(empty.successors(&0), vec![]);
}

#[test]
fn taquin_moves_come_up_down_left_right() {
    let state = vec![1, 2, 3, 4, 0, 5, 6, 7, 8];
    let taquin = Taquin::from_state(3, state.clone(), HeuristicType::Hamming);
    let successors = taquin.get_successors(&state);
    assert_eq!(
        successors,
        vec![
            (vec![1, 0, 3, 4, 2, 5, 6, 7, 8], 1),
            (vec![1, 2, 3, 4, 7, 5, 6, 0, 8], 1),
            (vec![1, 2, 3, 0, 4, 5, 6, 7, 8], 1),
            (vec![1, 2, 3, 4, 5, 0, 6, 7, 8], 1),
        ]
    );
    assert_eq!(taquin.find_blank(&state), 4);
    assert_eq!(taquin.successors(&state), successors);
}

#[test]
fn taquin_corner_has_two_moves() {
    let taquin = Taquin::new(3, HeuristicType::Manhattan);
    let goal = taquin.goal_state().clone();
    assert_eq!(goal, vec![0, 1, 2, 3, 4, 5, 6, 7, 8]);
    assert_eq!(
        taquin.get_successors(&goal),
        vec![(vec![3, 1, 2, 0, 4, 5, 6, 7, 8], 1), (vec![1, 0, 2, 3, 4, 5, 6, 7, 8], 1)]
    );
    let last = vec![1, 2, 3, 4, 5, 6, 7, 8, 0];
    assert_eq!(
        taquin.get_successors(&last),
        vec![(vec![1, 2, 3, 4, 5, 0, 7, 8, 6], 1), (vec![1, 2, 3, 4, 5, 6, 7, 0, 8], 1)]
    );
    let single = Taquin::new(1, HeuristicType::Zero);
    assert_eq!(single.get_successors(&[0]), vec![]);
}

#[test]
fn taquin_estimates() {
    let state = vec![8, 1, 2, 3, 4, 5, 6, 7, 0];
    let manhattan = Taquin::from_state(3, state.clone(), HeuristicType::Manhattan);
    let hamming = Taquin::from_state(3, state.clone(), HeuristicType::Hamming);
    let zero = Taquin::from_state(3, state.clone(), HeuristicType::Zero);
    assert_eq!(manhattan.manhattan_distance(&state), 4);
    assert_eq!(manhattan.hamming_distance(&state), 1);
    assert_eq!(manhattan.heuristic(&state), 4);
    assert_eq!(hamming.heuristic(&state), 1);
    assert_eq!(zero.heuristic(&state), 0);
    let mixed = vec![3, 1, 2, 0, 4, 5, 7, 6, 8];
    assert_eq!(manhattan.manhattan_distance(&mixed), 3);
    assert_eq!(manhattan.hamming_distance(&mixed), 3);
    assert!(!manhattan.is_goal(&state));
    assert_eq!(manhattan.initial_state(), state);
    assert_eq!(manhattan.size(), 3);
}

#[test]
fn taquin_texts() {
    let taquin = Taquin::from_state(3, vec![1, 2, 3, 4, 0, 5, 6, 7, 8], HeuristicType::Manhattan);
    assert_eq!(taquin.initial_state_string(), "  1  2  3\n  4  0  5\n  6  7  8");
    assert_eq!(taquin.description(), "Taquin 3x3 - Heuristique: Manhattan");
    assert_eq!(
        taquin.render(),
        "Taquin 3x3\nÉtat initial:\n 1  2  3 \n 4     5 \n 6  7  8 \n"
    );
    let big = Taquin::new(4, HeuristicType::Zero);
    assert_eq!(
        big.initial_state_string(),
        "  0  1  2  3\n  4  5  6  7\n  8  9 10 11\n 12 13 14 15"
    );
    assert_eq!(big.description(), "Taquin 4x4 - Heuristique: None");
    assert_eq!(
        big.render(),
        "Taquin 4x4\nÉtat initial:\n    1  2  3 \n 4  5  6  7 \n 8  9 10 11 \n12 13 14 15 \n"
    );
    let hamming = Taquin::new(2, HeuristicType::Hamming);
    assert_eq!(hamming.description(), "Taquin 2x2 - Heuristique: Hamming");
}

#[test]
fn scrambling_keeps_the_tiles() {
    let mut taquin = Taquin::new(3, HeuristicType::Manhattan);
    taquin.generate_random(40);
    let mut board = taquin.initial_state();
    assert_eq!(board.len(), 9);
    board.sort();
    assert_eq!(board, vec![0, 1, 2, 3, 4, 5, 6, 7, 8]);
    assert_eq!(taquin.goal_state(), &vec![0, 1, 2, 3, 4, 5, 6, 7, 8]);
}

#[test]
fn scrambling_by_no_move_leaves_the_goal() {
    let mut taquin = Taquin::from_state(3, vec![1, 0, 2, 3, 4, 5, 6, 7, 8], HeuristicType::Manhattan);
    taquin.generate_random(0);
    assert_eq!(taquin.initial_state(), vec![0, 1, 2, 3, 4, 5, 6, 7, 8]);
    assert!(taquin.is_goal(&taquin.initial_state()));
    let mut single = Taquin::new(1, HeuristicType::Zero);
    single.generate_random(5);
    assert_eq!(single.initial_state(), vec![0]);
}

#[test]
fn scrambling_by_one_move_is_one_move_away() {
    let mut taquin = Taquin::new(3, HeuristicType::Manhattan);
    taquin.generate_random(1);
    let board = taquin.initial_state();
    assert!(board == vec![3, 1, 2, 0, 4, 5, 6, 7, 8] || board == vec![1, 0, 2, 3, 4, 5, 6, 7, 8]);
}

#[test]
fn oversized_board_wraps_its_goal() {
    let taquin = Taquin::new(16, HeuristicType::Zero);
    assert_eq!(taquin.goal_state().len(), 0);
    let seventeen = Taquin::new(17, HeuristicType::Zero);
    assert_eq!(seventeen.goal_state().len(), 33);
}

#[test]
fn scrambling_makes_every_move() {
    // Each move takes the blank one row or one column further: after an
    // odd number of moves it lies an odd number of steps from its corner.
    for moves in [1usize, 2, 7, 40, 41] {
        for size in [2usize, 3, 4] {
            let mut taquin = Taquin::new(size, HeuristicType::Manhattan);
            taquin.generate_random(moves);
            let board = taquin.initial_state();
            let blank = board.iter().position(|tile| *tile == 0).unwrap();
            assert_eq!((blank / size + blank % size) % 2, moves % 2);
        }
    }
    let mut taquin = Taquin::new(3, HeuristicType::Manhattan);
    taquin.generate_random(7);
    assert!(!taquin.is_goal(&taquin.initial_state()));
}
