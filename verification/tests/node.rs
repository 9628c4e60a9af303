use search_bench::node::Node;
use search_bench::algorithms::astar::AStarNode;
use search_bench::algorithms::min_queue::MinQueue;
use search_bench::explored::{ExploredSet, ScoreTable, StableKey};
use search_bench::path_set::PathSet;
use search_bench::utils::text::{decimal_string, push_number};

#[test]
fn root_has_no_actions() {
    let root = Node::new(5usize);
    assert_eq!(root.depth, 0);
    assert_eq!(root.path_cost, 0);
    assert_eq!(root.action, None);
    assert!(root.parent.is_none());
    assert_eq!(root.extract_solution(), Vec::<usize>::new());
}

#[test]
fn child_adds_cost_depth_and_action() {
    let root = Node::new(5usize);
    let first = root.child(6, 2, 10);
    let second = first.child(7, 0, 3);
    let third = second.child(8, 4, 0);
    assert_eq!(first.depth, 1);
    assert_eq!(first.path_cost, 10);
    assert_eq!(first.action, Some(2));
    assert_eq!(third.depth, 3);
    assert_eq!(third.path_cost, 13);
    assert_eq!(third.state, 8);
    assert_eq!(third.extract_solution(), vec![2, 0, 4]);
    assert_eq!(second.extract_solution(), vec![2, 0]);
    let parent = third.parent.as_ref().unwrap();
    assert_eq!(parent.state, 7);
    assert_eq!(parent.depth, 2);
    assert_eq!(parent.parent.as_ref().unwrap().state, 6);
}

#[test]
fn solution_has_as_many_actions_as_the_depth() {
    let mut node = Node::new(vec![0u8]);
    for step in 0..25 {
        node = node.child(vec![step as u8], step * 3, 1);
    }
    let solution = node.extract_solution();
    assert_eq!(solution.len(), node.depth);
    assert_eq!(solution.len(), 25);
    for (i, action) in solution.iter().enumerate() {
        assert_eq!(*action, i * 3);
    }
}

#[test]
fn clone_copies_the_whole_chain() {
    let node = Node::new(1usize).child(2, 7, 1).child(3, 8, 1);
    let copy = node.clone();
    assert_eq!(copy.state, 3);
    assert_eq!(copy.extract_solution(), vec![7, 8]);
    assert_eq!(copy.depth, 2);
    assert_eq!(copy.path_cost, 2);
}

#[test]
fn nodes_without_action_are_passed_over() {
    let mut node = Node::new(1usize).child(2, 7, 1);
    node.action = None;
    let below = node.child(3, 9, 1);
    assert_eq!(below.extract_solution(), vec![9]);
}

#[test]
fn state_set_holds_each_state_once() {
    let mut set: PathSet<Vec<u8>> = PathSet::new();
    assert_eq!(set.len(), 0);
    assert!(!set.contains(&vec![1, 2]));
    assert!(set.insert(vec![1, 2]));
    assert!(set.insert(vec![2, 1]));
    assert!(!set.insert(vec![1, 2]));
    assert_eq!(set.len(), 2);
    assert!(set.contains(&vec![1, 2]));
    assert!(set.remove(&vec![1, 2]));
    assert!(!set.remove(&vec![1, 2]));
    assert!(!set.contains(&vec![1, 2]));
    assert!(set.contains(&vec![2, 1]));
    assert_eq!(set.len(), 1);
}

#[test]
fn explored_set_holds_each_state_once() {
    let mut set: ExploredSet<Vec<u8>> = ExploredSet::new();
    assert_eq!(set.len(), 0);
    assert!(!set.contains(&vec![1, 2]));
    assert!(set.insert(vec![1, 2]));
    assert!(set.insert(vec![2, 1]));
    assert!(!set.insert(vec![1, 2]));
    assert!(set.insert(vec![]));
    assert_eq!(set.len(), 3);
    assert!(set.contains(&vec![1, 2]));
    assert!(set.contains(&vec![]));
    assert!(!set.contains(&vec![1]));
    let mut numbers: ExploredSet<usize> = ExploredSet::new();
    for n in 0..1000 {
        assert!(numbers.insert(n * 7));
    }
    for n in 0..1000 {
        assert!(!numbers.insert(n * 7));
        assert!(numbers.contains(&(n * 7)));
        assert!(!numbers.contains(&(n * 7 + 1)));
    }
    assert_eq!(numbers.len(), 1000);
}

#[test]
fn keys_depend_on_the_value_alone() {
    assert_eq!(5usize.stable_key(), 5);
    assert_eq!(Vec::<u8>::new().stable_key(), 7);
    assert_eq!(vec![1u8].stable_key(), 7 * 31 + 1);
    assert_eq!(vec![1u8, 2].stable_key(), (7 * 31 + 1) * 31 + 2);
    assert_eq!(vec![3u8, 1, 2].stable_key(), vec![3u8, 1, 2].stable_key());
    assert_ne!(vec![1u8, 2].stable_key(), vec![2u8, 1].stable_key());
    // Long boards wrap around in 64 bits.
    let long: Vec<u8> = (0..40).collect();
    let mut expected: u64 = 7;
    for b in &long {
        expected = expected.wrapping_mul(31).wrapping_add(*b as u64);
    }
    assert_eq!(long.stable_key(), expected);
}

#[test]
fn score_table_keeps_the_last_value() {
    let mut map: ScoreTable<usize> = ScoreTable::new();
    assert_eq!(map.get(&3), None);
    map.insert(3, 10);
    map.insert(4, 20);
    map.insert(3, 5);
    assert_eq!(map.get(&3), Some(5));
    assert_eq!(map.get(&4), Some(20));
    assert_eq!(map.get(&5), None);
    let mut boards: ScoreTable<Vec<u8>> = ScoreTable::new();
    boards.insert(vec![0, 1], 4);
    boards.insert(vec![1, 0], 6);
    boards.insert(vec![0, 1], 2);
    assert_eq!(boards.get(&vec![0, 1]), Some(2));
    assert_eq!(boards.get(&vec![1, 0]), Some(6));
    assert_eq!(boards.get(&vec![1, 1]), None);
}

#[test]
fn numbers_as_text() {
    assert_eq!(decimal_string(0), "0");
    assert_eq!(decimal_string(7), "7");
    assert_eq!(decimal_string(10), "10");
    assert_eq!(decimal_string(1234567890), "1234567890");
    assert_eq!(decimal_string(u128::MAX), "340282366920938463463374607431768211455");
    let mut out = String::from("x");
    push_number(&mut out, 5, 3);
    push_number(&mut out, 42, 3);
    push_number(&mut out, 255, 3);
    push_number(&mut out, 1000, 3);
    push_number(&mut out, 9, 0);
    assert_eq!(out, "x  5 4225510009");
}

#[test]
fn min_queue_gives_the_least_score_first() {
    let mut queue: MinQueue<usize> = MinQueue::new();
    assert_eq!(queue.len(), 0);
    assert!(queue.pop().is_none());
    let scores = [9usize, 3, 7, 3, 12, 0, 5, 5, 8, 1, 14, 2, 6];
    for (i, score) in scores.iter().enumerate() {
        queue.push(AStarNode { node: Node::new(i), f_score: *score });
        assert_eq!(queue.len(), i + 1);
    }
    let mut sorted = scores.to_vec();
    sorted.sort();
    let mut seen = Vec::new();
    for expected in sorted {
        let entry = queue.pop().unwrap();
        assert_eq!(entry.f_score, expected);
        assert_eq!(scores[entry.node.state], expected);
        seen.push(entry.node.state);
    }
    seen.sort();
    assert_eq!(seen, (0..scores.len()).collect::<Vec<usize>>());
    assert!(queue.pop().is_none());
    assert_eq!(queue.len(), 0);
}
