use search_bench::benchmarking::metrics::{
    memory_estimate_kb, Event, Metrics, Recorder, Tally,
};
use search_bench::benchmarking::shared::{change_held, replace_held, snapshot};
use search_bench::benchmarking::SharedMetrics;
use std::sync::Mutex;
use std::time::Instant;
use rayon::iter::{IntoParallelIterator, ParallelIterator};
use search_bench::clock::millis_since;

#[test]
fn fresh_metrics_are_zero() {
    let metrics = Metrics::default();
    assert_eq!(metrics.time_ms, 0);
    assert_eq!(metrics.memory_kb, 0);
    assert_eq!(metrics.nodes_visited, 0);
    assert_eq!(metrics.nodes_generated, 0);
    assert_eq!(metrics.max_frontier_size, 0);
    assert_eq!(metrics.solution_length, 0);
}

#[test]
fn events_change_one_counter_each() {
    let mut metrics = Metrics::default();
    metrics.apply(Event::Started);
    assert_eq!(metrics.nodes_generated, 1);
    metrics.apply(Event::Generated);
    metrics.apply(Event::Generated);
    metrics.apply(Event::Visited);
    metrics.apply(Event::Frontier(5));
    metrics.apply(Event::Frontier(3));
    metrics.apply(Event::Memory(64));
    metrics.apply(Event::Solved(9));
    assert_eq!(metrics.nodes_generated, 3);
    assert_eq!(metrics.nodes_visited, 1);
    assert_eq!(metrics.max_frontier_size, 5);
    assert_eq!(metrics.memory_kb, 64);
    assert_eq!(metrics.solution_length, 9);
    assert_eq!(metrics.time_ms, 0);
    metrics.apply(Event::Started);
    assert_eq!(metrics.nodes_generated, 1);
    metrics.apply(Event::Visited);
    assert_eq!(metrics.nodes_visited, 2);
}

#[test]
fn counters_stop_at_the_largest_number() {
    let mut metrics = Metrics::default();
    metrics.nodes_visited = usize::MAX - 1;
    metrics.nodes_generated = usize::MAX;
    metrics.apply(Event::Visited);
    metrics.apply(Event::Visited);
    metrics.apply(Event::Generated);
    assert_eq!(metrics.nodes_visited, usize::MAX);
    assert_eq!(metrics.nodes_generated, usize::MAX);
}

#[test]
fn memory_estimate_is_in_whole_kilobytes() {
    assert_eq!(memory_estimate_kb(0, 0, 8), 0);
    assert_eq!(memory_estimate_kb(100, 28, 8), 1);
    assert_eq!(memory_estimate_kb(100, 27, 8), 0);
    assert_eq!(memory_estimate_kb(1000, 24, 24), 24);
    assert_eq!(memory_estimate_kb(usize::MAX, usize::MAX, 1), usize::MAX / 512);
    assert_eq!(memory_estimate_kb(usize::MAX, usize::MAX, usize::MAX), usize::MAX);
}

#[test]
fn shared_metrics_count() {
    let shared = SharedMetrics::new();
    shared.increment_visited();
    shared.increment_visited();
    shared.increment_generated();
    shared.update_max_frontier(4);
    shared.update_max_frontier(2);
    shared.set_memory_kb(12);
    shared.set_solution_length(3);
    let seen = shared.get();
    assert_eq!(seen.nodes_visited, 2);
    assert_eq!(seen.nodes_generated, 1);
    assert_eq!(seen.max_frontier_size, 4);
    assert_eq!(seen.memory_kb, 12);
    assert_eq!(seen.solution_length, 3);
}

#[test]
fn clones_share_their_metrics() {
    let shared = SharedMetrics::new();
    let other = shared.clone();
    other.increment_visited();
    shared.increment_visited();
    assert_eq!(shared.get().nodes_visited, 2);
    assert_eq!(other.get().nodes_visited, 2);
    let fresh = SharedMetrics::default();
    assert_eq!(fresh.get().nodes_visited, 0);
}

#[test]
fn update_replaces_the_record() {
    let shared = SharedMetrics::new();
    shared.increment_visited();
    shared.update(|m| Metrics { nodes_generated: 1, ..m });
    let seen = shared.get();
    assert_eq!(seen.nodes_generated, 1);
    assert_eq!(seen.nodes_visited, 1);
    let mut stored = Metrics::default();
    stored.nodes_visited = 40;
    stored.solution_length = 7;
    stored.time_ms = 1_000_000;
    shared.update(|_| stored);
    let seen = shared.get();
    assert_eq!(seen.nodes_visited, 40);
    assert_eq!(seen.solution_length, 7);
    // The time is that of the shared clock, not the one stored.
    assert!(seen.time_ms < 1_000_000);
}

#[test]
fn shared_recorder_applies_events() {
    let mut shared = SharedMetrics::new();
    shared.record(Event::Started);
    shared.record(Event::Generated);
    shared.record(Event::Visited);
    shared.record(Event::Frontier(2));
    shared.record(Event::Memory(1));
    shared.record(Event::Solved(4));
    let seen = shared.get();
    assert_eq!(seen.nodes_generated, 2);
    assert_eq!(seen.nodes_visited, 1);
    assert_eq!(seen.max_frontier_size, 2);
    assert_eq!(seen.memory_kb, 1);
    assert_eq!(seen.solution_length, 4);
}

#[test]
fn no_increment_is_lost_between_threads() {
    let shared = SharedMetrics::new();
    let callers: usize = 16;
    let each: usize = 250;
    (0..callers).into_par_iter().for_each(|_| {
        let mine = shared.clone();
        for _ in 0..each {
            mine.increment_visited();
            mine.increment_generated();
        }
    });
    let seen = shared.get();
    assert_eq!(seen.nodes_visited, callers * each);
    assert_eq!(seen.nodes_generated, callers * each);
}

#[test]
fn one_increment_from_each_of_many_callers() {
    let shared = SharedMetrics::new();
    let callers: usize = 5000;
    (0..callers).into_par_iter().for_each(|_| shared.increment_visited());
    assert_eq!(shared.get().nodes_visited, callers);
}

#[test]
fn clock_moves_forward() {
    let start = std::time::Instant::now();
    let first = millis_since(&start);
    let second = millis_since(&start);
    assert!(first <= second);
}

#[test]
fn fresh_shared_metrics_read_zero() {
    let fresh = SharedMetrics::new().get();
    assert_eq!(fresh.nodes_visited, 0);
    assert_eq!(fresh.nodes_generated, 0);
    assert_eq!(fresh.max_frontier_size, 0);
    assert_eq!(fresh.memory_kb, 0);
    assert_eq!(fresh.solution_length, 0);
    assert_eq!(fresh.time_ms, 0);
    let by_default = SharedMetrics::default().get();
    assert_eq!(by_default.nodes_visited, 0);
    assert_eq!(by_default.time_ms, 0);
}

#[test]
fn snapshot_copies_what_the_lock_protects() {
    let mut stored = Metrics::default();
    stored.nodes_visited = 7;
    stored.memory_kb = 3;
    stored.time_ms = 11;
    let cell = Mutex::new(stored);
    let seen = snapshot(cell.lock().ok());
    assert_eq!(seen.nodes_visited, 7);
    assert_eq!(seen.memory_kb, 3);
    assert_eq!(seen.time_ms, 11);
    assert_eq!(seen.nodes_generated, 0);
    // The lock was let go.
    assert!(cell.try_lock().is_ok());
}

#[test]
fn snapshot_without_the_lock_is_zero() {
    let seen = snapshot(None);
    assert_eq!(seen.nodes_visited, 0);
    assert_eq!(seen.nodes_generated, 0);
    assert_eq!(seen.max_frontier_size, 0);
    assert_eq!(seen.memory_kb, 0);
    assert_eq!(seen.solution_length, 0);
    assert_eq!(seen.time_ms, 0);
}

#[test]
fn change_under_the_lock_is_stored() {
    let cell = Mutex::new(Metrics::default());
    {
        let mut guard = cell.lock().unwrap();
        change_held(&mut guard, Event::Visited, 9);
        assert_eq!(guard.time_ms, 9);
        change_held(&mut guard, Event::Generated, 10);
        assert_eq!(guard.time_ms, 10);
        change_held(&mut guard, Event::Frontier(4), 11);
        assert_eq!(guard.time_ms, 11);
        change_held(&mut guard, Event::Frontier(2), 12);
        assert_eq!(guard.time_ms, 12);
        change_held(&mut guard, Event::Memory(6), 13);
        assert_eq!(guard.time_ms, 13);
        change_held(&mut guard, Event::Solved(3), 14);
        assert_eq!(guard.time_ms, 14);
    }
    let seen = snapshot(cell.lock().ok());
    assert_eq!(seen.nodes_visited, 1);
    assert_eq!(seen.nodes_generated, 1);
    assert_eq!(seen.max_frontier_size, 4);
    assert_eq!(seen.memory_kb, 6);
    assert_eq!(seen.solution_length, 3);
    assert_eq!(seen.time_ms, 14);
}

#[test]
fn replacement_under_the_lock_is_stored_with_the_time() {
    let mut stored = Metrics::default();
    stored.nodes_visited = 5;
    stored.time_ms = 3;
    let cell = Mutex::new(stored);
    {
        let mut guard = cell.lock().unwrap();
        replace_held(
            &mut guard,
            |m: Metrics| Metrics { nodes_generated: m.nodes_visited + 2, time_ms: 1_000, ..m },
            42,
        );
    }
    let seen = snapshot(cell.lock().ok());
    assert_eq!(seen.nodes_visited, 5);
    assert_eq!(seen.nodes_generated, 7);
    // The time that the replacement wrote gives way to the time handed in.
    assert_eq!(seen.time_ms, 42);
}

#[test]
fn rounds_after_the_first_count_their_root() {
    let mut metrics = Metrics::default();
    metrics.apply(Event::Started);
    metrics.apply(Event::Generated);
    metrics.apply(Event::Generated);
    assert_eq!(metrics.nodes_generated, 3);
    metrics.apply(Event::Resumed);
    assert_eq!(metrics.nodes_generated, 4);
    metrics.apply(Event::Generated);
    assert_eq!(metrics.nodes_generated, 5);
    // A first round starts the count again.
    metrics.apply(Event::Started);
    assert_eq!(metrics.nodes_generated, 1);
    let mut full = Metrics::default();
    full.nodes_generated = usize::MAX;
    full.apply(Event::Resumed);
    assert_eq!(full.nodes_generated, usize::MAX);
    let mut shared = SharedMetrics::new();
    shared.record(Event::Started);
    shared.record(Event::Generated);
    shared.record(Event::Resumed);
    assert_eq!(shared.get().nodes_generated, 3);
}

/// Waits until the clock of `since` shows `millis` milliseconds or more.
fn wait_until(since: &Instant, millis: u128) {
    while millis_since(since) < millis {
        std::hint::spin_loop();
    }
}

#[test]
fn every_mutation_refreshes_the_time() {
    // The clock of the metrics starts before `began`: it is never behind.
    let shared = SharedMetrics::new();
    let began = Instant::now();
    wait_until(&began, 2);
    shared.increment_generated();
    let first = shared.get().time_ms;
    assert!(first >= 2);
    wait_until(&began, first + 1);
    shared.update_max_frontier(7);
    let second = shared.get().time_ms;
    assert!(second > first);
    wait_until(&began, second + 1);
    shared.set_memory_kb(1);
    let third = shared.get().time_ms;
    assert!(third > second);
    wait_until(&began, third + 1);
    shared.set_solution_length(2);
    let fourth = shared.get().time_ms;
    assert!(fourth > third);
    wait_until(&began, fourth + 1);
    shared.increment_visited();
    let fifth = shared.get().time_ms;
    assert!(fifth > fourth);
    wait_until(&began, fifth + 1);
    shared.update(|m| Metrics { time_ms: 0, ..m });
    let sixth = shared.get().time_ms;
    assert!(sixth > fifth);
    let seen = shared.get();
    assert_eq!(seen.nodes_generated, 1);
    assert_eq!(seen.nodes_visited, 1);
    assert_eq!(seen.max_frontier_size, 7);
    assert_eq!(seen.memory_kb, 1);
    assert_eq!(seen.solution_length, 2);
}

#[test]
fn a_tally_counts_what_it_is_told() {
    let mut tally = Tally::new();
    assert_eq!(tally.counts().nodes_generated, 0);
    tally.record(Event::Started);
    tally.record(Event::Generated);
    tally.record(Event::Visited);
    tally.record(Event::Frontier(3));
    tally.record(Event::Memory(5));
    tally.record(Event::Solved(2));
    let counts = tally.counts();
    assert_eq!(counts.nodes_generated, 2);
    assert_eq!(counts.nodes_visited, 1);
    assert_eq!(counts.max_frontier_size, 3);
    assert_eq!(counts.memory_kb, 5);
    assert_eq!(counts.solution_length, 2);
    assert_eq!(counts.time_ms, 0);
    let mut copy = tally.copy();
    copy.record(Event::Visited);
    assert_eq!(copy.counts().nodes_visited, 2);
    assert_eq!(tally.counts().nodes_visited, 1);
}

#[test]
fn a_handle_counts_what_was_recorded_through_it() {
    let mut shared = SharedMetrics::new();
    let other = shared.clone();
    other.increment_visited();
    other.increment_visited();
    shared.record(Event::Started);
    shared.record(Event::Visited);
    shared.record(Event::Generated);
    // The lock holds what all handles wrote; the handle what it recorded.
    assert_eq!(shared.get().nodes_visited, 3);
    let counted = shared.counted();
    assert_eq!(counted.nodes_visited, 1);
    assert_eq!(counted.nodes_generated, 2);
    let mut again = shared;
    again.restart();
    assert_eq!(again.counted().nodes_visited, 0);
    assert_eq!(again.counted().nodes_generated, 0);
    assert_eq!(again.get().nodes_visited, 3);
    again.record(Event::Visited);
    assert_eq!(again.counted().nodes_visited, 1);
    assert_eq!(again.get().nodes_visited, 4);
}
