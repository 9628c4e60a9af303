//! The records of a benchmark run and their totals.
use crate::algorithms::STATUS_SUCCESS;
use crate::benchmarking::metrics::Metrics;
use vstd::prelude::*;

verus! {

/// The record of one search of one problem instance.
#[derive(Debug, Clone)]
pub struct BenchmarkResult {
    pub algorithm: String,
    pub problem: String,
    pub problem_size: usize,
    pub instance_id: usize,
    pub status: u8,
    pub metrics: Metrics,
    pub timestamp: String,
    pub initial_state: Option<String>,
    pub error: Option<String>,
}

/// The totals over the records of one algorithm on one problem. The sums
/// run over the successful records only; an average is a sum divided by
/// `successful_instances`.
#[derive(Debug)]
pub struct AggregatedResults {
    pub algorithm: String,
    pub problem: String,
    pub problem_size: usize,
    pub total_instances: usize,
    pub successful_instances: usize,
    pub total_time_ms: u128,
    pub total_memory_kb: u128,
    pub total_nodes_visited: u128,
    pub total_nodes_generated: u128,
    pub total_solution_length: u128,
}

/// The number of successful records among the first `n`.
pub open spec fn successes(results: Seq<BenchmarkResult>, n: int) -> int
    decreases n,
{
    if n <= 0 {
        0
    } else {
        successes(results, n - 1) + if results[n - 1].status == STATUS_SUCCESS {
            1int
        } else {
            0int
        }
    }
}

/// The sum of `pick` over the metrics of the successful records among the
/// first `n`.
pub open spec fn sum_over(
    results: Seq<BenchmarkResult>,
    n: int,
    pick: spec_fn(Metrics) -> int,
) -> int
    decreases n,
{
    if n <= 0 {
        0
    } else {
        sum_over(results, n - 1, pick) + if results[n - 1].status == STATUS_SUCCESS {
            pick(results[n - 1].metrics)
        } else {
            0int
        }
    }
}

/// `total`, or `u128::MAX` where it does not fit.
pub open spec fn capped(total: int) -> u128 {
    if total <= u128::MAX {
        total as u128
    } else {
        u128::MAX
    }
}

/// The sums of machine words over at most `n` records fit in 128 bits.
proof fn lemma_sum_fits(results: Seq<BenchmarkResult>, n: int, pick: spec_fn(Metrics) -> int)
    requires
        0 <= n,
        forall|m: Metrics| 0 <= #[trigger] pick(m) <= usize::MAX,
    ensures
        0 <= sum_over(results, n, pick) <= n * usize::MAX,
        0 <= successes(results, n) <= n,
    decreases n,
{
    if n > 0 {
        lemma_sum_fits(results, n - 1, pick);
        assert((n - 1) * usize::MAX + usize::MAX == n * usize::MAX) by (nonlinear_arith);
    }
}

impl AggregatedResults {
    /// The totals of `results`, which are the records of one algorithm on
    /// one problem: the first record names them.
    pub fn from_results(results: &[BenchmarkResult]) -> (r: Self)
        requires
            results.len() > 0,
        ensures
            r.algorithm@ == results[0].algorithm@,
            r.problem@ == results[0].problem@,
            r.problem_size == results[0].problem_size,
            r.total_instances == results.len(),
            r.successful_instances == successes(results@, results.len() as int),
            r.total_time_ms == capped(
                sum_over(results@, results.len() as int, |m: Metrics| m.time_ms as int),
            ),
            r.total_memory_kb == sum_over(
                results@,
                results.len() as int,
                |m: Metrics| m.memory_kb as int,
            ),
            r.total_nodes_visited == sum_over(
                results@,
                results.len() as int,
                |m: Metrics| m.nodes_visited as int,
            ),
            r.total_nodes_generated == sum_over(
                results@,
                results.len() as int,
                |m: Metrics| m.nodes_generated as int,
            ),
            r.total_solution_length == sum_over(
                results@,
                results.len() as int,
                |m: Metrics| m.solution_length as int,
            ),
    {
        let ghost time = |m: Metrics| m.time_ms as int;
        let ghost memory = |m: Metrics| m.memory_kb as int;
        let ghost visited = |m: Metrics| m.nodes_visited as int;
        let ghost generated = |m: Metrics| m.nodes_generated as int;
        let ghost length = |m: Metrics| m.solution_length as int;
        let mut successful: usize = 0;
        let mut total_time_ms: u128 = 0;
        let mut total_memory_kb: u128 = 0;
        let mut total_nodes_visited: u128 = 0;
        let mut total_nodes_generated: u128 = 0;
        let mut total_solution_length: u128 = 0;
        let mut i: usize = 0;
        while i < results.len()
            invariant
                i <= results.len(),
                time == |m: Metrics| m.time_ms as int,
                memory == |m: Metrics| m.memory_kb as int,
                visited == |m: Metrics| m.nodes_visited as int,
                generated == |m: Metrics| m.nodes_generated as int,
                length == |m: Metrics| m.solution_length as int,
                successful == successes(results@, i as int),
                total_time_ms == capped(sum_over(results@, i as int, time)),
                total_memory_kb == sum_over(results@, i as int, memory),
                total_nodes_visited == sum_over(results@, i as int, visited),
                total_nodes_generated == sum_over(results@, i as int, generated),
                total_solution_length == sum_over(results@, i as int, length),
            decreases results.len() - i,
        {
            proof {
                lemma_sum_fits(results@, i as int, memory);
                lemma_sum_fits(results@, i as int, visited);
                lemma_sum_fits(results@, i as int, generated);
                lemma_sum_fits(results@, i as int, length);
                assert(i * usize::MAX + usize::MAX <= u128::MAX) by (nonlinear_arith)
                    requires
                        i < usize::MAX,
                        usize::MAX <= u64::MAX,
                ;
                lemma_time_grows(results@, i as int);
            }
            if results[i].status == STATUS_SUCCESS {
                let metrics = results[i].metrics;
                successful = successful + 1;
                total_time_ms = total_time_ms.saturating_add(metrics.time_ms);
                total_memory_kb = total_memory_kb + metrics.memory_kb as u128;
                total_nodes_visited = total_nodes_visited + metrics.nodes_visited as u128;
                total_nodes_generated = total_nodes_generated + metrics.nodes_generated as u128;
                total_solution_length = total_solution_length + metrics.solution_length as u128;
            }
            i = i + 1;
        }
        AggregatedResults {
            algorithm: results[0].algorithm.clone(),
            problem: results[0].problem.clone(),
            problem_size: results[0].problem_size,
            total_instances: results.len(),
            successful_instances: successful,
            total_time_ms,
            total_memory_kb,
            total_nodes_visited,
            total_nodes_generated,
            total_solution_length,
        }
    }
}

/// The sum of the times is never negative.
proof fn lemma_time_grows(results: Seq<BenchmarkResult>, n: int)
    ensures
        0 <= sum_over(results, n, |m: Metrics| m.time_ms as int),
    decreases n,
{
    if n > 0 {
        lemma_time_grows(results, n - 1);
    }
}

/// Two records are of the same algorithm on the same problem.
pub open spec fn same_run(a: BenchmarkResult, b: BenchmarkResult) -> bool {
    a.algorithm@ == b.algorithm@ && a.problem@ == b.problem@
}

/// Whether two records are of the same algorithm on the same problem.
pub fn is_same_run(a: &BenchmarkResult, b: &BenchmarkResult) -> (r: bool)
    ensures
        r == same_run(*a, *b),
{
    a.algorithm == b.algorithm && a.problem == b.problem
}

/// Whether record `i` is the first of its algorithm and problem.
pub fn is_first_of_run(results: &Vec<BenchmarkResult>, i: usize) -> (r: bool)
    requires
        i < results.len(),
    ensures
        r == forall|j: int| 0 <= j < i ==> !same_run(#[trigger] results[j], results[i as int]),
{
    let mut j: usize = 0;
    while j < i
        invariant
            j <= i,
            i < results.len(),
            forall|k: int| 0 <= k < j ==> !same_run(#[trigger] results[k], results[i as int]),
        decreases i - j,
    {
        if is_same_run(&results[j], &results[i]) {
            return false;
        }
        j = j + 1;
    }
    true
}

/// The places of the records of the same algorithm and problem as record
/// `i`, in increasing order.
pub fn run_of(results: &Vec<BenchmarkResult>, i: usize) -> (r: Vec<usize>)
    requires
        i < results.len(),
    ensures
        forall|k: int| 0 <= k < r.len() ==> r[k] < results.len() && same_run(
            results[#[trigger] r[k] as int],
            results[i as int],
        ),
        forall|a: int, b: int| 0 <= a < b < r.len() ==> r[a] < r[b],
        forall|j: int|
            0 <= j < results.len() && same_run(#[trigger] results[j], results[i as int])
                ==> r@.contains(j as usize),
{
    let mut found: Vec<usize> = Vec::new();
    let mut j: usize = 0;
    while j < results.len()
        invariant
            j <= results.len(),
            i < results.len(),
            forall|k: int| 0 <= k < found.len() ==> found[k] < j && same_run(
                results[#[trigger] found[k] as int],
                results[i as int],
            ),
            forall|a: int, b: int| 0 <= a < b < found.len() ==> found[a] < found[b],
            forall|k: int|
                0 <= k < j && same_run(#[trigger] results[k], results[i as int])
                    ==> found@.contains(k as usize),
        decreases results.len() - j,
    {
        if is_same_run(&results[j], &results[i]) {
            let ghost before = found@;
            found.push(j);
            proof {
                assert(found@[before.len() as int] == j);
                assert forall|k: int|
                    0 <= k < j + 1 && same_run(
                        #[trigger] results[k],
                        results[i as int],
                    ) implies found@.contains(k as usize) by {
                    if k < j {
                        assert(before.contains(k as usize));
                        let at = choose|at: int| 0 <= at < before.len() && before[at] == k as usize;
                        assert(found@[at] == k as usize);
                    }
                }
            }
        }
        j = j + 1;
    }
    found
}

} // verus!
