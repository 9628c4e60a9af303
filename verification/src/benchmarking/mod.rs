//! Measuring searches: counters, shared counters and the benchmark plan.
pub mod metrics;
pub mod results;
pub mod runner;
pub mod shared;

pub use metrics::Metrics;
pub use results::{AggregatedResults, BenchmarkResult};
pub use runner::{BenchmarkConfig, BenchmarkRunner};
pub use shared::SharedMetrics;
