//! Search over finite state spaces, with proofs.
//!
//! A [`problem::Problem`] describes a finite graph of states; the algorithms
//! in [`algorithms`] explore it and return a sequence of actions that leads
//! from the initial state to a goal, together with the cost of the search.
//! What each algorithm returns is stated in its contract and proved:
//! breadth-first search finds a shortest solution, A* and IDA* a cheapest
//! one under an admissible and consistent estimate. Each search follows a
//! course that is told step by step in [`algorithms::run`]: the solution
//! and the counters are those of that course, whether the search reports
//! to counters of its own or to metrics shared with other threads.
//!
//! [`problems`] holds two problems to search, the sliding-tile puzzle and
//! shortest paths in a graph; [`benchmarking`] holds the metrics of a
//! search, alone or shared between threads, and the decisions of a
//! benchmark run.
pub mod algorithms;
pub mod benchmarking;
pub mod clock;
pub mod explored;
pub mod node;
pub mod path_set;
pub mod problem;
pub mod problems;
pub mod random;
pub mod utils;
