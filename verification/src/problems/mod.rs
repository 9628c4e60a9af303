//! Two search targets: the sliding-tile puzzle and shortest paths in a graph.
pub mod shortest_path;
pub mod taquin;
