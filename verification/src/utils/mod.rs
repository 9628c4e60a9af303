//! Helpers shared by the problems.
pub mod heuristics;
pub mod text;
