//! Heuristic evaluation for the minimum vertex cover problem.
//!
//! The crate holds an adjacency-list graph with verified mutation
//! primitives, two greedy cover heuristics (degree-ordered and
//! probability-ordered), a cover verifier, a breadth-first reachability
//! scanner, and a random-walk subgraph sampler.

pub mod cover;
pub mod graph;
pub mod heuristics;
pub mod reach;
pub mod sampler;
