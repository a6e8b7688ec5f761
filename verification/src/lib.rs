//! All-pairs shortest paths on a dense weighted directed graph.
//!
//! A [`Graph`] holds a fixed number of vertices and an adjacency matrix of
//! optional signed edge weights.  A [`FloydWarshall`] solver takes a private
//! copy of that matrix, relaxes it over every intermediate vertex in
//! increasing order, detects negative cycles, and afterwards answers distance
//! and path queries.

pub mod apsp;
pub mod laws;
pub mod model;
pub mod samples;

pub use apsp::FloydWarshall;
pub use apsp::Graph;
pub use apsp::SolveError;
pub use samples::create_negative_cycle_graph;
pub use samples::create_sample_graph;
