//! A directed multigraph over integer node ids, with degree queries, a
//! degree-based centrality score and breadth-first shortest paths.
//!
//! The abstract value of a graph is the sequence of its edges in the order
//! they were added; every query is specified over that sequence (see `model`).

pub mod graph;
pub mod model;
pub mod paths;

pub use graph::{Centrality, Graph};
pub use model::Node;
