//! A small graph library: adjacency lists over dense node indices, with
//! breadth-first and depth-first traversal, single-source shortest paths,
//! random graph generation, and a line-per-edge text form.
pub mod generate;
pub mod graph;
pub mod render;
pub mod shortest;
pub mod traversal;

pub use generate::{InsertEdge, MAX_WEIGHT, MIN_WEIGHT};
pub use graph::{Graph, GraphError, Unweighted, Weighted};
