//! Ready-made graphs. Some are general enough to be used as they are, and each shows how a
//! store of its own kind offers the topologies.

pub mod adjacency;
pub mod grid;

pub use adjacency::AdjacencyGraph;
pub use grid::Grid;
