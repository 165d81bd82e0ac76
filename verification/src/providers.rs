//! How a graph hands out its topologies.
//!
//! A graph usually provides two of them, one of its vertices and one of its edges.

use vstd::prelude::*;
use crate::index::Index;
use crate::topology::Topology;

verus! {

/// A graph that knows its vertices.
pub trait VertexProvider<'a, I: Index + Copy> {
    /// The topology of the vertices.
    type Vertices: Topology<Item = I>;

    /// The vertices, in the order in which the topology yields them.
    spec fn census(&self) -> Seq<I>;

    /// The order of the graph: the number of its vertices.
    fn order(&self) -> (n: usize)
        ensures
            n == self.census().len(),
    ;

    /// The topology of the vertices.
    fn vertices(&'a self) -> (t: Self::Vertices)
        ensures
            t.wf(),
            t.items() == self.census(),
    ;
}

/// A graph that knows its edges.
pub trait EdgeProvider<'a, I> {
    /// How an edge is written.
    type Edge: Index;

    /// The topology of the edges.
    type Edges: Topology<Item = Self::Edge>;

    /// The edges, in the order in which the topology yields them.
    spec fn edge_list(&self) -> Seq<Self::Edge>;

    /// The number of edges.
    spec fn edge_count(&self) -> nat;

    /// The size of the graph: the number of its edges.
    fn size(&self) -> (n: usize)
        ensures
            n == self.edge_count(),
    ;

    /// The topology of the edges.
    fn edges(&'a self) -> (t: Self::Edges)
        ensures
            t.wf(),
            t.items() == self.edge_list(),
    ;
}

} // verus!
