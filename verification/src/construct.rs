//! Building and changing a graph, whatever stores it.

use vstd::prelude::*;
use crate::index::Index;

verus! {

/// A graph that takes vertices and edges, and gives them up again.
///
/// Each operation answers whether it changed the graph. An operation that finds nothing to do,
/// or that names a vertex which the graph does not hold, answers `false` and is no fault.
pub trait Construct<I: Index> {
    /// Whether the graph holds a vertex of identity `id`.
    spec fn has_vertex(&self, id: I::V) -> bool;

    /// Whether the graph holds an edge that leads from `a` to `b`.
    spec fn has_link(&self, a: I::V, b: I::V) -> bool;

    /// Adds the vertex `id`, with no edges, unless the graph holds it.
    fn add(&mut self, id: I) -> (r: bool)
        ensures
            r == !old(self).has_vertex(id@),
            forall|k: I::V| #[trigger] final(self).has_vertex(k) == (old(self).has_vertex(k) || k == id@),
            forall|a: I::V, b: I::V| #[trigger] final(self).has_link(a, b) == old(self).has_link(a, b),
    ;

    /// Adds an edge from `a` to `b`. Both must be vertices of the graph, and the edge new.
    fn link(&mut self, a: I, b: I) -> (r: bool)
        ensures
            forall|k: I::V| #[trigger] final(self).has_vertex(k) == old(self).has_vertex(k),
            r ==> old(self).has_vertex(a@) && old(self).has_vertex(b@) && !old(self).has_link(a@, b@)
                && final(self).has_link(a@, b@),
            !old(self).has_vertex(a@) || !old(self).has_vertex(b@) || old(self).has_link(a@, b@)
                ==> !r,
            forall|x: I::V, y: I::V| old(self).has_link(x, y) ==> #[trigger] final(self).has_link(x, y),
            forall|x: I::V, y: I::V| #[trigger]
                final(self).has_link(x, y) ==> old(self).has_link(x, y) || (x == a@ && y == b@) || (x
                    == b@ && y == a@),
    ;

    /// Removes the vertex `id` with the edges that leave it. Edges that lead to it stay where
    /// they are stored.
    fn remove(&mut self, id: I) -> (r: bool)
        ensures
            r == old(self).has_vertex(id@),
            forall|k: I::V| #[trigger] final(self).has_vertex(k) == (old(self).has_vertex(k) && k != id@),
            forall|a: I::V, b: I::V| #[trigger]
                final(self).has_link(a, b) == (old(self).has_link(a, b) && a != id@),
    ;

    /// Removes the edge from `a` to `b`. Both must be vertices of the graph, and the edge there.
    fn unlink(&mut self, a: I, b: I) -> (r: bool)
        ensures
            forall|k: I::V| #[trigger] final(self).has_vertex(k) == old(self).has_vertex(k),
            r ==> old(self).has_link(a@, b@) && !final(self).has_link(a@, b@),
            !old(self).has_vertex(b@) || !old(self).has_link(a@, b@) ==> !r,
            forall|x: I::V, y: I::V| #[trigger] final(self).has_link(x, y) ==> old(self).has_link(x, y),
            forall|x: I::V, y: I::V|
                old(self).has_link(x, y) ==> #[trigger] final(self).has_link(x, y) || (x == a@ && y
                    == b@) || (x == b@ && y == a@),
    ;
}

} // verus!
