//! Markers that select how a graph treats its edges.

use vstd::prelude::*;

verus! {

/// Marks a graph whose edges lead one way.
pub struct Directed;

/// Marks a graph whose edges lead both ways.
pub struct Undirected;

} // verus!
