//! Graph topology: one protocol for walking vertices and edges, whatever stores them.
//!
//! A graph hands out a [`topology::Topology`] for its vertices and another for its edges. The
//! walks of [`traversal`] read nothing else, so they serve a stored graph and a computed one
//! alike. Payload is the caller's business: the graphs hold identifiers only.

pub mod index;
pub mod counter;
pub mod marker;
pub mod utils;
pub mod topology;
pub mod seqs;
pub mod traversal;
pub mod construct;
pub mod providers;
pub mod graphs;
