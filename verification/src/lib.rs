//! Directed graphs over integer node identifiers, with breadth-first
//! traversal, hop distances and fewest-hops paths.
//!
//! - [`graph`] holds the executable [`graph::Graph`]: edges are added one by
//!   one, and the queries never change the graph.
//! - [`paths`] defines what the queries promise: paths, reachability, the
//!   distance between two nodes.
//! - [`laws`] proves what the promises of the queries entail.
//!
//! The proofs of the queries rest on two private modules: `search` holds the
//! invariant of a breadth-first search, and `trace` fixes the order in which
//! ties between equally near nodes are broken.

pub mod graph;
pub mod laws;
pub mod paths;
mod search;
mod trace;
