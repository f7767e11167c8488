//! Lazy, stateful traversal of an immutable directed graph.
//!
//! A [`graph::Graph`] is an ordered list of nodes, each holding a value and
//! the positions of its neighbors.  Three pull-based traversal cursors
//! enumerate the nodes reachable from a start position, each under its own
//! visitation order: breadth-first ([`bfs::BfsIterator`]), depth-first
//! ([`dfs::DfsIterator`]), and smallest-discovered-value-next
//! ([`smallest::NextSmallestIterator`]).
//!
//! All three variants mark a node visited at the moment it enters the
//! frontier, so every reachable node is yielded exactly once, and an invalid
//! start position (at or past the node count) uniformly gives an empty
//! traversal.

pub mod bfs;
pub mod dfs;
pub mod graph;
pub mod reach;
pub mod smallest;
pub mod visit;
