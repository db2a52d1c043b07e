//! Single-source shortest paths over weighted directed graphs.
//!
//! The crate holds three pieces: an adjacency-list graph with a line-oriented
//! text deserializer, a minimum-priority queue keyed by non-negative integers,
//! and the label-setting shortest-path algorithm that ties the two together
//! and reconstructs a shortest-path tree.

pub mod djikstra;
pub mod graph;
pub mod parse;
pub mod pq;
