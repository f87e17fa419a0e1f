//! A hierarchical navigable small-world graph for approximate nearest-neighbour
//! search, with its construction algorithm proved to keep the graph well formed.
//!
//! Vectors and the metric stay with the caller: the graph sees a distance as an
//! order-preserving `u32` key (for a non-negative `f32` distance, its bit pattern),
//! handed in through a closure over vector ids.

pub mod builder;
pub mod graph;
pub mod hnsw;
