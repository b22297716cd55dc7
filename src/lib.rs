//! Reusable algorithmic primitives: a monoid-generic segment tree, union-find,
//! Dijkstra's shortest paths and modular arithmetic helpers.
pub mod data_structure;
pub mod graph;
pub mod math;
