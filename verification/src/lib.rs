//! A generic in-memory graph container with directed and undirected edge
//! semantics, vertex and edge mutation, depth-first and breadth-first
//! traversal in read-only and mutating forms, and a round-trip Trivial Graph
//! Format codec.

pub mod bfs;
pub mod dfs;
pub mod digits;
pub mod directed;
pub mod edge;
pub mod graph;
pub mod marker;
pub mod reach;
pub mod text;
pub mod tgf;
pub mod undirected;
pub mod vertex;
