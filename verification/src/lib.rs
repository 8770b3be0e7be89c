//! Single-source shortest paths over weighted directed graphs, level-order
//! breadth-first traversal, a greeting for names made of letters, and two
//! small building blocks, each with a machine-checked contract.

pub mod bfs;
pub mod dijkstra;
pub mod frontier;
pub mod graph;
pub mod hello;
pub mod levels;
pub mod paths;
pub mod patterns;
