//! Reference implementations of the benchmark's algorithm families.

pub mod search;
pub mod subarray;
pub mod sorting;
pub mod graph;
pub mod floyd;
pub mod dijkstra;
pub mod bellman_ford;
pub mod greedy;
pub mod coins;
pub mod dp;
pub mod subsets;
pub mod trees;
