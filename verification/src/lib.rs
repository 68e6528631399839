//! Exact, approximate and heuristic algorithms for the treewidth of a graph, over graphs
//! stored as adjacency lists or as bitsets, with graph6 reading and writing.

pub mod graph;
pub mod treewidth;
pub mod utils;
