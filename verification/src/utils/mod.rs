pub mod bitset;
pub mod dimacs;
pub mod duration;
pub mod g6;
pub mod max_flow;
