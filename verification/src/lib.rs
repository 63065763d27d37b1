pub mod disjoint_sets;
pub mod graph;
