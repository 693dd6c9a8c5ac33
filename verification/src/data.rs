pub mod binary_tree;
pub mod graph;
pub mod list;
