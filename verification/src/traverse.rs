pub mod bfs;
pub mod binary_tree;
pub mod dfs;
