use vstd::prelude::*;

pub mod bfs;
pub mod binary_search;
pub mod dfs;
pub mod dijkstra;
pub mod maze;
pub mod path;

verus! {

/// Failure of a path search, reported to the caller instead of ever
/// returning a truncated or empty path as success.
#[derive(Clone, Copy, Debug, PartialEq, Eq, Structural)]
pub enum SearchError {
    /// The target node cannot be reached from the start node.
    UnreachableTarget,
}

} // verus!
