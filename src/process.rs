//! The search engines, and the traits through which they are used.
//!
//! An engine is built from its start node ([`Process::from_node`]) and then
//! answers questions about the nodes reachable from there.
use vstd::prelude::*;

pub mod delta;
pub mod dfs;
mod frontier;
pub mod parallel_dfs;

pub use delta::DeltaStepping;
pub use dfs::DFS;
pub use parallel_dfs::ParallelDFS;

verus! {

/// A search engine, built from the node where its searches start.
pub trait Process: Sized {
    /// The type of the graph's nodes.
    type Node;

    /// The node where the engine's searches start.
    spec fn spec_start(&self) -> Self::Node;

    /// Build the engine for searches that start at `node`.
    fn from_node(node: Self::Node) -> (r: Self)
        ensures
            r.spec_start() == node,
    ;
}

/// Whether some reachable node satisfies a predicate.
pub trait Contains<I, P: Fn(I) -> bool>: Process {
    /// What the engine needs of the graph and of `pred`.
    spec fn contains_requires(&self, pred: P) -> bool;

    /// The answer that `contains` owes.
    spec fn spec_contains(&self, pred: P) -> bool;

    /// Check whether the graph holds a node that satisfies `pred`.
    fn contains(&self, pred: P) -> (r: bool)
        requires
            self.contains_requires(pred),
        ensures
            r == self.spec_contains(pred),
    ;
}

/// Finding some reachable node that satisfies a predicate.
pub trait FindAny<I, P: Fn(I) -> bool>: Process {
    /// What the engine needs of the graph and of `pred`.
    spec fn find_any_requires(&self, pred: P) -> bool;

    /// What holds of the answer of `find_any`.
    spec fn find_any_ensures(&self, pred: P, r: Option<Self::Node>) -> bool;

    /// Search for a node that satisfies `pred`; which one, among several, is
    /// left to the engine.
    fn find_any(&self, pred: P) -> (r: Option<Self::Node>)
        requires
            self.find_any_requires(pred),
        ensures
            self.find_any_ensures(pred, r),
    ;
}

/// Finding the first reachable node that satisfies a predicate.
///
/// On a weighted graph, the first node is one at the least distance from the
/// start node.
pub trait FindFirst<I, P: Fn(I) -> bool>: Process {
    /// What the engine needs of the graph and of `pred`.
    spec fn find_first_requires(&self, pred: P) -> bool;

    /// What holds of the answer of `find_first`.
    spec fn find_first_ensures(&self, pred: P, r: Option<Self::Node>) -> bool;

    /// Search for the first node that satisfies `pred`.
    fn find_first(&self, pred: P) -> (r: Option<Self::Node>)
        requires
            self.find_first_requires(pred),
        ensures
            self.find_first_ensures(pred, r),
    ;
}

} // verus!
