//! Exploration of implicitly defined graphs.
//!
//! A graph is given by its nodes: each node produces its outgoing neighbours
//! on demand ([`Node`], [`Weighted`]). The engines under [`process`] answer
//! reachability questions ("is there a reachable node that satisfies this
//! predicate?") and nearest-match questions on weighted graphs, without
//! building the graph.
use vstd::prelude::*;

pub mod nodifyied;
mod parallel;
pub mod prelude;
pub mod process;
pub mod walk;

use process::Process;

verus! {

/// Conversion of a node into the value that predicates are applied to.
///
/// Every [`Node`] converts into itself; an adapter may expose another type.
pub trait AsValue<I>: Sized {
    /// The value that `as_value` returns.
    spec fn spec_as_value(self) -> I;

    /// Convert the node into the value seen by predicates.
    fn as_value(self) -> (r: I)
        ensures
            r == self.spec_as_value(),
    ;
}

/// A node of an implicit graph.
///
/// The graph is defined by `outgoing`: the neighbours of a node are computed
/// from the node itself, each time they are asked for.
pub trait Node: Sized {
    /// The outgoing neighbours of this node, in the order they are produced.
    spec fn spec_outgoing(self) -> Seq<Self>;

    /// Compute the outgoing neighbours of this node.
    fn outgoing(self) -> (r: Vec<Self>)
        ensures
            r@ == self.spec_outgoing(),
    ;

    /// The engine `P` for searches that start at this node.
    fn as_process<P: Process<Node = Self>>(self) -> (r: P)
        ensures
            r.spec_start() == self,
    {
        P::from_node(self)
    }
}

/// Every node is its own value.
impl<N: Node> AsValue<N> for N {
    open spec fn spec_as_value(self) -> N {
        self
    }

    fn as_value(self) -> (r: N) {
        self
    }
}

/// A node of an implicit graph whose edges carry a non-negative weight.
pub trait Weighted: Sized {
    /// The outgoing edges of this node, as pairs of weight and neighbour.
    spec fn spec_weighted_outgoing(self) -> Seq<(u64, Self)>;

    /// Compute the outgoing edges of this node.
    fn weighted_outgoing(self) -> (r: Vec<(u64, Self)>)
        ensures
            r@ == self.spec_weighted_outgoing(),
    ;
}

} // verus!
