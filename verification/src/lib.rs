//! An arena-allocated tree: all nodes live in one growable store and refer to
//! each other through plain index identifiers instead of pointers.

use vstd::prelude::*;

pub mod model;
pub mod tree;
pub mod walker;

pub use tree::{Node, NodeParts, Tree};
pub use walker::{
    Ancestors, Children, Descendants, FollowingSiblings, NodeEdge, PrecedingSiblings,
    ReverseChildren, ReverseTraverse, Traverse,
};

verus! {

/// A node identifier within a particular `Tree`: a stable index into the
/// backing store. Two identifiers are equal exactly when they name the same
/// slot.
#[derive(PartialEq, Eq, Structural, PartialOrd, Ord, Copy, Clone, Debug, Hash)]
pub struct NodeId {
    pub index: usize,
}

impl NodeId {
    /// Create a `NodeId` used for attempting to get `Node`s references from a `Tree`.
    pub fn new(index: usize) -> (r: Self)
        ensures
            r.index == index,
    {
        Self { index }
    }
}

} // verus!
