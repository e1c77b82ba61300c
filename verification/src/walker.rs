//! Traversal walkers: stateful cursors that advance one step per call and
//! take the store as a parameter at each step, so that no borrow of the store
//! is held between steps.

use vstd::prelude::*;
use crate::NodeId;
use crate::model::LinkRec;
use crate::tree::Tree;

verus! {

/// An iterator of references to the ancestors of a given node.
pub struct Ancestors {
    pub node: Option<NodeId>,
}

/// An iterator of references to the siblings before a given node.
pub struct PrecedingSiblings {
    pub node: Option<NodeId>,
}

/// An iterator of references to the siblings after a given node.
pub struct FollowingSiblings {
    pub node: Option<NodeId>,
}

/// An iterator of references to the children of a given node.
pub struct Children {
    pub node: Option<NodeId>,
}

/// An iterator of references to the children of a given node, in reverse order.
pub struct ReverseChildren {
    pub node: Option<NodeId>,
}

impl Ancestors {
    /// Yield the current node and advance along the parent link.
    pub fn walk_next<T>(&mut self, arena: &Tree<T>) -> (r: Option<NodeId>)
        requires
            arena@.wf(),
            old(self).node matches Some(n) ==> n.index < arena@.len(),
        ensures
            r == old(self).node,
            final(self).node == match old(self).node {
                None => None::<NodeId>,
                Some(n) => arena@.rec(n).parent,
            },
            final(self).node matches Some(m) ==> m.index < arena@.len(),
    {
        match self.node {
            Some(node) => {
                let node_ref = arena.get(node).unwrap();
                self.node = node_ref.parent();
                Some(node)
            },
            None => None,
        }
    }
}

impl PrecedingSiblings {
    /// Yield the current node and advance along the previous-sibling link.
    pub fn walk_next<T>(&mut self, arena: &Tree<T>) -> (r: Option<NodeId>)
        requires
            arena@.wf(),
            old(self).node matches Some(n) ==> n.index < arena@.len(),
        ensures
            r == old(self).node,
            final(self).node == match old(self).node {
                None => None::<NodeId>,
                Some(n) => arena@.rec(n).prev,
            },
            final(self).node matches Some(m) ==> m.index < arena@.len(),
    {
        match self.node {
            Some(node) => {
                let node_ref = arena.get(node).unwrap();
                self.node = node_ref.previous_sibling();
                Some(node)
            },
            None => None,
        }
    }
}

impl FollowingSiblings {
    /// Yield the current node and advance along the next-sibling link.
    pub fn walk_next<T>(&mut self, arena: &Tree<T>) -> (r: Option<NodeId>)
        requires
            arena@.wf(),
            old(self).node matches Some(n) ==> n.index < arena@.len(),
        ensures
            r == old(self).node,
            final(self).node == match old(self).node {
                None => None::<NodeId>,
                Some(n) => arena@.rec(n).next,
            },
            final(self).node matches Some(m) ==> m.index < arena@.len(),
    {
        match self.node {
            Some(node) => {
                let node_ref = arena.get(node).unwrap();
                self.node = node_ref.next_sibling();
                Some(node)
            },
            None => None,
        }
    }
}

impl Children {
    /// Yield the current child and advance along the next-sibling link.
    pub fn walk_next<T>(&mut self, arena: &Tree<T>) -> (r: Option<NodeId>)
        requires
            arena@.wf(),
            old(self).node matches Some(n) ==> n.index < arena@.len(),
        ensures
            r == old(self).node,
            final(self).node == match old(self).node {
                None => None::<NodeId>,
                Some(n) => arena@.rec(n).next,
            },
            final(self).node matches Some(m) ==> m.index < arena@.len(),
    {
        match self.node {
            Some(node) => {
                let node_ref = arena.get(node).unwrap();
                self.node = node_ref.next_sibling();
                Some(node)
            },
            None => None,
        }
    }
}

impl ReverseChildren {
    /// Yield the current child and advance along the previous-sibling link.
    pub fn walk_next<T>(&mut self, arena: &Tree<T>) -> (r: Option<NodeId>)
        requires
            arena@.wf(),
            old(self).node matches Some(n) ==> n.index < arena@.len(),
        ensures
            r == old(self).node,
            final(self).node == match old(self).node {
                None => None::<NodeId>,
                Some(n) => arena@.rec(n).prev,
            },
            final(self).node matches Some(m) ==> m.index < arena@.len(),
    {
        match self.node {
            Some(node) => {
                let node_ref = arena.get(node).unwrap();
                self.node = node_ref.previous_sibling();
                Some(node)
            },
            None => None,
        }
    }
}

/// Indicator whether a traversal step enters or leaves a node.
#[derive(Clone, Copy, Debug, PartialEq, Eq, Structural)]
pub enum NodeEdge<T> {
    /// Entering a node, before any of its descendants.
    Start(T),
    /// Leaving a node, after all of its descendants.
    End(T),
}

/// Whether an edge's node is inside the bounds of a store of `n` slots.
pub open spec fn edge_ok(e: Option<NodeEdge<NodeId>>, n: nat) -> bool {
    match e {
        None => true,
        Some(NodeEdge::Start(id)) => id.index < n,
        Some(NodeEdge::End(id)) => id.index < n,
    }
}

/// One transition of the depth-first edge traversal rooted at `root`:
/// from entering a node descend to its first child, or leave it; from leaving
/// a node stop at the root, or enter the next sibling, or leave the parent.
/// A missing parent below the root ends the walk early.
pub open spec fn traverse_step(
    L: Seq<LinkRec>,
    root: NodeId,
    e: NodeEdge<NodeId>,
) -> Option<NodeEdge<NodeId>> {
    match e {
        NodeEdge::Start(node) => match L[node.index as int].first {
            Some(first) => Some(NodeEdge::Start(first)),
            None => Some(NodeEdge::End(node)),
        },
        NodeEdge::End(node) => if node == root {
            None
        } else {
            match L[node.index as int].next {
                Some(next) => Some(NodeEdge::Start(next)),
                None => match L[node.index as int].parent {
                    Some(parent) => Some(NodeEdge::End(parent)),
                    None => None,
                },
            }
        },
    }
}

/// The mirror transition: from leaving a node descend to its last child, or
/// enter it; from entering a node stop at the root, or leave the previous
/// sibling, or enter the parent.
pub open spec fn reverse_traverse_step(
    L: Seq<LinkRec>,
    root: NodeId,
    e: NodeEdge<NodeId>,
) -> Option<NodeEdge<NodeId>> {
    match e {
        NodeEdge::End(node) => match L[node.index as int].last {
            Some(last) => Some(NodeEdge::End(last)),
            None => Some(NodeEdge::Start(node)),
        },
        NodeEdge::Start(node) => if node == root {
            None
        } else {
            match L[node.index as int].prev {
                Some(prev) => Some(NodeEdge::End(prev)),
                None => match L[node.index as int].parent {
                    Some(parent) => Some(NodeEdge::Start(parent)),
                    None => None,
                },
            }
        },
    }
}

/// The nodes of the entering edges that a depth-first walk rooted at `root`
/// yields from state `st` onward, in order: the pre-order node sequence of
/// the walk, cut off after `fuel` transitions.
pub open spec fn run_starts(
    L: Seq<LinkRec>,
    root: NodeId,
    st: Option<NodeEdge<NodeId>>,
    fuel: nat,
) -> Seq<NodeId>
    decreases fuel,
{
    if fuel == 0 {
        Seq::empty()
    } else {
        match st {
            None => Seq::empty(),
            Some(NodeEdge::Start(n)) => seq![n] + run_starts(
                L,
                root,
                traverse_step(L, root, NodeEdge::Start(n)),
                (fuel - 1) as nat,
            ),
            Some(NodeEdge::End(n)) => run_starts(
                L,
                root,
                traverse_step(L, root, NodeEdge::End(n)),
                (fuel - 1) as nat,
            ),
        }
    }
}

/// The next entering edge a depth-first walk reaches from state `st`: the
/// node it names together with the state just past it, or `None` when the
/// walk ends (or `fuel` transitions are used up) first.
pub open spec fn skip_to_start(
    L: Seq<LinkRec>,
    root: NodeId,
    st: Option<NodeEdge<NodeId>>,
    fuel: nat,
) -> Option<(NodeId, Option<NodeEdge<NodeId>>)>
    decreases fuel,
{
    if fuel == 0 {
        None
    } else {
        match st {
            None => None,
            Some(NodeEdge::Start(n)) => Some((n, traverse_step(L, root, NodeEdge::Start(n)))),
            Some(NodeEdge::End(n)) => skip_to_start(
                L,
                root,
                traverse_step(L, root, NodeEdge::End(n)),
                (fuel - 1) as nat,
            ),
        }
    }
}

/// An iterator over the edges of a given node and its descendants, in tree order.
pub struct Traverse {
    pub root: NodeId,
    pub next: Option<NodeEdge<NodeId>>,
}

impl Traverse {
    /// Yield the pending edge and advance by one traversal transition.
    pub fn walk_next<T>(&mut self, arena: &Tree<T>) -> (r: Option<NodeEdge<NodeId>>)
        requires
            arena@.wf(),
            edge_ok(old(self).next, arena@.len()),
        ensures
            r == old(self).next,
            final(self).root == old(self).root,
            final(self).next == match old(self).next {
                None => None::<NodeEdge<NodeId>>,
                Some(e) => traverse_step(arena@.links, old(self).root, e),
            },
            edge_ok(final(self).next, arena@.len()),
    {
        match self.next {
            Some(item) => {
                self.next = match item {
                    NodeEdge::Start(node) => {
                        let node_ref = arena.get(node).unwrap();
                        match node_ref.first_child() {
                            Some(first_child) => Some(NodeEdge::Start(first_child)),
                            None => Some(NodeEdge::End(node)),
                        }
                    },
                    NodeEdge::End(node) => {
                        if node.index == self.root.index {
                            None
                        } else {
                            let node_ref = arena.get(node).unwrap();
                            match node_ref.next_sibling() {
                                Some(next_sibling) => Some(NodeEdge::Start(next_sibling)),
                                None => match node_ref.parent() {
                                    Some(parent) => Some(NodeEdge::End(parent)),
                                    // A missing parent below the root means the
                                    // tree was mutated mid-walk: stop early
                                    // rather than fail.
                                    None => None,
                                },
                            }
                        }
                    },
                };
                Some(item)
            },
            None => None,
        }
    }
}

/// An iterator over the edges of a given node and its descendants, in reverse
/// tree order.
pub struct ReverseTraverse {
    pub root: NodeId,
    pub next: Option<NodeEdge<NodeId>>,
}

impl ReverseTraverse {
    /// Yield the pending edge and advance by one reverse transition.
    pub fn walk_next<T>(&mut self, arena: &Tree<T>) -> (r: Option<NodeEdge<NodeId>>)
        requires
            arena@.wf(),
            edge_ok(old(self).next, arena@.len()),
        ensures
            r == old(self).next,
            final(self).root == old(self).root,
            final(self).next == match old(self).next {
                None => None::<NodeEdge<NodeId>>,
                Some(e) => reverse_traverse_step(arena@.links, old(self).root, e),
            },
            edge_ok(final(self).next, arena@.len()),
    {
        match self.next {
            Some(item) => {
                self.next = match item {
                    NodeEdge::End(node) => {
                        let node_ref = arena.get(node).unwrap();
                        match node_ref.last_child() {
                            Some(last_child) => Some(NodeEdge::End(last_child)),
                            None => Some(NodeEdge::Start(node)),
                        }
                    },
                    NodeEdge::Start(node) => {
                        if node.index == self.root.index {
                            None
                        } else {
                            let node_ref = arena.get(node).unwrap();
                            match node_ref.previous_sibling() {
                                Some(previous_sibling) => Some(NodeEdge::End(previous_sibling)),
                                None => match node_ref.parent() {
                                    // A missing parent below the root means the
                                    // tree was mutated mid-walk: stop early
                                    // rather than fail.
                                    Some(parent) => Some(NodeEdge::Start(parent)),
                                    None => None,
                                },
                            }
                        }
                    },
                };
                Some(item)
            },
            None => None,
        }
    }
}

/// An iterator of references to a given node and its descendants, in tree
/// order: the entering edges of a `Traverse` walk.
pub struct Descendants(pub Traverse);

impl Descendants {
    /// Yield the node of the next entering edge, skipping leaving edges.
    /// The skipped leaving edges climb the ancestor chain, so on any
    /// acyclic store far fewer steps than the slot count are taken; the
    /// explicit bound only cuts a walk over a store whose links were
    /// corrupted into a cycle, which otherwise would never end.
    pub fn walk_next<T>(&mut self, arena: &Tree<T>) -> (r: Option<NodeId>)
        requires
            arena@.wf(),
            edge_ok(old(self).0.next, arena@.len()),
        ensures
            ({
                match skip_to_start(
                    arena@.links,
                    old(self).0.root,
                    old(self).0.next,
                    arena@.len() + 2,
                ) {
                    None => r is None,
                    Some(p) => r == Some(p.0) && final(self).0.next == p.1,
                }
            }),
            old(self).0.next matches Some(NodeEdge::Start(n)) ==> r == Some(n),
            old(self).0.next is None ==> r is None,
            r matches Some(n) ==> n.index < arena@.len(),
            final(self).0.root == old(self).0.root,
            edge_ok(final(self).0.next, arena@.len()),
    {
        let mut fuel: u128 = arena.count() as u128 + 2;
        loop
            invariant
                arena@.wf(),
                edge_ok(self.0.next, arena@.len()),
                self.0.root == old(self).0.root,
                fuel <= arena@.len() + 2,
                skip_to_start(arena@.links, old(self).0.root, self.0.next, fuel as nat)
                    == skip_to_start(
                    arena@.links,
                    old(self).0.root,
                    old(self).0.next,
                    arena@.len() + 2,
                ),
                old(self).0.next matches Some(NodeEdge::Start(n)) ==> self.0.next == old(
                    self,
                ).0.next && fuel >= 2,
                old(self).0.next is None ==> self.0.next is None,
            decreases fuel,
        {
            if fuel == 0 {
                return None;
            }
            fuel = fuel - 1;
            match self.0.walk_next(arena) {
                Some(NodeEdge::Start(node)) => {
                    return Some(node);
                },
                Some(NodeEdge::End(_)) => {},
                None => {
                    return None;
                },
            }
        }
    }
}

impl NodeId {
    /// Return an iterator of references to this node and its ancestors.
    pub fn ancestors(self) -> (w: Ancestors)
        ensures
            w.node == Some(self),
    {
        Ancestors { node: Some(self) }
    }

    /// Return an iterator of references to this node and the siblings before it.
    pub fn preceding_siblings(self) -> (w: PrecedingSiblings)
        ensures
            w.node == Some(self),
    {
        PrecedingSiblings { node: Some(self) }
    }

    /// Return an iterator of references to this node and the siblings after it.
    pub fn following_siblings(self) -> (w: FollowingSiblings)
        ensures
            w.node == Some(self),
    {
        FollowingSiblings { node: Some(self) }
    }

    /// Return an iterator of references to this node's children.
    pub fn children<T>(self, arena: &Tree<T>) -> (w: Children)
        requires
            arena@.wf(),
            arena@.in_bounds(self),
        ensures
            w.node == arena@.rec(self).first,
    {
        let node_ref = arena.get(self).unwrap();
        Children { node: node_ref.first_child() }
    }

    /// Return an iterator of references to this node's children, in reverse order.
    pub fn reverse_children<T>(self, arena: &Tree<T>) -> (w: ReverseChildren)
        requires
            arena@.wf(),
            arena@.in_bounds(self),
        ensures
            w.node == arena@.rec(self).last,
    {
        let node_ref = arena.get(self).unwrap();
        ReverseChildren { node: node_ref.last_child() }
    }

    /// Return an iterator over the edges of this node and its descendants, in
    /// tree order.
    pub fn traverse(self) -> (w: Traverse)
        ensures
            w.root == self,
            w.next == Some(NodeEdge::Start(self)),
    {
        Traverse { root: self, next: Some(NodeEdge::Start(self)) }
    }

    /// Return an iterator over the edges of this node and its descendants, in
    /// reverse tree order.
    pub fn reverse_traverse(self) -> (w: ReverseTraverse)
        ensures
            w.root == self,
            w.next == Some(NodeEdge::End(self)),
    {
        ReverseTraverse { root: self, next: Some(NodeEdge::End(self)) }
    }

    /// Return an iterator of references to this node and its descendants, in
    /// tree order. The node itself is always yielded first.
    pub fn descendants(self) -> (w: Descendants)
        ensures
            w.0.root == self,
            w.0.next == Some(NodeEdge::Start(self)),
    {
        Descendants(self.traverse())
    }
}

} // verus!
