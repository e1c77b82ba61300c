//! The store (`Tree`) and its nodes: identifier allocation and recycling,
//! slot lookup, and the structural mutation operations on identifiers.

use vstd::prelude::*;
use crate::NodeId;
use crate::walker::{NodeEdge, run_starts, traverse_step};
use crate::model::{LinkRec, TreeView, acyclic, spec_detach, spec_append, spec_prepend, spec_insert_after,
    spec_insert_before, rec_ok, consistent_at, spec_attach_last, spec_attach_first, spec_splice_after, spec_splice_before};

verus! {

/// A node within a particular `Tree`. The links are private so that only the
/// structural operations can change them; the payload is freely accessible.
#[derive(Clone, Debug)]
pub struct Node<T> {
    parent: Option<NodeId>,
    previous_sibling: Option<NodeId>,
    next_sibling: Option<NodeId>,
    first_child: Option<NodeId>,
    last_child: Option<NodeId>,
    /// The actual data which will be stored within the tree.
    pub data: T,
}

impl<T> Node<T> {
    /// The payload of this node, as the model sees it.
    pub closed spec fn payload(&self) -> T {
        self.data
    }

    /// The link record of this node, as the model sees it.
    pub closed spec fn rec(&self) -> LinkRec {
        LinkRec {
            parent: self.parent,
            prev: self.previous_sibling,
            next: self.next_sibling,
            first: self.first_child,
            last: self.last_child,
        }
    }

    /// Return the ID of the parent node, unless this node is the root of the tree.
    pub fn parent(&self) -> (r: Option<NodeId>)
        ensures
            r == self.rec().parent,
    {
        self.parent
    }

    /// Return the ID of the first child of this node, unless it has no child.
    pub fn first_child(&self) -> (r: Option<NodeId>)
        ensures
            r == self.rec().first,
    {
        self.first_child
    }

    /// Return the ID of the last child of this node, unless it has no child.
    pub fn last_child(&self) -> (r: Option<NodeId>)
        ensures
            r == self.rec().last,
    {
        self.last_child
    }

    /// Return the ID of the previous sibling of this node, unless it is a first child.
    pub fn previous_sibling(&self) -> (r: Option<NodeId>)
        ensures
            r == self.rec().prev,
    {
        self.previous_sibling
    }

    /// Return the ID of the next sibling of this node, unless it is a last child.
    pub fn next_sibling(&self) -> (r: Option<NodeId>)
        ensures
            r == self.rec().next,
    {
        self.next_sibling
    }
}

/// The plain image of one slot, as `from_parts` takes it: parent, previous
/// sibling, next sibling, first child, last child, payload.
pub type NodeParts<T> = (
    Option<NodeId>,
    Option<NodeId>,
    Option<NodeId>,
    Option<NodeId>,
    Option<NodeId>,
    T,
);

/// The link record that one entry of `from_parts` describes.
pub open spec fn parts_rec<T>(p: NodeParts<T>) -> LinkRec {
    LinkRec { parent: p.0, prev: p.1, next: p.2, first: p.3, last: p.4 }
}

/// Every identifier in the given slot images and free-list entries is within
/// range of the slots themselves.
pub open spec fn valid_parts<T>(rs: Seq<NodeParts<T>>, free: Seq<NodeId>) -> bool {
    &&& forall|j: int| 0 <= j < rs.len() ==> rec_ok(parts_rec(#[trigger] rs[j]), rs.len())
    &&& forall|k: int| 0 <= k < free.len() ==> (#[trigger] free[k]).index < rs.len()
}

fn link_in_range(x: Option<NodeId>, n: usize) -> (r: bool)
    ensures
        r == crate::model::id_ok(x, n as nat),
{
    match x {
        None => true,
        Some(id) => id.index < n,
    }
}

/// A `Tree` structure containing certain Nodes: a growable backing store plus
/// a free-list of recyclable slots, used as a stack.
#[derive(Clone, Debug)]
pub struct Tree<T> {
    nodes: Vec<Node<T>>,
    orphaned_nodes: std::collections::VecDeque<NodeId>,
}

impl<T> View for Tree<T> {
    type V = TreeView<T>;

    closed spec fn view(&self) -> TreeView<T> {
        TreeView {
            links: Seq::new(self.nodes@.len(), |j: int| self.nodes@[j].rec()),
            data: Seq::new(self.nodes@.len(), |j: int| self.nodes@[j].data),
            free: self.orphaned_nodes@,
        }
    }
}

impl<T> Tree<T> {
    /// Create a new empty `Tree`.
    pub fn new() -> (t: Tree<T>)
        ensures
            t@.len() == 0,
            t@.free.len() == 0,
            t@.wf(),
            t@.consistent(),
            acyclic(t@.links),
            t@.free_distinct(),
    {
        let t = Tree::<T> { nodes: Vec::new(), orphaned_nodes: std::collections::VecDeque::new() };
        proof {
            crate::model::lemma_acyclic_empty();
            assert(t@.links =~= Seq::<LinkRec>::empty());
        }
        t
    }

    /// Create a new node from its associated data. The most recently recycled
    /// slot is reused if one exists; otherwise a slot is appended at the end.
    pub fn new_node(&mut self, data: T) -> (r: NodeId)
        requires
            old(self)@.wf(),
        ensures
            final(self)@.wf(),
            old(self)@.free_distinct() ==> final(self)@.free_distinct(),
            old(self)@.free.len() == 0 && old(self)@.consistent() ==> final(self)@.consistent(),
            old(self)@.free.len() == 0 && acyclic(old(self)@.links) ==> acyclic(
                final(self)@.links,
            ),
            final(self)@.in_bounds(r),
            final(self)@.rec(r) == LinkRec::empty(),
            final(self)@.data[r.index as int] == data,
            old(self)@.free.len() == 0 ==> {
                &&& r.index == old(self)@.len()
                &&& final(self)@.links =~= old(self)@.links.push(LinkRec::empty())
                &&& final(self)@.data =~= old(self)@.data.push(data)
                &&& final(self)@.free == old(self)@.free
            },
            old(self)@.free.len() > 0 ==> {
                &&& r == old(self)@.free.last()
                &&& final(self)@.links =~= old(self)@.links.update(
                    r.index as int,
                    LinkRec::empty(),
                )
                &&& final(self)@.data =~= old(self)@.data.update(r.index as int, data)
                &&& final(self)@.free == old(self)@.free.drop_last()
            },
    {
        let node = Node {
            parent: None,
            first_child: None,
            last_child: None,
            previous_sibling: None,
            next_sibling: None,
            data,
        };
        let r: NodeId;
        if let Some(vacant) = self.orphaned_nodes.pop_back() {
            self.nodes[vacant.index] = node;
            r = vacant;
        } else {
            let next_index = self.nodes.len();
            self.nodes.push(node);
            r = NodeId { index: next_index };
        }
        proof {
            assert forall|j: int|
                0 <= j < self@.links.len() implies rec_ok(#[trigger] self@.links[j], self@.links.len()) by {
                if j < old(self)@.links.len() && j != r.index as int {
                    assert(rec_ok(old(self)@.links[j], old(self)@.links.len()));
                }
            }
            assert forall|k: int|
                0 <= k < self@.free.len() implies (#[trigger] self@.free[k]).index
                < self@.links.len() by {
                assert(old(self)@.free[k].index < old(self)@.links.len());
            }
            if old(self)@.free.len() == 0 && old(self)@.consistent() {
                assert(old(self)@.links.len() < self.nodes.len() <= usize::MAX);
                crate::model::lemma_push_empty_consistent(old(self)@.links);
                assert(self@.links =~= old(self)@.links.push(LinkRec::empty()));
            }
            if old(self)@.free.len() == 0 && acyclic(old(self)@.links) {
                crate::model::lemma_push_empty_acyclic(old(self)@.links);
                assert(self@.links =~= old(self)@.links.push(LinkRec::empty()));
            }
        }
        r
    }

    /// The number of slots in the store, recycled ones included.
    pub fn count(&self) -> (r: usize)
        ensures
            r == self@.len(),
    {
        self.nodes.len()
    }

    /// Returns true if the store has no slots at all.
    pub fn is_empty(&self) -> (r: bool)
        ensures
            r == (self@.len() == 0),
    {
        self.count() == 0
    }

    /// Get a reference to the node with the given id if in the store, `None` otherwise.
    pub fn get(&self, id: NodeId) -> (r: Option<&Node<T>>)
        ensures
            match r {
                Some(node) => {
                    &&& self@.in_bounds(id)
                    &&& node.rec() == self@.rec(id)
                    &&& node.payload() == self@.data[id.index as int]
                },
                None => !self@.in_bounds(id),
            },
    {
        if id.index < self.nodes.len() {
            Some(&self.nodes[id.index])
        } else {
            None
        }
    }

    /// Replace the payload of the node with the given id and hand the old
    /// payload back, or return `None` — changing nothing — when the
    /// identifier is out of range: the recoverable counterpart of `get_mut`
    /// for an identifier that may not be in bounds.
    pub fn set_data(&mut self, id: NodeId, data: T) -> (r: Option<T>)
        ensures
            match r {
                Some(prev) => {
                    &&& old(self)@.in_bounds(id)
                    &&& prev == old(self)@.data[id.index as int]
                    &&& final(self)@.links =~= old(self)@.links
                    &&& final(self)@.free == old(self)@.free
                    &&& final(self)@.data =~= old(self)@.data.update(id.index as int, data)
                },
                None => !old(self)@.in_bounds(id) && final(self)@ == old(self)@,
            },
    {
        if id.index < self.nodes.len() {
            let mut prev = data;
            let node = &mut self.nodes[id.index];
            std::mem::swap(&mut node.data, &mut prev);
            proof {
                assert(self@.links =~= old(self)@.links);
                assert(self@.data =~= old(self)@.data.update(id.index as int, data));
            }
            Some(prev)
        } else {
            None
        }
    }

    /// Get mutable access to the payload of the node with the given id,
    /// which must be in range: check with `get` first, or use `set_data` for
    /// the recoverable path.
    /// Only the payload can change through the returned reference: the links
    /// of every slot stay exactly as they were.
    pub fn get_mut(&mut self, id: NodeId) -> (r: &mut T)
        requires
            old(self)@.in_bounds(id),
        ensures
            *r == old(self)@.data[id.index as int],
            final(self)@.links =~= old(self)@.links,
            final(self)@.free == old(self)@.free,
            final(self)@.data =~= old(self)@.data.update(id.index as int, *final(r)),
    {
        let node = &mut self.nodes[id.index];
        &mut node.data
    }

    /// Borrow all slots in storage order, recycled-but-unreused ones included.
    pub fn iter(&self) -> (r: &Vec<Node<T>>)
        ensures
            r@.len() == self@.len(),
            forall|j: int|
                0 <= j < r@.len() ==> (#[trigger] r@[j]).rec() == self@.links[j]
                    && r@[j].payload() == self@.data[j],
    {
        &self.nodes
    }

    /// Drop every node and the whole free-list in one step, invalidating all
    /// outstanding identifiers.
    pub fn clear(&mut self)
        ensures
            final(self)@.len() == 0,
            final(self)@.free.len() == 0,
            final(self)@.wf(),
            final(self)@.consistent(),
            acyclic(final(self)@.links),
            final(self)@.free_distinct(),
    {
        self.nodes.clear();
        self.orphaned_nodes.clear();
        proof {
            crate::model::lemma_acyclic_empty();
            assert(self@.links =~= Seq::<LinkRec>::empty());
        }
    }

    /// Mark `id` and every node of its subtree as reusable by pushing each
    /// visited identifier onto the free-list, the subtree root first: the
    /// free-list is extended by exactly the pre-order node sequence of the
    /// depth-first walk rooted at `id`. The walk is bounded: on a store whose
    /// links were corrupted into a cycle it stops instead of spinning, as the
    /// traversal walkers do.
    pub(crate) fn orphan_node(&mut self, id: NodeId)
        requires
            old(self)@.wf(),
            old(self)@.in_bounds(id),
        ensures
            final(self)@.wf(),
            final(self)@.links =~= old(self)@.links,
            final(self)@.data =~= old(self)@.data,
            final(self)@.free =~= old(self)@.free + run_starts(
                old(self)@.links,
                id,
                Some(NodeEdge::Start(id)),
                2 * old(self)@.len() + 2,
            ),
            final(self)@.free.len() > old(self)@.free.len(),
            final(self)@.free[old(self)@.free.len() as int] == id,
            old(self)@.links[id.index as int].first is None ==> final(self)@.free =~= old(
                self,
            )@.free.push(id),
    {
        let ghost f0 = old(self)@.free;
        let ghost l0 = old(self)@.links;
        let ghost fuel0 = 2 * old(self)@.len() + 2;
        let mut walker = id.traverse();
        let mut fuel: u128 = 2 * (self.count() as u128) + 2;
        loop
            invariant
                self@.wf(),
                id.index < self@.len(),
                f0 == old(self)@.free,
                l0 == old(self)@.links,
                fuel0 == 2 * old(self)@.len() + 2,
                self@.links =~= old(self)@.links,
                self@.data =~= old(self)@.data,
                walker.root == id,
                crate::walker::edge_ok(walker.next, self@.len()),
                f0 + run_starts(l0, id, Some(NodeEdge::Start(id)), fuel0) =~= self@.free
                    + run_starts(l0, id, walker.next, fuel as nat),
            ensures
                self@.free =~= f0 + run_starts(l0, id, Some(NodeEdge::Start(id)), fuel0),
            decreases fuel,
        {
            if fuel == 0 {
                break;
            }
            let ghost pre_next = walker.next;
            let ghost pre_free = self@.free;
            let ghost pre_fuel = fuel as nat;
            fuel = fuel - 1;
            let step_res = walker.walk_next(&*self);
            match step_res {
                Some(NodeEdge::Start(node)) => {
                    self.push_free(node);
                    proof {
                        assert(run_starts(l0, id, pre_next, pre_fuel) =~= seq![node] + run_starts(
                            l0,
                            id,
                            walker.next,
                            fuel as nat,
                        ));
                        assert(pre_free + run_starts(l0, id, pre_next, pre_fuel) =~= self@.free
                            + run_starts(l0, id, walker.next, fuel as nat));
                    }
                },
                Some(NodeEdge::End(_)) => {
                    proof {
                        assert(run_starts(l0, id, pre_next, pre_fuel) =~= run_starts(
                            l0,
                            id,
                            walker.next,
                            fuel as nat,
                        ));
                    }
                },
                None => {
                    break;
                },
            }
        }
        proof {
            let ghost total = run_starts(l0, id, Some(NodeEdge::Start(id)), fuel0);
            assert(total =~= seq![id] + run_starts(
                l0,
                id,
                traverse_step(l0, id, NodeEdge::Start(id)),
                (fuel0 - 1) as nat,
            ));
            assert(self@.free[f0.len() as int] == id);
            if l0[id.index as int].first is None {
                assert(traverse_step(l0, id, NodeEdge::Start(id)) == Some(
                    NodeEdge::End(id),
                ));
                assert(run_starts(l0, id, Some(NodeEdge::End(id)), (fuel0 - 1) as nat)
                    =~= run_starts(l0, id, None, (fuel0 - 2) as nat));
                assert(total =~= seq![id]);
                assert(self@.free =~= f0.push(id));
            }
        }
    }

    /// The identifiers currently waiting on the free-list, oldest first: the
    /// last entry is the one the next allocation will reuse.
    pub fn recycled(&self) -> (r: Vec<NodeId>)
        ensures
            r@ == self@.free,
    {
        let mut r: Vec<NodeId> = Vec::new();
        let mut k: usize = 0;
        let n = self.orphaned_nodes.len();
        while k < n
            invariant
                n == self@.free.len(),
                self@.free == self.orphaned_nodes@,
                k <= n,
                r@ =~= self@.free.take(k as int),
            decreases n - k,
        {
            r.push(self.orphaned_nodes[k]);
            k = k + 1;
        }
        proof {
            assert(r@ =~= self@.free);
        }
        r
    }

    /// Rebuild a store from the plain image of its slots and its free-list,
    /// as a deserializer hands them over: `Some` exactly when every
    /// identifier in a link or on the free-list is within range of the given
    /// slots, `None` — with nothing built — otherwise. The links are taken
    /// field for field as given; whether they satisfy the structural
    /// invariant is the image's own affair, as it is for a store serialized
    /// after recycling.
    pub fn from_parts(records: Vec<NodeParts<T>>, free: Vec<NodeId>) -> (r: Option<Tree<T>>)
        ensures
            r is Some <==> valid_parts(records@, free@),
            match r {
                Some(t) => {
                    &&& t@.wf()
                    &&& t@.len() == records@.len()
                    &&& forall|j: int|
                        0 <= j < records@.len() ==> (#[trigger] t@.links[j]) == parts_rec(
                            records@[j],
                        ) && t@.data[j] == records@[j].5
                    &&& t@.free == free@
                },
                None => !valid_parts(records@, free@),
            },
    {
        let ghost rs0 = records@;
        let n = records.len();
        let mut i: usize = 0;
        while i < n
            invariant
                rs0 == records@,
                n == rs0.len(),
                i <= n,
                forall|j: int| 0 <= j < i ==> rec_ok(parts_rec(#[trigger] rs0[j]), n as nat),
            decreases n - i,
        {
            let rec = &records[i];
            let ok = link_in_range(rec.0, n) && link_in_range(rec.1, n) && link_in_range(rec.2, n)
                && link_in_range(rec.3, n) && link_in_range(rec.4, n);
            if !ok {
                return None;
            }
            i = i + 1;
        }
        let mut k: usize = 0;
        while k < free.len()
            invariant
                rs0 == records@,
                k <= free@.len(),
                forall|m: int| 0 <= m < k ==> (#[trigger] free@[m]).index < n,
                n == rs0.len(),
            decreases free@.len() - k,
        {
            if free[k].index >= n {
                return None;
            }
            k = k + 1;
        }
        let mut nodes: Vec<Node<T>> = Vec::new();
        let mut rem = records;
        while rem.len() > 0
            invariant
                nodes@.len() + rem@.len() == rs0.len(),
                rem@ =~= rs0.skip(nodes@.len() as int),
                forall|j: int|
                    0 <= j < nodes@.len() ==> (#[trigger] nodes@[j]).rec() == parts_rec(rs0[j])
                        && nodes@[j].payload() == rs0[j].5,
            decreases rem@.len(),
        {
            let ghost done = nodes@.len() as int;
            let p = rem.remove(0);
            proof {
                assert(p == rs0[done]);
                assert(rem@ =~= rs0.skip(done + 1));
            }
            nodes.push(
                Node {
                    parent: p.0,
                    previous_sibling: p.1,
                    next_sibling: p.2,
                    first_child: p.3,
                    last_child: p.4,
                    data: p.5,
                },
            );
        }
        let mut queue: std::collections::VecDeque<NodeId> = std::collections::VecDeque::new();
        let mut k2: usize = 0;
        while k2 < free.len()
            invariant
                k2 <= free@.len(),
                queue@ =~= free@.take(k2 as int),
            decreases free@.len() - k2,
        {
            queue.push_back(free[k2]);
            k2 = k2 + 1;
        }
        proof {
            assert(queue@ =~= free@);
        }
        let t = Tree { nodes, orphaned_nodes: queue };
        proof {
            assert forall|j: int|
                0 <= j < rs0.len() implies (#[trigger] t@.links[j]) == parts_rec(rs0[j])
                && t@.data[j] == rs0[j].5 by {}
            assert forall|j: int|
                0 <= j < t@.links.len() implies rec_ok(#[trigger] t@.links[j], t@.links.len()) by {
                assert(rec_ok(parts_rec(rs0[j]), rs0.len()));
            }
        }
        Some(t)
    }

    /// Push one identifier on the free-list. Internal: the topology layer
    /// calls this when recycling a discarded subtree.
    pub(crate) fn push_free(&mut self, id: NodeId)
        requires
            old(self)@.wf(),
            old(self)@.in_bounds(id),
        ensures
            final(self)@.wf(),
            final(self)@.links =~= old(self)@.links,
            final(self)@.data =~= old(self)@.data,
            final(self)@.free =~= old(self)@.free.push(id),
    {
        self.orphaned_nodes.push_back(id);
        proof {
            assert(self@.links =~= old(self)@.links);
            assert(self@.data =~= old(self)@.data);
            assert forall|k: int|
                0 <= k < self@.free.len() implies (#[trigger] self@.free[k]).index
                < self@.links.len() by {
                if k < old(self)@.free.len() {
                    assert(old(self)@.free[k].index < old(self)@.links.len());
                }
            }
        }
    }
}

impl NodeId {
    /// Detach a node from its parent and siblings. Children are not affected.
    pub fn detach<T>(self, arena: &mut Tree<T>)
        requires
            old(arena)@.wf(),
            old(arena)@.in_bounds(self),
            old(arena)@.consistent(),
            acyclic(old(arena)@.links),
        ensures
            final(arena)@.wf(),
            final(arena)@.links =~= spec_detach(old(arena)@.links, self),
            final(arena)@.data =~= old(arena)@.data,
            final(arena)@.free == old(arena)@.free,
            final(arena)@.consistent(),
            acyclic(final(arena)@.links),
    {
        proof {
            assert(old(arena)@.links.len() <= usize::MAX) by {
                assert(old(arena)@.links.len() == old(arena).nodes.len());
            }
            crate::model::lemma_acyclic_no_two_cycle(old(arena)@.links, self);
            crate::model::lemma_detach_consistent(old(arena)@.links, self);
            crate::model::lemma_detach_acyclic(old(arena)@.links, self);
            assert(crate::model::consistent_at(old(arena)@.links, self.index as int));
            assert(rec_ok(old(arena)@.links[self.index as int], old(arena)@.links.len()));
        }
        let parent = arena.nodes[self.index].parent;
        let previous_sibling = arena.nodes[self.index].previous_sibling;
        let next_sibling = arena.nodes[self.index].next_sibling;
        arena.nodes[self.index].parent = None;
        arena.nodes[self.index].previous_sibling = None;
        arena.nodes[self.index].next_sibling = None;

        if let Some(next) = next_sibling {
            arena.nodes[next.index].previous_sibling = previous_sibling;
        } else if let Some(p) = parent {
            arena.nodes[p.index].last_child = previous_sibling;
        }

        if let Some(prev) = previous_sibling {
            arena.nodes[prev.index].next_sibling = next_sibling;
        } else if let Some(p) = parent {
            arena.nodes[p.index].first_child = next_sibling;
        }

        proof {
            let ghost l0 = old(arena)@.links;
            let ghost l1 = arena@.links;
            let ghost r = l0[self.index as int];
            assert(l1.len() == arena.nodes.len());
            assert forall|j: int| 0 <= j < l1.len() implies l1[j] == spec_detach(l0, self)[j] by {
                let jid = NodeId { index: j as usize };
                assert(jid.index as int == j);
                assert(consistent_at(l0, j));
                assert(rec_ok(l0[j], l0.len()));
                if j != self.index as int {
                    assert(r.next == Some(jid) <==> next_sibling == Some(jid));
                    assert(r.prev == Some(jid) <==> previous_sibling == Some(jid));
                    assert(r.parent == Some(jid) <==> parent == Some(jid));
                }
            }
            assert(arena@.links =~= spec_detach(old(arena)@.links, self));
            assert(arena@.data =~= old(arena)@.data);
            assert forall|j: int|
                0 <= j < l1.len() implies rec_ok(#[trigger] l1[j], l1.len()) by {
                assert(rec_ok(l0[j], l0.len()));
                assert(rec_ok(r, l0.len()));
            }
            assert forall|k: int|
                0 <= k < arena@.free.len() implies (#[trigger] arena@.free[k]).index
                < arena@.links.len() by {
                assert(old(arena)@.free[k].index < old(arena)@.links.len());
            }
        }
    }

    /// Prepend a new child to this node, before existing children. The child
    /// is detached from wherever it was first. A node cannot be prepended to
    /// itself.
    pub fn prepend<T>(self, new_child: NodeId, arena: &mut Tree<T>)
        requires
            old(arena)@.wf(),
            old(arena)@.consistent(),
            old(arena)@.in_bounds(self),
            old(arena)@.in_bounds(new_child),
            self != new_child,
            acyclic(old(arena)@.links),
        ensures
            final(arena)@.wf(),
            final(arena)@.links =~= spec_prepend(old(arena)@.links, self, new_child),
            final(arena)@.data =~= old(arena)@.data,
            final(arena)@.free == old(arena)@.free,
            final(arena)@.consistent(),
            acyclic(final(arena)@.links),
    {
        proof {
            assert(old(arena)@.links.len() <= usize::MAX) by {
                assert(old(arena)@.links.len() == old(arena).nodes.len());
            }
            crate::model::lemma_acyclic_no_two_cycle(old(arena)@.links, new_child);
            crate::model::lemma_prepend_consistent(old(arena)@.links, self, new_child);
            crate::model::lemma_detach_consistent(old(arena)@.links, new_child);
            crate::model::lemma_detach_acyclic(old(arena)@.links, new_child);
            crate::model::lemma_attach_first_acyclic(
                spec_detach(old(arena)@.links, new_child),
                self,
                new_child,
            );
        }
        new_child.detach(arena);
        let ghost lmid = arena@.links;
        proof {
            assert(consistent_at(old(arena)@.links, self.index as int));
            assert(consistent_at(old(arena)@.links, new_child.index as int));
            assert(rec_ok(old(arena)@.links[self.index as int], lmid.len()));
            assert(rec_ok(lmid[self.index as int], lmid.len()));
            assert(lmid[self.index as int].first != Some(new_child));
            assert(lmid[self.index as int].first != Some(self));
            assert(lmid.len() == arena.nodes.len());
        }
        let old_first = arena.nodes[self.index].first_child;
        arena.nodes[new_child.index].parent = Some(self);
        arena.nodes[new_child.index].next_sibling = old_first;
        arena.nodes[self.index].first_child = Some(new_child);
        if let Some(first) = old_first {
            arena.nodes[first.index].previous_sibling = Some(new_child);
        } else {
            arena.nodes[self.index].last_child = Some(new_child);
        }
        proof {
            let ghost l1 = arena@.links;
            assert forall|j: int|
                0 <= j < l1.len() implies l1[j] == spec_attach_first(lmid, self, new_child)[j] by {
                let jid = NodeId { index: j as usize };
                assert(jid.index as int == j);
            }
            assert(arena@.links =~= spec_attach_first(lmid, self, new_child));
            assert(arena@.links =~= spec_prepend(old(arena)@.links, self, new_child));
            assert forall|j: int|
                0 <= j < arena@.data.len() implies arena@.data[j] == old(arena)@.data[j] by {}
            assert(arena@.data =~= old(arena)@.data);
            assert forall|j: int|
                0 <= j < l1.len() implies rec_ok(#[trigger] l1[j], l1.len()) by {
                assert(rec_ok(lmid[j], lmid.len()));
            }
            assert forall|k: int|
                0 <= k < arena@.free.len() implies (#[trigger] arena@.free[k]).index
                < arena@.links.len() by {
                assert(old(arena)@.free[k].index < old(arena)@.links.len());
            }
        }
    }

    /// Insert a new sibling after this node. The sibling is detached from
    /// wherever it was first. A node cannot be inserted after itself.
    pub fn insert_after<T>(self, new_sibling: NodeId, arena: &mut Tree<T>)
        requires
            old(arena)@.wf(),
            old(arena)@.consistent(),
            old(arena)@.in_bounds(self),
            old(arena)@.in_bounds(new_sibling),
            self != new_sibling,
            acyclic(old(arena)@.links),
        ensures
            final(arena)@.wf(),
            final(arena)@.links =~= spec_insert_after(old(arena)@.links, self, new_sibling),
            final(arena)@.data =~= old(arena)@.data,
            final(arena)@.free == old(arena)@.free,
            old(arena)@.links[self.index as int].parent != Some(new_sibling)
                ==> final(arena)@.consistent(),
            acyclic(final(arena)@.links),
    {
        proof {
            assert(old(arena)@.links.len() <= usize::MAX) by {
                assert(old(arena)@.links.len() == old(arena).nodes.len());
            }
            crate::model::lemma_acyclic_no_two_cycle(old(arena)@.links, new_sibling);
            if old(arena)@.links[self.index as int].parent != Some(new_sibling) {
                crate::model::lemma_insert_after_consistent(old(arena)@.links, self, new_sibling);
            }
            crate::model::lemma_detach_consistent(old(arena)@.links, new_sibling);
            crate::model::lemma_detach_acyclic(old(arena)@.links, new_sibling);
            crate::model::lemma_splice_after_acyclic(
                spec_detach(old(arena)@.links, new_sibling),
                self,
                new_sibling,
            );
        }
        new_sibling.detach(arena);
        let ghost lmid = arena@.links;
        proof {
            assert(consistent_at(old(arena)@.links, self.index as int));
            assert(consistent_at(old(arena)@.links, new_sibling.index as int));
            assert(rec_ok(old(arena)@.links[self.index as int], lmid.len()));
            assert(rec_ok(lmid[self.index as int], lmid.len()));
            assert(lmid[self.index as int].next != Some(new_sibling));
            assert(lmid.len() == arena.nodes.len());
        }
        let parent = arena.nodes[self.index].parent;
        let old_next = arena.nodes[self.index].next_sibling;
        arena.nodes[new_sibling.index].parent = parent;
        arena.nodes[new_sibling.index].previous_sibling = Some(self);
        arena.nodes[new_sibling.index].next_sibling = old_next;
        arena.nodes[self.index].next_sibling = Some(new_sibling);
        if let Some(next) = old_next {
            arena.nodes[next.index].previous_sibling = Some(new_sibling);
        } else if let Some(p) = parent {
            arena.nodes[p.index].last_child = Some(new_sibling);
        }
        proof {
            let ghost l1 = arena@.links;
            assert forall|j: int|
                0 <= j < l1.len() implies l1[j] == spec_splice_after(lmid, self, new_sibling)[j] by {
                let jid = NodeId { index: j as usize };
                assert(jid.index as int == j);
            }
            assert(arena@.links =~= spec_splice_after(lmid, self, new_sibling));
            assert(arena@.links =~= spec_insert_after(old(arena)@.links, self, new_sibling));
            assert forall|j: int|
                0 <= j < arena@.data.len() implies arena@.data[j] == old(arena)@.data[j] by {}
            assert(arena@.data =~= old(arena)@.data);
            assert forall|j: int|
                0 <= j < l1.len() implies rec_ok(#[trigger] l1[j], l1.len()) by {
                assert(rec_ok(lmid[j], lmid.len()));
            }
            assert forall|k: int|
                0 <= k < arena@.free.len() implies (#[trigger] arena@.free[k]).index
                < arena@.links.len() by {
                assert(old(arena)@.free[k].index < old(arena)@.links.len());
            }
        }
    }

    /// Insert a new sibling before this node. The sibling is detached from
    /// wherever it was first. A node cannot be inserted before itself.
    pub fn insert_before<T>(self, new_sibling: NodeId, arena: &mut Tree<T>)
        requires
            old(arena)@.wf(),
            old(arena)@.consistent(),
            old(arena)@.in_bounds(self),
            old(arena)@.in_bounds(new_sibling),
            self != new_sibling,
            acyclic(old(arena)@.links),
        ensures
            final(arena)@.wf(),
            final(arena)@.links =~= spec_insert_before(old(arena)@.links, self, new_sibling),
            final(arena)@.data =~= old(arena)@.data,
            final(arena)@.free == old(arena)@.free,
            old(arena)@.links[self.index as int].parent != Some(new_sibling)
                ==> final(arena)@.consistent(),
            acyclic(final(arena)@.links),
    {
        proof {
            assert(old(arena)@.links.len() <= usize::MAX) by {
                assert(old(arena)@.links.len() == old(arena).nodes.len());
            }
            crate::model::lemma_acyclic_no_two_cycle(old(arena)@.links, new_sibling);
            if old(arena)@.links[self.index as int].parent != Some(new_sibling) {
                crate::model::lemma_insert_before_consistent(old(arena)@.links, self, new_sibling);
            }
            crate::model::lemma_detach_consistent(old(arena)@.links, new_sibling);
            crate::model::lemma_detach_acyclic(old(arena)@.links, new_sibling);
            crate::model::lemma_splice_before_acyclic(
                spec_detach(old(arena)@.links, new_sibling),
                self,
                new_sibling,
            );
        }
        new_sibling.detach(arena);
        let ghost lmid = arena@.links;
        proof {
            assert(consistent_at(old(arena)@.links, self.index as int));
            assert(consistent_at(old(arena)@.links, new_sibling.index as int));
            assert(rec_ok(old(arena)@.links[self.index as int], lmid.len()));
            assert(rec_ok(lmid[self.index as int], lmid.len()));
            assert(lmid[self.index as int].prev != Some(new_sibling));
            assert(lmid.len() == arena.nodes.len());
        }
        let parent = arena.nodes[self.index].parent;
        let old_prev = arena.nodes[self.index].previous_sibling;
        arena.nodes[new_sibling.index].parent = parent;
        arena.nodes[new_sibling.index].next_sibling = Some(self);
        arena.nodes[new_sibling.index].previous_sibling = old_prev;
        arena.nodes[self.index].previous_sibling = Some(new_sibling);
        if let Some(prev) = old_prev {
            arena.nodes[prev.index].next_sibling = Some(new_sibling);
        } else if let Some(p) = parent {
            arena.nodes[p.index].first_child = Some(new_sibling);
        }
        proof {
            let ghost l1 = arena@.links;
            assert forall|j: int|
                0 <= j < l1.len() implies l1[j] == spec_splice_before(lmid, self, new_sibling)[j] by {
                let jid = NodeId { index: j as usize };
                assert(jid.index as int == j);
            }
            assert(arena@.links =~= spec_splice_before(lmid, self, new_sibling));
            assert(arena@.links =~= spec_insert_before(old(arena)@.links, self, new_sibling));
            assert forall|j: int|
                0 <= j < arena@.data.len() implies arena@.data[j] == old(arena)@.data[j] by {}
            assert(arena@.data =~= old(arena)@.data);
            assert forall|j: int|
                0 <= j < l1.len() implies rec_ok(#[trigger] l1[j], l1.len()) by {
                assert(rec_ok(lmid[j], lmid.len()));
            }
            assert forall|k: int|
                0 <= k < arena@.free.len() implies (#[trigger] arena@.free[k]).index
                < arena@.links.len() by {
                assert(old(arena)@.free[k].index < old(arena)@.links.len());
            }
        }
    }

    /// Append a new child to this node, after existing children. The child is
    /// detached from wherever it was first. A node cannot be appended to
    /// itself.
    pub fn append<T>(self, new_child: NodeId, arena: &mut Tree<T>)
        requires
            old(arena)@.wf(),
            old(arena)@.consistent(),
            old(arena)@.in_bounds(self),
            old(arena)@.in_bounds(new_child),
            self != new_child,
            acyclic(old(arena)@.links),
        ensures
            final(arena)@.wf(),
            final(arena)@.links =~= spec_append(old(arena)@.links, self, new_child),
            final(arena)@.data =~= old(arena)@.data,
            final(arena)@.free == old(arena)@.free,
            final(arena)@.consistent(),
            acyclic(final(arena)@.links),
    {
        proof {
            assert(old(arena)@.links.len() <= usize::MAX) by {
                assert(old(arena)@.links.len() == old(arena).nodes.len());
            }
            crate::model::lemma_acyclic_no_two_cycle(old(arena)@.links, new_child);
            crate::model::lemma_append_consistent(old(arena)@.links, self, new_child);
            crate::model::lemma_detach_consistent(old(arena)@.links, new_child);
            crate::model::lemma_detach_acyclic(old(arena)@.links, new_child);
            crate::model::lemma_attach_last_acyclic(
                spec_detach(old(arena)@.links, new_child),
                self,
                new_child,
            );
        }
        new_child.detach(arena);
        let ghost lmid = arena@.links;
        proof {
            assert(consistent_at(old(arena)@.links, self.index as int));
            assert(consistent_at(old(arena)@.links, new_child.index as int));
            assert(rec_ok(old(arena)@.links[self.index as int], lmid.len()));
            assert(rec_ok(lmid[self.index as int], lmid.len()));
            assert(lmid[self.index as int].last != Some(new_child));
            assert(lmid[self.index as int].last != Some(self));
            assert(lmid.len() == arena.nodes.len());
        }
        let old_last = arena.nodes[self.index].last_child;
        arena.nodes[new_child.index].parent = Some(self);
        arena.nodes[new_child.index].previous_sibling = old_last;
        arena.nodes[self.index].last_child = Some(new_child);
        if let Some(last) = old_last {
            arena.nodes[last.index].next_sibling = Some(new_child);
        } else {
            arena.nodes[self.index].first_child = Some(new_child);
        }
        proof {
            let ghost l1 = arena@.links;
            assert forall|j: int|
                0 <= j < l1.len() implies l1[j] == spec_attach_last(lmid, self, new_child)[j] by {
                let jid = NodeId { index: j as usize };
                assert(jid.index as int == j);
            }
            assert(arena@.links =~= spec_attach_last(lmid, self, new_child));
            assert(arena@.links =~= spec_append(old(arena)@.links, self, new_child));
            assert forall|j: int|
                0 <= j < arena@.data.len() implies arena@.data[j] == old(arena)@.data[j] by {}
            assert(arena@.data =~= old(arena)@.data);
            assert forall|j: int|
                0 <= j < l1.len() implies rec_ok(#[trigger] l1[j], l1.len()) by {
                assert(rec_ok(lmid[j], lmid.len()));
            }
            assert forall|k: int|
                0 <= k < arena@.free.len() implies (#[trigger] arena@.free[k]).index
                < arena@.links.len() by {
                assert(old(arena)@.free[k].index < old(arena)@.links.len());
            }
        }
    }

    /// Detach this node, then mark it and its entire descendant subtree as
    /// reusable. The caller must treat this identifier and all former
    /// descendants as invalid afterwards.
    pub fn orphan<T>(self, arena: &mut Tree<T>)
        requires
            old(arena)@.wf(),
            old(arena)@.consistent(),
            acyclic(old(arena)@.links),
            old(arena)@.in_bounds(self),
        ensures
            final(arena)@.wf(),
            final(arena)@.consistent(),
            acyclic(final(arena)@.links),
            final(arena)@.links =~= spec_detach(old(arena)@.links, self),
            final(arena)@.data =~= old(arena)@.data,
            final(arena)@.free =~= old(arena)@.free + run_starts(
                spec_detach(old(arena)@.links, self),
                self,
                Some(NodeEdge::Start(self)),
                2 * old(arena)@.len() + 2,
            ),
            final(arena)@.free.len() > old(arena)@.free.len(),
            final(arena)@.free[old(arena)@.free.len() as int] == self,
            old(arena)@.links[self.index as int].first is None ==> final(arena)@.free =~= old(
                arena,
            )@.free.push(self),
    {
        self.detach(arena);
        arena.orphan_node(self);
    }

    /// As `append`, but rejecting a self-referential call instead of ruling
    /// it out: appending a node to itself returns `false` and leaves the
    /// store exactly as it was.
    pub fn try_append<T>(self, new_child: NodeId, arena: &mut Tree<T>) -> (ok: bool)
        requires
            old(arena)@.wf(),
            old(arena)@.consistent(),
            old(arena)@.in_bounds(self),
            old(arena)@.in_bounds(new_child),
            acyclic(old(arena)@.links),
        ensures
            ok == (self != new_child),
            self == new_child ==> final(arena)@ == old(arena)@,
            self != new_child ==> {
                &&& final(arena)@.wf()
                &&& final(arena)@.links =~= spec_append(old(arena)@.links, self, new_child)
                &&& final(arena)@.data =~= old(arena)@.data
                &&& final(arena)@.free == old(arena)@.free
                &&& final(arena)@.consistent()
                &&& acyclic(final(arena)@.links)
            },
    {
        if self.index == new_child.index {
            false
        } else {
            self.append(new_child, arena);
            true
        }
    }

    /// As `prepend`, but rejecting a self-referential call instead of ruling
    /// it out.
    pub fn try_prepend<T>(self, new_child: NodeId, arena: &mut Tree<T>) -> (ok: bool)
        requires
            old(arena)@.wf(),
            old(arena)@.consistent(),
            old(arena)@.in_bounds(self),
            old(arena)@.in_bounds(new_child),
            acyclic(old(arena)@.links),
        ensures
            ok == (self != new_child),
            self == new_child ==> final(arena)@ == old(arena)@,
            self != new_child ==> {
                &&& final(arena)@.wf()
                &&& final(arena)@.links =~= spec_prepend(old(arena)@.links, self, new_child)
                &&& final(arena)@.data =~= old(arena)@.data
                &&& final(arena)@.free == old(arena)@.free
                &&& final(arena)@.consistent()
                &&& acyclic(final(arena)@.links)
            },
    {
        if self.index == new_child.index {
            false
        } else {
            self.prepend(new_child, arena);
            true
        }
    }

    /// As `insert_after`, but rejecting a self-referential call instead of
    /// ruling it out.
    pub fn try_insert_after<T>(self, new_sibling: NodeId, arena: &mut Tree<T>) -> (ok: bool)
        requires
            old(arena)@.wf(),
            old(arena)@.consistent(),
            old(arena)@.in_bounds(self),
            old(arena)@.in_bounds(new_sibling),
            acyclic(old(arena)@.links),
        ensures
            ok == (self != new_sibling),
            self == new_sibling ==> final(arena)@ == old(arena)@,
            self != new_sibling ==> {
                &&& final(arena)@.wf()
                &&& final(arena)@.links =~= spec_insert_after(old(arena)@.links, self, new_sibling)
                &&& final(arena)@.data =~= old(arena)@.data
                &&& final(arena)@.free == old(arena)@.free
                &&& (old(arena)@.links[self.index as int].parent != Some(new_sibling)
                    ==> final(arena)@.consistent())
                &&& acyclic(final(arena)@.links)
            },
    {
        if self.index == new_sibling.index {
            false
        } else {
            self.insert_after(new_sibling, arena);
            true
        }
    }

    /// As `insert_before`, but rejecting a self-referential call instead of
    /// ruling it out.
    pub fn try_insert_before<T>(self, new_sibling: NodeId, arena: &mut Tree<T>) -> (ok: bool)
        requires
            old(arena)@.wf(),
            old(arena)@.consistent(),
            old(arena)@.in_bounds(self),
            old(arena)@.in_bounds(new_sibling),
            acyclic(old(arena)@.links),
        ensures
            ok == (self != new_sibling),
            self == new_sibling ==> final(arena)@ == old(arena)@,
            self != new_sibling ==> {
                &&& final(arena)@.wf()
                &&& final(arena)@.links =~= spec_insert_before(old(arena)@.links, self, new_sibling)
                &&& final(arena)@.data =~= old(arena)@.data
                &&& final(arena)@.free == old(arena)@.free
                &&& (old(arena)@.links[self.index as int].parent != Some(new_sibling)
                    ==> final(arena)@.consistent())
                &&& acyclic(final(arena)@.links)
            },
    {
        if self.index == new_sibling.index {
            false
        } else {
            self.insert_before(new_sibling, arena);
            true
        }
    }

    /// Copy the root node of `from_tree` — the node at slot zero — with all
    /// its descendants into `into_tree`, appended as the last child of this
    /// node: one cloned payload per node the walk over the source subtree
    /// enters, in pre-order. Does nothing when `from_tree` is empty.
    pub fn append_subtree<T: Clone>(&mut self, from_tree: &Tree<T>, into_tree: &mut Tree<T>)
        requires
            old(into_tree)@.wf(),
            old(into_tree)@.consistent(),
            acyclic(old(into_tree)@.links),
            old(into_tree)@.free.len() == 0,
            old(into_tree)@.in_bounds(*old(self)),
            from_tree@.wf(),
        ensures
            *final(self) == *old(self),
            final(into_tree)@.wf(),
            final(into_tree)@.consistent(),
            acyclic(final(into_tree)@.links),
            final(into_tree)@.free.len() == 0,
            from_tree@.len() == 0 ==> final(into_tree)@ == old(into_tree)@,
            forall|j: int|
                0 <= j < old(into_tree)@.len() ==> final(into_tree)@.data[j] == old(
                    into_tree,
                )@.data[j],
            from_tree@.len() > 0 ==> {
                let root = 0int;
                let copy = NodeId { index: old(into_tree)@.len() as usize };
                let s = run_starts(
                    from_tree@.links,
                    NodeId { index: 0 },
                    traverse_step(from_tree@.links, NodeId { index: 0 }, NodeEdge::Start(NodeId { index: 0 })),
                    2 * from_tree@.len() + 2,
                );
                &&& final(into_tree)@.len() == old(into_tree)@.len() + 1 + s.len()
                &&& final(into_tree)@.links[copy.index as int].parent == Some(*old(self))
                &&& final(into_tree)@.links[copy.index as int].next is None
                &&& final(into_tree)@.rec(*old(self)).last == Some(copy)
                &&& cloned::<T>(from_tree@.data[root], final(into_tree)@.data[copy.index as int])
                &&& forall|j: int|
                    0 <= j < old(into_tree)@.len() ==> final(into_tree)@.links[j] == spec_append(
                        old(into_tree)@.links.push(LinkRec::empty()),
                        *old(self),
                        copy,
                    )[j]
                &&& forall|k: int|
                    0 <= k < s.len() ==> cloned::<T>(
                        from_tree@.data[(#[trigger] s[k]).index as int],
                        final(into_tree)@.data[old(into_tree)@.len() + 1 + k],
                    )
            },
    {
        let from_root_id = NodeId::new(0);
        if from_tree.get(from_root_id).is_some() {
            proof {
                assert(old(into_tree)@.links.len() == old(into_tree).nodes.len());
                assert(from_root_id == NodeId { index: 0 });
            }
            into_tree.append_subtree_from(from_root_id, *self, from_tree);
        }
    }
}

impl<T: Clone> Tree<T> {
    /// Copy the node `from_id` of `from` with all its descendants into this
    /// store, appended as the last child of `to_id`: the copied root takes
    /// the first fresh slot and one further fresh slot is cloned per node the
    /// walk over the source subtree enters, in pre-order; every slot that
    /// existed before is left exactly as the single append of the copied root
    /// leaves it.
    pub(crate) fn append_subtree_from(&mut self, from_id: NodeId, to_id: NodeId, from: &Tree<T>)
        requires
            old(self)@.wf(),
            old(self)@.consistent(),
            acyclic(old(self)@.links),
            old(self)@.free.len() == 0,
            old(self)@.in_bounds(to_id),
            from@.wf(),
            from@.in_bounds(from_id),
        ensures
            final(self)@.wf(),
            final(self)@.consistent(),
            acyclic(final(self)@.links),
            final(self)@.free.len() == 0,
            final(self)@.len() > old(self)@.len(),
            forall|j: int|
                0 <= j < old(self)@.len() ==> final(self)@.data[j] == old(self)@.data[j],
            final(self)@.links[old(self)@.len() as int].parent == Some(to_id),
            final(self)@.links[old(self)@.len() as int].prev == old(self)@.rec(to_id).last,
            final(self)@.links[old(self)@.len() as int].next is None,
            final(self)@.rec(to_id).last == Some(NodeId { index: old(self)@.len() as usize }),
            cloned::<T>(
                from@.data[from_id.index as int],
                final(self)@.data[old(self)@.len() as int],
            ),
            forall|j: int|
                0 <= j < old(self)@.len() ==> final(self)@.links[j] == spec_append(
                    old(self)@.links.push(LinkRec::empty()),
                    to_id,
                    NodeId { index: old(self)@.len() as usize },
                )[j],
            ({
                let s = run_starts(
                    from@.links,
                    from_id,
                    traverse_step(from@.links, from_id, NodeEdge::Start(from_id)),
                    2 * from@.len() + 2,
                );
                &&& final(self)@.len() == old(self)@.len() + 1 + s.len()
                &&& forall|k: int|
                    0 <= k < s.len() ==> cloned::<T>(
                        from@.data[(#[trigger] s[k]).index as int],
                        final(self)@.data[old(self)@.len() + 1 + k],
                    )
            }),
    {
        let node_ref = from.get(from_id).unwrap();
        let new_root = self.new_node(node_ref.data.clone());
        to_id.append(new_root, self);
        self.copy_children_from(from_id, new_root, from);
    }

    /// Copy the descendants of `from_id` in `from` — not `from_id` itself —
    /// under `to_id` in this store, preserving structure and sibling order:
    /// one fresh slot is allocated, with its payload cloned, for every node
    /// the depth-first walk over the source subtree enters, in pre-order; no
    /// slot that existed before is touched, other than the child links of
    /// `to_id` itself. The copying walk is bounded like the traversal
    /// walkers: on a source whose links were corrupted into a cycle it stops
    /// early, and an entering edge met with no open ancestor left (possible
    /// only on such a source) yields a detached copy instead of an attached
    /// one.
    pub(crate) fn copy_children_from(&mut self, from_id: NodeId, to_id: NodeId, from: &Tree<T>)
        requires
            old(self)@.wf(),
            old(self)@.consistent(),
            acyclic(old(self)@.links),
            old(self)@.free.len() == 0,
            old(self)@.in_bounds(to_id),
            old(self)@.rec(to_id).first is None,
            old(self)@.rec(to_id).last is None,
            from@.wf(),
            from@.in_bounds(from_id),
        ensures
            final(self)@.wf(),
            final(self)@.consistent(),
            acyclic(final(self)@.links),
            final(self)@.free.len() == 0,
            ({
                let s = run_starts(
                    from@.links,
                    from_id,
                    traverse_step(from@.links, from_id, NodeEdge::Start(from_id)),
                    2 * from@.len() + 2,
                );
                &&& final(self)@.len() == old(self)@.len() + s.len()
                &&& forall|k: int|
                    0 <= k < s.len() ==> cloned::<T>(
                        from@.data[(#[trigger] s[k]).index as int],
                        final(self)@.data[old(self)@.len() + k],
                    )
            }),
            forall|j: int|
                0 <= j < old(self)@.len() ==> final(self)@.data[j] == old(self)@.data[j],
            forall|j: int|
                0 <= j < old(self)@.len() && j != to_id.index as int ==> final(self)@.links[j]
                    == old(self)@.links[j],
            final(self)@.rec(to_id).parent == old(self)@.rec(to_id).parent,
            final(self)@.rec(to_id).prev == old(self)@.rec(to_id).prev,
            final(self)@.rec(to_id).next == old(self)@.rec(to_id).next,
    {
        let mut walker = from_id.traverse();
        // consume the entering edge of the subtree root itself
        let _ = walker.walk_next(from);
        let ghost len0 = old(self)@.len();
        let ghost lf = from@.links;
        let ghost fuel0 = 2 * from@.len() + 2;
        let ghost st1 = walker.next;
        let ghost s_all = run_starts(lf, from_id, st1, fuel0);
        let mut stack: Vec<NodeId> = Vec::new();
        stack.push(to_id);
        let mut fuel: u128 = 2 * (from.count() as u128) + 2;
        loop
            invariant
                self@.wf(),
                self@.consistent(),
                acyclic(self@.links),
                self@.free.len() == 0,
                len0 == old(self)@.len(),
                lf == from@.links,
                fuel0 == 2 * from@.len() + 2,
                s_all == run_starts(lf, from_id, st1, fuel0),
                to_id.index < len0 <= self@.len(),
                self@.len() - len0 <= s_all.len(),
                s_all =~= s_all.take(self@.len() - len0) + run_starts(
                    lf,
                    from_id,
                    walker.next,
                    fuel as nat,
                ),
                forall|k: int|
                    0 <= k < self@.len() - len0 ==> cloned::<T>(
                        from@.data[(#[trigger] s_all[k]).index as int],
                        self@.data[len0 + k],
                    ),
                forall|j: int| 0 <= j < len0 ==> self@.data[j] == old(self)@.data[j],
                forall|j: int|
                    0 <= j < len0 && j != to_id.index as int ==> self@.links[j] == old(
                        self,
                    )@.links[j],
                self@.rec(to_id).parent == old(self)@.rec(to_id).parent,
                self@.rec(to_id).prev == old(self)@.rec(to_id).prev,
                self@.rec(to_id).next == old(self)@.rec(to_id).next,
                from@.wf(),
                walker.root == from_id,
                crate::walker::edge_ok(walker.next, from@.len()),
                forall|k: int|
                    0 <= k < stack@.len() ==> (#[trigger] stack@[k]).index < self@.len(),
                forall|k: int|
                    0 <= k < stack@.len() ==> (#[trigger] stack@[k]) == to_id || stack@[k].index
                        >= len0,
                forall|k: int|
                    0 <= k < stack@.len() ==> ((self@.rec(#[trigger] stack@[k]).last) matches Some(
                        l,
                    ) ==> l.index >= len0),
            ensures
                self@.len() == len0 + s_all.len(),
            decreases fuel,
        {
            if fuel == 0 {
                break;
            }
            let ghost pre_next = walker.next;
            let ghost pre_fuel = fuel as nat;
            let ghost consumed = self@.len() - len0;
            fuel = fuel - 1;
            match walker.walk_next(from) {
                None => {
                    break;
                },
                Some(NodeEdge::Start(n)) => {
                    proof {
                        assert(run_starts(lf, from_id, pre_next, pre_fuel) =~= seq![n]
                            + run_starts(lf, from_id, walker.next, fuel as nat));
                        assert(s_all[consumed] == n);
                        assert(s_all.take(consumed + 1) =~= s_all.take(consumed).push(n));
                        assert(s_all =~= s_all.take(consumed + 1) + run_starts(
                            lf,
                            from_id,
                            walker.next,
                            fuel as nat,
                        ));
                    }
                    let node_ref = from.get(n).unwrap();
                    let cloned_data = node_ref.data.clone();
                    proof {
                        assert(node_ref.payload() == node_ref.data);
                        assert(cloned::<T>(from@.data[n.index as int], cloned_data));
                    }
                    let ghost lpre = self@.links;
                    let child = self.new_node(cloned_data);
                    proof {
                        assert(lpre.len() < self.nodes.len() <= usize::MAX);
                        crate::model::lemma_push_empty_consistent(lpre);
                        crate::model::lemma_push_empty_acyclic(lpre);
                        assert(self@.consistent());
                        assert(acyclic(self@.links));
                    }
                    if stack.len() > 0 {
                        let top = stack[stack.len() - 1];
                        let ghost lmid = self@.links;
                        top.append(child, self);
                        proof {
                            assert forall|j: int|
                                0 <= j < len0 && j != to_id.index as int implies self@.links[j]
                                == old(self)@.links[j] by {
                                assert(self@.links[j] == crate::model::spec_append(
                                    lmid,
                                    top,
                                    child,
                                )[j]);
                            }
                        }
                        stack.push(child);
                    } else {
                        // no open ancestor is left: keep the copy as a
                        // detached root and carry on from it
                        stack.push(child);
                    }
                    proof {
                        assert(self@.consistent());
                    }
                },
                Some(NodeEdge::End(_)) => {
                    proof {
                        assert(run_starts(lf, from_id, pre_next, pre_fuel) =~= run_starts(
                            lf,
                            from_id,
                            walker.next,
                            fuel as nat,
                        ));
                    }
                    if stack.len() > 0 {
                        let _ = stack.pop();
                    }
                },
            }
        }
    }

    /// Deep-copy the node `id` and its entire descendant subtree into a fresh
    /// store, and return it. The copy of `id` sits at slot zero of the result
    /// as a detached root; the store holds one cloned payload per node the
    /// walk over the source subtree enters, in pre-order, and nothing else.
    pub fn extract_subtree(&self, id: NodeId) -> (t: Tree<T>)
        requires
            self@.wf(),
            self@.in_bounds(id),
        ensures
            t@.wf(),
            t@.consistent(),
            acyclic(t@.links),
            t@.free.len() == 0,
            t@.links[0].parent is None,
            t@.links[0].prev is None,
            t@.links[0].next is None,
            cloned::<T>(self@.data[id.index as int], t@.data[0]),
            ({
                let s = run_starts(
                    self@.links,
                    id,
                    traverse_step(self@.links, id, NodeEdge::Start(id)),
                    2 * self@.len() + 2,
                );
                &&& t@.len() == 1 + s.len()
                &&& forall|k: int|
                    0 <= k < s.len() ==> cloned::<T>(
                        self@.data[(#[trigger] s[k]).index as int],
                        t@.data[1 + k],
                    )
            }),
    {
        let mut new_tree = Tree::new();
        self.extract_subtree_into(id, &mut new_tree);
        new_tree
    }

    /// Deep-copy the node `id` and its entire descendant subtree into `tree`,
    /// as a new detached root there: one fresh slot with a cloned payload per
    /// node the walk over the source subtree enters, in pre-order, and no
    /// pre-existing slot of the destination touched. The destination must not
    /// hold recycled slots, so that the copy only ever occupies fresh slots.
    pub fn extract_subtree_into(&self, id: NodeId, tree: &mut Tree<T>)
        requires
            self@.wf(),
            self@.in_bounds(id),
            old(tree)@.wf(),
            old(tree)@.consistent(),
            acyclic(old(tree)@.links),
            old(tree)@.free.len() == 0,
        ensures
            final(tree)@.wf(),
            final(tree)@.consistent(),
            acyclic(final(tree)@.links),
            final(tree)@.free.len() == 0,
            final(tree)@.len() > old(tree)@.len(),
            forall|j: int|
                0 <= j < old(tree)@.len() ==> final(tree)@.data[j] == old(tree)@.data[j],
            forall|j: int|
                0 <= j < old(tree)@.len() ==> final(tree)@.links[j] == old(tree)@.links[j],
            final(tree)@.links[old(tree)@.len() as int].parent is None,
            final(tree)@.links[old(tree)@.len() as int].prev is None,
            final(tree)@.links[old(tree)@.len() as int].next is None,
            cloned::<T>(self@.data[id.index as int], final(tree)@.data[old(tree)@.len() as int]),
            ({
                let s = run_starts(
                    self@.links,
                    id,
                    traverse_step(self@.links, id, NodeEdge::Start(id)),
                    2 * self@.len() + 2,
                );
                &&& final(tree)@.len() == old(tree)@.len() + 1 + s.len()
                &&& forall|k: int|
                    0 <= k < s.len() ==> cloned::<T>(
                        self@.data[(#[trigger] s[k]).index as int],
                        final(tree)@.data[old(tree)@.len() + 1 + k],
                    )
            }),
    {
        let node_ref = self.get(id).unwrap();
        let new_root_id = tree.new_node(node_ref.data.clone());
        proof {
            assert(old(tree)@.links.len() < tree.nodes.len() <= usize::MAX);
            crate::model::lemma_push_empty_consistent(old(tree)@.links);
            crate::model::lemma_push_empty_acyclic(old(tree)@.links);
        }
        tree.copy_children_from(id, new_root_id, self);
    }
}

} // verus!
