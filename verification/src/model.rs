//! The mathematical model of the tree: the link record of a slot, the view of
//! a whole store, the structural invariant, and the functional specifications
//! of every structural mutation.

use vstd::prelude::*;
use crate::NodeId;

verus! {

/// The five links of one slot, as the specification sees them.
#[verifier::ext_equal]
pub ghost struct LinkRec {
    pub parent: Option<NodeId>,
    pub prev: Option<NodeId>,
    pub next: Option<NodeId>,
    pub first: Option<NodeId>,
    pub last: Option<NodeId>,
}

impl LinkRec {
    /// The record of a freshly allocated, fully detached slot.
    pub open spec fn empty() -> LinkRec {
        LinkRec { parent: None, prev: None, next: None, first: None, last: None }
    }
}

/// The abstract state of a whole `Tree`: the link record and payload of each
/// slot in storage order, and the free-list of recyclable identifiers
/// (oldest first; reuse pops from the back).
#[verifier::ext_equal]
pub ghost struct TreeView<T> {
    pub links: Seq<LinkRec>,
    pub data: Seq<T>,
    pub free: Seq<NodeId>,
}

pub open spec fn id_ok(x: Option<NodeId>, n: nat) -> bool {
    x matches Some(i) ==> i.index < n
}

pub open spec fn rec_ok(r: LinkRec, n: nat) -> bool {
    id_ok(r.parent, n) && id_ok(r.prev, n) && id_ok(r.next, n) && id_ok(r.first, n) && id_ok(
        r.last,
        n,
    )
}

/// Every identifier stored in any link record of `L` is within bounds.
pub open spec fn links_wf(L: Seq<LinkRec>) -> bool {
    forall|j: int| 0 <= j < L.len() ==> rec_ok(#[trigger] L[j], L.len())
}

impl<T> TreeView<T> {
    pub open spec fn len(self) -> nat {
        self.links.len()
    }

    /// Basic well-formedness: the payload sequence runs parallel to the link
    /// sequence, and every stored identifier is within bounds.
    pub open spec fn wf(self) -> bool {
        &&& self.data.len() == self.links.len()
        &&& links_wf(self.links)
        &&& forall|k: int| 0 <= k < self.free.len() ==> (#[trigger] self.free[k]).index
            < self.links.len()
    }

    /// No two entries of the free-list name the same slot, so successive
    /// allocations never hand out aliasing identifiers.
    pub open spec fn free_distinct(self) -> bool {
        forall|k1: int, k2: int|
            0 <= k1 < k2 < self.free.len() ==> #[trigger] self.free[k1] != #[trigger] self.free[k2]
    }

    pub open spec fn in_bounds(self, id: NodeId) -> bool {
        id.index < self.links.len()
    }

    pub open spec fn rec(self, id: NodeId) -> LinkRec {
        self.links[id.index as int]
    }
}

/// The local structural invariant of the doubly-linked topology, stated for
/// every in-bounds slot `i` of `L`:
/// no slot links to itself; sibling links are symmetric; siblings share their
/// parent; a first child has no previous sibling and names its parent, and
/// symmetrically for a last child; a child without a previous sibling is its
/// parent's first child, one without a next sibling its parent's last child;
/// and a slot has a first child exactly when it has a last child.
pub open spec fn consistent_at(L: Seq<LinkRec>, i: int) -> bool {
    let r = L[i];
    let me = NodeId { index: i as usize };
    &&& r.parent != Some(me) && r.prev != Some(me) && r.next != Some(me) && r.first != Some(me)
        && r.last != Some(me)
    &&& r.next matches Some(b) ==> L[b.index as int].prev == Some(me) && L[b.index as int].parent
        == r.parent
    &&& r.prev matches Some(b) ==> L[b.index as int].next == Some(me) && L[b.index as int].parent
        == r.parent
    &&& r.first matches Some(c) ==> L[c.index as int].parent == Some(me) && L[c.index as int].prev
        is None
    &&& r.last matches Some(c) ==> L[c.index as int].parent == Some(me) && L[c.index as int].next
        is None
    &&& r.parent matches Some(p) ==> {
        &&& r.prev is None ==> L[p.index as int].first == Some(me)
        &&& r.next is None ==> L[p.index as int].last == Some(me)
    }
    &&& (r.first is None <==> r.last is None)
}

pub open spec fn links_consistent(L: Seq<LinkRec>) -> bool {
    forall|i: int| 0 <= i < L.len() ==> #[trigger] consistent_at(L, i)
}

impl<T> TreeView<T> {
    /// The structural invariant of a whole store.
    pub open spec fn consistent(self) -> bool {
        links_consistent(self.links)
    }
}

/// The link state after detaching `id` from its parent and siblings:
/// `id` keeps its children but loses parent and sibling links; its former
/// neighbours and — at the boundaries — its former parent are re-joined
/// around the gap; every other slot is untouched.
pub open spec fn spec_detach(L: Seq<LinkRec>, id: NodeId) -> Seq<LinkRec> {
    let r = L[id.index as int];
    Seq::new(
        L.len(),
        |j: int|
            {
                let o = L[j];
                let jid = NodeId { index: j as usize };
                if j == id.index as int {
                    LinkRec { parent: None, prev: None, next: None, first: o.first, last: o.last }
                } else {
                    LinkRec {
                        parent: o.parent,
                        prev: if r.next == Some(jid) {
                            r.prev
                        } else {
                            o.prev
                        },
                        next: if r.prev == Some(jid) {
                            r.next
                        } else {
                            o.next
                        },
                        first: if r.parent == Some(jid) && r.prev is None {
                            r.next
                        } else {
                            o.first
                        },
                        last: if r.parent == Some(jid) && r.next is None {
                            r.prev
                        } else {
                            o.last
                        },
                    }
                }
            },
    )
}

/// The link state after hanging the detached node `c` behind the existing
/// children of `p`: `c` names `p` as parent and the former last child as
/// previous sibling; `p`'s last-child link (and, if `p` was childless, its
/// first-child link) move to `c`; the former last child gains `c` as next
/// sibling. Meaningful when `L[c]` is detached, as `spec_append` arranges.
pub open spec fn spec_attach_last(L: Seq<LinkRec>, p: NodeId, c: NodeId) -> Seq<LinkRec> {
    let old_last = L[p.index as int].last;
    Seq::new(
        L.len(),
        |j: int|
            {
                let o = L[j];
                let jid = NodeId { index: j as usize };
                if j == c.index as int {
                    LinkRec { parent: Some(p), prev: old_last, next: None, first: o.first, last: o.last }
                } else {
                    LinkRec {
                        parent: o.parent,
                        prev: o.prev,
                        next: if old_last == Some(jid) {
                            Some(c)
                        } else {
                            o.next
                        },
                        first: if j == p.index as int && old_last is None {
                            Some(c)
                        } else {
                            o.first
                        },
                        last: if j == p.index as int {
                            Some(c)
                        } else {
                            o.last
                        },
                    }
                }
            },
    )
}

/// As `spec_attach_last`, mirrored to the front of `p`'s child list.
pub open spec fn spec_attach_first(L: Seq<LinkRec>, p: NodeId, c: NodeId) -> Seq<LinkRec> {
    let old_first = L[p.index as int].first;
    Seq::new(
        L.len(),
        |j: int|
            {
                let o = L[j];
                let jid = NodeId { index: j as usize };
                if j == c.index as int {
                    LinkRec { parent: Some(p), prev: None, next: old_first, first: o.first, last: o.last }
                } else {
                    LinkRec {
                        parent: o.parent,
                        next: o.next,
                        prev: if old_first == Some(jid) {
                            Some(c)
                        } else {
                            o.prev
                        },
                        last: if j == p.index as int && old_first is None {
                            Some(c)
                        } else {
                            o.last
                        },
                        first: if j == p.index as int {
                            Some(c)
                        } else {
                            o.first
                        },
                    }
                }
            },
    )
}

/// The link state after splicing the detached node `s` in directly after
/// `a`: `s` inherits `a`'s parent, sits between `a` and `a`'s former next
/// sibling, and replaces `a` as the parent's last child if `a` was last.
pub open spec fn spec_splice_after(L: Seq<LinkRec>, a: NodeId, s: NodeId) -> Seq<LinkRec> {
    let ra = L[a.index as int];
    Seq::new(
        L.len(),
        |j: int|
            {
                let o = L[j];
                let jid = NodeId { index: j as usize };
                LinkRec {
                    parent: if j == s.index as int {
                        ra.parent
                    } else {
                        o.parent
                    },
                    prev: if j == s.index as int {
                        Some(a)
                    } else if ra.next == Some(jid) {
                        Some(s)
                    } else {
                        o.prev
                    },
                    next: if j == a.index as int {
                        Some(s)
                    } else if j == s.index as int {
                        ra.next
                    } else {
                        o.next
                    },
                    first: o.first,
                    last: if ra.next is None && ra.parent == Some(jid) {
                        Some(s)
                    } else {
                        o.last
                    },
                }
            },
    )
}

/// As `spec_splice_after`, mirrored to the side before the anchor.
pub open spec fn spec_splice_before(L: Seq<LinkRec>, a: NodeId, s: NodeId) -> Seq<LinkRec> {
    let ra = L[a.index as int];
    Seq::new(
        L.len(),
        |j: int|
            {
                let o = L[j];
                let jid = NodeId { index: j as usize };
                LinkRec {
                    parent: if j == s.index as int {
                        ra.parent
                    } else {
                        o.parent
                    },
                    next: if j == s.index as int {
                        Some(a)
                    } else if ra.prev == Some(jid) {
                        Some(s)
                    } else {
                        o.next
                    },
                    prev: if j == a.index as int {
                        Some(s)
                    } else if j == s.index as int {
                        ra.prev
                    } else {
                        o.prev
                    },
                    last: o.last,
                    first: if ra.prev is None && ra.parent == Some(jid) {
                        Some(s)
                    } else {
                        o.first
                    },
                }
            },
    )
}

/// The combined effect of `append`: first detach the child, then hang it
/// behind the parent's existing children.
pub open spec fn spec_append(L: Seq<LinkRec>, p: NodeId, c: NodeId) -> Seq<LinkRec> {
    spec_attach_last(spec_detach(L, c), p, c)
}

/// The combined effect of `prepend`.
pub open spec fn spec_prepend(L: Seq<LinkRec>, p: NodeId, c: NodeId) -> Seq<LinkRec> {
    spec_attach_first(spec_detach(L, c), p, c)
}

/// The combined effect of `insert_after`.
pub open spec fn spec_insert_after(L: Seq<LinkRec>, a: NodeId, s: NodeId) -> Seq<LinkRec> {
    spec_splice_after(spec_detach(L, s), a, s)
}

/// The combined effect of `insert_before`.
pub open spec fn spec_insert_before(L: Seq<LinkRec>, a: NodeId, s: NodeId) -> Seq<LinkRec> {
    spec_splice_before(spec_detach(L, s), a, s)
}

/// The slot `id` hangs nowhere: no parent and no siblings.
pub open spec fn detached_at(L: Seq<LinkRec>, id: NodeId) -> bool {
    L[id.index as int].parent is None && L[id.index as int].prev is None && L[id.index as int].next
        is None
}

/// The slot `id` is not one half of a sibling pair that closes on itself.
/// `lemma_acyclic_no_two_cycle` derives this from `acyclic`.
pub open spec fn no_sibling_two_cycle_at(L: Seq<LinkRec>, id: NodeId) -> bool {
    L[id.index as int].next is Some ==> L[id.index as int].next != L[id.index as int].prev
}

/// The map `rank` certifies that following next-sibling links strictly
/// climbs: no walk along them can return to where it started.
pub open spec fn rank_ok(L: Seq<LinkRec>, rank: Map<int, nat>) -> bool {
    forall|i: int|
        0 <= i < L.len() ==> ((#[trigger] L[i]).next matches Some(b) ==> rank[b.index as int]
            > rank[i])
}

/// The sibling chains of `L` are free of cycles: some rank certificate
/// orders them. Every operation preserves this, so together with
/// `links_consistent` it holds of every reachable store.
pub open spec fn acyclic(L: Seq<LinkRec>) -> bool {
    exists|rank: Map<int, nat>| rank_ok(L, rank)
}

/// An acyclic store has no sibling pair that closes on itself.
pub proof fn lemma_acyclic_no_two_cycle(L: Seq<LinkRec>, id: NodeId)
    requires
        links_wf(L),
        links_consistent(L),
        acyclic(L),
        id.index < L.len(),
    ensures
        no_sibling_two_cycle_at(L, id),
{
    let rank = choose|rank: Map<int, nat>| rank_ok(L, rank);
    if L[id.index as int].next is Some && L[id.index as int].next == L[id.index as int].prev {
        let b = L[id.index as int].next.unwrap();
        assert(consistent_at(L, id.index as int));
        assert(rank[b.index as int] > rank[id.index as int]);
        assert(L[b.index as int].next == Some(id));
        assert(rank[id.index as int] > rank[b.index as int]);
    }
}

/// The empty store is acyclic.
pub proof fn lemma_acyclic_empty()
    ensures
        acyclic(Seq::<LinkRec>::empty()),
{
    let rank = Map::<int, nat>::total(|i: int| 0nat);
    assert(rank_ok(Seq::<LinkRec>::empty(), rank));
}

/// A fresh detached slot at the end of the store keeps it acyclic.
pub proof fn lemma_push_empty_acyclic(L: Seq<LinkRec>)
    requires
        acyclic(L),
    ensures
        acyclic(L.push(LinkRec::empty())),
{
    let rank = choose|rank: Map<int, nat>| rank_ok(L, rank);
    assert(rank_ok(L.push(LinkRec::empty()), rank)) by {
        assert forall|i: int|
            0 <= i < L.len() + 1 implies ((#[trigger] L.push(LinkRec::empty())[i]).next matches Some(
            b,
        ) ==> rank[b.index as int] > rank[i]) by {
            if i < L.len() {
                assert(L.push(LinkRec::empty())[i] == L[i]);
            }
        }
    }
}

/// Detaching keeps the sibling chains acyclic: the old certificate still
/// orders them, the one new link joining the detached node's neighbours
/// being ordered through the node itself.
pub proof fn lemma_detach_acyclic(L: Seq<LinkRec>, id: NodeId)
    requires
        L.len() <= usize::MAX,
        links_wf(L),
        links_consistent(L),
        acyclic(L),
        id.index < L.len(),
    ensures
        acyclic(spec_detach(L, id)),
{
    let l1 = spec_detach(L, id);
    let rank = choose|rank: Map<int, nat>| rank_ok(L, rank);
    assert(consistent_at(L, id.index as int));
    assert(rank_ok(l1, rank)) by {
        assert forall|i: int|
            0 <= i < l1.len() implies ((#[trigger] l1[i]).next matches Some(b) ==> rank[b.index
            as int] > rank[i]) by {
            if let Some(b) = l1[i].next {
                assert(consistent_at(L, i));
                if i != id.index as int && L[id.index as int].prev == Some(
                    NodeId { index: i as usize },
                ) {
                    assert(L[i].next == Some(id));
                    assert(rank[id.index as int] > rank[i]);
                    assert(rank[b.index as int] > rank[id.index as int]);
                } else {
                    assert(l1[i].next == L[i].next);
                }
            }
        }
    }
}

/// Attaching a detached, unreferenced node as last child keeps the sibling
/// chains acyclic: rank it one above the former last child.
pub proof fn lemma_attach_last_acyclic(L: Seq<LinkRec>, p: NodeId, c: NodeId)
    requires
        L.len() <= usize::MAX,
        links_wf(L),
        links_consistent(L),
        acyclic(L),
        p.index < L.len(),
        c.index < L.len(),
        p != c,
        detached_at(L, c),
    ensures
        acyclic(spec_attach_last(L, p, c)),
{
    let l1 = spec_attach_last(L, p, c);
    let rank = choose|rank: Map<int, nat>| rank_ok(L, rank);
    let base: nat = if L[p.index as int].last is Some {
        rank[L[p.index as int].last.unwrap().index as int] + 1
    } else {
        0
    };
    let rank2 = Map::<int, nat>::total(
        |x: int|
            if x == c.index as int {
                base as nat
            } else {
                rank[x]
            },
    );
    assert(consistent_at(L, p.index as int));
    assert(rank_ok(l1, rank2)) by {
        assert forall|i: int|
            0 <= i < l1.len() implies ((#[trigger] l1[i]).next matches Some(b) ==> rank2[b.index
            as int] > rank2[i]) by {
            if let Some(b) = l1[i].next {
                assert(consistent_at(L, i));
                if i == c.index as int {
                    assert(false);
                } else if L[p.index as int].last == Some(NodeId { index: i as usize }) {
                    assert(b == c);
                } else {
                    assert(l1[i].next == L[i].next);
                    assert(b != c);
                }
            }
        }
    }
}

/// Attaching a detached, unreferenced node as first child keeps the sibling
/// chains acyclic: shift every rank up and give the new node rank zero.
pub proof fn lemma_attach_first_acyclic(L: Seq<LinkRec>, p: NodeId, c: NodeId)
    requires
        L.len() <= usize::MAX,
        links_wf(L),
        links_consistent(L),
        acyclic(L),
        p.index < L.len(),
        c.index < L.len(),
        p != c,
        detached_at(L, c),
    ensures
        acyclic(spec_attach_first(L, p, c)),
{
    let l1 = spec_attach_first(L, p, c);
    let rank = choose|rank: Map<int, nat>| rank_ok(L, rank);
    let rank2 = Map::<int, nat>::total(
        |x: int|
            if x == c.index as int {
                0nat
            } else {
                (rank[x] + 1) as nat
            },
    );
    assert(consistent_at(L, p.index as int));
    assert(consistent_at(L, c.index as int));
    assert(rank_ok(l1, rank2)) by {
        assert forall|i: int|
            0 <= i < l1.len() implies ((#[trigger] l1[i]).next matches Some(b) ==> rank2[b.index
            as int] > rank2[i]) by {
            if let Some(b) = l1[i].next {
                assert(consistent_at(L, i));
                if i == c.index as int {
                    assert(b != c);
                } else {
                    assert(l1[i].next == L[i].next);
                    assert(b != c);
                }
            }
        }
    }
}

/// Splicing a detached, unreferenced node in after an anchor keeps the
/// sibling chains acyclic: double every rank and slot the new node between
/// the anchor and its former next sibling.
pub proof fn lemma_splice_after_acyclic(L: Seq<LinkRec>, a: NodeId, s: NodeId)
    requires
        L.len() <= usize::MAX,
        links_wf(L),
        links_consistent(L),
        acyclic(L),
        a.index < L.len(),
        s.index < L.len(),
        a != s,
        detached_at(L, s),
    ensures
        acyclic(spec_splice_after(L, a, s)),
{
    let l1 = spec_splice_after(L, a, s);
    let rank = choose|rank: Map<int, nat>| rank_ok(L, rank);
    let rank2 = Map::<int, nat>::total(
        |x: int|
            if x == s.index as int {
                (2 * rank[a.index as int] + 1) as nat
            } else {
                (2 * rank[x]) as nat
            },
    );
    assert(consistent_at(L, a.index as int));
    assert(consistent_at(L, s.index as int));
    assert(rank_ok(l1, rank2)) by {
        assert forall|i: int|
            0 <= i < l1.len() implies ((#[trigger] l1[i]).next matches Some(b) ==> rank2[b.index
            as int] > rank2[i]) by {
            if let Some(b) = l1[i].next {
                assert(consistent_at(L, i));
                if i == s.index as int {
                    assert(b.index as int != s.index as int);
                    if L[a.index as int].next is Some {
                        assert(rank[L[a.index as int].next.unwrap().index as int] > rank[a.index
                            as int]);
                    }
                } else if i == a.index as int {
                    assert(b == s);
                } else {
                    assert(l1[i].next == L[i].next);
                    assert(b != s);
                }
            }
        }
    }
}

/// Splicing a detached, unreferenced node in before an anchor keeps the
/// sibling chains acyclic: double every rank, shift up, and slot the new
/// node between the anchor's former previous sibling and the anchor.
pub proof fn lemma_splice_before_acyclic(L: Seq<LinkRec>, a: NodeId, s: NodeId)
    requires
        L.len() <= usize::MAX,
        links_wf(L),
        links_consistent(L),
        acyclic(L),
        a.index < L.len(),
        s.index < L.len(),
        a != s,
        detached_at(L, s),
    ensures
        acyclic(spec_splice_before(L, a, s)),
{
    let l1 = spec_splice_before(L, a, s);
    let rank = choose|rank: Map<int, nat>| rank_ok(L, rank);
    let rank2 = Map::<int, nat>::total(
        |x: int|
            if x == s.index as int {
                (2 * rank[a.index as int] + 1) as nat
            } else {
                (2 * rank[x] + 2) as nat
            },
    );
    assert(consistent_at(L, a.index as int));
    assert(consistent_at(L, s.index as int));
    assert(rank_ok(l1, rank2)) by {
        assert forall|i: int|
            0 <= i < l1.len() implies ((#[trigger] l1[i]).next matches Some(b) ==> rank2[b.index
            as int] > rank2[i]) by {
            if let Some(b) = l1[i].next {
                assert(consistent_at(L, i));
                if i == s.index as int {
                    assert(b == a);
                } else if L[a.index as int].prev == Some(NodeId { index: i as usize }) {
                    assert(b == s);
                    assert(rank[a.index as int] > rank[i]);
                } else {
                    assert(l1[i].next == L[i].next);
                    assert(b != s);
                }
            }
        }
    }
}

/// Detaching preserves the structural invariant.
#[verifier::rlimit(100)]
pub proof fn lemma_detach_consistent(L: Seq<LinkRec>, id: NodeId)
    requires
        L.len() <= usize::MAX,
        links_wf(L),
        links_consistent(L),
        id.index < L.len(),
        no_sibling_two_cycle_at(L, id),
    ensures
        links_wf(spec_detach(L, id)),
        links_consistent(spec_detach(L, id)),
        detached_at(spec_detach(L, id), id),
{
    let l1 = spec_detach(L, id);
    let r = L[id.index as int];
    assert(consistent_at(L, id.index as int));
    assert(rec_ok(r, L.len()));
    assert forall|i: int| 0 <= i < l1.len() implies rec_ok(#[trigger] l1[i], l1.len()) by {
        assert(rec_ok(L[i], L.len()));
    }
    assert forall|i: int| 0 <= i < l1.len() implies consistent_at(l1, i) by {
        assert(consistent_at(L, i));
        assert(rec_ok(L[i], L.len()));
        let o = L[i];
        if let Some(b) = o.next {
            assert(consistent_at(L, b.index as int));
        }
        if let Some(b) = o.prev {
            assert(consistent_at(L, b.index as int));
        }
        if let Some(b) = o.parent {
            assert(consistent_at(L, b.index as int));
        }
        if let Some(b) = o.first {
            assert(consistent_at(L, b.index as int));
        }
        if let Some(b) = o.last {
            assert(consistent_at(L, b.index as int));
        }
        if let Some(b) = r.next {
            assert(consistent_at(L, b.index as int));
        }
        if let Some(b) = r.prev {
            assert(consistent_at(L, b.index as int));
        }
        if let Some(b) = r.parent {
            assert(consistent_at(L, b.index as int));
        }
    }
}

/// After a detach, no slot names the detached node as sibling or as child
/// boundary any more: every link into it from its former surroundings is gone.
#[verifier::rlimit(100)]
pub proof fn lemma_detach_unlinks(L: Seq<LinkRec>, id: NodeId)
    requires
        L.len() <= usize::MAX,
        links_wf(L),
        links_consistent(L),
        id.index < L.len(),
    ensures
        forall|j: int|
            0 <= j < L.len() && j != id.index as int ==> {
                let o = #[trigger] spec_detach(L, id)[j];
                o.next != Some(id) && o.prev != Some(id) && o.first != Some(id) && o.last != Some(
                    id,
                )
            },
{
    let l1 = spec_detach(L, id);
    let r = L[id.index as int];
    assert(consistent_at(L, id.index as int));
    assert forall|j: int|
        0 <= j < L.len() && j != id.index as int implies {
            let o = #[trigger] l1[j];
            o.next != Some(id) && o.prev != Some(id) && o.first != Some(id) && o.last != Some(id)
        } by {
        assert(consistent_at(L, j));
        if let Some(b) = r.next {
            assert(consistent_at(L, b.index as int));
        }
        if let Some(b) = r.prev {
            assert(consistent_at(L, b.index as int));
        }
        if let Some(b) = r.parent {
            assert(consistent_at(L, b.index as int));
        }
    }
}

/// Detaching a node that is already detached changes nothing.
pub proof fn lemma_detach_of_detached_is_noop(L: Seq<LinkRec>, id: NodeId)
    requires
        id.index < L.len(),
        detached_at(L, id),
    ensures
        spec_detach(L, id) =~= L,
{
}

/// Attaching a detached node as last child preserves the structural invariant.
#[verifier::rlimit(100)]
pub proof fn lemma_attach_last_consistent(L: Seq<LinkRec>, p: NodeId, c: NodeId)
    requires
        L.len() <= usize::MAX,
        links_wf(L),
        links_consistent(L),
        p.index < L.len(),
        c.index < L.len(),
        p != c,
        detached_at(L, c),
    ensures
        links_wf(spec_attach_last(L, p, c)),
        links_consistent(spec_attach_last(L, p, c)),
{
    let l1 = spec_attach_last(L, p, c);
    assert(consistent_at(L, p.index as int));
    assert(consistent_at(L, c.index as int));
    assert forall|i: int| 0 <= i < l1.len() implies rec_ok(#[trigger] l1[i], l1.len()) by {
        assert(rec_ok(L[i], L.len()));
        assert(rec_ok(L[p.index as int], L.len()));
    }
    assert forall|i: int| 0 <= i < l1.len() implies consistent_at(l1, i) by {
        assert(consistent_at(L, i));
        assert(rec_ok(L[i], L.len()));
        let o = L[i];
        if let Some(b) = o.next {
            assert(consistent_at(L, b.index as int));
        }
        if let Some(b) = o.prev {
            assert(consistent_at(L, b.index as int));
        }
        if let Some(b) = o.parent {
            assert(consistent_at(L, b.index as int));
        }
        if let Some(b) = o.first {
            assert(consistent_at(L, b.index as int));
        }
        if let Some(b) = o.last {
            assert(consistent_at(L, b.index as int));
        }
        if let Some(b) = L[p.index as int].last {
            assert(consistent_at(L, b.index as int));
        }
        if let Some(b) = L[p.index as int].first {
            assert(consistent_at(L, b.index as int));
        }
    }
}

/// Attaching a detached node as first child preserves the structural invariant.
#[verifier::rlimit(100)]
pub proof fn lemma_attach_first_consistent(L: Seq<LinkRec>, p: NodeId, c: NodeId)
    requires
        L.len() <= usize::MAX,
        links_wf(L),
        links_consistent(L),
        p.index < L.len(),
        c.index < L.len(),
        p != c,
        detached_at(L, c),
    ensures
        links_wf(spec_attach_first(L, p, c)),
        links_consistent(spec_attach_first(L, p, c)),
{
    let l1 = spec_attach_first(L, p, c);
    assert(consistent_at(L, p.index as int));
    assert(consistent_at(L, c.index as int));
    assert forall|i: int| 0 <= i < l1.len() implies rec_ok(#[trigger] l1[i], l1.len()) by {
        assert(rec_ok(L[i], L.len()));
        assert(rec_ok(L[p.index as int], L.len()));
    }
    assert forall|i: int| 0 <= i < l1.len() implies consistent_at(l1, i) by {
        assert(consistent_at(L, i));
        assert(rec_ok(L[i], L.len()));
        let o = L[i];
        if let Some(b) = o.next {
            assert(consistent_at(L, b.index as int));
        }
        if let Some(b) = o.prev {
            assert(consistent_at(L, b.index as int));
        }
        if let Some(b) = o.parent {
            assert(consistent_at(L, b.index as int));
        }
        if let Some(b) = o.first {
            assert(consistent_at(L, b.index as int));
        }
        if let Some(b) = o.last {
            assert(consistent_at(L, b.index as int));
        }
        if let Some(b) = L[p.index as int].last {
            assert(consistent_at(L, b.index as int));
        }
        if let Some(b) = L[p.index as int].first {
            assert(consistent_at(L, b.index as int));
        }
    }
}

/// Splicing a detached node in after an anchor preserves the structural
/// invariant.
#[verifier::rlimit(100)]
pub proof fn lemma_splice_after_consistent(L: Seq<LinkRec>, a: NodeId, s: NodeId)
    requires
        L.len() <= usize::MAX,
        links_wf(L),
        links_consistent(L),
        a.index < L.len(),
        s.index < L.len(),
        a != s,
        detached_at(L, s),
        L[a.index as int].parent != Some(s),
    ensures
        links_wf(spec_splice_after(L, a, s)),
        links_consistent(spec_splice_after(L, a, s)),
{
    let l1 = spec_splice_after(L, a, s);
    assert(consistent_at(L, a.index as int));
    assert(consistent_at(L, s.index as int));
    assert forall|i: int| 0 <= i < l1.len() implies rec_ok(#[trigger] l1[i], l1.len()) by {
        assert(rec_ok(L[i], L.len()));
        assert(rec_ok(L[a.index as int], L.len()));
    }
    assert forall|i: int| 0 <= i < l1.len() implies consistent_at(l1, i) by {
        assert(consistent_at(L, i));
        assert(rec_ok(L[i], L.len()));
        let o = L[i];
        if let Some(b) = o.next {
            assert(consistent_at(L, b.index as int));
        }
        if let Some(b) = o.prev {
            assert(consistent_at(L, b.index as int));
        }
        if let Some(b) = o.parent {
            assert(consistent_at(L, b.index as int));
        }
        if let Some(b) = o.first {
            assert(consistent_at(L, b.index as int));
        }
        if let Some(b) = o.last {
            assert(consistent_at(L, b.index as int));
        }
        if let Some(b) = L[a.index as int].next {
            assert(consistent_at(L, b.index as int));
        }
        if let Some(b) = L[a.index as int].parent {
            assert(consistent_at(L, b.index as int));
        }
    }
}

/// Splicing a detached node in before an anchor preserves the structural
/// invariant.
#[verifier::rlimit(100)]
pub proof fn lemma_splice_before_consistent(L: Seq<LinkRec>, a: NodeId, s: NodeId)
    requires
        L.len() <= usize::MAX,
        links_wf(L),
        links_consistent(L),
        a.index < L.len(),
        s.index < L.len(),
        a != s,
        detached_at(L, s),
        L[a.index as int].parent != Some(s),
    ensures
        links_wf(spec_splice_before(L, a, s)),
        links_consistent(spec_splice_before(L, a, s)),
{
    let l1 = spec_splice_before(L, a, s);
    assert(consistent_at(L, a.index as int));
    assert(consistent_at(L, s.index as int));
    assert forall|i: int| 0 <= i < l1.len() implies rec_ok(#[trigger] l1[i], l1.len()) by {
        assert(rec_ok(L[i], L.len()));
        assert(rec_ok(L[a.index as int], L.len()));
    }
    assert forall|i: int| 0 <= i < l1.len() implies consistent_at(l1, i) by {
        assert(consistent_at(L, i));
        assert(rec_ok(L[i], L.len()));
        let o = L[i];
        if let Some(b) = o.next {
            assert(consistent_at(L, b.index as int));
        }
        if let Some(b) = o.prev {
            assert(consistent_at(L, b.index as int));
        }
        if let Some(b) = o.parent {
            assert(consistent_at(L, b.index as int));
        }
        if let Some(b) = o.first {
            assert(consistent_at(L, b.index as int));
        }
        if let Some(b) = o.last {
            assert(consistent_at(L, b.index as int));
        }
        if let Some(b) = L[a.index as int].prev {
            assert(consistent_at(L, b.index as int));
        }
        if let Some(b) = L[a.index as int].parent {
            assert(consistent_at(L, b.index as int));
        }
    }
}

/// The identifiers reachable from `cur` along next-sibling links, cut off
/// after `fuel` steps.
pub open spec fn chain(L: Seq<LinkRec>, cur: Option<NodeId>, fuel: nat) -> Seq<NodeId>
    decreases fuel,
{
    if fuel == 0 {
        Seq::empty()
    } else {
        match cur {
            None => Seq::empty(),
            Some(c) => seq![c] + chain(
                L,
                if c.index < L.len() {
                    L[c.index as int].next
                } else {
                    None
                },
                (fuel - 1) as nat,
            ),
        }
    }
}

/// The child list of `p`: the slots reached from its first child along
/// next-sibling links. The store's size bounds any genuine child list, so the
/// fuel never cuts one short.
pub open spec fn children_of(L: Seq<LinkRec>, p: NodeId) -> Seq<NodeId> {
    chain(L, L[p.index as int].first, L.len())
}

/// Appending detached children in the order `a`, `b`, `c` under a childless
/// parent yields the child list `[a, b, c]`.
pub proof fn lemma_append_ordering(L: Seq<LinkRec>, p: NodeId, a: NodeId, b: NodeId, c: NodeId)
    requires
        L.len() <= usize::MAX,
        links_wf(L),
        links_consistent(L),
        p.index < L.len(),
        a.index < L.len(),
        b.index < L.len(),
        c.index < L.len(),
        p != a && p != b && p != c && a != b && a != c && b != c,
        L[p.index as int].first is None,
        detached_at(L, a),
        detached_at(L, b),
        detached_at(L, c),
    ensures
        children_of(spec_append(spec_append(spec_append(L, p, a), p, b), p, c), p) =~= seq![
            a,
            b,
            c,
        ],
{
    let l1 = spec_append(L, p, a);
    let l2 = spec_append(l1, p, b);
    let l3 = spec_append(l2, p, c);
    lemma_detach_of_detached_is_noop(L, a);
    assert(consistent_at(L, p.index as int));
    assert(l1[b.index as int] == L[b.index as int]);
    assert(l1[c.index as int] == L[c.index as int]);
    lemma_detach_of_detached_is_noop(l1, b);
    assert(l2[c.index as int] == L[c.index as int]);
    lemma_detach_of_detached_is_noop(l2, c);
    let n = L.len();
    assert(l3[p.index as int].first == Some(a));
    assert(l3[a.index as int].next == Some(b));
    assert(l3[b.index as int].next == Some(c));
    assert(l3[c.index as int].next is None);
    assert(n >= 4);
    assert(chain(l3, None, (n - 3) as nat) =~= Seq::<NodeId>::empty());
    assert(chain(l3, Some(c), (n - 2) as nat) =~= seq![c]);
    assert(chain(l3, Some(b), (n - 1) as nat) =~= seq![b, c]);
    assert(chain(l3, Some(a), n) =~= seq![a, b, c]);
}

/// Prepending detached children in the order `a`, `b`, `c` under a childless
/// parent yields the reversed child list `[c, b, a]`.
pub proof fn lemma_prepend_ordering(L: Seq<LinkRec>, p: NodeId, a: NodeId, b: NodeId, c: NodeId)
    requires
        L.len() <= usize::MAX,
        links_wf(L),
        links_consistent(L),
        p.index < L.len(),
        a.index < L.len(),
        b.index < L.len(),
        c.index < L.len(),
        p != a && p != b && p != c && a != b && a != c && b != c,
        L[p.index as int].first is None,
        detached_at(L, a),
        detached_at(L, b),
        detached_at(L, c),
    ensures
        children_of(spec_prepend(spec_prepend(spec_prepend(L, p, a), p, b), p, c), p) =~= seq![
            c,
            b,
            a,
        ],
{
    let l1 = spec_prepend(L, p, a);
    let l2 = spec_prepend(l1, p, b);
    let l3 = spec_prepend(l2, p, c);
    lemma_detach_of_detached_is_noop(L, a);
    assert(consistent_at(L, p.index as int));
    assert(l1[b.index as int] == L[b.index as int]);
    assert(l1[c.index as int] == L[c.index as int]);
    lemma_detach_of_detached_is_noop(l1, b);
    assert(l2[c.index as int] == L[c.index as int]);
    lemma_detach_of_detached_is_noop(l2, c);
    let n = L.len();
    assert(l3[p.index as int].first == Some(c));
    assert(l3[c.index as int].next == Some(b));
    assert(l3[b.index as int].next == Some(a));
    assert(l3[a.index as int].next is None);
    assert(n >= 4);
    assert(chain(l3, None, (n - 3) as nat) =~= Seq::<NodeId>::empty());
    assert(chain(l3, Some(a), (n - 2) as nat) =~= seq![a]);
    assert(chain(l3, Some(b), (n - 1) as nat) =~= seq![b, a]);
    assert(chain(l3, Some(c), n) =~= seq![c, b, a]);
}

/// A fresh, fully detached slot at the end of the store leaves the
/// structural invariant intact: nothing links to it and it links to nothing.
pub proof fn lemma_push_empty_consistent(L: Seq<LinkRec>)
    requires
        L.len() < usize::MAX,
        links_wf(L),
        links_consistent(L),
    ensures
        links_wf(L.push(LinkRec::empty())),
        links_consistent(L.push(LinkRec::empty())),
{
    let l1 = L.push(LinkRec::empty());
    assert forall|i: int| 0 <= i < l1.len() implies rec_ok(#[trigger] l1[i], l1.len()) by {
        if i < L.len() {
            assert(rec_ok(L[i], L.len()));
        }
    }
    assert forall|i: int| 0 <= i < l1.len() implies consistent_at(l1, i) by {
        if i < L.len() {
            assert(consistent_at(L, i));
            assert(rec_ok(L[i], L.len()));
        }
    }
}

/// `append` preserves the structural invariant.
pub proof fn lemma_append_consistent(L: Seq<LinkRec>, p: NodeId, c: NodeId)
    requires
        L.len() <= usize::MAX,
        links_wf(L),
        links_consistent(L),
        p.index < L.len(),
        c.index < L.len(),
        p != c,
        no_sibling_two_cycle_at(L, c),
    ensures
        links_wf(spec_append(L, p, c)),
        links_consistent(spec_append(L, p, c)),
{
    lemma_detach_consistent(L, c);
    lemma_attach_last_consistent(spec_detach(L, c), p, c);
}

/// `prepend` preserves the structural invariant.
pub proof fn lemma_prepend_consistent(L: Seq<LinkRec>, p: NodeId, c: NodeId)
    requires
        L.len() <= usize::MAX,
        links_wf(L),
        links_consistent(L),
        p.index < L.len(),
        c.index < L.len(),
        p != c,
        no_sibling_two_cycle_at(L, c),
    ensures
        links_wf(spec_prepend(L, p, c)),
        links_consistent(spec_prepend(L, p, c)),
{
    lemma_detach_consistent(L, c);
    lemma_attach_first_consistent(spec_detach(L, c), p, c);
}

/// `insert_after` preserves the structural invariant.
pub proof fn lemma_insert_after_consistent(L: Seq<LinkRec>, a: NodeId, s: NodeId)
    requires
        L.len() <= usize::MAX,
        links_wf(L),
        links_consistent(L),
        a.index < L.len(),
        s.index < L.len(),
        a != s,
        no_sibling_two_cycle_at(L, s),
        L[a.index as int].parent != Some(s),
    ensures
        links_wf(spec_insert_after(L, a, s)),
        links_consistent(spec_insert_after(L, a, s)),
{
    lemma_detach_consistent(L, s);
    lemma_splice_after_consistent(spec_detach(L, s), a, s);
}

/// `insert_before` preserves the structural invariant.
pub proof fn lemma_insert_before_consistent(L: Seq<LinkRec>, a: NodeId, s: NodeId)
    requires
        L.len() <= usize::MAX,
        links_wf(L),
        links_consistent(L),
        a.index < L.len(),
        s.index < L.len(),
        a != s,
        no_sibling_two_cycle_at(L, s),
        L[a.index as int].parent != Some(s),
    ensures
        links_wf(spec_insert_before(L, a, s)),
        links_consistent(spec_insert_before(L, a, s)),
{
    lemma_detach_consistent(L, s);
    lemma_splice_before_consistent(spec_detach(L, s), a, s);
}

} // verus!
