use indextree::{NodeId, Tree};

fn children_vec(tree: &Tree<u32>, p: NodeId) -> Vec<NodeId> {
    let mut w = p.children(tree);
    let mut v = Vec::new();
    while let Some(n) = w.walk_next(tree) {
        v.push(n);
    }
    v
}

fn ancestors_vec(tree: &Tree<u32>, n: NodeId) -> Vec<NodeId> {
    let mut w = n.ancestors();
    let mut v = Vec::new();
    while let Some(a) = w.walk_next(tree) {
        v.push(a);
    }
    v
}

type LinkSnapshot = Vec<(
    Option<NodeId>,
    Option<NodeId>,
    Option<NodeId>,
    Option<NodeId>,
    Option<NodeId>,
)>;

fn snapshot(tree: &Tree<u32>) -> (LinkSnapshot, Vec<NodeId>) {
    let mut links = Vec::new();
    for node in tree.iter() {
        links.push((
            node.parent(),
            node.previous_sibling(),
            node.next_sibling(),
            node.first_child(),
            node.last_child(),
        ));
    }
    (links, tree.recycled())
}

/// The five structural invariants, checked over the whole store by brute force.
fn assert_consistent(tree: &Tree<u32>) {
    let n = tree.count();
    let ids: Vec<NodeId> = (0..n).map(NodeId::new).collect();
    for &i in &ids {
        let node = tree.get(i).unwrap();
        if let Some(b) = node.next_sibling() {
            assert_eq!(tree.get(b).unwrap().previous_sibling(), Some(i));
            assert_eq!(tree.get(b).unwrap().parent(), node.parent());
        }
        if let Some(b) = node.previous_sibling() {
            assert_eq!(tree.get(b).unwrap().next_sibling(), Some(i));
            assert_eq!(tree.get(b).unwrap().parent(), node.parent());
        }
        if let Some(c) = node.first_child() {
            assert_eq!(tree.get(c).unwrap().parent(), Some(i));
            assert_eq!(tree.get(c).unwrap().previous_sibling(), None);
        }
        if let Some(c) = node.last_child() {
            assert_eq!(tree.get(c).unwrap().parent(), Some(i));
            assert_eq!(tree.get(c).unwrap().next_sibling(), None);
        }
        assert_eq!(node.first_child().is_none(), node.last_child().is_none());
        if let Some(p) = node.parent() {
            // every child is reachable from its parent's first child
            let mut found = false;
            let mut cur = tree.get(p).unwrap().first_child();
            let mut steps = 0;
            while let Some(c) = cur {
                if c == i {
                    found = true;
                }
                cur = tree.get(c).unwrap().next_sibling();
                steps += 1;
                assert!(steps <= n);
            }
            assert!(found, "child not reachable from parent");
        }
    }
}

#[test]
fn new_tree_is_empty() {
    let tree: Tree<u32> = Tree::new();
    assert!(tree.is_empty());
    assert_eq!(tree.count(), 0);
    assert!(tree.get(NodeId::new(0)).is_none());
}

#[test]
fn end_to_end_scenario() {
    let arena = &mut Tree::new();
    let a = arena.new_node(1);
    let b = arena.new_node(2);
    let c = arena.new_node(3);
    a.append(b, arena);
    a.append(c, arena);
    assert_eq!(children_vec(arena, a), vec![b, c]);
    assert_eq!(ancestors_vec(arena, c), vec![c, a]);
    b.detach(arena);
    assert_eq!(children_vec(arena, a), vec![c]);
    assert_eq!(ancestors_vec(arena, b), vec![b]);
    let before = arena.count();
    a.orphan(arena);
    assert_eq!(arena.count(), before);
    // a and c are now recyclable; only b is still live
    let recycled = arena.recycled();
    assert!(recycled.contains(&a));
    assert!(recycled.contains(&c));
    assert!(!recycled.contains(&b));
    assert_eq!(ancestors_vec(arena, b), vec![b]);
}

#[test]
fn append_ordering() {
    let arena = &mut Tree::new();
    let p = arena.new_node(0);
    let a = arena.new_node(1);
    let b = arena.new_node(2);
    let c = arena.new_node(3);
    p.append(a, arena);
    p.append(b, arena);
    p.append(c, arena);
    assert_eq!(children_vec(arena, p), vec![a, b, c]);
    assert_consistent(arena);
}

#[test]
fn prepend_ordering() {
    let arena = &mut Tree::new();
    let p = arena.new_node(0);
    let a = arena.new_node(1);
    let b = arena.new_node(2);
    let c = arena.new_node(3);
    p.prepend(a, arena);
    p.prepend(b, arena);
    p.prepend(c, arena);
    assert_eq!(children_vec(arena, p), vec![c, b, a]);
    assert_consistent(arena);
}

#[test]
fn insert_after_and_before() {
    let arena = &mut Tree::new();
    let p = arena.new_node(0);
    let a = arena.new_node(1);
    let c = arena.new_node(3);
    let b = arena.new_node(2);
    let front = arena.new_node(4);
    p.append(a, arena);
    p.append(c, arena);
    a.insert_after(b, arena);
    assert_eq!(children_vec(arena, p), vec![a, b, c]);
    a.insert_before(front, arena);
    assert_eq!(children_vec(arena, p), vec![front, a, b, c]);
    assert_consistent(arena);
}

#[test]
fn detach_is_idempotent() {
    let arena = &mut Tree::new();
    let p = arena.new_node(0);
    let x = arena.new_node(1);
    p.append(x, arena);
    x.detach(arena);
    let snap = snapshot(arena);
    x.detach(arena);
    assert_eq!(snapshot(arena), snap);
    assert_consistent(arena);
}

#[test]
fn detach_then_reappend_elsewhere() {
    let arena = &mut Tree::new();
    let p = arena.new_node(0);
    let q = arena.new_node(10);
    let x = arena.new_node(1);
    let y = arena.new_node(2);
    p.append(x, arena);
    p.append(y, arena);
    x.detach(arena);
    q.append(x, arena);
    assert_eq!(children_vec(arena, p), vec![y]);
    assert_eq!(children_vec(arena, q), vec![x]);
    assert_eq!(ancestors_vec(arena, x), vec![x, q]);
    // no dangling link back to the old parent
    assert_eq!(arena.get(x).unwrap().previous_sibling(), None);
    assert_eq!(arena.get(x).unwrap().next_sibling(), None);
    assert_eq!(arena.get(y).unwrap().previous_sibling(), None);
    assert_consistent(arena);
}

#[test]
fn self_reference_is_rejected() {
    let arena = &mut Tree::new();
    let p = arena.new_node(0);
    let x = arena.new_node(1);
    p.append(x, arena);
    let snap = snapshot(arena);
    assert!(!p.try_append(p, arena));
    assert_eq!(snapshot(arena), snap);
    assert!(!x.try_insert_after(x, arena));
    assert_eq!(snapshot(arena), snap);
    assert!(!x.try_insert_before(x, arena));
    assert_eq!(snapshot(arena), snap);
    assert!(!p.try_prepend(p, arena));
    assert_eq!(snapshot(arena), snap);
    assert_consistent(arena);
    // the checked variants still work on distinct nodes
    let y = arena.new_node(2);
    assert!(p.try_append(y, arena));
    assert_eq!(children_vec(arena, p), vec![x, y]);
}

#[test]
fn recycling_reuses_most_recent_slot() {
    let arena = &mut Tree::new();
    let root = arena.new_node(0);
    let x = arena.new_node(1);
    root.append(x, arena);
    let before = arena.count();
    x.orphan(arena);
    assert_eq!(arena.recycled(), vec![x]);
    let y = arena.new_node(7);
    assert_eq!(y, x);
    assert_eq!(arena.count(), before);
    assert_eq!(arena.get(y).unwrap().data, 7);
    assert_eq!(arena.recycled(), vec![]);
}

#[test]
fn recycling_is_a_stack() {
    let arena = &mut Tree::new();
    let a = arena.new_node(1);
    let b = arena.new_node(2);
    a.orphan(arena);
    b.orphan(arena);
    // most recently orphaned first
    assert_eq!(arena.new_node(10), b);
    assert_eq!(arena.new_node(11), a);
    assert_eq!(arena.count(), 2);
}

#[test]
fn orphan_recycles_whole_subtree() {
    let arena = &mut Tree::new();
    let root = arena.new_node(0);
    let kid = arena.new_node(1);
    let grandkid = arena.new_node(2);
    let other = arena.new_node(3);
    root.append(kid, arena);
    kid.append(grandkid, arena);
    root.append(other, arena);
    kid.orphan(arena);
    let recycled = arena.recycled();
    assert_eq!(recycled[0], kid);
    assert!(recycled.contains(&grandkid));
    assert!(!recycled.contains(&root));
    assert!(!recycled.contains(&other));
    assert_eq!(children_vec(arena, root), vec![other]);
}

#[test]
fn get_out_of_range_is_none() {
    let mut tree = Tree::new();
    let a = tree.new_node(5u32);
    assert!(tree.get(NodeId::new(17)).is_none());
    assert!(tree.get(a).is_some());
}

#[test]
fn get_mut_updates_payload_only() {
    let mut tree = Tree::new();
    let a = tree.new_node(5u32);
    let b = tree.new_node(6u32);
    a.append(b, &mut tree);
    *tree.get_mut(b) = 60;
    assert_eq!(tree.get(b).unwrap().data, 60);
    assert_eq!(tree.get(b).unwrap().parent(), Some(a));
}

#[test]
fn set_data_replaces_payload_or_reports_miss() {
    let mut tree = Tree::new();
    let a = tree.new_node(5u32);
    assert_eq!(tree.set_data(a, 50), Some(5));
    assert_eq!(tree.get(a).unwrap().data, 50);
    assert_eq!(tree.set_data(NodeId::new(9), 1), None);
    assert_eq!(tree.count(), 1);
}

#[test]
fn from_parts_round_trips_a_store() {
    let mut tree = Tree::new();
    let p = tree.new_node(1u32);
    let x = tree.new_node(2);
    let y = tree.new_node(3);
    p.append(x, &mut tree);
    p.append(y, &mut tree);
    y.orphan(&mut tree);
    // the plain image of every slot, field for field, plus the free-list
    let records: Vec<_> = tree
        .iter()
        .iter()
        .map(|n| {
            (
                n.parent(),
                n.previous_sibling(),
                n.next_sibling(),
                n.first_child(),
                n.last_child(),
                n.data,
            )
        })
        .collect();
    let rebuilt = Tree::from_parts(records, tree.recycled()).unwrap();
    assert_eq!(rebuilt.count(), tree.count());
    assert_eq!(rebuilt.recycled(), tree.recycled());
    for k in 0..tree.count() {
        let id = NodeId::new(k);
        let a = tree.get(id).unwrap();
        let b = rebuilt.get(id).unwrap();
        assert_eq!(a.data, b.data);
        assert_eq!(a.parent(), b.parent());
        assert_eq!(a.previous_sibling(), b.previous_sibling());
        assert_eq!(a.next_sibling(), b.next_sibling());
        assert_eq!(a.first_child(), b.first_child());
        assert_eq!(a.last_child(), b.last_child());
    }
}

#[test]
fn from_parts_rejects_out_of_range_links() {
    let records = vec![(Some(NodeId::new(5)), None, None, None, None, 1u32)];
    assert!(Tree::from_parts(records, vec![]).is_none());
    let records = vec![(None, None, None, None, None, 1u32)];
    assert!(Tree::from_parts(records, vec![NodeId::new(3)]).is_none());
}

#[test]
fn clear_drops_everything() {
    let mut tree = Tree::new();
    let a = tree.new_node(1u32);
    let b = tree.new_node(2u32);
    a.append(b, &mut tree);
    b.orphan(&mut tree);
    tree.clear();
    assert!(tree.is_empty());
    assert_eq!(tree.recycled(), vec![]);
    assert!(tree.get(a).is_none());
}

#[test]
fn iter_walks_storage_order() {
    let mut tree = Tree::new();
    tree.new_node(1u32);
    tree.new_node(2u32);
    tree.new_node(3u32);
    let payloads: Vec<u32> = tree.iter().iter().map(|n| n.data).collect();
    assert_eq!(payloads, vec![1, 2, 3]);
}

#[test]
fn invariants_hold_under_mixed_operations() {
    let arena = &mut Tree::new();
    let root = arena.new_node(0);
    let mut nodes = Vec::new();
    for k in 1..8u32 {
        let n = arena.new_node(k);
        root.append(n, arena);
        nodes.push(n);
        assert_consistent(arena);
    }
    nodes[2].detach(arena);
    assert_consistent(arena);
    nodes[0].insert_before(nodes[2], arena);
    assert_consistent(arena);
    nodes[4].insert_after(nodes[5], arena);
    assert_consistent(arena);
    nodes[6].prepend(nodes[1], arena);
    assert_consistent(arena);
    nodes[6].orphan(arena);
    assert_consistent(arena);
    // reusing a recycled slot leaves stale links in other recycled slots, so
    // whole-store checks stop here; the live tree stays intact
    let fresh = arena.new_node(99);
    root.append(fresh, arena);
    assert_eq!(arena.get(fresh).unwrap().parent(), Some(root));
    assert_eq!(arena.get(root).unwrap().last_child(), Some(fresh));
}
