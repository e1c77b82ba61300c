use indextree::{NodeEdge, NodeId, Tree};

fn edges_vec(tree: &Tree<u32>, n: NodeId) -> Vec<NodeEdge<NodeId>> {
    let mut w = n.traverse();
    let mut v = Vec::new();
    while let Some(e) = w.walk_next(tree) {
        v.push(e);
    }
    v
}

fn reverse_edges_vec(tree: &Tree<u32>, n: NodeId) -> Vec<NodeEdge<NodeId>> {
    let mut w = n.reverse_traverse();
    let mut v = Vec::new();
    while let Some(e) = w.walk_next(tree) {
        v.push(e);
    }
    v
}

fn descendants_vec(tree: &Tree<u32>, n: NodeId) -> Vec<NodeId> {
    let mut w = n.descendants();
    let mut v = Vec::new();
    while let Some(d) = w.walk_next(tree) {
        v.push(d);
    }
    v
}

fn preorder_payloads(tree: &Tree<u32>, n: NodeId) -> Vec<u32> {
    descendants_vec(tree, n)
        .into_iter()
        .map(|d| tree.get(d).unwrap().data)
        .collect()
}

fn child_count(tree: &Tree<u32>, n: NodeId) -> usize {
    let mut w = n.children(tree);
    let mut count = 0;
    while w.walk_next(tree).is_some() {
        count += 1;
    }
    count
}

/// root(0) -> a(1) -> d(3), root -> b(2); plus a second top-level node e(4).
fn sample() -> (Tree<u32>, NodeId, NodeId, NodeId, NodeId, NodeId) {
    let mut tree = Tree::new();
    let root = tree.new_node(0);
    let a = tree.new_node(1);
    let b = tree.new_node(2);
    let d = tree.new_node(3);
    let e = tree.new_node(4);
    root.append(a, &mut tree);
    root.append(b, &mut tree);
    a.append(d, &mut tree);
    let _ = e;
    (tree, root, a, b, d, e)
}

#[test]
fn traverse_yields_start_end_pairs_in_order() {
    let (tree, root, a, b, d, _) = sample();
    let events = edges_vec(&tree, root);
    assert_eq!(
        events,
        vec![
            NodeEdge::Start(root),
            NodeEdge::Start(a),
            NodeEdge::Start(d),
            NodeEdge::End(d),
            NodeEdge::End(a),
            NodeEdge::Start(b),
            NodeEdge::End(b),
            NodeEdge::End(root),
        ]
    );
}

#[test]
fn traverse_completeness() {
    let (tree, root, a, _, _, e) = sample();
    for n in [root, a, e] {
        let events = edges_vec(&tree, n);
        let descendants = descendants_vec(&tree, n);
        assert_eq!(events.len(), 2 * descendants.len());
        assert_eq!(events.len(), 2 * (1 + (descendants.len() - 1)));
        // every node's entering edge precedes its leaving edge, and between
        // the two lie exactly the events of its own descendants
        for &m in &descendants {
            let start = events
                .iter()
                .position(|x| *x == NodeEdge::Start(m))
                .unwrap();
            let end = events.iter().position(|x| *x == NodeEdge::End(m)).unwrap();
            assert!(start < end);
            for &k in &descendants_vec(&tree, m) {
                let ks = events
                    .iter()
                    .position(|x| *x == NodeEdge::Start(k))
                    .unwrap();
                let ke = events.iter().position(|x| *x == NodeEdge::End(k)).unwrap();
                assert!(start <= ks && ke <= end);
            }
        }
    }
}

#[test]
fn descendants_match_start_edges() {
    let (tree, root, a, _, _, e) = sample();
    for n in [root, a, e] {
        let events = edges_vec(&tree, n);
        let starts: Vec<NodeId> = events
            .iter()
            .filter_map(|ev| match ev {
                NodeEdge::Start(m) => Some(*m),
                NodeEdge::End(_) => None,
            })
            .collect();
        let descendants = descendants_vec(&tree, n);
        assert_eq!(descendants, starts);
        assert_eq!(descendants[0], n);
    }
}

#[test]
fn reverse_traverse_mirrors_traverse() {
    let (tree, root, _, _, _, _) = sample();
    let mut forward = edges_vec(&tree, root);
    forward.reverse();
    assert_eq!(reverse_edges_vec(&tree, root), forward);
}

#[test]
fn sibling_walkers() {
    let mut tree = Tree::new();
    let p = tree.new_node(0u32);
    let a = tree.new_node(1);
    let b = tree.new_node(2);
    let c = tree.new_node(3);
    p.append(a, &mut tree);
    p.append(b, &mut tree);
    p.append(c, &mut tree);

    let mut w = b.following_siblings();
    assert_eq!(w.walk_next(&tree), Some(b));
    assert_eq!(w.walk_next(&tree), Some(c));
    assert_eq!(w.walk_next(&tree), None);

    let mut w = b.preceding_siblings();
    assert_eq!(w.walk_next(&tree), Some(b));
    assert_eq!(w.walk_next(&tree), Some(a));
    assert_eq!(w.walk_next(&tree), None);

    let mut w = p.reverse_children(&tree);
    assert_eq!(w.walk_next(&tree), Some(c));
    assert_eq!(w.walk_next(&tree), Some(b));
    assert_eq!(w.walk_next(&tree), Some(a));
    assert_eq!(w.walk_next(&tree), None);
}

#[test]
fn subtree_copy_fidelity() {
    let (tree, _, a, _, _, _) = sample();
    let copy = tree.extract_subtree(a);
    let copy_root = NodeId::new(0);
    assert_eq!(copy.get(copy_root).unwrap().parent(), None);
    assert_eq!(
        preorder_payloads(&tree, a),
        preorder_payloads(&copy, copy_root)
    );
    // identical shape: matching child counts at every level, in pre-order
    let source_nodes = descendants_vec(&tree, a);
    let copied_nodes = descendants_vec(&copy, copy_root);
    assert_eq!(source_nodes.len(), copied_nodes.len());
    for (o, c) in source_nodes.iter().zip(copied_nodes.iter()) {
        assert_eq!(child_count(&tree, *o), child_count(&copy, *c));
    }
}

#[test]
fn extract_subtree_into_nonempty_destination() {
    let (tree, root, _, _, _, _) = sample();
    let mut dest = Tree::new();
    let existing = dest.new_node(100u32);
    let before = dest.count();
    tree.extract_subtree_into(root, &mut dest);
    assert!(dest.count() > before);
    let new_root = NodeId::new(before);
    assert_eq!(dest.get(new_root).unwrap().parent(), None);
    assert_eq!(dest.get(existing).unwrap().data, 100);
    assert_eq!(
        preorder_payloads(&tree, root),
        preorder_payloads(&dest, new_root)
    );
}

#[test]
fn append_subtree_under_node() {
    let mut from = Tree::new();
    let from_root = from.new_node(10u32);
    let from_kid = from.new_node(11);
    from_root.append(from_kid, &mut from);

    let mut into = Tree::new();
    let mut host = into.new_node(0u32);
    host.append_subtree(&from, &mut into);
    let kids = {
        let mut w = host.children(&into);
        let mut v = Vec::new();
        while let Some(n) = w.walk_next(&into) {
            v.push(n);
        }
        v
    };
    assert_eq!(kids.len(), 1);
    assert_eq!(preorder_payloads(&into, kids[0]), vec![10, 11]);
}

#[test]
fn append_subtree_of_empty_tree_is_noop() {
    let from: Tree<u32> = Tree::new();
    let mut into = Tree::new();
    let mut host = into.new_node(0u32);
    let before = into.count();
    host.append_subtree(&from, &mut into);
    assert_eq!(into.count(), before);
    assert_eq!(child_count(&into, host), 0);
}

#[test]
fn walkers_survive_mid_walk_detach() {
    let (mut tree, root, a, b, d, _) = sample();
    let mut w = root.traverse();
    assert_eq!(w.walk_next(&tree), Some(NodeEdge::Start(root)));
    assert_eq!(w.walk_next(&tree), Some(NodeEdge::Start(a)));
    // mutate underneath the walker: the walk degrades gracefully
    a.detach(&mut tree);
    assert_eq!(w.walk_next(&tree), Some(NodeEdge::Start(d)));
    assert_eq!(w.walk_next(&tree), Some(NodeEdge::End(d)));
    assert_eq!(w.walk_next(&tree), Some(NodeEdge::End(a)));
    // a has no parent any more: the traversal ends early instead of failing
    assert_eq!(w.walk_next(&tree), None);
    let _ = b;
}
