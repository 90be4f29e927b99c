use rpds_pathtree::{
    AncestorTreeNodeIter, InsertOrUpdateNodeValueError, MatchNodePath, MatchedNodePath, NewNodeId,
    NodeValue, PathTree, RootPath, SequentialNodeId, TreeNode,
};
use std::collections::BTreeMap;
use std::sync::Arc;

#[derive(Debug, Clone, Default)]
struct Counter {
    next: u64,
}

impl NewNodeId for Counter {
    fn new_node_id(&mut self) -> u64 {
        let id = self.next;
        self.next += 1;
        id
    }

    fn has_remaining(&self, _count: usize) -> bool {
        true
    }

    fn fork(&self) -> Self {
        self.clone()
    }
}

fn path(segments: &[&str]) -> RootPath {
    RootPath::new(segments.iter().map(|s| s.to_string()).collect()).unwrap()
}

fn insert<G: NewNodeId>(
    tree: &mut PathTree<G>,
    segments: &[&str],
    value: NodeValue,
) -> Arc<TreeNode> {
    tree.insert_or_update_node_value(&path(segments), value, || 0, |_| None)
        .unwrap()
        .child_node
}

/// root(Inner 0) with a/b/c, a/d and e
fn sample() -> PathTree<Counter> {
    let mut tree = PathTree::new(Counter::default(), NodeValue::Inner(0));
    insert(&mut tree, &["a", "b", "c"], NodeValue::Leaf(3));
    insert(&mut tree, &["a", "d"], NodeValue::Leaf(4));
    insert(&mut tree, &["e"], NodeValue::Leaf(5));
    tree
}

/// The values of all nodes by their path, written with slashes.
fn contents<G: NewNodeId>(tree: &PathTree<G>) -> BTreeMap<String, NodeValue> {
    let mut result = BTreeMap::new();
    for node in tree.nodes() {
        let mut segments: Vec<String> = Vec::new();
        if let Some(parent) = &node.parent {
            segments.push(parent.path_segment.clone());
        }
        for edge in tree.ancestor_nodes(node) {
            if let Some(parent) = &edge.node.parent {
                segments.push(parent.path_segment.clone());
            }
        }
        segments.reverse();
        result.insert(segments.join("/"), node.node.value());
    }
    result
}

#[test]
fn exactly_one_node_has_no_parent() {
    let tree = sample();
    let orphans: Vec<u64> =
        tree.nodes().iter().filter(|node| node.parent.is_none()).map(|node| node.id).collect();
    assert_eq!(orphans, vec![tree.root_node_id()]);
    for node in tree.nodes() {
        if let Some(parent) = &node.parent {
            let parent_node = tree.lookup_node(parent.node_id).unwrap();
            assert_eq!(parent_node.node.child_id(&parent.path_segment), Some(node.id));
        }
    }
}

#[test]
fn count_is_one_more_than_descendants_of_root() {
    let tree = sample();
    assert_eq!(tree.nodes_count(), 6);
    assert_eq!(tree.nodes_count(), 1 + tree.descendant_nodes_count(tree.root_node()));
    assert_eq!(tree.nodes().len(), 6);
    let a = tree.find_node(&path(&["a"])).unwrap();
    assert_eq!(tree.descendant_nodes_count(a), 3);
    let c = tree.find_node(&path(&["a", "b", "c"])).unwrap();
    assert_eq!(tree.descendant_nodes_count(c), 0);
}

#[test]
fn rename_keeps_the_identifier() {
    let mut tree = PathTree::new(Counter::default(), NodeValue::Inner(0));
    let root = Arc::clone(tree.root_node());
    let inserted = tree
        .insert_or_update_child_node_value(&root, "A", None, NodeValue::Leaf(1))
        .unwrap();
    let parent = inserted.parent_node.unwrap();
    let renamed = tree
        .insert_or_update_child_node_value(&parent, "B", Some("A"), NodeValue::Leaf(2))
        .unwrap();
    assert_eq!(renamed.child_node.id, inserted.child_node.id);
    assert_eq!(renamed.child_node.node.value(), NodeValue::Leaf(2));
    assert_eq!(renamed.child_node.parent.as_ref().unwrap().path_segment, "B");
    assert!(Arc::ptr_eq(renamed.replaced_child_node.as_ref().unwrap(), &inserted.child_node));
    assert_eq!(tree.find_node(&path(&["B"])).unwrap().id, inserted.child_node.id);
    assert!(tree.find_node(&path(&["A"])).is_none());
    assert_eq!(tree.nodes_count(), 2);
    let new_parent = renamed.parent_node.unwrap();
    assert!(tree.contains_node(&new_parent));
    assert_eq!(new_parent.node.child_id("A"), None);
    assert_eq!(new_parent.node.child_id("B"), Some(inserted.child_node.id));
}

#[test]
fn rename_keeps_the_subtree() {
    let mut tree = sample();
    let root = Arc::clone(tree.root_node());
    let a = Arc::clone(tree.find_node(&path(&["a"])).unwrap());
    let renamed = tree
        .insert_or_update_child_node_value(&root, "z", Some("a"), NodeValue::Inner(9))
        .unwrap();
    assert_eq!(renamed.child_node.id, a.id);
    assert_eq!(tree.nodes_count(), 6);
    assert!(tree.find_node(&path(&["a", "b", "c"])).is_none());
    assert_eq!(
        tree.find_node(&path(&["z", "b", "c"])).unwrap().node.value(),
        NodeValue::Leaf(3)
    );
    assert_eq!(tree.find_node(&path(&["z"])).unwrap().node.value(), NodeValue::Inner(9));
}

#[test]
fn old_segment_without_child_inserts() {
    let mut tree = PathTree::new(Counter::default(), NodeValue::Inner(0));
    let root = Arc::clone(tree.root_node());
    let done = tree
        .insert_or_update_child_node_value(&root, "B", Some("A"), NodeValue::Leaf(1))
        .unwrap();
    assert!(done.replaced_child_node.is_none());
    assert_eq!(tree.find_node(&path(&["B"])).unwrap().id, done.child_node.id);
    assert!(tree.find_node(&path(&["A"])).is_none());
}

#[test]
fn clone_is_untouched_by_later_changes() {
    let mut tree = sample();
    let snapshot = tree.clone();
    let before: Vec<Arc<TreeNode>> = tree.nodes().into_iter().cloned().collect();
    insert(&mut tree, &["a", "b", "x"], NodeValue::Leaf(8));
    assert_eq!(tree.nodes_count(), 7);
    assert_eq!(snapshot.nodes_count(), 6);
    for node in &before {
        assert!(snapshot.contains_node(node));
    }
    assert!(snapshot.find_node(&path(&["a", "b", "x"])).is_none());
    // the nodes beside the changed path are shared with the snapshot
    let untouched = [vec!["a", "b", "c"], vec!["a", "d"], vec!["e"], vec!["a"]];
    for segments in &untouched {
        let old = snapshot.find_node(&path(segments)).unwrap();
        let new = tree.find_node(&path(segments)).unwrap();
        assert!(Arc::ptr_eq(old, new));
    }
    // the parent of the new node was replaced
    let old = snapshot.find_node(&path(&["a", "b"])).unwrap();
    let new = tree.find_node(&path(&["a", "b"])).unwrap();
    assert!(!Arc::ptr_eq(old, new));
    assert_eq!(old.id, new.id);
    assert_eq!(old.node.child_id("x"), None);
}

#[test]
fn partial_match_boundary() {
    let mut tree = PathTree::new(Counter::default(), NodeValue::Inner(0));
    let b = insert(&mut tree, &["a", "b"], NodeValue::Inner(2));
    let full = path(&["a", "b", "c"]);
    let resolved = tree.resolve_node_path(&full, MatchNodePath::PartialOrFull).unwrap();
    assert_eq!(
        resolved.matched_path,
        MatchedNodePath::Partial { number_of_matched_segments: 2 }
    );
    assert_eq!(resolved.node.id, b.id);
    assert!(tree.resolve_node_path(&full, MatchNodePath::Full).is_none());
    assert!(tree.find_node(&full).is_none());
    // the same below a leaf
    let mut tree = PathTree::new(Counter::default(), NodeValue::Inner(0));
    insert(&mut tree, &["a", "b"], NodeValue::Leaf(2));
    let resolved = tree.resolve_node_path(&full, MatchNodePath::PartialOrFull).unwrap();
    assert_eq!(
        resolved.matched_path,
        MatchedNodePath::Partial { number_of_matched_segments: 2 }
    );
    // no segment matched: no result, not a partial match of zero segments
    assert!(tree.resolve_node_path(&path(&["x", "y"]), MatchNodePath::PartialOrFull).is_none());
    let resolved = tree.resolve_node_path(&path(&["a", "b"]), MatchNodePath::PartialOrFull).unwrap();
    assert_eq!(resolved.matched_path, MatchedNodePath::Full { number_of_segments: 2 });
}

#[test]
fn ancestors_come_bottom_up() {
    let tree = sample();
    let c = tree.find_node(&path(&["a", "b", "c"])).unwrap();
    let ancestors = tree.ancestor_nodes(c);
    let segments: Vec<&str> = ancestors.iter().map(|edge| edge.path_segment).collect();
    assert_eq!(segments, vec!["c", "b", "a"]);
    let ids: Vec<u64> = ancestors.iter().map(|edge| edge.node.id).collect();
    assert_eq!(
        ids,
        vec![
            tree.find_node(&path(&["a", "b"])).unwrap().id,
            tree.find_node(&path(&["a"])).unwrap().id,
            tree.root_node_id()
        ]
    );
    assert_eq!(tree.ancestor_nodes_count(c), 3);
    assert_eq!(tree.ancestor_nodes_count(tree.root_node()), 0);
    assert!(tree.ancestor_nodes(tree.root_node()).is_empty());
    let mut iter = AncestorTreeNodeIter::new(&tree, c);
    assert_eq!(iter.next().unwrap().path_segment, "c");
    assert_eq!(iter.next().unwrap().path_segment, "b");
    assert_eq!(iter.next().unwrap().node.id, tree.root_node_id());
    assert!(iter.next().is_none());
    assert!(iter.next().is_none());
}

#[test]
fn descendants_come_parent_first() {
    let tree = sample();
    let edges = tree.descendant_nodes(tree.root_node());
    assert_eq!(edges.len(), 5);
    let mut seen = vec![tree.root_node_id()];
    for edge in &edges {
        let node = tree.lookup_node(edge.node_id).unwrap();
        let parent = node.parent.as_ref().unwrap();
        assert_eq!(parent.path_segment, edge.path_segment);
        assert!(seen.contains(&parent.node_id));
        assert!(!seen.contains(&edge.node_id));
        seen.push(edge.node_id);
    }
    let a = tree.find_node(&path(&["a"])).unwrap();
    let mut below_a: Vec<&str> =
        tree.descendant_nodes(a).iter().map(|edge| edge.path_segment).collect();
    below_a.sort();
    assert_eq!(below_a, vec!["b", "c", "d"]);
    let owned = edges[0].to_owned();
    assert_eq!(owned.node_id, edges[0].node_id);
    assert_eq!(owned.path_segment, edges[0].path_segment);
}

#[test]
fn descendants_come_depth_first() {
    let mut tree = sample();
    insert(&mut tree, &["a", "b", "x", "y"], NodeValue::Leaf(6));
    insert(&mut tree, &["a", "q", "z"], NodeValue::Leaf(7));
    insert(&mut tree, &["f", "w"], NodeValue::Leaf(8));
    let edges = tree.descendant_nodes(tree.root_node());
    assert_eq!(edges.len(), 11);
    // the descendants of each node follow it without a gap
    for (i, edge) in edges.iter().enumerate() {
        let node = tree.lookup_node(edge.node_id).unwrap();
        let below = tree.descendant_nodes_count(node);
        for later in &edges[i + 1..i + 1 + below] {
            let later_node = tree.lookup_node(later.node_id).unwrap();
            let ancestors: Vec<u64> =
                tree.ancestor_nodes(later_node).iter().map(|up| up.node.id).collect();
            assert!(ancestors.contains(&edge.node_id));
        }
    }
}

#[test]
fn remove_subtree_splits_the_tree() {
    let mut tree = sample();
    let a = Arc::clone(tree.find_node(&path(&["a"])).unwrap());
    let e = Arc::clone(tree.find_node(&path(&["e"])).unwrap());
    let removed = tree.remove_subtree_by_id(a.id).unwrap();
    assert_eq!(removed.child_path_segment, "a");
    assert_eq!(removed.parent_node.id, tree.root_node_id());
    assert!(tree.contains_node(&removed.parent_node));
    assert_eq!(removed.parent_node.node.child_id("a"), None);
    assert_eq!(removed.parent_node.node.child_id("e"), Some(e.id));
    assert_eq!(tree.nodes_count(), 2);
    assert!(tree.find_node(&path(&["a"])).is_none());
    assert!(tree.lookup_node(a.id).is_none());
    assert!(tree.contains_node(&e));
    let subtree = removed.removed_subtree;
    assert_eq!(subtree.root_node_id(), a.id);
    assert!(subtree.root_node().parent.is_none());
    assert_eq!(subtree.nodes_count(), 4);
    assert_eq!(subtree.nodes_count(), 1 + subtree.descendant_nodes_count(subtree.root_node()));
    assert_eq!(subtree.find_node(&path(&["b", "c"])).unwrap().node.value(), NodeValue::Leaf(3));
    assert_eq!(subtree.find_node(&path(&["d"])).unwrap().node.value(), NodeValue::Leaf(4));
    let expected: BTreeMap<String, NodeValue> = [
        (String::new(), NodeValue::Inner(0)),
        ("b".to_string(), NodeValue::Inner(0)),
        ("b/c".to_string(), NodeValue::Leaf(3)),
        ("d".to_string(), NodeValue::Leaf(4)),
    ]
    .into_iter()
    .collect();
    assert_eq!(contents(&subtree), expected);
}

#[test]
fn remove_root_or_unknown_has_no_effect() {
    let mut tree = sample();
    let before = tree.clone();
    assert!(tree.remove_subtree_by_id(tree.root_node_id()).is_none());
    assert!(tree.remove_subtree_by_id(999).is_none());
    assert_eq!(tree.nodes_count(), 6);
    for node in before.nodes() {
        assert!(tree.contains_node(node));
    }
}

#[test]
fn remove_and_graft_back_gives_the_same_values() {
    let mut tree = sample();
    let expected = contents(&tree);
    let a = Arc::clone(tree.find_node(&path(&["a"])).unwrap());
    let removed = tree.remove_subtree_by_id(a.id).unwrap();
    let old_ids: Vec<u64> = removed.removed_subtree.nodes().iter().map(|node| node.id).collect();
    let new_root_id = tree
        .insert_or_replace_subtree(
            &removed.parent_node,
            &removed.child_path_segment,
            None,
            removed.removed_subtree,
        )
        .unwrap();
    assert_eq!(tree.nodes_count(), 6);
    assert_eq!(contents(&tree), expected);
    assert_eq!(tree.find_node(&path(&["a"])).unwrap().id, new_root_id);
    // the grafted nodes have new identifiers
    for node in tree.descendant_nodes(tree.find_node(&path(&["a"])).unwrap()) {
        assert!(!old_ids.contains(&node.node_id));
    }
    assert!(!old_ids.contains(&new_root_id));
    assert_eq!(tree.nodes_count(), 1 + tree.descendant_nodes_count(tree.root_node()));
}

#[test]
fn graft_replaces_a_childless_node_and_keeps_its_identifier() {
    let mut tree = sample();
    let mut other = PathTree::new(SequentialNodeIdLike::default(), NodeValue::Inner(70));
    insert(&mut other, &["x", "y"], NodeValue::Leaf(71));
    insert(&mut other, &["z"], NodeValue::Leaf(72));
    let e = Arc::clone(tree.find_node(&path(&["e"])).unwrap());
    let root = Arc::clone(tree.root_node());
    let mut donor = PathTree::new(Counter { next: 0 }, NodeValue::Inner(70));
    insert(&mut donor, &["x", "y"], NodeValue::Leaf(71));
    insert(&mut donor, &["z"], NodeValue::Leaf(72));
    let new_root_id = tree.insert_or_replace_subtree(&root, "e", None, donor).unwrap();
    assert_eq!(new_root_id, e.id);
    assert_eq!(tree.nodes_count(), 9);
    assert_eq!(tree.find_node(&path(&["e"])).unwrap().node.value(), NodeValue::Inner(70));
    assert_eq!(tree.find_node(&path(&["e", "x", "y"])).unwrap().node.value(), NodeValue::Leaf(71));
    assert_eq!(tree.find_node(&path(&["e", "z"])).unwrap().node.value(), NodeValue::Leaf(72));
    assert_eq!(tree.find_node(&path(&["a", "d"])).unwrap().node.value(), NodeValue::Leaf(4));
    assert_eq!(other.nodes_count(), 4);
    // every identifier is used once
    let mut ids: Vec<u64> = tree.nodes().iter().map(|node| node.id).collect();
    ids.sort();
    ids.dedup();
    assert_eq!(ids.len(), 9);
}

#[derive(Debug, Clone, Default)]
struct SequentialNodeIdLike {
    next: u64,
}

impl NewNodeId for SequentialNodeIdLike {
    fn new_node_id(&mut self) -> u64 {
        self.next += 1;
        self.next + 1000
    }

    fn has_remaining(&self, _count: usize) -> bool {
        true
    }

    fn fork(&self) -> Self {
        self.clone()
    }
}

#[test]
fn graft_with_rename_moves_the_slot() {
    let mut tree = sample();
    let root = Arc::clone(tree.root_node());
    let e = Arc::clone(tree.find_node(&path(&["e"])).unwrap());
    let mut donor = PathTree::new(Counter::default(), NodeValue::Inner(70));
    insert(&mut donor, &["x"], NodeValue::Leaf(71));
    let new_root_id = tree.insert_or_replace_subtree(&root, "f", Some("e"), donor).unwrap();
    assert_eq!(new_root_id, e.id);
    assert!(tree.find_node(&path(&["e"])).is_none());
    assert_eq!(tree.find_node(&path(&["f", "x"])).unwrap().node.value(), NodeValue::Leaf(71));
    assert_eq!(tree.nodes_count(), 7);
}

#[test]
fn failed_graft_leaves_the_tree_unchanged() {
    let mut tree = sample();
    let before: Vec<Arc<TreeNode>> = tree.nodes().into_iter().cloned().collect();
    let root = Arc::clone(tree.root_node());
    // the slot `a` is taken by a node with children
    let mut donor = PathTree::new(Counter::default(), NodeValue::Leaf(70));
    let err = tree.insert_or_replace_subtree(&root, "a", None, donor.clone()).unwrap_err();
    assert!(matches!(err, InsertOrUpdateNodeValueError::ValueTypeMismatch { .. }));
    assert_eq!(err.into_value(), NodeValue::Leaf(70));
    assert_eq!(tree.nodes_count(), 6);
    for node in &before {
        assert!(tree.contains_node(node));
    }
    // an inner root of the subtree does not help
    donor.update_node_value(&Arc::clone(donor.root_node()), NodeValue::Inner(71)).unwrap();
    insert(&mut donor, &["b"], NodeValue::Leaf(72));
    let err = tree.insert_or_replace_subtree(&root, "a", None, donor.clone()).unwrap_err();
    assert!(matches!(err, InsertOrUpdateNodeValueError::ValueTypeMismatch { .. }));
    assert_eq!(err.into_value(), NodeValue::Inner(71));
    assert_eq!(tree.nodes_count(), 6);
    for node in &before {
        assert!(tree.contains_node(node));
    }
    // the parent is a leaf
    let e = Arc::clone(tree.find_node(&path(&["e"])).unwrap());
    let err = tree.insert_or_replace_subtree(&e, "x", None, donor).unwrap_err();
    match err {
        InsertOrUpdateNodeValueError::PathConflict { conflict, value } => {
            assert!(Arc::ptr_eq(&conflict.parent_node, &e));
            assert_eq!(conflict.child_path_segment, "x");
            assert_eq!(value, NodeValue::Inner(71));
        }
        InsertOrUpdateNodeValueError::ValueTypeMismatch { .. } => panic!("path conflict expected"),
    }
    assert_eq!(tree.nodes_count(), 6);
    for node in &before {
        assert!(tree.contains_node(node));
    }
}

#[test]
fn retain_removes_rejected_nodes_with_their_descendants() {
    // a -> b -> c, where b and c fail the predicate
    let mut tree = PathTree::new(Counter::default(), NodeValue::Inner(0));
    let a = insert(&mut tree, &["a"], NodeValue::Inner(1));
    let b = insert(&mut tree, &["a", "b"], NodeValue::Inner(2));
    let c = insert(&mut tree, &["a", "b", "c"], NodeValue::Leaf(3));
    let (b_id, c_id) = (b.id, c.id);
    tree.retain_nodes(|node| node.id != b_id && node.id != c_id);
    assert_eq!(tree.nodes_count(), 2);
    assert!(tree.lookup_node(b_id).is_none());
    assert!(tree.lookup_node(c_id).is_none());
    let a_now = tree.lookup_node(a.id).unwrap();
    assert_eq!(a_now.node.child_id("b"), None);
    assert_eq!(a_now.node.value(), NodeValue::Inner(1));
    assert_eq!(tree.nodes_count(), 1 + tree.descendant_nodes_count(tree.root_node()));
}

#[test]
fn retain_always_keeps_the_root() {
    let mut tree = sample();
    tree.retain_nodes(|_| false);
    assert_eq!(tree.nodes_count(), 1);
    assert_eq!(tree.root_node().node.value(), NodeValue::Inner(0));
    assert_eq!(tree.root_node().node.child_id("a"), None);
    assert_eq!(tree.root_node().node.child_id("e"), None);
    let mut tree = sample();
    let before: Vec<Arc<TreeNode>> = tree.nodes().into_iter().cloned().collect();
    tree.retain_nodes(|_| true);
    assert_eq!(tree.nodes_count(), 6);
    for node in &before {
        assert!(tree.contains_node(node));
    }
}

#[test]
fn retain_removes_what_hangs_below_a_rejected_node() {
    let mut tree = sample();
    let a_id = tree.find_node(&path(&["a"])).unwrap().id;
    tree.retain_nodes(|node| node.id != a_id);
    let expected: BTreeMap<String, NodeValue> =
        [(String::new(), NodeValue::Inner(0)), ("e".to_string(), NodeValue::Leaf(5))]
            .into_iter()
            .collect();
    assert_eq!(contents(&tree), expected);
}

#[test]
fn contains_node_tells_versions_apart() {
    let mut tree = sample();
    let other = sample();
    let e = Arc::clone(tree.find_node(&path(&["e"])).unwrap());
    assert!(tree.contains_node(&e));
    // an equal node of another tree is not contained
    assert!(!tree.contains_node(other.find_node(&path(&["e"])).unwrap()));
    let root_before = Arc::clone(tree.root_node());
    insert(&mut tree, &["f"], NodeValue::Leaf(6));
    assert!(!tree.contains_node(&root_before));
    assert!(tree.contains_node(&e));
    let library_tree = PathTree::new(SequentialNodeId::new(), NodeValue::Leaf(0));
    assert!(library_tree.contains_node(library_tree.root_node()));
}

fn expect_shape<G: NewNodeId>(tree: &PathTree<G>) {
    assert_eq!(tree.nodes_count(), 1 + tree.descendant_nodes_count(tree.root_node()));
    assert_eq!(tree.nodes().len(), tree.nodes_count());
    for node in tree.nodes() {
        match &node.parent {
            None => assert_eq!(node.id, tree.root_node_id()),
            Some(parent) => {
                let parent_node = tree.lookup_node(parent.node_id).unwrap();
                assert_eq!(parent_node.node.child_id(&parent.path_segment), Some(node.id));
            }
        }
    }
}

#[test]
fn new_child_takes_the_place_of_the_child_under_its_segment() {
    // no child under the old segment, and `a` with its subtree under the new one
    let mut tree = sample();
    let root = Arc::clone(tree.root_node());
    let a = Arc::clone(tree.find_node(&path(&["a"])).unwrap());
    let c = Arc::clone(tree.find_node(&path(&["a", "b", "c"])).unwrap());
    let done = tree
        .insert_or_update_child_node_value(&root, "a", Some("nothing"), NodeValue::Leaf(9))
        .unwrap();
    assert!(done.replaced_child_node.is_none());
    assert_ne!(done.child_node.id, a.id);
    assert_eq!(done.child_node.node.value(), NodeValue::Leaf(9));
    assert_eq!(tree.find_node(&path(&["a"])).unwrap().id, done.child_node.id);
    // the child that sat there has left the tree with everything below it
    assert!(tree.lookup_node(a.id).is_none());
    assert!(tree.lookup_node(c.id).is_none());
    assert!(tree.find_node(&path(&["a", "b"])).is_none());
    assert_eq!(tree.nodes_count(), 3);
    let expected: BTreeMap<String, NodeValue> = [
        (String::new(), NodeValue::Inner(0)),
        ("a".to_string(), NodeValue::Leaf(9)),
        ("e".to_string(), NodeValue::Leaf(5)),
    ]
    .into_iter()
    .collect();
    assert_eq!(contents(&tree), expected);
    expect_shape(&tree);
    let parent = done.parent_node.unwrap();
    assert!(tree.contains_node(&parent));
    assert_eq!(parent.node.child_id("a"), Some(done.child_node.id));
}

#[test]
fn renamed_child_takes_the_place_of_the_child_under_its_segment() {
    let mut tree = sample();
    let root = Arc::clone(tree.root_node());
    let a = Arc::clone(tree.find_node(&path(&["a"])).unwrap());
    let e = Arc::clone(tree.find_node(&path(&["e"])).unwrap());
    // `e` moves to `a`; `a` and what hangs below it give way
    let done = tree
        .insert_or_update_child_node_value(&root, "a", Some("e"), NodeValue::Inner(8))
        .unwrap();
    assert_eq!(done.child_node.id, e.id);
    assert!(Arc::ptr_eq(done.replaced_child_node.as_ref().unwrap(), &e));
    assert_eq!(done.child_node.parent.as_ref().unwrap().path_segment, "a");
    assert!(tree.lookup_node(a.id).is_none());
    assert!(tree.find_node(&path(&["e"])).is_none());
    assert_eq!(tree.find_node(&path(&["a"])).unwrap().id, e.id);
    assert_eq!(tree.nodes_count(), 2);
    expect_shape(&tree);
}

#[test]
fn refused_value_leaves_the_child_under_the_new_segment() {
    let mut tree = sample();
    let before: Vec<Arc<TreeNode>> = tree.nodes().into_iter().cloned().collect();
    let root = Arc::clone(tree.root_node());
    // `a` has children and cannot take a leaf value; `e` under the new
    // segment stays where it is
    let err = tree
        .insert_or_update_child_node_value(&root, "e", Some("a"), NodeValue::Leaf(8))
        .unwrap_err();
    assert!(matches!(err, InsertOrUpdateNodeValueError::ValueTypeMismatch { .. }));
    assert_eq!(err.into_value(), NodeValue::Leaf(8));
    assert_eq!(tree.nodes_count(), 6);
    for node in &before {
        assert!(tree.contains_node(node));
    }
}

#[test]
fn graft_takes_the_place_of_the_child_under_its_segment() {
    let mut tree = sample();
    let root = Arc::clone(tree.root_node());
    let a = Arc::clone(tree.find_node(&path(&["a"])).unwrap());
    let mut donor = PathTree::new(Counter::default(), NodeValue::Inner(70));
    insert(&mut donor, &["x"], NodeValue::Leaf(71));
    // no child under the old segment: the graft is new, and `a` gives way
    let new_root_id = tree.insert_or_replace_subtree(&root, "a", Some("nothing"), donor).unwrap();
    assert_ne!(new_root_id, a.id);
    assert!(tree.lookup_node(a.id).is_none());
    assert!(tree.find_node(&path(&["a", "b"])).is_none());
    assert_eq!(tree.find_node(&path(&["a", "x"])).unwrap().node.value(), NodeValue::Leaf(71));
    assert_eq!(tree.nodes_count(), 4);
    expect_shape(&tree);
    // the child under the old segment is replaced and moves; `a` gives way again
    let root = Arc::clone(tree.root_node());
    let e = Arc::clone(tree.find_node(&path(&["e"])).unwrap());
    let mut donor = PathTree::new(Counter::default(), NodeValue::Inner(80));
    insert(&mut donor, &["y"], NodeValue::Leaf(81));
    let new_root_id = tree.insert_or_replace_subtree(&root, "a", Some("e"), donor).unwrap();
    assert_eq!(new_root_id, e.id);
    assert!(tree.find_node(&path(&["e"])).is_none());
    assert!(tree.find_node(&path(&["a", "x"])).is_none());
    assert_eq!(tree.find_node(&path(&["a", "y"])).unwrap().node.value(), NodeValue::Leaf(81));
    assert_eq!(tree.nodes_count(), 3);
    expect_shape(&tree);
}

#[test]
fn refused_graft_leaves_the_child_under_the_new_segment() {
    let mut tree = sample();
    let before: Vec<Arc<TreeNode>> = tree.nodes().into_iter().cloned().collect();
    let root = Arc::clone(tree.root_node());
    let donor = PathTree::new(Counter::default(), NodeValue::Leaf(70));
    // the slot `a` holds a node with children; `e` under the new segment stays
    let err = tree.insert_or_replace_subtree(&root, "e", Some("a"), donor).unwrap_err();
    assert!(matches!(err, InsertOrUpdateNodeValueError::ValueTypeMismatch { .. }));
    assert_eq!(err.into_value(), NodeValue::Leaf(70));
    assert_eq!(tree.nodes_count(), 6);
    for node in &before {
        assert!(tree.contains_node(node));
    }
}
