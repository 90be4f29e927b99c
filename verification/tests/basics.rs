use rpds_pathtree::{
    InnerNode, InsertOrUpdateNodeValueError, MatchNodePath, MatchedNodePath, NewNodeId, Node,
    NodeValue, PathTree, RootPath, SequentialNodeId, TreeNode, UpdateNodeValueError,
};
use std::sync::Arc;

#[derive(Debug, Clone, Default)]
struct Counter {
    next: u64,
}

impl NewNodeId for Counter {
    fn new_node_id(&mut self) -> u64 {
        let id = self.next;
        self.next += 1;
        id
    }

    fn has_remaining(&self, _count: usize) -> bool {
        true
    }

    fn fork(&self) -> Self {
        self.clone()
    }
}

fn path(segments: &[&str]) -> RootPath {
    RootPath::new(segments.iter().map(|s| s.to_string()).collect()).unwrap()
}

fn insert(tree: &mut PathTree<Counter>, segments: &[&str], value: NodeValue) -> Arc<TreeNode> {
    tree.insert_or_update_node_value(&path(segments), value, || 0, |_| None)
        .unwrap()
        .child_node
}

#[test]
fn new_tree_has_one_node() {
    let tree = PathTree::new(Counter::default(), NodeValue::Leaf(7));
    assert_eq!(tree.nodes_count(), 1);
    assert_eq!(tree.root_node_id(), 0);
    assert!(tree.root_node().parent.is_none());
    assert_eq!(tree.root_node().node.value(), NodeValue::Leaf(7));
    assert_eq!(tree.nodes().len(), 1);
    assert!(tree.lookup_node(0).is_some());
    assert!(tree.lookup_node(1).is_none());
}

#[test]
fn sequential_ids_count_up() {
    let mut ids = SequentialNodeId::new();
    assert!(ids.has_next());
    assert_eq!(ids.new_node_id(), 0);
    assert_eq!(ids.new_node_id(), 1);
    let mut forked = ids.fork();
    assert_eq!(forked.new_node_id(), 2);
    assert_eq!(ids.new_node_id(), 2);
    let mut late = SequentialNodeId::starting_at(u64::MAX - 1);
    assert!(late.has_next());
    assert_eq!(late.new_node_id(), u64::MAX - 1);
    assert!(!late.has_next());
}

#[test]
fn tree_with_library_generator() {
    let mut tree = PathTree::new(SequentialNodeId::starting_at(10), NodeValue::Inner(1));
    assert_eq!(tree.root_node_id(), 10);
    let root = Arc::clone(tree.root_node());
    let done = tree
        .insert_or_update_child_node_value(&root, "a", None, NodeValue::Leaf(2))
        .unwrap();
    assert_eq!(done.child_node.id, 11);
    assert_eq!(tree.nodes_count(), 2);
}

#[test]
fn root_path_resolves_to_root() {
    let tree = PathTree::new(Counter::default(), NodeValue::Inner(1));
    let resolved = tree.resolve_node_path(&RootPath::root(), MatchNodePath::Full).unwrap();
    assert_eq!(resolved.node.id, tree.root_node_id());
    assert_eq!(resolved.matched_path, MatchedNodePath::Full { number_of_segments: 0 });
    let resolved = tree.resolve_node_path(&RootPath::root(), MatchNodePath::PartialOrFull).unwrap();
    assert_eq!(resolved.matched_path, MatchedNodePath::Full { number_of_segments: 0 });
    assert!(tree.find_node(&path(&["a"])).is_none());
    assert!(tree.resolve_node_path(&path(&["a"]), MatchNodePath::PartialOrFull).is_none());
}

#[test]
fn empty_segment_is_no_path() {
    assert!(RootPath::new(vec!["a".to_string(), String::new()]).is_none());
    assert!(RootPath::new(vec![String::new()]).is_none());
    assert!(RootPath::new(Vec::new()).unwrap().is_root());
}

#[test]
fn path_splits_into_parent_and_child() {
    let p = path(&["a", "b", "c"]);
    assert!(!p.is_root());
    assert_eq!(p.len(), 3);
    assert_eq!(p.segment(1), "b");
    assert_eq!(p.segments().len(), 3);
    let (parents, child) = p.parent_child_segments();
    assert_eq!(parents, vec!["a", "b"]);
    assert_eq!(child, Some("c"));
    let root = RootPath::root();
    let (parents, child) = root.parent_child_segments();
    assert!(parents.is_empty());
    assert_eq!(child, None);
    let q = p.clone();
    assert_eq!(q.segment(2), "c");
}

#[test]
fn insert_creates_missing_ancestors() {
    let mut tree = PathTree::new(Counter::default(), NodeValue::Inner(100));
    let done = tree
        .insert_or_update_node_value(&path(&["a", "b", "c"]), NodeValue::Leaf(5), || 42, |_| None)
        .unwrap();
    assert_eq!(tree.nodes_count(), 4);
    assert!(done.replaced_child_node.is_none());
    assert_eq!(done.child_node.node.value(), NodeValue::Leaf(5));
    let parent = done.parent_node.unwrap();
    assert_eq!(parent.node.value(), NodeValue::Inner(42));
    assert_eq!(parent.node.child_id("c"), Some(done.child_node.id));
    let a = tree.find_node(&path(&["a"])).unwrap();
    assert_eq!(a.node.value(), NodeValue::Inner(42));
    assert_eq!(a.parent.as_ref().unwrap().node_id, tree.root_node_id());
    assert_eq!(a.parent.as_ref().unwrap().path_segment, "a");
    let b = tree.find_node(&path(&["a", "b"])).unwrap();
    assert_eq!(b.id, parent.id);
    assert_eq!(b.parent.as_ref().unwrap().node_id, a.id);
    let c = tree.find_node(&path(&["a", "b", "c"])).unwrap();
    assert_eq!(c.id, done.child_node.id);
    assert_eq!(c.parent.as_ref().unwrap().path_segment, "c");
    assert!(tree.contains_node(&done.child_node));
    assert!(tree.contains_node(&parent));
    // the root was replaced by a version that knows the new child
    assert_eq!(tree.root_node().node.value(), NodeValue::Inner(100));
    assert_eq!(tree.root_node().node.child_id("a"), Some(a.id));
    assert_eq!(tree.root_node().node.child_id("b"), None);
}

#[test]
fn insert_at_existing_path_updates() {
    let mut tree = PathTree::new(Counter::default(), NodeValue::Inner(0));
    let first = insert(&mut tree, &["a", "b"], NodeValue::Leaf(1));
    let done = tree
        .insert_or_update_node_value(&path(&["a", "b"]), NodeValue::Leaf(2), || 0, |_| None)
        .unwrap();
    assert_eq!(tree.nodes_count(), 3);
    assert_eq!(done.child_node.id, first.id);
    assert_eq!(done.child_node.node.value(), NodeValue::Leaf(2));
    assert!(Arc::ptr_eq(done.replaced_child_node.as_ref().unwrap(), &first));
    assert!(!tree.contains_node(&first));
    assert!(tree.contains_node(&done.child_node));
}

#[test]
fn insert_at_root_path_updates_root() {
    let mut tree = PathTree::new(Counter::default(), NodeValue::Leaf(1));
    let old_root = Arc::clone(tree.root_node());
    let done = tree
        .insert_or_update_node_value(&RootPath::root(), NodeValue::Inner(2), || 0, |_| None)
        .unwrap();
    assert!(done.parent_node.is_none());
    assert_eq!(done.child_node.id, tree.root_node_id());
    assert_eq!(done.child_node.node.value(), NodeValue::Inner(2));
    assert!(Arc::ptr_eq(done.replaced_child_node.as_ref().unwrap(), &old_root));
    assert_eq!(tree.nodes_count(), 1);
    assert_eq!(tree.root_node().node.value(), NodeValue::Inner(2));
}

#[test]
fn root_with_children_refuses_leaf_value() {
    let mut tree = PathTree::new(Counter::default(), NodeValue::Inner(1));
    insert(&mut tree, &["a"], NodeValue::Leaf(2));
    let err = tree
        .insert_or_update_node_value(&RootPath::root(), NodeValue::Leaf(9), || 0, |_| None)
        .unwrap_err();
    assert!(matches!(err, InsertOrUpdateNodeValueError::ValueTypeMismatch { .. }));
    assert_eq!(err.message(), "value type mismatch");
    assert_eq!(err.into_value(), NodeValue::Leaf(9));
    assert_eq!(tree.nodes_count(), 2);
    assert_eq!(tree.root_node().node.value(), NodeValue::Inner(1));
}

#[test]
fn leaf_on_the_way_is_converted() {
    let mut tree = PathTree::new(Counter::default(), NodeValue::Inner(0));
    let leaf = insert(&mut tree, &["a"], NodeValue::Leaf(7));
    let done = tree
        .insert_or_update_node_value(
            &path(&["a", "b", "c"]),
            NodeValue::Leaf(1),
            || 50,
            |leaf_value| Some(*leaf_value + 1),
        )
        .unwrap();
    assert_eq!(tree.nodes_count(), 4);
    let a = tree.find_node(&path(&["a"])).unwrap();
    assert_eq!(a.id, leaf.id);
    assert_eq!(a.node.value(), NodeValue::Inner(8));
    let b = tree.find_node(&path(&["a", "b"])).unwrap();
    assert_eq!(b.node.value(), NodeValue::Inner(50));
    assert_eq!(done.parent_node.unwrap().id, b.id);
}

#[test]
fn leaf_as_direct_parent_is_converted() {
    let mut tree = PathTree::new(Counter::default(), NodeValue::Leaf(3));
    let done = tree
        .insert_or_update_node_value(&path(&["a"]), NodeValue::Leaf(1), || 50, |v| Some(*v * 2))
        .unwrap();
    assert_eq!(tree.root_node().node.value(), NodeValue::Inner(6));
    assert_eq!(done.parent_node.unwrap().id, tree.root_node_id());
    assert_eq!(tree.nodes_count(), 2);
}

#[test]
fn refused_conversion_is_a_path_conflict() {
    let mut tree = PathTree::new(Counter::default(), NodeValue::Inner(0));
    let leaf = insert(&mut tree, &["a"], NodeValue::Leaf(7));
    let before = tree.clone();
    let err = tree
        .insert_or_update_node_value(&path(&["a", "b", "c"]), NodeValue::Leaf(1), || 50, |_| None)
        .unwrap_err();
    match &err {
        InsertOrUpdateNodeValueError::PathConflict { conflict, value } => {
            assert!(Arc::ptr_eq(&conflict.parent_node, &leaf));
            assert_eq!(conflict.child_path_segment, "b");
            assert_eq!(*value, NodeValue::Leaf(1));
        }
        InsertOrUpdateNodeValueError::ValueTypeMismatch { .. } => panic!("path conflict expected"),
    }
    assert_eq!(err.message(), "path conflict");
    assert_eq!(err.into_value(), NodeValue::Leaf(1));
    assert_eq!(tree.nodes_count(), 2);
    for node in before.nodes() {
        assert!(tree.contains_node(node));
    }
}

#[test]
fn refused_conversion_of_direct_parent_names_last_segment() {
    let mut tree = PathTree::new(Counter::default(), NodeValue::Inner(0));
    insert(&mut tree, &["a"], NodeValue::Leaf(7));
    let err = tree
        .insert_or_update_node_value(&path(&["a", "b"]), NodeValue::Leaf(1), || 50, |_| None)
        .unwrap_err();
    match err {
        InsertOrUpdateNodeValueError::PathConflict { conflict, .. } => {
            assert_eq!(conflict.child_path_segment, "b");
            assert_eq!(conflict.parent_node.node.value(), NodeValue::Leaf(7));
        }
        InsertOrUpdateNodeValueError::ValueTypeMismatch { .. } => panic!("path conflict expected"),
    }
}

#[test]
fn create_missing_ancestor_nodes_returns_parent() {
    let mut tree = PathTree::new(Counter::default(), NodeValue::Inner(0));
    let p = path(&["a", "b", "c"]);
    let context = tree.create_missing_ancestor_nodes(&p, || 9, |_| None).unwrap();
    assert_eq!(context.child_path_segment, Some("c"));
    let parent = context.parent_node.unwrap();
    assert_eq!(parent.node.value(), NodeValue::Inner(9));
    assert_eq!(tree.nodes_count(), 3);
    assert_eq!(tree.find_node(&path(&["a", "b"])).unwrap().id, parent.id);
    assert!(tree.find_node(&p).is_none());
    let root = RootPath::root();
    let context = tree.create_missing_ancestor_nodes(&root, || 9, |_| None).unwrap();
    assert!(context.parent_node.is_none());
    assert!(context.child_path_segment.is_none());
    assert_eq!(tree.nodes_count(), 3);
}

#[test]
fn child_of_leaf_parent_is_a_path_conflict() {
    let mut tree = PathTree::new(Counter::default(), NodeValue::Leaf(0));
    let root = Arc::clone(tree.root_node());
    let err = tree
        .insert_or_update_child_node_value(&root, "a", None, NodeValue::Leaf(1))
        .unwrap_err();
    match err {
        InsertOrUpdateNodeValueError::PathConflict { conflict, value } => {
            assert!(Arc::ptr_eq(&conflict.parent_node, &root));
            assert_eq!(conflict.child_path_segment, "a");
            assert_eq!(value, NodeValue::Leaf(1));
        }
        InsertOrUpdateNodeValueError::ValueTypeMismatch { .. } => panic!("path conflict expected"),
    }
    assert_eq!(tree.nodes_count(), 1);
}

#[test]
fn update_node_value_replaces_the_node() {
    let mut tree = PathTree::new(Counter::default(), NodeValue::Inner(0));
    let a = insert(&mut tree, &["a"], NodeValue::Leaf(1));
    let updated = tree.update_node_value(&a, NodeValue::Leaf(1)).unwrap();
    // a new node object even for an equal value
    assert!(!Arc::ptr_eq(&updated, &a));
    assert_eq!(updated.id, a.id);
    assert!(tree.contains_node(&updated));
    assert!(!tree.contains_node(&a));
    assert_eq!(updated.parent.as_ref().unwrap().path_segment, "a");
}

#[test]
fn value_transitions() {
    let mut tree = PathTree::new(Counter::default(), NodeValue::Inner(0));
    // leaf to leaf and leaf to inner
    let a = insert(&mut tree, &["a"], NodeValue::Leaf(1));
    let a = tree.update_node_value(&a, NodeValue::Leaf(2)).unwrap();
    assert_eq!(a.node.value(), NodeValue::Leaf(2));
    let a = tree.update_node_value(&a, NodeValue::Inner(3)).unwrap();
    assert_eq!(a.node.value(), NodeValue::Inner(3));
    assert!(matches!(&a.node, Node::Inner(inner) if !inner.has_children()));
    // childless inner to leaf
    let a = tree.update_node_value(&a, NodeValue::Leaf(4)).unwrap();
    assert_eq!(a.node.value(), NodeValue::Leaf(4));
    // inner with a child: inner value keeps the children, leaf value is refused
    let a = tree.update_node_value(&a, NodeValue::Inner(5)).unwrap();
    let b = tree
        .insert_or_update_child_node_value(&a, "b", None, NodeValue::Leaf(6))
        .unwrap();
    let a = b.parent_node.unwrap();
    let a = tree.update_node_value(&a, NodeValue::Inner(7)).unwrap();
    assert_eq!(a.node.value(), NodeValue::Inner(7));
    assert_eq!(a.node.child_id("b"), Some(b.child_node.id));
    let err = tree.update_node_value(&a, NodeValue::Leaf(8)).unwrap_err();
    assert_eq!(err, UpdateNodeValueError::ValueTypeMismatch { value: NodeValue::Leaf(8) });
    assert_eq!(err.message(), "value type mismatch");
    assert_eq!(err.into_value(), NodeValue::Leaf(8));
    assert!(tree.contains_node(&a));
    assert_eq!(tree.nodes_count(), 3);
}

#[test]
fn try_clone_with_value_follows_the_rule() {
    let leaf = TreeNode { id: 4, parent: None, node: Node::from_value(NodeValue::Leaf(1)) };
    let inner = leaf.try_clone_with_value(NodeValue::Inner(2)).unwrap();
    assert_eq!(inner.id, 4);
    assert!(inner.parent.is_none());
    assert_eq!(inner.node.value(), NodeValue::Inner(2));
    let leaf_again = inner.try_clone_with_value(NodeValue::Leaf(3)).unwrap();
    assert_eq!(leaf_again.node.value(), NodeValue::Leaf(3));
    let copy = leaf_again.clone();
    assert_eq!(copy.id, 4);
    assert_eq!(copy.node.value(), NodeValue::Leaf(3));
    let empty = InnerNode::new(9);
    assert!(!empty.has_children());
    assert_eq!(empty.child_id("x"), None);
    assert!(empty.child_edges().is_empty());
}

#[test]
fn into_value_hands_the_value_back() {
    let err = InsertOrUpdateNodeValueError::from(UpdateNodeValueError::ValueTypeMismatch {
        value: NodeValue::Inner(3),
    });
    assert!(matches!(err, InsertOrUpdateNodeValueError::ValueTypeMismatch { .. }));
    assert_eq!(err.into_value(), NodeValue::Inner(3));
}
