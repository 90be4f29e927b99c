use rpds_pathtree::retain::sort_by_depth;
use rpds_pathtree::{
    share_node, HalfEdge, LeafNode, NewNodeId, Node, NodeValue, PathTree, RootPath,
    SequentialNodeId, TreeNode,
};
use std::sync::Arc;

fn path(segments: &[&str]) -> RootPath {
    RootPath::new(segments.iter().map(|s| s.to_string()).collect()).unwrap()
}

fn insert(
    tree: &mut PathTree<SequentialNodeId>,
    segments: &[&str],
    value: NodeValue,
) -> Arc<TreeNode> {
    tree.insert_or_update_node_value(&path(segments), value, || 0, |_| None)
        .unwrap()
        .child_node
}

#[test]
fn sort_by_depth_is_stable() {
    let sorted = sort_by_depth(vec![(3, 30), (1, 10), (2, 20), (1, 11), (0, 5), (3, 31), (1, 12)]);
    assert_eq!(sorted, vec![(0, 5), (1, 10), (1, 11), (1, 12), (2, 20), (3, 30), (3, 31)]);
    assert!(sort_by_depth(Vec::new()).is_empty());
    assert_eq!(sort_by_depth(vec![(7, 1)]), vec![(7, 1)]);
}

#[test]
fn removed_subtree_continues_the_identifier_lineage() {
    let mut tree = PathTree::new(SequentialNodeId::new(), NodeValue::Inner(0));
    let a = insert(&mut tree, &["a"], NodeValue::Inner(1));
    insert(&mut tree, &["a", "b"], NodeValue::Leaf(2));
    let mut removed = tree.remove_subtree_by_id(a.id).unwrap().removed_subtree;
    // both trees go on from the same point: their new nodes share an identifier
    let in_tree = insert(&mut tree, &["x"], NodeValue::Leaf(3));
    let in_subtree = insert(&mut removed, &["y"], NodeValue::Leaf(4));
    assert_eq!(in_tree.id, 3);
    assert_eq!(in_subtree.id, 3);
    assert_eq!(removed.root_node_id(), a.id);
    assert_eq!(removed.nodes_count(), 3);
    assert_eq!(tree.nodes_count(), 2);
}

#[test]
fn retain_on_a_deep_chain() {
    let mut tree = PathTree::new(SequentialNodeId::new(), NodeValue::Inner(0));
    let segments = ["a", "b", "c", "d", "e", "f", "g"];
    for depth in 1..=segments.len() {
        insert(&mut tree, &segments[..depth], NodeValue::Inner(depth as u64));
    }
    insert(&mut tree, &["a", "side"], NodeValue::Leaf(100));
    assert_eq!(tree.nodes_count(), 9);
    // everything from depth three downwards is rejected
    tree.retain_nodes(|node| match node.node.value() {
        NodeValue::Inner(value) => value < 3,
        NodeValue::Leaf(_) => true,
    });
    assert_eq!(tree.nodes_count(), 4);
    assert!(tree.find_node(&path(&["a", "b"])).is_some());
    assert!(tree.find_node(&path(&["a", "b", "c"])).is_none());
    assert!(tree.find_node(&path(&["a", "side"])).is_some());
    let b = tree.find_node(&path(&["a", "b"])).unwrap();
    assert!(matches!(&b.node, Node::Inner(inner) if !inner.has_children()));
}

#[test]
fn inner_value_on_inner_node_keeps_the_children() {
    let mut tree = PathTree::new(SequentialNodeId::new(), NodeValue::Inner(0));
    let c = insert(&mut tree, &["a", "b", "c"], NodeValue::Leaf(3));
    let done = tree
        .insert_or_update_node_value(&path(&["a", "b"]), NodeValue::Inner(9), || 0, |_| None)
        .unwrap();
    assert_eq!(done.child_node.node.value(), NodeValue::Inner(9));
    assert_eq!(done.child_node.node.child_id("c"), Some(c.id));
    assert_eq!(tree.find_node(&path(&["a", "b", "c"])).unwrap().id, c.id);
    assert_eq!(tree.nodes_count(), 4);
    let err = tree
        .insert_or_update_node_value(&path(&["a", "b"]), NodeValue::Leaf(9), || 0, |_| None)
        .unwrap_err();
    assert_eq!(err.into_value(), NodeValue::Leaf(9));
    assert_eq!(tree.nodes_count(), 4);
}

#[test]
fn descendants_of_a_leaf_are_none() {
    let mut tree = PathTree::new(SequentialNodeId::new(), NodeValue::Inner(0));
    let a = insert(&mut tree, &["a"], NodeValue::Leaf(1));
    assert!(tree.descendant_nodes(&a).is_empty());
    assert_eq!(tree.descendant_nodes_count(&a), 0);
    let single = PathTree::new(SequentialNodeId::new(), NodeValue::Leaf(0));
    assert!(single.descendant_nodes(single.root_node()).is_empty());
}

#[test]
fn handles_share_the_node() {
    let tree = PathTree::new(SequentialNodeId::new(), NodeValue::Leaf(5));
    let root = share_node(tree.root_node());
    assert!(Arc::ptr_eq(&root, tree.root_node()));
    assert!(tree.contains_node(&root));
    let copy = Arc::new(TreeNode::clone(&root));
    assert_eq!(copy.id, root.id);
    assert!(!tree.contains_node(&copy));
}

#[test]
fn small_values_are_built_from_their_parts() {
    let leaf = LeafNode::new(4);
    assert_eq!(leaf.value, 4);
    let node = Node::from_value(NodeValue::Inner(6));
    assert_eq!(node.value(), NodeValue::Inner(6));
    assert_eq!(node.child_id("a"), None);
    let copy = node.clone();
    assert_eq!(copy.value(), NodeValue::Inner(6));
    let edge = HalfEdge { path_segment: "seg".to_string(), node_id: 3 };
    let other = edge.clone();
    assert_eq!(other.path_segment, "seg");
    assert_eq!(other.node_id, 3);
}

#[test]
fn many_children_are_all_found() {
    let mut tree = PathTree::new(SequentialNodeId::new(), NodeValue::Inner(0));
    let names: Vec<String> = (0..200).map(|i| format!("child{i}")).collect();
    for (i, name) in names.iter().enumerate() {
        insert(&mut tree, &[name.as_str()], NodeValue::Leaf(i as u64));
    }
    assert_eq!(tree.nodes_count(), 201);
    assert_eq!(tree.descendant_nodes_count(tree.root_node()), 200);
    for (i, name) in names.iter().enumerate() {
        let node = tree.find_node(&path(&[name.as_str()])).unwrap();
        assert_eq!(node.node.value(), NodeValue::Leaf(i as u64));
    }
    let mut seen: Vec<&str> =
        tree.descendant_nodes(tree.root_node()).iter().map(|edge| edge.path_segment).collect();
    seen.sort();
    seen.dedup();
    assert_eq!(seen.len(), 200);
    tree.retain_nodes(|node| match node.node.value() {
        NodeValue::Leaf(value) => value % 2 == 0,
        NodeValue::Inner(_) => true,
    });
    assert_eq!(tree.nodes_count(), 101);
    assert!(tree.find_node(&path(&["child1"])).is_none());
    assert!(tree.find_node(&path(&["child2"])).is_some());
}

#[derive(Clone)]
struct Downwards {
    next: u64,
}

impl NewNodeId for Downwards {
    fn new_node_id(&mut self) -> u64 {
        self.next -= 1;
        self.next
    }

    fn has_remaining(&self, _count: usize) -> bool {
        true
    }

    fn fork(&self) -> Self {
        self.clone()
    }
}

#[test]
fn any_generator_of_fresh_identifiers_will_do() {
    let mut tree = PathTree::new(Downwards { next: 1000 }, NodeValue::Inner(0));
    assert_eq!(tree.root_node_id(), 999);
    let done = tree
        .insert_or_update_node_value(&path(&["a", "b"]), NodeValue::Leaf(1), || 7, |_| None)
        .unwrap();
    assert_eq!(done.parent_node.unwrap().id, 998);
    assert_eq!(done.child_node.id, 997);
}

#[test]
fn graft_of_a_single_node() {
    let mut tree = PathTree::new(SequentialNodeId::new(), NodeValue::Inner(0));
    let root = share_node(tree.root_node());
    let donor = PathTree::new(SequentialNodeId::starting_at(40), NodeValue::Leaf(9));
    let new_id = tree.insert_or_replace_subtree(&root, "leaf", None, donor).unwrap();
    assert_eq!(new_id, 1);
    assert_eq!(tree.nodes_count(), 2);
    let leaf = tree.find_node(&path(&["leaf"])).unwrap();
    assert_eq!(leaf.id, new_id);
    assert_eq!(leaf.node.value(), NodeValue::Leaf(9));
    // a leaf in the slot is replaced and keeps its identifier
    let root = share_node(tree.root_node());
    let mut donor = PathTree::new(SequentialNodeId::starting_at(40), NodeValue::Inner(10));
    insert(&mut donor, &["below"], NodeValue::Leaf(11));
    let replaced_id = tree.insert_or_replace_subtree(&root, "leaf", None, donor).unwrap();
    assert_eq!(replaced_id, new_id);
    assert_eq!(tree.nodes_count(), 3);
    assert_eq!(
        tree.find_node(&path(&["leaf", "below"])).unwrap().node.value(),
        NodeValue::Leaf(11)
    );
}
