use rpds_pathtree::{NewNodeId, NodeValue, PathTree, RootPath, SequentialNodeId, TreeNode};
use std::collections::BTreeMap;
use std::sync::Arc;

/// A small generator of pseudo-random numbers, the same on every run.
struct Numbers {
    state: u64,
}

impl Numbers {
    fn next(&mut self, bound: u64) -> u64 {
        self.state = self.state.wrapping_mul(6364136223846793005).wrapping_add(1442695040888963407);
        (self.state >> 33) % bound
    }
}

type Plain = BTreeMap<Vec<String>, NodeValue>;

fn contents<G: NewNodeId>(tree: &PathTree<G>) -> Plain {
    let mut result = BTreeMap::new();
    for node in tree.nodes() {
        let mut segments: Vec<String> = Vec::new();
        if let Some(parent) = &node.parent {
            segments.push(parent.path_segment.clone());
        }
        for edge in tree.ancestor_nodes(node) {
            if let Some(parent) = &edge.node.parent {
                segments.push(parent.path_segment.clone());
            }
        }
        segments.reverse();
        assert!(result.insert(segments, node.node.value()).is_none());
    }
    result
}

fn expect_shape<G: NewNodeId>(tree: &PathTree<G>) {
    let nodes = tree.nodes();
    assert_eq!(nodes.len(), tree.nodes_count());
    assert_eq!(tree.nodes_count(), 1 + tree.descendant_nodes_count(tree.root_node()));
    let mut without_parent = 0;
    for node in &nodes {
        assert!(tree.contains_node(node));
        match &node.parent {
            None => {
                without_parent += 1;
                assert_eq!(node.id, tree.root_node_id());
            }
            Some(parent) => {
                let parent_node = tree.lookup_node(parent.node_id).unwrap();
                assert_eq!(parent_node.node.child_id(&parent.path_segment), Some(node.id));
            }
        }
        for edge in tree.descendant_nodes(node) {
            let child = tree.lookup_node(edge.node_id).unwrap();
            assert_eq!(child.parent.as_ref().unwrap().path_segment, edge.path_segment);
        }
    }
    assert_eq!(without_parent, 1);
}

fn has_children(plain: &Plain, path: &[String]) -> bool {
    plain.keys().any(|key| key.len() == path.len() + 1 && key.starts_with(path))
}

/// What inserting does to the plain picture of the tree. Gives back whether
/// the value was taken.
fn insert_plain(plain: &mut Plain, path: &[String], value: NodeValue, convert: bool) -> bool {
    // the leaf on the way, if there is one, has to be converted
    for len in 0..path.len() {
        match plain.get(&path[..len]) {
            Some(NodeValue::Leaf(leaf)) => {
                if !convert {
                    return false;
                }
                plain.insert(path[..len].to_vec(), NodeValue::Inner(*leaf + 1000));
            }
            Some(NodeValue::Inner(_)) => {}
            None => {
                plain.insert(path[..len].to_vec(), NodeValue::Inner(77));
            }
        }
    }
    if matches!(value, NodeValue::Leaf(_)) && has_children(plain, path) {
        return false;
    }
    plain.insert(path.to_vec(), value);
    true
}

fn remove_plain(plain: &mut Plain, path: &[String]) -> Plain {
    let mut removed = Plain::new();
    let keys: Vec<Vec<String>> =
        plain.keys().filter(|key| key.starts_with(path)).cloned().collect();
    for key in keys {
        let value = plain.remove(&key).unwrap();
        removed.insert(key[path.len()..].to_vec(), value);
    }
    removed
}

fn random_path(numbers: &mut Numbers) -> Vec<String> {
    let len = numbers.next(4) as usize;
    (0..len).map(|_| format!("s{}", numbers.next(3))).collect()
}

fn path_of<G: NewNodeId>(tree: &PathTree<G>, node: &Arc<TreeNode>) -> Vec<String> {
    let mut segments: Vec<String> = Vec::new();
    if let Some(parent) = &node.parent {
        segments.push(parent.path_segment.clone());
    }
    for edge in tree.ancestor_nodes(node) {
        if let Some(parent) = &edge.node.parent {
            segments.push(parent.path_segment.clone());
        }
    }
    segments.reverse();
    segments
}

#[test]
fn random_operations_agree_with_a_plain_map() {
    let mut numbers = Numbers { state: 42 };
    let mut tree = PathTree::new(SequentialNodeId::new(), NodeValue::Inner(0));
    let mut plain: Plain = BTreeMap::new();
    plain.insert(Vec::new(), NodeValue::Inner(0));
    for round in 0..600u64 {
        match numbers.next(10) {
            0..=5 => {
                let segments = random_path(&mut numbers);
                let value = if numbers.next(2) == 0 {
                    NodeValue::Leaf(round)
                } else {
                    NodeValue::Inner(round)
                };
                let convert = numbers.next(3) != 0;
                let path = RootPath::new(segments.clone()).unwrap();
                let before = tree.clone();
                let result = tree.insert_or_update_node_value(
                    &path,
                    value,
                    || 77,
                    |leaf| if convert { Some(*leaf + 1000) } else { None },
                );
                let mut expected = plain.clone();
                let taken = insert_plain(&mut expected, &segments, value, convert);
                assert_eq!(result.is_ok(), taken, "round {round}");
                match result {
                    Ok(done) => {
                        plain = expected;
                        assert_eq!(tree.find_node(&path).unwrap().id, done.child_node.id);
                        assert_eq!(done.child_node.node.value(), value);
                    }
                    Err(err) => {
                        assert_eq!(err.into_value(), value);
                        for node in before.nodes() {
                            assert!(tree.contains_node(node));
                        }
                    }
                }
            }
            6..=7 => {
                let nodes: Vec<Arc<TreeNode>> = tree.nodes().into_iter().cloned().collect();
                let node = &nodes[numbers.next(nodes.len() as u64) as usize];
                let path = path_of(&tree, node);
                let removed = tree.remove_subtree_by_id(node.id);
                if node.id == tree.root_node_id() {
                    assert!(removed.is_none());
                } else {
                    let removed = removed.unwrap();
                    let expected = remove_plain(&mut plain, &path);
                    assert_eq!(contents(&removed.removed_subtree), expected);
                    expect_shape(&removed.removed_subtree);
                    assert_eq!(removed.child_path_segment, *path.last().unwrap());
                    if numbers.next(2) == 0 {
                        // graft it back where it was
                        tree.insert_or_replace_subtree(
                            &removed.parent_node,
                            &removed.child_path_segment,
                            None,
                            removed.removed_subtree,
                        )
                        .unwrap();
                        for (key, value) in expected {
                            let mut full = path.clone();
                            full.extend(key);
                            plain.insert(full, value);
                        }
                    }
                }
            }
            8 => {
                let modulus = 2 + numbers.next(5);
                let rejected = |value: NodeValue| match value {
                    NodeValue::Inner(v) | NodeValue::Leaf(v) => v % modulus == 1,
                };
                tree.retain_nodes(|node| !rejected(node.node.value()));
                let doomed: Vec<Vec<String>> = plain
                    .iter()
                    .filter(|(key, value)| !key.is_empty() && rejected(**value))
                    .map(|(key, _)| key.clone())
                    .collect();
                for key in doomed {
                    remove_plain(&mut plain, &key);
                }
            }
            _ => {
                let nodes: Vec<Arc<TreeNode>> = tree.nodes().into_iter().cloned().collect();
                let node = &nodes[numbers.next(nodes.len() as u64) as usize];
                let path = path_of(&tree, node);
                let value = NodeValue::Leaf(round);
                let result = tree.update_node_value(node, value);
                if has_children(&plain, &path) {
                    assert!(result.is_err());
                } else {
                    assert_eq!(result.unwrap().node.value(), value);
                    plain.insert(path, value);
                }
            }
        }
        assert_eq!(contents(&tree), plain, "round {round}");
        expect_shape(&tree);
    }
    assert!(tree.nodes_count() > 1);
}
