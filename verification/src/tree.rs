//! The path tree: nodes in a persistent map, addressed by identifier and by
//! path.

use vstd::prelude::*;
use std::sync::Arc;
use crate::edge::HalfEdge;
use crate::error::{InsertOrUpdateNodeValueError, TreeNodeParentChildPathConflict};
use crate::model::PathTreeView;
use crate::node::{Node, NodeValue, NodeView};
use crate::node_id::NewNodeId;
use crate::node_map::NodeMap;
use crate::path::RootPath;
use crate::tree_node::{
    clone_parent, same_allocation, same_segment, share, TreeNode, TreeNodeView,
    UpdateNodeValueError,
};

verus! {

/// How much of a path has to lead to a node for the path to be resolved.
#[derive(Debug, Clone, Copy, PartialEq, Eq, Structural)]
pub enum MatchNodePath {
    /// Every segment.
    Full,
    /// At least the first segment.
    PartialOrFull,
}

/// How much of a path led to a node.
#[derive(Debug, Clone, Copy, PartialEq, Eq, Structural)]
pub enum MatchedNodePath {
    /// Every segment.
    Full {
        /// Number of path segments, all of them matched.
        number_of_segments: usize,
    },
    /// Some of the segments, counted from the root.
    Partial {
        /// Number of matched path segments: at least one, and fewer than the
        /// path has.
        number_of_matched_segments: usize,
    },
}

/// The node that a path led to, and how much of the path led there.
#[derive(Debug)]
pub struct ResolvedNodePath<'a> {
    pub node: &'a Arc<TreeNode>,
    pub matched_path: MatchedNodePath,
}

/// Return type of mutating tree operations.
///
/// Updating an immutable node in the tree requires to update its parent node.
#[derive(Debug)]
pub struct ParentChildTreeNode {
    pub parent_node: Option<Arc<TreeNode>>,
    pub child_node: Arc<TreeNode>,
    pub replaced_child_node: Option<Arc<TreeNode>>,
}

/// Cheaply clonable path tree structure.
pub struct PathTree<G: NewNodeId> {
    pub(crate) root_node_id: u64,
    pub(crate) nodes: NodeMap,
    pub(crate) new_node_id: G,
    pub(crate) depth: Ghost<Map<u64, nat>>,
}

impl<G: NewNodeId> View for PathTree<G> {
    type V = PathTreeView;

    open(crate) spec fn view(&self) -> PathTreeView {
        PathTreeView { root_node_id: self.root_node_id, nodes: self.nodes@, depth: self.depth@ }
    }
}

impl PathTreeView {
    /// What resolving `path` reports under `match_path`: the identifier of
    /// the node reached and how much of the path led there, or nothing.
    ///
    /// A path whose every segment leads on is matched in full. Otherwise
    /// `PartialOrFull` accepts the node reached, provided that at least one
    /// segment led there.
    pub open spec fn resolved(self, path: Seq<Seq<char>>, match_path: MatchNodePath) -> Option<
        (u64, MatchedNodePath),
    > {
        let (id, matched) = self.resolve(path);
        if matched == path.len() {
            Some((id, MatchedNodePath::Full { number_of_segments: matched as usize }))
        } else if match_path is PartialOrFull && matched > 0 {
            Some((id, MatchedNodePath::Partial { number_of_matched_segments: matched as usize }))
        } else {
            None
        }
    }

    /// Resolving from a node of a well-formed tree ends at a node of the
    /// tree, after no more segments than the path has.
    pub proof fn lemma_resolve_from(self, cur: u64, path: Seq<Seq<char>>, i: nat)
        requires
            self.wf(),
            self.nodes.contains_key(cur),
            i <= path.len(),
        ensures
            self.nodes.contains_key(self.resolve_from(cur, path, i).0),
            i <= self.resolve_from(cur, path, i).1 <= path.len(),
        decreases path.len() - i,
    {
        if i < path.len() {
            assert(self.node_wf(cur));
            match self.children_of(cur).get(path[i as int]) {
                Some(child) => {
                    assert(self.children_of(cur).contains_key(path[i as int]));
                    self.lemma_resolve_from(child, path, i + 1);
                },
                None => {},
            }
        }
    }
}

/// The segment under which a child is looked up: the old segment where one is
/// given, else the segment itself.
pub open spec fn lookup_segment(segment: &str, old_segment: Option<&str>) -> Seq<char> {
    match old_segment {
        Some(old_segment) => old_segment@,
        None => segment@,
    }
}

impl<G: NewNodeId> PathTree<G> {
    /// The generator that the tree takes its identifiers from.
    pub open(crate) spec fn generator(&self) -> G {
        self.new_node_id
    }

    /// Well-formedness: the model is well-formed, and the generator has
    /// handed out the identifier of every node.
    pub open spec fn wf(&self) -> bool {
        &&& self@.wf()
        &&& self@.nodes.dom().subset_of(self.generator().issued())
    }

    /// Create a new path tree with the given root node, which takes its
    /// identifier from the generator.
    #[must_use]
    pub fn new(new_node_id: G, root_node_value: NodeValue) -> (r: Self)
        requires
            new_node_id.remaining() > 0,
        ensures
            r.generator().remaining() == new_node_id.remaining() - 1,
            r.wf(),
            !new_node_id.issued().contains(r@.root_node_id),
            r.generator().issued() == new_node_id.issued().insert(r@.root_node_id),
            r@.nodes == Map::<u64, TreeNodeView>::empty().insert(
                r@.root_node_id,
                TreeNodeView {
                    id: r@.root_node_id,
                    parent: None,
                    node: NodeView::from_value(root_node_value),
                },
            ),
    {
        let mut new_node_id = new_node_id;
        let root_node_id = new_node_id.new_node_id();
        let root_node = TreeNode {
            id: root_node_id,
            parent: None,
            node: Node::from_value(root_node_value),
        };
        let mut nodes = NodeMap::new();
        nodes.insert_mut(root_node_id, Arc::new(root_node));
        let r = PathTree {
            root_node_id,
            nodes,
            new_node_id,
            depth: Ghost(Map::<u64, nat>::empty().insert(root_node_id, 0)),
        };
        proof {
            assert(r@.node_wf(root_node_id));
            assert(r@.nodes.dom() =~= Set::<u64>::empty().insert(root_node_id));
        }
        r
    }

    /// Whether the generator of the tree can still hand out `count`
    /// identifiers.
    #[must_use]
    pub fn has_identifiers_left(&self, count: usize) -> (r: bool)
        ensures
            r == (self.generator().remaining() >= count),
    {
        self.new_node_id.has_remaining(count)
    }

    /// The identifier of the root node.
    #[must_use]
    pub fn root_node_id(&self) -> (r: u64)
        ensures
            r == self@.root_node_id,
    {
        self.root_node_id
    }

    /// The root node.
    #[must_use]
    pub fn root_node(&self) -> (r: &Arc<TreeNode>)
        requires
            self.wf(),
        ensures
            r@ == self@.nodes[self@.root_node_id],
    {
        self.get_node(self.root_node_id)
    }

    /// The node with the given identifier, if the tree has one.
    #[must_use]
    pub fn lookup_node(&self, id: u64) -> (r: Option<&Arc<TreeNode>>)
        ensures
            match r {
                Some(node) => self@.nodes.get(id) == Some(node@),
                None => !self@.nodes.contains_key(id),
            },
    {
        self.nodes.get(id)
    }

    /// The node with the given identifier, which the tree has.
    pub(crate) fn get_node(&self, id: u64) -> (r: &Arc<TreeNode>)
        requires
            self@.nodes.contains_key(id),
        ensures
            r@ == self@.nodes[id],
    {
        let node = self.nodes.get(id);
        node.unwrap()
    }

    /// Whether the tree holds this very node. A handle to an earlier version
    /// of a node, or to a node of another tree, is not contained.
    #[must_use]
    pub fn contains_node(&self, node: &Arc<TreeNode>) -> (r: bool)
        ensures
            r ==> self@.has_node(node@),
    {
        match self.lookup_node(node.id) {
            Some(tree_node) => same_allocation(tree_node, node),
            None => false,
        }
    }

    /// Find a node by its path.
    ///
    /// Returns the node that the path led to and the number of segments that
    /// led there.
    #[must_use]
    pub fn resolve_node_path<'a>(&'a self, path: &RootPath, match_path: MatchNodePath) -> (r:
        Option<ResolvedNodePath<'a>>)
        requires
            self.wf(),
        ensures
            match r {
                Some(resolved) => {
                    &&& self@.resolved(path@, match_path) matches Some((id, matched_path))
                    &&& resolved.matched_path == matched_path
                    &&& self@.nodes.get(id) == Some(resolved.node@)
                },
                None => self@.resolved(path@, match_path) is None,
            },
    {
        let n = path.len();
        let mut node = self.get_node(self.root_node_id);
        let mut matched: usize = 0;
        let mut partial = false;
        while matched < n && !partial
            invariant
                self.wf(),
                n == path@.len(),
                matched <= n,
                self@.nodes.get(node.id) == Some(node@),
                self@.resolve(path@) == self@.resolve_from(node.id, path@, matched as nat),
                partial ==> matched < n && self@.children_of(node.id).get(path@[matched as int])
                    is None,
            decreases n - matched + (if partial { 0int } else { 1int }),
        {
            assert(self@.node_wf(node.id));
            match node.node.child_id(path.segment(matched)) {
                Some(child_id) => {
                    assert(self@.children_of(node.id).contains_key(path@[matched as int]));
                    node = self.get_node(child_id);
                    matched = matched + 1;
                },
                None => {
                    partial = true;
                },
            }
        }
        let matched_path = if partial {
            if matched == 0 || match_path == MatchNodePath::Full {
                return None;
            }
            MatchedNodePath::Partial { number_of_matched_segments: matched }
        } else {
            MatchedNodePath::Full { number_of_segments: matched }
        };
        Some(ResolvedNodePath { node, matched_path })
    }

    /// Find a node by its path, every segment of which has to lead on.
    #[must_use]
    pub fn find_node<'a>(&'a self, path: &RootPath) -> (r: Option<&'a Arc<TreeNode>>)
        requires
            self.wf(),
        ensures
            match r {
                Some(node) => self@.resolve(path@).1 == path@.len() && self@.nodes.get(
                    self@.resolve(path@).0,
                ) == Some(node@),
                None => self@.resolve(path@).1 != path@.len(),
            },
    {
        match self.resolve_node_path(path, MatchNodePath::Full) {
            Some(resolved) => Some(resolved.node),
            None => None,
        }
    }

    /// Update a node value in the tree.
    ///
    /// Inner nodes with children could only be updated with an inner value.
    /// Returns the updated node with the new value, which the tree holds from
    /// then on in place of `node`. In case of an error the tree stays as it
    /// was and the new value is returned back to the caller.
    ///
    /// The node has to be one that the tree holds.
    pub fn update_node_value(&mut self, node: &Arc<TreeNode>, new_value: NodeValue) -> (r: Result<
        Arc<TreeNode>,
        UpdateNodeValueError,
    >)
        requires
            old(self).wf(),
            old(self)@.has_node(node@),
        ensures
            final(self).wf(),
            final(self).generator() == old(self).generator(),
            match r {
                Ok(new_node) => {
                    &&& node@.node.accepts(new_value)
                    &&& new_node@ == node@.with_value(new_value)
                    &&& final(self)@ == old(self)@.with_node_value(node.id, new_value)
                },
                Err(e) => {
                    &&& !node@.node.accepts(new_value)
                    &&& e == (UpdateNodeValueError::ValueTypeMismatch { value: new_value })
                    &&& final(self)@ == old(self)@
                },
            },
    {
        match node.try_clone_with_value(new_value) {
            Ok(new_node) => {
                let new_node = Arc::new(new_node);
                self.nodes.insert_mut(node.id, share(&new_node));
                proof {
                    old(self)@.lemma_with_node_value_wf(node.id, new_value);
                }
                Ok(new_node)
            },
            Err(e) => Err(e),
        }
    }

    /// Insert or update a child node in the tree.
    ///
    /// The parent node has to be one that the tree holds. If it is a leaf,
    /// the call fails with a path conflict.
    ///
    /// The child is looked up under `old_child_path_segment`, or under
    /// `child_path_segment` where no old segment is given. A child found
    /// there takes the new value, keeps its identifier and, where the two
    /// segments differ, moves to `child_path_segment`; a value that it
    /// cannot take makes the call fail with a value type mismatch. Where no
    /// child is found, a new one is created under `child_path_segment`.
    ///
    /// Where the two segments differ and another child sits under
    /// `child_path_segment`, that child gives way: it leaves the tree with
    /// all its descendants. Where a new child is created, the generator has
    /// to have an identifier left.
    ///
    /// Returns the updated parent node and the inserted or updated child
    /// node. In case of an error the tree stays as it was and the new value
    /// is returned back to the caller.
    pub fn insert_or_update_child_node_value(
        &mut self,
        parent_node: &Arc<TreeNode>,
        child_path_segment: &str,
        old_child_path_segment: Option<&str>,
        new_value: NodeValue,
    ) -> (r: Result<ParentChildTreeNode, InsertOrUpdateNodeValueError>)
        requires
            old(self).wf(),
            old(self)@.has_node(parent_node@),
            child_path_segment@.len() > 0,
            parent_node@.node is Inner && !parent_node@.node.children().contains_key(
                lookup_segment(child_path_segment, old_child_path_segment),
            ) ==> old(self).generator().remaining() > 0,
        ensures
            final(self).wf(),
            match r {
                Ok(done) => {
                    let lookup = lookup_segment(child_path_segment, old_child_path_segment);
                    let freed = old(self)@.with_slot_freed(
                        parent_node.id,
                        lookup,
                        child_path_segment@,
                    );
                    &&& parent_node@.node is Inner
                    &&& done.parent_node matches Some(parent) && final(self)@.has_node(parent@)
                        && parent.id == parent_node.id
                    &&& final(self)@.has_node(done.child_node@)
                    &&& match parent_node@.node.children().get(lookup) {
                        Some(id) => {
                            &&& old(self)@.nodes[id].node.accepts(new_value)
                            &&& final(self)@ == freed.with_child_value(
                                parent_node.id,
                                lookup,
                                child_path_segment@,
                                new_value,
                            )
                            &&& done.child_node.id == id
                            &&& done.replaced_child_node matches Some(replaced) && replaced@
                                == old(self)@.nodes[id]
                            &&& final(self).generator() == old(self).generator()
                        },
                        None => {
                            let id = done.child_node.id;
                            &&& !old(self).generator().issued().contains(id)
                            &&& final(self)@ == freed.with_new_child(
                                parent_node.id,
                                child_path_segment@,
                                id,
                                new_value,
                            )
                            &&& done.replaced_child_node is None
                            &&& final(self).generator().issued() == old(
                                self,
                            ).generator().issued().insert(id)
                            &&& final(self).generator().remaining() == old(
                                self,
                            ).generator().remaining() - 1
                        },
                    }
                },
                Err(e) => {
                    let lookup = lookup_segment(child_path_segment, old_child_path_segment);
                    &&& final(self)@ == old(self)@
                    &&& final(self).generator() == old(self).generator()
                    &&& e.value() == new_value
                    &&& match e {
                        InsertOrUpdateNodeValueError::PathConflict { conflict, .. } => {
                            &&& parent_node@.node is Leaf
                            &&& conflict.parent_node@ == parent_node@
                            &&& conflict.child_path_segment@ == child_path_segment@
                        },
                        InsertOrUpdateNodeValueError::ValueTypeMismatch { .. } => {
                            &&& parent_node@.node.children().get(lookup) matches Some(id)
                            &&& !old(self)@.nodes[id].node.accepts(new_value)
                        },
                    }
                },
            },
    {
        let ghost before = self@;
        let inner_node = match &parent_node.node {
            Node::Inner(inner_node) => inner_node,
            Node::Leaf(_) => {
                return Err(
                    InsertOrUpdateNodeValueError::PathConflict {
                        conflict: TreeNodeParentChildPathConflict {
                            parent_node: share(parent_node),
                            child_path_segment: child_path_segment.to_owned(),
                        },
                        value: new_value,
                    },
                );
            },
        };
        let lookup = match old_child_path_segment {
            Some(segment) => segment,
            None => child_path_segment,
        };
        proof {
            assert(before.node_wf(parent_node.id));
            before.lemma_with_slot_freed(parent_node.id, lookup@, child_path_segment@);
        }
        // A value that the child cannot take is refused before anything
        // changes.
        match inner_node.child_id(lookup) {
            Some(child_id) => {
                assert(parent_node@.node.children().contains_key(lookup@));
                if !self.get_node(child_id).node.accepts(new_value) {
                    return Err(InsertOrUpdateNodeValueError::ValueTypeMismatch { value: new_value });
                }
            },
            None => {},
        }
        // The child that sits under the new segment gives way.
        if !same_segment(lookup, child_path_segment) {
            match inner_node.child_id(child_path_segment) {
                Some(displaced_id) => {
                    assert(parent_node@.node.children().contains_key(child_path_segment@));
                    proof {
                        assert(before.node_wf(displaced_id));
                    }
                    let parent_node = match self.remove_subtree_by_id(displaced_id) {
                        Some(removed) => removed.parent_node,
                        None => vstd::pervasive::unreached(),
                    };
                    proof {
                        assert(parent_node@.node.children() =~= before.children_of(
                            parent_node.id,
                        ).remove(child_path_segment@));
                    }
                    return self.insert_or_update_child_in_free_slot(
                        &parent_node,
                        child_path_segment,
                        old_child_path_segment,
                        new_value,
                    );
                },
                None => {},
            }
        }
        self.insert_or_update_child_in_free_slot(
            parent_node,
            child_path_segment,
            old_child_path_segment,
            new_value,
        )
    }

    /// Insert or update a child node below a parent that has no other child
    /// under `child_path_segment`.
    ///
    /// The child is looked up under `old_child_path_segment`, or under
    /// `child_path_segment` where no old segment is given. A child found
    /// there takes the new value and, where the two segments differ, moves
    /// to `child_path_segment`. Where no child is found, a new one is
    /// created under `child_path_segment`.
    pub(crate) fn insert_or_update_child_in_free_slot(
        &mut self,
        parent_node: &Arc<TreeNode>,
        child_path_segment: &str,
        old_child_path_segment: Option<&str>,
        new_value: NodeValue,
    ) -> (r: Result<ParentChildTreeNode, InsertOrUpdateNodeValueError>)
        requires
            old(self).wf(),
            old(self)@.has_node(parent_node@),
            child_path_segment@.len() > 0,
            lookup_segment(child_path_segment, old_child_path_segment) != child_path_segment@
                ==> !parent_node@.node.children().contains_key(child_path_segment@),
            parent_node@.node is Inner && !parent_node@.node.children().contains_key(
                lookup_segment(child_path_segment, old_child_path_segment),
            ) ==> old(self).generator().remaining() > 0,
        ensures
            final(self).wf(),
            match r {
                Ok(done) => {
                    let lookup = lookup_segment(child_path_segment, old_child_path_segment);
                    &&& parent_node@.node is Inner
                    &&& done.parent_node matches Some(parent) && final(self)@.has_node(parent@)
                        && parent.id == parent_node.id
                    &&& final(self)@.has_node(done.child_node@)
                    &&& match parent_node@.node.children().get(lookup) {
                        Some(id) => {
                            &&& old(self)@.nodes[id].node.accepts(new_value)
                            &&& final(self)@ == old(self)@.with_child_value(
                                parent_node.id,
                                lookup,
                                child_path_segment@,
                                new_value,
                            )
                            &&& done.child_node.id == id
                            &&& done.replaced_child_node matches Some(replaced) && replaced@
                                == old(self)@.nodes[id]
                            &&& final(self).generator() == old(self).generator()
                        },
                        None => {
                            let id = done.child_node.id;
                            &&& !old(self).generator().issued().contains(id)
                            &&& final(self)@ == old(self)@.with_new_child(
                                parent_node.id,
                                child_path_segment@,
                                id,
                                new_value,
                            )
                            &&& done.replaced_child_node is None
                            &&& final(self).generator().issued() == old(
                                self,
                            ).generator().issued().insert(id)
                            &&& final(self).generator().remaining() == old(
                                self,
                            ).generator().remaining() - 1
                        },
                    }
                },
                Err(e) => {
                    let lookup = lookup_segment(child_path_segment, old_child_path_segment);
                    &&& final(self)@ == old(self)@
                    &&& final(self).generator() == old(self).generator()
                    &&& e.value() == new_value
                    &&& match e {
                        InsertOrUpdateNodeValueError::PathConflict { conflict, .. } => {
                            &&& parent_node@.node is Leaf
                            &&& conflict.parent_node@ == parent_node@
                            &&& conflict.child_path_segment@ == child_path_segment@
                        },
                        InsertOrUpdateNodeValueError::ValueTypeMismatch { .. } => {
                            &&& parent_node@.node.children().get(lookup) matches Some(id)
                            &&& !old(self)@.nodes[id].node.accepts(new_value)
                        },
                    }
                },
            },
    {
        let inner_node = match &parent_node.node {
            Node::Inner(inner_node) => inner_node,
            Node::Leaf(_) => {
                return Err(
                    InsertOrUpdateNodeValueError::PathConflict {
                        conflict: TreeNodeParentChildPathConflict {
                            parent_node: share(parent_node),
                            child_path_segment: child_path_segment.to_owned(),
                        },
                        value: new_value,
                    },
                );
            },
        };
        let lookup = match old_child_path_segment {
            Some(segment) => segment,
            None => child_path_segment,
        };
        proof {
            assert(old(self)@.node_wf(parent_node.id));
        }
        match inner_node.child_id(lookup) {
            Some(child_id) => {
                assert(parent_node@.node.children().contains_key(lookup@));
                let old_child_node = share(self.get_node(child_id));
                let mut new_child_node = match old_child_node.try_clone_with_value(new_value) {
                    Ok(new_child_node) => new_child_node,
                    Err(e) => {
                        return Err(InsertOrUpdateNodeValueError::from(e));
                    },
                };
                proof {
                    assert(old(self)@.node_wf(child_id));
                    old(self)@.lemma_with_child_value_wf(
                        parent_node.id,
                        lookup@,
                        child_path_segment@,
                        new_value,
                    );
                }
                if same_segment(lookup, child_path_segment) {
                    let new_child_node = Arc::new(new_child_node);
                    self.nodes.insert_mut(child_id, share(&new_child_node));
                    proof {
                        let expected = old(self)@.with_child_value(
                            parent_node.id,
                            lookup@,
                            child_path_segment@,
                            new_value,
                        );
                        assert(parent_node@.node.without_child(lookup@).with_child(
                            child_path_segment@,
                            child_id,
                        ).children() =~= parent_node@.node.children());
                        assert(expected.nodes =~= self@.nodes);
                    }
                    return Ok(
                        ParentChildTreeNode {
                            parent_node: Some(share(parent_node)),
                            child_node: new_child_node,
                            replaced_child_node: Some(old_child_node),
                        },
                    );
                }
                new_child_node.parent = Some(
                    HalfEdge { path_segment: child_path_segment.to_owned(), node_id: parent_node.id },
                );
                let new_child_node = Arc::new(new_child_node);
                let mut inner_node = inner_node.clone();
                inner_node.children.remove_mut(lookup);
                inner_node.children.insert_mut(child_path_segment.to_owned(), child_id);
                let new_parent_node = Arc::new(
                    TreeNode {
                        id: parent_node.id,
                        parent: clone_parent(&parent_node.parent),
                        node: Node::Inner(inner_node),
                    },
                );
                self.nodes.insert_mut(parent_node.id, share(&new_parent_node));
                self.nodes.insert_mut(child_id, share(&new_child_node));
                Ok(
                    ParentChildTreeNode {
                        parent_node: Some(new_parent_node),
                        child_node: new_child_node,
                        replaced_child_node: Some(old_child_node),
                    },
                )
            },
            None => {
                let child_node_id = self.new_node_id.new_node_id();
                let new_child_node = Arc::new(
                    TreeNode {
                        id: child_node_id,
                        parent: Some(
                            HalfEdge {
                                path_segment: child_path_segment.to_owned(),
                                node_id: parent_node.id,
                            },
                        ),
                        node: Node::from_value(new_value),
                    },
                );
                self.nodes.insert_mut(child_node_id, share(&new_child_node));
                let mut inner_node = inner_node.clone();
                inner_node.children.insert_mut(child_path_segment.to_owned(), child_node_id);
                let new_parent_node = Arc::new(
                    TreeNode {
                        id: parent_node.id,
                        parent: clone_parent(&parent_node.parent),
                        node: Node::Inner(inner_node),
                    },
                );
                self.nodes.insert_mut(parent_node.id, share(&new_parent_node));
                proof {
                    self.depth@ = old(self).depth@.insert(
                        child_node_id,
                        old(self).depth@[parent_node.id] + 1,
                    );
                    old(self)@.lemma_with_new_child_wf(
                        parent_node.id,
                        child_path_segment@,
                        child_node_id,
                        new_value,
                    );
                }
                Ok(
                    ParentChildTreeNode {
                        parent_node: Some(new_parent_node),
                        child_node: new_child_node,
                        replaced_child_node: None,
                    },
                )
            },
        }
    }

    /// Total number of nodes in the tree, in constant time.
    #[must_use]
    pub fn nodes_count(&self) -> (r: usize)
        requires
            self.wf(),
        ensures
            r == self@.nodes.dom().len(),
            r == 1 + self@.descendants(self@.root_node_id).len(),
    {
        proof {
            self@.lemma_descendants_of_root();
        }
        self.nodes.size()
    }

    /// All nodes in no particular order, each once.
    pub fn nodes(&self) -> (r: Vec<&Arc<TreeNode>>)
        requires
            self.wf(),
        ensures
            r@.len() == self@.nodes.dom().len(),
            forall|i: int| 0 <= i < r@.len() ==> self@.has_node((#[trigger] r@[i])@),
            forall|i: int, j: int| 0 <= i < j < r@.len() ==> r@[i].id != r@[j].id,
            forall|id: u64|
                self@.nodes.contains_key(id) ==> exists|i: int|
                    0 <= i < r@.len() && (#[trigger] r@[i]).id == id,
    {
        let entries = self.nodes.entries();
        let mut nodes: Vec<&Arc<TreeNode>> = Vec::new();
        let mut i: usize = 0;
        while i < entries.len()
            invariant
                self.wf(),
                i <= entries@.len(),
                nodes@.len() == i,
                forall|k: int|
                    0 <= k < entries@.len() ==> self@.nodes.get((#[trigger] entries@[k]).0) == Some(
                        entries@[k].1@,
                    ),
                forall|k: int| 0 <= k < i ==> #[trigger] nodes@[k] == entries@[k].1,
            decreases entries@.len() - i,
        {
            nodes.push(entries[i].1);
            i = i + 1;
        }
        proof {
            let keys = entries@.map_values(|e: (u64, &Arc<TreeNode>)| e.0);
            assert forall|k: int| 0 <= k < entries@.len() implies (#[trigger] nodes@[k]).id
                == entries@[k].0 && self@.has_node(nodes@[k]@) by {
                assert(self@.nodes.get(entries@[k].0) == Some(entries@[k].1@));
                assert(self@.node_wf(entries@[k].0));
            }
            assert(keys.no_duplicates());
            assert(keys.to_set() =~= self@.nodes.dom()) by {
                assert forall|id: u64| self@.nodes.dom().contains(id) implies keys.to_set().contains(
                    id,
                ) by {
                    let k = choose|k: int| 0 <= k < entries@.len() && (#[trigger] entries@[k]).0 == id;
                    assert(keys[k] == id);
                }
                assert forall|id: u64| keys.to_set().contains(id) implies self@.nodes.dom().contains(
                    id,
                ) by {
                    let k = choose|k: int| 0 <= k < keys.len() && keys[k] == id;
                    assert(self@.nodes.get(entries@[k].0) == Some(entries@[k].1@));
                }
            }
            keys.unique_seq_to_set();
            assert forall|id: u64| self@.nodes.contains_key(id) implies exists|i: int|
                0 <= i < nodes@.len() && (#[trigger] nodes@[i]).id == id by {
                let k = choose|k: int| 0 <= k < entries@.len() && (#[trigger] entries@[k]).0 == id;
                assert(nodes@[k].id == id);
            }
        }
        nodes
    }
}

impl<G: NewNodeId> Clone for PathTree<G> {
    /// A second handle on the same nodes: the clone shares every node with
    /// this tree, and its generator is a fork of this tree's. What is done
    /// to one of the two from then on leaves the other as it is.
    fn clone(&self) -> (r: Self)
        ensures
            r@ == self@,
            r.generator().issued() == self.generator().issued(),
            r.generator().remaining() == self.generator().remaining(),
            self.wf() ==> r.wf(),
    {
        PathTree {
            root_node_id: self.root_node_id,
            nodes: self.nodes.clone(),
            new_node_id: self.new_node_id.fork(),
            depth: Ghost(self.depth@),
        }
    }
}

} // verus!
