//! Taking a subtree out of a tree.

use vstd::prelude::*;
use std::sync::Arc;
use crate::edge::HalfEdgeView;
use crate::model::PathTreeView;
use crate::node::Node;
use crate::node_id::NewNodeId;
use crate::node_map::NodeMap;
use crate::traverse::edge_targets;
use crate::tree::PathTree;
use crate::tree_node::{clone_parent, share, TreeNode};

verus! {

impl PathTreeView {
    /// The tree without node `id` and the nodes below it. The parent of `id`
    /// no longer has the child.
    pub open spec fn without_subtree(self, id: u64) -> PathTreeView {
        let up = self.nodes[id].parent->0;
        let gone = self.subtree(id);
        let parent = self.nodes[up.node_id];
        PathTreeView {
            root_node_id: self.root_node_id,
            nodes: self.nodes.remove_keys(gone).insert(
                up.node_id,
                parent.with_node(parent.node.without_child(up.path_segment)),
            ),
            depth: self.depth.remove_keys(gone),
        }
    }

    /// The subtree at node `id` as a tree of its own: `id` is the root and
    /// has no parent, every node keeps its identifier.
    pub open spec fn subtree_at(self, id: u64) -> PathTreeView {
        let kept = self.subtree(id);
        PathTreeView {
            root_node_id: id,
            nodes: self.nodes.restrict(kept).insert(id, self.nodes[id].with_parent(None)),
            depth: Map::new(
                |d: u64| self.nodes.contains_key(d) && kept.contains(d),
                |d: u64| (self.depth[d] - self.depth[id]) as nat,
            ),
        }
    }

    /// The tree with the place below `parent` under `segment` made free for a
    /// child that is looked up under `lookup`.
    ///
    /// Where the two segments are the same, or no child sits under
    /// `segment`, this is the tree itself. Otherwise the child under
    /// `segment` gives way: it leaves the tree with everything below it.
    pub open spec fn with_slot_freed(
        self,
        parent: u64,
        lookup: Seq<char>,
        segment: Seq<char>,
    ) -> PathTreeView {
        if lookup != segment && self.children_of(parent).contains_key(segment) {
            self.without_subtree(self.children_of(parent)[segment])
        } else {
            self
        }
    }

    /// Making a place free below an inner node leaves a well-formed tree in
    /// which the place is free. The parent keeps its other children, and the
    /// child that is looked up, if there is one, stays what it was.
    pub proof fn lemma_with_slot_freed(self, parent: u64, lookup: Seq<char>, segment: Seq<char>)
        requires
            self.wf(),
            self.nodes.contains_key(parent),
        ensures
            self.with_slot_freed(parent, lookup, segment).wf(),
            self.with_slot_freed(parent, lookup, segment).root_node_id == self.root_node_id,
            self.with_slot_freed(parent, lookup, segment).nodes.contains_key(parent),
            self.with_slot_freed(parent, lookup, segment).nodes[parent].id == parent,
            self.with_slot_freed(parent, lookup, segment).nodes[parent].parent
                == self.nodes[parent].parent,
            self.with_slot_freed(parent, lookup, segment).nodes[parent].node is Inner
                == self.nodes[parent].node is Inner,
            lookup != segment ==> self.with_slot_freed(parent, lookup, segment).children_of(parent)
                =~= self.children_of(parent).remove(segment),
            lookup == segment ==> self.with_slot_freed(parent, lookup, segment) == self,
            self.with_slot_freed(parent, lookup, segment).nodes.dom().subset_of(self.nodes.dom()),
            self.children_of(parent).contains_key(lookup) ==> self.with_slot_freed(
                parent,
                lookup,
                segment,
            ).nodes.get(self.children_of(parent)[lookup]) == Some(
                self.nodes[self.children_of(parent)[lookup]],
            ),
    {
        assert(self.node_wf(parent));
        if lookup != segment && self.children_of(parent).contains_key(segment) {
            let d = self.children_of(parent)[segment];
            assert(self.node_wf(d));
            assert(d != self.root_node_id);
            assert(self.parent_id(d) == parent);
            self.lemma_without_subtree_wf(d);
            if self.children_of(parent).contains_key(lookup) {
                let c = self.children_of(parent)[lookup];
                assert(self.node_wf(c));
                assert(c != d);
                assert(c != parent);
                assert(!self.subtree(d).contains(c));
            }
        } else if self.children_of(parent).contains_key(lookup) {
            let c = self.children_of(parent)[lookup];
            assert(self.node_wf(c));
        }
        if lookup != segment && !self.children_of(parent).contains_key(segment) {
            assert(self.children_of(parent).remove(segment) =~= self.children_of(parent));
        }
    }

    /// A node outside a subtree has its parent outside, and of its children
    /// only the root of the subtree can lie inside.
    pub proof fn lemma_outside_subtree(self, id: u64, x: u64)
        requires
            self.wf(),
            self.nodes.contains_key(id),
            id != self.root_node_id,
            self.nodes.contains_key(x),
            !self.subtree(id).contains(x),
        ensures
            x != self.root_node_id ==> !self.subtree(id).contains(self.parent_id(x)),
            forall|s: Seq<char>| #[trigger]
                self.children_of(x).contains_key(s) && self.subtree(id).contains(
                    self.children_of(x)[s],
                ) ==> x == self.parent_id(id) && s == self.nodes[id].parent->0.path_segment,
    {
        assert(self.node_wf(x));
        assert(self.node_wf(id));
        assert forall|s: Seq<char>| #[trigger]
            self.children_of(x).contains_key(s) && self.subtree(id).contains(
                self.children_of(x)[s],
            ) implies x == self.parent_id(id) && s == self.nodes[id].parent->0.path_segment by {
            let c = self.children_of(x)[s];
            assert(self.node_wf(c));
        }
    }

    /// Taking out the subtree at a node other than the root leaves a
    /// well-formed tree.
    pub proof fn lemma_without_subtree_wf(self, id: u64)
        requires
            self.wf(),
            self.nodes.contains_key(id),
            id != self.root_node_id,
        ensures
            self.without_subtree(id).wf(),
            !self.subtree(id).contains(self.parent_id(id)),
            !self.subtree(id).contains(self.root_node_id),
    {
        let t = self.without_subtree(id);
        let gone = self.subtree(id);
        let up = self.nodes[id].parent->0;
        let p = up.node_id;
        assert(self.node_wf(id));
        assert(self.node_wf(p));
        assert(!gone.contains(p)) by {
            if self.is_ancestor_or_self(id, p) {
                self.lemma_ancestor_depth(id, p);
            }
        }
        assert(!gone.contains(self.root_node_id)) by {
            if self.is_ancestor_or_self(id, self.root_node_id) {
                self.lemma_ancestor_depth(id, self.root_node_id);
            }
        }
        assert(t.nodes.dom() =~= self.nodes.dom().difference(gone));
        assert(t.depth.dom() =~= t.nodes.dom());
        assert(t.children_of(p) =~= self.children_of(p).remove(up.path_segment));
        assert forall|x: u64| #[trigger] t.nodes.contains_key(x) implies t.node_wf(x) by {
            assert(self.node_wf(x));
            self.lemma_outside_subtree(id, x);
            if x != self.root_node_id {
                let e = self.nodes[x].parent->0;
                assert(self.children_of(e.node_id).contains_key(e.path_segment));
                assert(t.has_child(e.node_id, e.path_segment, x));
            }
            assert forall|s: Seq<char>| #[trigger]
                t.nodes[x].node.children().contains_key(s) implies {
                &&& s.len() > 0
                &&& t.nodes.contains_key(t.nodes[x].node.children()[s])
                &&& t.nodes[t.nodes[x].node.children()[s]].parent == Some(
                    HalfEdgeView { path_segment: s, node_id: x },
                )
            } by {
                assert(self.children_of(x).contains_key(s));
                let c = self.children_of(x)[s];
                assert(self.node_wf(c));
            }
        }
    }

    /// The nodes of a tree are those of the subtree at a node together with
    /// those that stay when the subtree leaves.
    pub proof fn lemma_subtree_sizes(self, id: u64)
        requires
            self.wf(),
            self.nodes.contains_key(id),
            id != self.root_node_id,
        ensures
            self.nodes.dom().len() == self.without_subtree(id).nodes.dom().len() + self.subtree_at(
                id,
            ).nodes.dom().len(),
    {
        let inside = self.subtree(id);
        let outside = self.nodes.dom().difference(inside);
        self.lemma_without_subtree_wf(id);
        self.lemma_subtree_at_wf(id);
        assert(self.without_subtree(id).nodes.dom() =~= outside);
        assert(self.subtree_at(id).nodes.dom() =~= inside);
        assert(inside.subset_of(self.nodes.dom()));
        vstd::set_lib::lemma_len_subset(inside, self.nodes.dom());
        vstd::set_lib::lemma_len_subset(outside, self.nodes.dom());
        assert(outside.disjoint(inside));
        assert(outside.union(inside) =~= self.nodes.dom());
        vstd::set_lib::lemma_set_disjoint_lens(outside, inside);
    }

    /// The subtree at a node is a well-formed tree of its own.
    pub proof fn lemma_subtree_at_wf(self, id: u64)
        requires
            self.wf(),
            self.nodes.contains_key(id),
        ensures
            self.subtree_at(id).wf(),
            self.subtree_at(id).nodes.dom() =~= self.subtree(id),
    {
        let t = self.subtree_at(id);
        let kept = self.subtree(id);
        assert(self.node_wf(id));
        assert(kept.contains(id));
        assert(t.nodes.dom() =~= kept);
        assert(t.depth.dom() =~= t.nodes.dom());
        assert(kept.subset_of(self.nodes.dom()));
        vstd::set_lib::lemma_len_subset(kept, self.nodes.dom());
        assert forall|x: u64| #[trigger] t.nodes.contains_key(x) implies t.node_wf(x) by {
            assert(self.node_wf(x));
            self.lemma_ancestor_depth(id, x);
            if x != id {
                let e = self.nodes[x].parent->0;
                assert(self.node_wf(e.node_id));
                assert(self.is_ancestor_or_self(id, e.node_id));
                self.lemma_ancestor_depth(id, e.node_id);
                assert(self.children_of(e.node_id).contains_key(e.path_segment));
                assert(t.has_child(e.node_id, e.path_segment, x));
            }
            assert forall|s: Seq<char>| #[trigger]
                t.nodes[x].node.children().contains_key(s) implies {
                &&& s.len() > 0
                &&& t.nodes.contains_key(t.nodes[x].node.children()[s])
                &&& t.nodes[t.nodes[x].node.children()[s]].parent == Some(
                    HalfEdgeView { path_segment: s, node_id: x },
                )
            } by {
                assert(self.children_of(x).contains_key(s));
                let c = self.children_of(x)[s];
                assert(self.node_wf(c));
                self.lemma_child_below(id, x, c);
            }
        }
    }
}

/// Return type when removing a node from the tree.
pub struct RemovedSubtree<G: NewNodeId> {
    /// New parent node.
    ///
    /// Updated parent node of the removed node that remains in the tree.
    pub parent_node: Arc<TreeNode>,
    /// Child path segment.
    ///
    /// Path segment between the parent node and its former child node,
    /// which has become the root node of the removed subtree.
    pub child_path_segment: String,
    /// Removed subtree.
    ///
    /// A new tree built from the removed node and all its descendants.
    pub removed_subtree: PathTree<G>,
}

impl<G: NewNodeId> PathTree<G> {
    /// Remove a node and its children from the tree.
    ///
    /// Removes and returns the entire subtree rooted at the given node. The
    /// node identifiers in the removed subtree remain unchanged, and its
    /// generator is a fork of this tree's.
    ///
    /// The root node cannot be removed. Returns `None`, with the tree
    /// unchanged, for the root node and for an identifier that the tree has
    /// no node for.
    pub fn remove_subtree_by_id(&mut self, node_id: u64) -> (r: Option<RemovedSubtree<G>>)
        requires
            old(self).wf(),
        ensures
            final(self).wf(),
            final(self).generator() == old(self).generator(),
            match r {
                None => {
                    &&& node_id == old(self)@.root_node_id || !old(self)@.nodes.contains_key(node_id)
                    &&& final(self)@ == old(self)@
                },
                Some(removed) => {
                    &&& node_id != old(self)@.root_node_id
                    &&& old(self)@.nodes.contains_key(node_id)
                    &&& final(self)@ == old(self)@.without_subtree(node_id)
                    &&& removed.removed_subtree.wf()
                    &&& removed.removed_subtree@ == old(self)@.subtree_at(node_id)
                    &&& old(self)@.nodes.dom().len() == final(self)@.nodes.dom().len()
                        + removed.removed_subtree@.nodes.dom().len()
                    &&& removed.removed_subtree.generator().issued() == old(
                        self,
                    ).generator().issued()
                    &&& removed.removed_subtree.generator().remaining() == old(
                        self,
                    ).generator().remaining()
                    &&& old(self)@.nodes[node_id].parent matches Some(up)
                    &&& removed.child_path_segment@ == up.path_segment
                    &&& removed.parent_node.id == up.node_id
                    &&& final(self)@.has_node(removed.parent_node@)
                },
            },
    {
        if node_id == self.root_node_id {
            return None;
        }
        let node = match self.nodes.get(node_id) {
            Some(node) => share(node),
            None => {
                return None;
            },
        };
        let ghost before = self@;
        let ghost gone = before.subtree(node_id);
        proof {
            before.lemma_without_subtree_wf(node_id);
            before.lemma_subtree_at_wf(node_id);
            before.lemma_subtree_sizes(node_id);
            assert(before.node_wf(node_id));
        }
        let descendant_node_ids = self.descendant_ids(node_id);
        // Split off the nodes of the subtree from the remaining nodes.
        let mut subtree_nodes = NodeMap::new();
        let mut i: usize = 0;
        while i < descendant_node_ids.len()
            invariant
                i <= descendant_node_ids@.len(),
                before.lists_descendants(node_id, descendant_node_ids@),
                self.nodes@ =~= before.nodes.remove_keys(
                    descendant_node_ids@.take(i as int).to_set(),
                ),
                subtree_nodes@ =~= before.nodes.restrict(
                    descendant_node_ids@.take(i as int).to_set(),
                ),
                self.root_node_id == before.root_node_id,
                self.new_node_id == old(self).new_node_id,
                self.depth@ == before.depth,
            decreases descendant_node_ids@.len() - i,
        {
            let id = descendant_node_ids[i];
            proof {
                let ids = descendant_node_ids@;
                assert(ids.to_set().contains(ids[i as int]));
                assert(!ids.take(i as int).to_set().contains(id)) by {
                    if ids.take(i as int).contains(id) {
                        let k = choose|k: int| 0 <= k < i && ids.take(i as int)[k] == id;
                        assert(ids[k] == ids[i as int]);
                    }
                }
                assert(ids.take(i + 1).to_set() =~= ids.take(i as int).to_set().insert(id)) by {
                    assert(ids.take(i + 1) =~= ids.take(i as int).push(id));
                    assert forall|x: u64| ids.take(i as int).to_set().insert(id).contains(
                        x,
                    ) implies ids.take(i + 1).to_set().contains(x) by {
                        if x == id {
                            assert(ids.take(i + 1)[i as int] == id);
                        } else {
                            let k = choose|k: int| 0 <= k < i && ids.take(i as int)[k] == x;
                            assert(ids.take(i + 1)[k] == x);
                        }
                    }
                }
            }
            let descendant = share(self.get_node(id));
            self.nodes.remove_mut(id);
            subtree_nodes.insert_mut(id, descendant);
            i = i + 1;
        }
        self.nodes.remove_mut(node_id);
        // Disconnect the subtree from the parent node.
        let up = match &node.parent {
            Some(up) => up,
            None => vstd::pervasive::unreached(),
        };
        proof {
            assert(descendant_node_ids@.take(descendant_node_ids@.len() as int)
                =~= descendant_node_ids@);
            assert(gone =~= before.descendants(node_id).insert(node_id));
            assert(self.nodes@ =~= before.nodes.remove_keys(gone));
            assert(before.node_wf(up.node_id));
        }
        let parent_node = self.get_node(up.node_id);
        let mut inner_node = match &parent_node.node {
            Node::Inner(inner_node) => inner_node.clone(),
            Node::Leaf(_) => vstd::pervasive::unreached(),
        };
        inner_node.children.remove_mut(up.path_segment.as_str());
        let new_parent_node = Arc::new(
            TreeNode {
                id: parent_node.id,
                parent: clone_parent(&parent_node.parent),
                node: Node::Inner(inner_node),
            },
        );
        self.nodes.insert_mut(up.node_id, share(&new_parent_node));
        proof {
            self.depth@ = before.depth.remove_keys(gone);
            assert(self@.nodes =~= before.without_subtree(node_id).nodes);
            assert(self@.nodes.dom().subset_of(old(self).generator().issued()));
        }
        // The node becomes the root of a tree of its own.
        let subtree_root_node = Arc::new(
            TreeNode { id: node.id, parent: None, node: node.node.clone() },
        );
        subtree_nodes.insert_mut(node_id, subtree_root_node);
        let removed_subtree = PathTree {
            root_node_id: node_id,
            nodes: subtree_nodes,
            new_node_id: self.new_node_id.fork(),
            depth: Ghost(before.subtree_at(node_id).depth),
        };
        proof {
            assert(before.nodes.restrict(before.descendants(node_id)).insert(
                node_id,
                before.nodes[node_id].with_parent(None),
            ) =~= before.subtree_at(node_id).nodes);
            assert(removed_subtree@.nodes =~= before.subtree_at(node_id).nodes);
            assert(gone.subset_of(before.nodes.dom()));
        }
        Some(
            RemovedSubtree {
                parent_node: new_parent_node,
                child_path_segment: up.path_segment.clone(),
                removed_subtree,
            },
        )
    }

    /// The identifiers of all descendants of node `id`, depth first: each
    /// once, and each after its parent.
    pub(crate) fn descendant_ids(&self, id: u64) -> (r: Vec<u64>)
        requires
            self.wf(),
            self@.nodes.contains_key(id),
        ensures
            self@.lists_descendants(id, r@),
            self@.descendants(id).finite(),
            self@.descendants(id).len() == r@.len(),
    {
        let edges = self.descendant_edges(id);
        let mut ids: Vec<u64> = Vec::new();
        let mut i: usize = 0;
        while i < edges.len()
            invariant
                i <= edges@.len(),
                ids@.len() == i,
                forall|k: int| 0 <= k < i ==> #[trigger] ids@[k] == edges@[k].node_id,
            decreases edges@.len() - i,
        {
            ids.push(edges[i].node_id);
            i = i + 1;
        }
        assert(ids@ =~= edge_targets(edges@));
        ids
    }
}

} // verus!
