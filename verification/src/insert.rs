//! Inserting or updating the node at a path: the ancestors that the path
//! needs are created on the way.

use vstd::prelude::*;
use std::sync::Arc;
use crate::error::{InsertOrUpdateNodeValueError, TreeNodeParentChildPathConflict};
use crate::model::PathTreeView;
use crate::node::{InnerNode, InnerValue, LeafValue, Node, NodeValue, NodeView};
use crate::node_id::NewNodeId;
use crate::node_map::NodeMap;
use crate::path::RootPath;
use crate::tree::{ParentChildTreeNode, PathTree};
use crate::tree_node::{clone_parent, share, shared_view, TreeNode};

verus! {

impl PathTreeView {
    /// The number of nodes that are missing for `path` to lead to a node.
    pub open spec fn missing_nodes(self, path: Seq<Seq<char>>) -> nat {
        (path.len() - self.resolve(path).1) as nat
    }

    /// The tree after the leaf `id` became an inner node with the value
    /// `converted`; the tree itself where nothing was converted.
    pub open spec fn with_inner_value(self, id: u64, converted: Option<u64>) -> PathTreeView {
        match converted {
            Some(value) => self.with_node_value(id, NodeValue::Inner(value)),
            None => self,
        }
    }

    /// The tree after a chain of new inner nodes was hung below `parent`: the
    /// first under `parent`, each further one under the one before. Node `i`
    /// of the chain has the identifier `ids[i]` and the value `values[i]` and
    /// hangs under `segments[i]`.
    pub open spec fn with_chain(
        self,
        parent: u64,
        segments: Seq<Seq<char>>,
        ids: Seq<u64>,
        values: Seq<u64>,
    ) -> PathTreeView
        decreases segments.len(),
    {
        if segments.len() == 0 {
            self
        } else {
            let above = if segments.len() == 1 {
                parent
            } else {
                ids[segments.len() - 2]
            };
            self.with_chain(
                parent,
                segments.drop_last(),
                ids.drop_last(),
                values.drop_last(),
            ).with_new_child(above, segments.last(), ids.last(), NodeValue::Inner(values.last()))
        }
    }

    /// Whether `converted`, `ids` and `values` fit the ancestors that the
    /// path `parents` lacks.
    ///
    /// The path is followed as far as it leads. Where it ends at a leaf,
    /// `converted` is the inner value that the leaf takes to become an inner
    /// node. For each remaining segment a new inner node is due: `ids` and
    /// `values` give their identifiers and values, from the top.
    pub open spec fn fits_missing_ancestors(
        self,
        parents: Seq<Seq<char>>,
        converted: Option<u64>,
        ids: Seq<u64>,
        values: Seq<u64>,
    ) -> bool {
        let (x, k) = self.resolve(parents);
        &&& ids.len() == parents.len() - k
        &&& values.len() == ids.len()
        &&& converted is Some <==> self.nodes[x].node is Leaf
    }

    /// The tree with the ancestors created that the path `parents` lacked:
    /// the leaf at which the path ended has become an inner node, and the
    /// chain of new inner nodes hangs below the node at which the path ended.
    pub open spec fn with_ancestors(
        self,
        parents: Seq<Seq<char>>,
        converted: Option<u64>,
        ids: Seq<u64>,
        values: Seq<u64>,
    ) -> PathTreeView {
        let (x, k) = self.resolve(parents);
        self.with_inner_value(x, converted).with_chain(x, parents.skip(k as int), ids, values)
    }

    /// The node at which the path `parents` ends once its ancestors were
    /// created: the last node of the chain, or the node that the path led to
    /// where nothing was missing.
    pub open spec fn last_ancestor(self, parents: Seq<Seq<char>>, ids: Seq<u64>) -> u64 {
        if ids.len() == 0 {
            self.resolve(parents).0
        } else {
            ids.last()
        }
    }

    /// Whether `after` is this tree with `value` inserted or updated below
    /// `parent` under `segment`: the child that sits there has taken the
    /// value, or `child` is a new node there.
    pub open spec fn child_upserted(
        self,
        after: PathTreeView,
        parent: u64,
        segment: Seq<char>,
        value: NodeValue,
        child: u64,
    ) -> bool {
        match self.children_of(parent).get(segment) {
            Some(id) => {
                &&& child == id
                &&& self.nodes[id].node.accepts(value)
                &&& after == self.with_child_value(parent, segment, segment, value)
            },
            None => {
                &&& !self.nodes.contains_key(child)
                &&& after == self.with_new_child(parent, segment, child, value)
            },
        }
    }

    /// A path and the path without its last segment lead the same way: the
    /// longer one goes one step further where the shorter one was matched in
    /// full and the last segment leads on.
    pub proof fn lemma_resolve_drop_last(self, cur: u64, path: Seq<Seq<char>>, i: nat)
        requires
            path.len() > 0,
            i <= path.len() - 1,
        ensures
            ({
                let (x, k) = self.resolve_from(cur, path.drop_last(), i);
                self.resolve_from(cur, path, i) == (if k == path.len() - 1 && self.children_of(
                    x,
                ).contains_key(path.last()) {
                    (self.children_of(x)[path.last()], path.len())
                } else {
                    (x, k)
                })
            }),
        decreases path.len() - i,
    {
        let parents = path.drop_last();
        if i < parents.len() {
            assert(parents[i as int] == path[i as int]);
            match self.children_of(cur).get(path[i as int]) {
                Some(child) => {
                    self.lemma_resolve_drop_last(child, path, i + 1);
                },
                None => {},
            }
        } else {
            match self.children_of(cur).get(path[i as int]) {
                Some(child) => {
                    assert(self.resolve_from(child, path, i + 1) == (child, i + 1));
                },
                None => {},
            }
        }
    }
}

/// What the walk to the parent of a path ends with: the parent node and the
/// last segment of the path. The path of the root has neither.
#[derive(Debug)]
pub struct TreeNodeParentChildContext<'a> {
    pub parent_node: Option<Arc<TreeNode>>,
    pub child_path_segment: Option<&'a str>,
}

/// Makes sure that `node` can have children.
///
/// An inner node comes back as it is. For a leaf the conversion is asked for
/// an inner value: with one, an inner node without children takes the place
/// of the leaf in `nodes` and is returned; without one, the leaf comes back
/// as the error and `nodes` stays as it was.
pub(crate) fn try_replace_leaf_with_inner_node<C: FnOnce(&LeafValue) -> Option<InnerValue>>(
    nodes: &mut NodeMap,
    node: Arc<TreeNode>,
    try_clone_leaf_into_inner_value: C,
) -> (r: Result<Arc<TreeNode>, Arc<TreeNode>>)
    requires
        node@.node matches NodeView::Leaf { value } ==> call_requires(
            try_clone_leaf_into_inner_value,
            (&value,),
        ),
    ensures
        match r {
            Ok(inner) => match node@.node {
                NodeView::Inner { .. } => inner == node && final(nodes)@ == old(nodes)@,
                NodeView::Leaf { value } => {
                    &&& inner@.node matches NodeView::Inner { value: inner_value, .. }
                    &&& call_ensures(try_clone_leaf_into_inner_value, (&value,), Some(inner_value))
                    &&& inner@ == node@.with_value(NodeValue::Inner(inner_value))
                    &&& final(nodes)@ == old(nodes)@.insert(node.id, inner@)
                },
            },
            Err(leaf) => {
                &&& leaf == node
                &&& node@.node matches NodeView::Leaf { value }
                &&& call_ensures(try_clone_leaf_into_inner_value, (&value,), None::<InnerValue>)
                &&& final(nodes)@ == old(nodes)@
            },
        },
{
    let converted = match &node.node {
        Node::Inner(_) => {
            return Ok(node);
        },
        Node::Leaf(leaf) => try_clone_leaf_into_inner_value(&leaf.value),
    };
    let inner_value = match converted {
        Some(inner_value) => inner_value,
        None => {
            // Keep this leaf node
            return Err(node);
        },
    };
    // Replace leaf node with empty inner node
    let inner_node = Arc::new(
        TreeNode {
            id: node.id,
            parent: clone_parent(&node.parent),
            node: Node::Inner(InnerNode::new(inner_value)),
        },
    );
    nodes.insert_mut(inner_node.id, share(&inner_node));
    Ok(inner_node)
}

impl<G: NewNodeId> PathTree<G> {
    /// Creates the ancestors that `child_path` lacks, down to the parent of
    /// the node that the path names.
    ///
    /// The path is followed from the root as far as it leads, its last
    /// segment left aside. Where it ends at a leaf, the leaf has to become
    /// an inner node: `try_clone_leaf_into_inner_value` is asked for the
    /// value, and where it gives none the call fails with the leaf and the
    /// segment that should have led on, and the tree stays as it was. For
    /// each remaining segment a new inner node is created, with a value from
    /// `new_inner_value`.
    ///
    /// Returns the parent node and the last segment. For the path of the root
    /// nothing is done and neither is returned.
    ///
    /// The generator has to have an identifier left for each node that is
    /// missing.
    pub fn create_missing_ancestor_nodes<
        'a,
        F: Fn() -> InnerValue,
        C: FnOnce(&LeafValue) -> Option<InnerValue>,
    >(
        &mut self,
        child_path: &'a RootPath,
        new_inner_value: F,
        try_clone_leaf_into_inner_value: C,
    ) -> (r: Result<TreeNodeParentChildContext<'a>, TreeNodeParentChildPathConflict>)
        requires
            old(self).wf(),
            child_path@.len() > 0 ==> {
                let parents = child_path@.drop_last();
                &&& old(self)@.missing_nodes(parents) > 0 ==> call_requires(new_inner_value, ())
                &&& old(self)@.nodes[old(self)@.resolve(parents).0].node matches NodeView::Leaf {
                    value,
                } ==> call_requires(try_clone_leaf_into_inner_value, (&value,))
                &&& old(self).generator().remaining() >= old(self)@.missing_nodes(parents)
            },
        ensures
            final(self).wf(),
            child_path@.len() == 0 ==> {
                &&& r matches Ok(context)
                &&& context.parent_node is None
                &&& context.child_path_segment is None
                &&& final(self)@ == old(self)@
                &&& final(self).generator() == old(self).generator()
            },
            child_path@.len() > 0 ==> {
                let parents = child_path@.drop_last();
                let (x, k) = old(self)@.resolve(parents);
                match r {
                    Ok(context) => {
                        &&& context.child_path_segment matches Some(segment) && segment@
                            == child_path@.last() && segment@.len() > 0
                        &&& context.parent_node matches Some(parent)
                        &&& final(self)@.has_node(parent@)
                        &&& parent@.node is Inner
                        &&& final(self)@.resolve(parents) == (parent.id, parents.len())
                        &&& exists|converted: Option<u64>, ids: Seq<u64>, values: Seq<u64>|
                            {
                                &&& #[trigger] old(self)@.fits_missing_ancestors(
                                    parents,
                                    converted,
                                    ids,
                                    values,
                                )
                                &&& final(self)@ == old(self)@.with_ancestors(
                                    parents,
                                    converted,
                                    ids,
                                    values,
                                )
                                &&& parent.id == old(self)@.last_ancestor(parents, ids)
                                &&& ids.len() > 0 ==> !parent@.node.has_children()
                                &&& ids.len() == 0 ==> final(self).generator() == old(
                                    self,
                                ).generator()
                                &&& converted matches Some(inner_value) ==> call_ensures(
                                    try_clone_leaf_into_inner_value,
                                    (&old(self)@.nodes[x].node->Leaf_value,),
                                    Some(inner_value),
                                )
                                &&& forall|j: int|
                                    0 <= j < values.len() ==> call_ensures(
                                        new_inner_value,
                                        (),
                                        #[trigger] values[j],
                                    )
                                &&& ids.no_duplicates()
                                &&& forall|j: int|
                                    0 <= j < ids.len() ==> !old(self).generator().issued().contains(
                                        #[trigger] ids[j],
                                    )
                                &&& final(self).generator().issued() == old(
                                    self,
                                ).generator().issued().union(ids.to_set())
                            }
                        &&& final(self).generator().remaining() == old(
                            self,
                        ).generator().remaining() - old(self)@.missing_nodes(parents)
                    },
                    Err(conflict) => {
                        &&& old(self)@.nodes[x].node matches NodeView::Leaf { value }
                        &&& call_ensures(
                            try_clone_leaf_into_inner_value,
                            (&value,),
                            None::<InnerValue>,
                        )
                        &&& conflict.parent_node@ == old(self)@.nodes[x]
                        &&& conflict.child_path_segment@ == child_path@[k as int]
                        &&& final(self)@ == old(self)@
                        &&& final(self).generator() == old(self).generator()
                    },
                }
            },
    {
        if child_path.is_root() {
            return Ok(TreeNodeParentChildContext { parent_node: None, child_path_segment: None });
        }
        let n = child_path.len();
        let m = n - 1;
        let ghost before = self@;
        let ghost parents = child_path@.drop_last();
        // Follow the path as far as it leads.
        let mut next_parent_node = share(self.root_node());
        let mut i: usize = 0;
        let mut found = true;
        while i < m && found
            invariant
                self.wf(),
                self@ == before,
                self.generator() == old(self).generator(),
                n == child_path@.len(),
                m == n - 1,
                parents == child_path@.drop_last(),
                i <= m,
                before.has_node(next_parent_node@),
                before.resolve(parents) == before.resolve_from(
                    next_parent_node.id,
                    parents,
                    i as nat,
                ),
                !found ==> i < m && !before.children_of(next_parent_node.id).contains_key(
                    parents[i as int],
                ),
            decreases m - i + (if found { 1int } else { 0int }),
        {
            proof {
                assert(before.node_wf(next_parent_node.id));
            }
            match next_parent_node.node.child_id(child_path.segment(i)) {
                Some(child_id) => {
                    assert(before.children_of(next_parent_node.id).contains_key(parents[i as int]));
                    next_parent_node = share(self.get_node(child_id));
                    i = i + 1;
                },
                None => {
                    found = false;
                },
            }
        }
        let ghost x = next_parent_node.id;
        let ghost k = i as nat;
        assert(before.resolve(parents) == (x, k));
        // The node at which the path ended has to be able to have children.
        let ghost was_leaf = next_parent_node@.node is Leaf;
        let mut next_parent_node = match try_replace_leaf_with_inner_node(
            &mut self.nodes,
            next_parent_node,
            try_clone_leaf_into_inner_value,
        ) {
            Ok(next_parent_node) => next_parent_node,
            Err(parent_node) => {
                return Err(
                    TreeNodeParentChildPathConflict {
                        parent_node,
                        child_path_segment: child_path.segment(i).to_owned(),
                    },
                );
            },
        };
        let ghost converted: Option<u64> = if was_leaf {
            Some(next_parent_node@.node->Inner_value)
        } else {
            None
        };
        let ghost base = before.with_inner_value(x, converted);
        proof {
            if was_leaf {
                before.lemma_with_node_value_wf(x, NodeValue::Inner(converted->0));
                assert(self@.nodes =~= base.nodes);
                assert(base.children_of(x) =~= Map::<Seq<char>, u64>::empty());
            }
            assert(self@ == base);
            assert(parents.subrange(k as int, k as int) =~= Seq::<Seq<char>>::empty());
            // the path leads to the node as before
            before.lemma_resolve_take(before.root_node_id, parents, 0);
            before.lemma_resolve_depth(before.root_node_id, parents.take(k as int), 0);
            assert(before.node_wf(before.root_node_id));
            assert forall|y: u64|
                before.nodes.contains_key(y) && before.depth[y] < k implies #[trigger] base.children_of(
                y,
            ) == before.children_of(y) by {}
            before.lemma_resolve_unchanged(base, before.root_node_id, parents.take(k as int), 0);
        }
        // Create the nodes that are missing.
        let ghost mut ids: Seq<u64> = Seq::empty();
        let ghost mut values: Seq<u64> = Seq::empty();
        while i < m
            invariant
                self.wf(),
                base.wf(),
                k < m ==> call_requires(new_inner_value, ()),
                n == child_path@.len(),
                m == n - 1,
                parents == child_path@.drop_last(),
                k <= i <= m,
                ids.len() == i - k,
                values.len() == i - k,
                self@ == base.with_chain(x, parents.subrange(k as int, i as int), ids, values),
                self@.resolve(parents.take(i as int)) == (next_parent_node.id, i as nat),
                self@.has_node(next_parent_node@),
                next_parent_node@.node is Inner,
                next_parent_node.id == (if ids.len() == 0 {
                    x
                } else {
                    ids.last()
                }),
                ids.len() > 0 ==> !next_parent_node@.node.has_children(),
                ids.len() == 0 ==> self.generator() == old(self).generator(),
                i < m ==> !next_parent_node@.node.children().contains_key(parents[i as int]),
                forall|j: int|
                    0 <= j < values.len() ==> call_ensures(new_inner_value, (), #[trigger] values[j]),
                ids.no_duplicates(),
                forall|j: int|
                    0 <= j < ids.len() ==> !old(self).generator().issued().contains(#[trigger] ids[j]),
                self.generator().issued() == old(self).generator().issued().union(ids.to_set()),
                self.generator().remaining() == old(self).generator().remaining() - (i - k),
                old(self).generator().remaining() >= m - k,
            decreases m - i,
        {
            let ghost prev = self@;
            let segment = child_path.segment(i);
            let value = new_inner_value();
            let child_node = match self.insert_or_update_child_node_value(
                &next_parent_node,
                segment,
                None,
                NodeValue::Inner(value),
            ) {
                Ok(done) => done.child_node,
                Err(_) => vstd::pervasive::unreached(),
            };
            proof {
                let id = child_node.id;
                let segments = parents.subrange(k as int, i + 1);
                let ids2 = ids.push(id);
                let values2 = values.push(value);
                assert(segments.drop_last() =~= parents.subrange(k as int, i as int));
                assert(ids2.drop_last() =~= ids);
                assert(values2.drop_last() =~= values);
                assert(segments.last() == segment@);
                assert(ids2.no_duplicates()) by {
                    assert forall|a: int, b: int|
                        0 <= a < ids2.len() && 0 <= b < ids2.len() && a != b implies ids2[a]
                        != ids2[b] by {
                        if a < ids.len() {
                            assert(ids.to_set().contains(ids[a]));
                        }
                        if b < ids.len() {
                            assert(ids.to_set().contains(ids[b]));
                        }
                    }
                }
                assert(ids2.to_set() =~= ids.to_set().insert(id)) by {
                    assert forall|y: u64|
                        ids.to_set().insert(id).contains(y) implies ids2.to_set().contains(y) by {
                        if y == id {
                            assert(ids2[ids.len() as int] == id);
                        } else {
                            let a = choose|a: int| 0 <= a < ids.len() && ids[a] == y;
                            assert(ids2[a] == y);
                        }
                    }
                }
                assert(self.generator().issued() =~= old(self).generator().issued().union(
                    ids2.to_set(),
                ));
                assert(child_node@.node.children() =~= Map::<Seq<char>, u64>::empty());
                // the path leads on to the new node
                let shorter = parents.take(i as int);
                let longer = parents.take(i + 1);
                prev.lemma_resolve_depth(prev.root_node_id, shorter, 0);
                assert(prev.node_wf(prev.root_node_id));
                assert forall|y: u64|
                    prev.nodes.contains_key(y) && prev.depth[y] < i implies #[trigger] self@.children_of(
                    y,
                ) == prev.children_of(y) by {}
                prev.lemma_resolve_unchanged(self@, prev.root_node_id, shorter, 0);
                assert(longer.drop_last() =~= shorter);
                assert(longer.last() == segment@);
                self@.lemma_resolve_drop_last(self@.root_node_id, longer, 0);
                ids = ids2;
                values = values2;
            }
            next_parent_node = child_node;
            i = i + 1;
        }
        proof {
            assert(parents.subrange(k as int, m as int) =~= parents.skip(k as int));
            assert(parents.take(m as int) =~= parents);
            assert(before.fits_missing_ancestors(parents, converted, ids, values));
            assert(self@ == before.with_ancestors(parents, converted, ids, values));
        }
        Ok(
            TreeNodeParentChildContext {
                parent_node: Some(next_parent_node),
                child_path_segment: Some(child_path.segment(m)),
            },
        )
    }

    /// Insert or update a node in the tree.
    ///
    /// All missing parent nodes are created recursively and initialized
    /// with the value returned by `new_inner_value`.
    ///
    /// If the path leads through a leaf node then that node is replaced
    /// with an inner node by calling `try_clone_leaf_into_inner_value`;
    /// where that gives no value, the call fails with a path conflict.
    ///
    /// Returns the updated parent node and the inserted/updated child node.
    /// The parent node is `None` if the root node has been updated.
    ///
    /// In case of an error the tree stays as it was and the new value is
    /// returned back to the caller.
    ///
    /// The generator has to have an identifier left for each node that is
    /// missing.
    pub fn insert_or_update_node_value<
        F: Fn() -> InnerValue,
        C: FnOnce(&LeafValue) -> Option<InnerValue>,
    >(
        &mut self,
        path: &RootPath,
        new_value: NodeValue,
        new_inner_value: F,
        try_clone_leaf_into_inner_value: C,
    ) -> (r: Result<ParentChildTreeNode, InsertOrUpdateNodeValueError>)
        requires
            old(self).wf(),
            path@.len() > 0 && old(self)@.missing_nodes(path@.drop_last()) > 0 ==> call_requires(
                new_inner_value,
                (),
            ),
            path@.len() > 0 ==> (old(self)@.nodes[old(self)@.resolve(
                path@.drop_last(),
            ).0].node matches NodeView::Leaf { value } ==> call_requires(
                try_clone_leaf_into_inner_value,
                (&value,),
            )),
            old(self).generator().remaining() >= old(self)@.missing_nodes(path@),
        ensures
            final(self).wf(),
            r matches Err(e) ==> {
                &&& e.value() == new_value
                &&& final(self)@ == old(self)@
                &&& final(self).generator() == old(self).generator()
            },
            path@.len() == 0 ==> {
                let root = old(self)@.root_node_id;
                match r {
                    Ok(done) => {
                        &&& old(self)@.nodes[root].node.accepts(new_value)
                        &&& final(self)@ == old(self)@.with_node_value(root, new_value)
                        &&& final(self).generator() == old(self).generator()
                        &&& done.parent_node is None
                        &&& done.child_node@ == final(self)@.nodes[root]
                        &&& done.replaced_child_node matches Some(replaced) && replaced@ == old(
                            self,
                        )@.nodes[root]
                    },
                    Err(e) => {
                        &&& e is ValueTypeMismatch
                        &&& !old(self)@.nodes[root].node.accepts(new_value)
                    },
                }
            },
            path@.len() > 0 ==> {
                let parents = path@.drop_last();
                let (x, k) = old(self)@.resolve(parents);
                match r {
                    Ok(done) => {
                        &&& done.parent_node matches Some(parent)
                        &&& final(self)@.has_node(parent@)
                        &&& final(self)@.has_node(done.child_node@)
                        &&& final(self)@.resolve(path@) == (done.child_node.id, path@.len())
                        &&& done.child_node@.node.value() == new_value
                        &&& exists|converted: Option<u64>, ids: Seq<u64>, values: Seq<u64>|
                            {
                                &&& #[trigger] old(self)@.fits_missing_ancestors(
                                    parents,
                                    converted,
                                    ids,
                                    values,
                                )
                                &&& parent.id == old(self)@.last_ancestor(parents, ids)
                                &&& old(self)@.with_ancestors(
                                    parents,
                                    converted,
                                    ids,
                                    values,
                                ).child_upserted(
                                    final(self)@,
                                    parent.id,
                                    path@.last(),
                                    new_value,
                                    done.child_node.id,
                                )
                                &&& shared_view(done.replaced_child_node) == (match old(
                                    self,
                                )@.with_ancestors(parents, converted, ids, values).children_of(
                                    parent.id,
                                ).get(path@.last()) {
                                    Some(id) => Some(
                                        old(self)@.with_ancestors(
                                            parents,
                                            converted,
                                            ids,
                                            values,
                                        ).nodes[id],
                                    ),
                                    None => None,
                                })
                                &&& converted matches Some(inner_value) ==> call_ensures(
                                    try_clone_leaf_into_inner_value,
                                    (&old(self)@.nodes[x].node->Leaf_value,),
                                    Some(inner_value),
                                )
                                &&& forall|j: int|
                                    0 <= j < values.len() ==> call_ensures(
                                        new_inner_value,
                                        (),
                                        #[trigger] values[j],
                                    )
                                &&& ids.no_duplicates()
                                &&& forall|j: int|
                                    0 <= j < ids.len() ==> !old(self).generator().issued().contains(
                                        #[trigger] ids[j],
                                    )
                                &&& final(self).generator().issued() == old(
                                    self,
                                ).generator().issued().union(ids.to_set()).union(
                                    if old(self)@.with_ancestors(
                                        parents,
                                        converted,
                                        ids,
                                        values,
                                    ).children_of(parent.id).contains_key(path@.last()) {
                                        Set::<u64>::empty()
                                    } else {
                                        Set::<u64>::empty().insert(done.child_node.id)
                                    },
                                )
                            }
                        &&& !old(self).generator().issued().contains(done.child_node.id)
                            || old(self)@.resolve(path@) == (done.child_node.id, path@.len())
                        &&& final(self).generator().remaining() == old(
                            self,
                        ).generator().remaining() - old(self)@.missing_nodes(path@)
                    },
                    Err(e) => match e {
                        InsertOrUpdateNodeValueError::PathConflict { conflict, .. } => {
                            &&& old(self)@.nodes[x].node matches NodeView::Leaf { value }
                            &&& call_ensures(
                                try_clone_leaf_into_inner_value,
                                (&value,),
                                None::<InnerValue>,
                            )
                            &&& conflict.parent_node@ == old(self)@.nodes[x]
                            &&& conflict.child_path_segment@ == path@[k as int]
                        },
                        InsertOrUpdateNodeValueError::ValueTypeMismatch { .. } => {
                            &&& old(self)@.resolve(path@).1 == path@.len()
                            &&& !old(self)@.nodes[old(self)@.resolve(path@).0].node.accepts(
                                new_value,
                            )
                        },
                    },
                }
            },
    {
        let ghost before = self@;
        proof {
            if path@.len() > 0 {
                before.lemma_resolve_drop_last(before.root_node_id, path@, 0);
                before.lemma_resolve_from(before.root_node_id, path@.drop_last(), 0);
                before.lemma_resolve_from(before.root_node_id, path@, 0);
            }
        }
        let context = match self.create_missing_ancestor_nodes(
            path,
            new_inner_value,
            try_clone_leaf_into_inner_value,
        ) {
            Ok(context) => context,
            Err(conflict) => {
                return Err(
                    InsertOrUpdateNodeValueError::PathConflict { conflict, value: new_value },
                );
            },
        };
        let parent_node = match context.parent_node {
            Some(parent_node) => parent_node,
            None => {
                // Update the root node.
                let old_root_node = share(self.root_node());
                return match self.update_node_value(&old_root_node, new_value) {
                    Ok(new_root_node) => Ok(
                        ParentChildTreeNode {
                            parent_node: None,
                            child_node: new_root_node,
                            replaced_child_node: Some(old_root_node),
                        },
                    ),
                    Err(e) => Err(InsertOrUpdateNodeValueError::from(e)),
                };
            },
        };
        let child_path_segment = match context.child_path_segment {
            Some(child_path_segment) => child_path_segment,
            None => vstd::pervasive::unreached(),
        };
        let ghost created = self@;
        let ghost parents = path@.drop_last();
        let ghost (converted, ids, values) = choose|
            converted: Option<u64>,
            ids: Seq<u64>,
            values: Seq<u64>,
        |
            {
                &&& #[trigger] before.fits_missing_ancestors(parents, converted, ids, values)
                &&& created == before.with_ancestors(parents, converted, ids, values)
                &&& parent_node.id == before.last_ancestor(parents, ids)
                &&& ids.len() > 0 ==> !parent_node@.node.has_children()
                &&& ids.len() == 0 ==> self.generator() == old(self).generator()
                &&& converted matches Some(inner_value) ==> call_ensures(
                    try_clone_leaf_into_inner_value,
                    (&before.nodes[before.resolve(parents).0].node->Leaf_value,),
                    Some(inner_value),
                )
                &&& forall|j: int|
                    0 <= j < values.len() ==> call_ensures(new_inner_value, (), #[trigger] values[j])
                &&& ids.no_duplicates()
                &&& forall|j: int|
                    0 <= j < ids.len() ==> !old(self).generator().issued().contains(#[trigger] ids[j])
                &&& self.generator().issued() == old(self).generator().issued().union(ids.to_set())
            };
        proof {
            // a parent that has the child was neither converted nor created
            if parent_node@.node.children().contains_key(child_path_segment@) {
                assert(parent_node@.node.children().dom().contains(child_path_segment@));
                assert(ids.len() == 0);
                if converted is Some {
                    assert(created.children_of(parent_node.id) =~= Map::<Seq<char>, u64>::empty());
                }
                assert(created == before);
            }
        }
        let ghost issued_before_child = self.generator().issued();
        let r = self.insert_or_update_child_node_value(
            &parent_node,
            child_path_segment,
            None,
            new_value,
        );
        proof {
            if r is Ok {
                let done = r->Ok_0;
                // the path leads to the child
                created.lemma_resolve_depth(created.root_node_id, parents, 0);
                assert(created.node_wf(created.root_node_id));
                assert forall|y: u64|
                    created.nodes.contains_key(y) && created.depth[y] < parents.len()
                        implies #[trigger] self@.children_of(y) == created.children_of(y) by {
                    if created.children_of(parent_node.id).contains_key(path@.last()) {
                        let c = created.children_of(parent_node.id)[path@.last()];
                        assert(created.node_wf(parent_node.id));
                        assert(created.node_wf(c));
                        if y == c {
                            assert(self@.nodes[c].node.children() =~= created.nodes[c].node.children());
                        }
                    }
                }
                created.lemma_resolve_unchanged(self@, created.root_node_id, parents, 0);
                self@.lemma_resolve_drop_last(self@.root_node_id, path@, 0);
                assert(before.fits_missing_ancestors(parents, converted, ids, values));
                assert(created.child_upserted(
                    self@,
                    parent_node.id,
                    path@.last(),
                    new_value,
                    done.child_node.id,
                ));
                if !created.children_of(parent_node.id).contains_key(path@.last()) {
                    assert(!issued_before_child.contains(done.child_node.id));
                }
            }
        }
        r
    }
}

} // verus!
