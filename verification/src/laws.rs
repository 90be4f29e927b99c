//! What holds of every well-formed tree and of what the operations make of
//! it, stated over the model.

use vstd::prelude::*;
use crate::edge::HalfEdgeView;
use crate::model::PathTreeView;
use crate::node::{NodeValue, NodeView};
use crate::tree::{MatchNodePath, MatchedNodePath};
use crate::tree_node::TreeNodeView;

verus! {

impl NodeView {
    /// The rule for replacing the value of a node.
    ///
    /// A leaf takes every value and has no children afterwards. An inner
    /// node takes every inner value and keeps its children. An inner node
    /// takes a leaf value exactly if it has no children.
    pub proof fn law_value_transition(self, value: NodeValue)
        ensures
            self is Leaf ==> self.accepts(value) && self.with_value(value) == NodeView::from_value(
                value,
            ),
            self is Inner && value is Inner ==> self.accepts(value) && self.with_value(value)
                == (NodeView::Inner { value: value->Inner_0, children: self.children() }),
            self is Inner && value is Leaf ==> (self.accepts(value) <==> !self.has_children()),
            self is Inner && value is Leaf && self.accepts(value) ==> self.with_value(value)
                == NodeView::from_value(value),
    {
        if self is Leaf {
            assert(self.children().dom() =~= Set::<Seq<char>>::empty());
        }
    }
}

impl PathTreeView {
    /// The root invariant: exactly one node of a well-formed tree has no
    /// parent, and that node is the root.
    pub proof fn law_root_is_the_only_node_without_parent(self)
        requires
            self.wf(),
        ensures
            self.nodes.contains_key(self.root_node_id),
            self.nodes[self.root_node_id].parent is None,
            forall|id: u64|
                self.nodes.contains_key(id) && (#[trigger] self.nodes[id]).parent is None ==> id
                    == self.root_node_id,
    {
        assert(self.node_wf(self.root_node_id));
        assert forall|id: u64|
            self.nodes.contains_key(id) && (#[trigger] self.nodes[id]).parent is None implies id
            == self.root_node_id by {
            assert(self.node_wf(id));
        }
    }

    /// The depths follow from the nodes: two well-formed trees with the same
    /// root and the same nodes agree on how deep each node lies.
    pub proof fn law_depth_follows_from_nodes(self, other: PathTreeView)
        requires
            self.wf(),
            other.wf(),
            self.root_node_id == other.root_node_id,
            self.nodes == other.nodes,
        ensures
            self == other,
    {
        assert forall|id: u64| self.nodes.contains_key(id) implies self.depth[id]
            == other.depth[id] by {
            self.lemma_same_depth(other, id);
        }
        assert(self.depth =~= other.depth);
    }

    /// A node lies as deep in one well-formed tree as in another with the
    /// same root and the same nodes.
    proof fn lemma_same_depth(self, other: PathTreeView, id: u64)
        requires
            self.wf(),
            other.wf(),
            self.root_node_id == other.root_node_id,
            self.nodes == other.nodes,
            self.nodes.contains_key(id),
        ensures
            self.depth[id] == other.depth[id],
        decreases self.depth[id],
    {
        assert(self.node_wf(id));
        assert(other.node_wf(id));
        if id != self.root_node_id {
            self.lemma_same_depth(other, self.parent_id(id));
        }
    }

    /// The count invariant: a well-formed tree has one node more than its
    /// root has descendants.
    pub proof fn law_count_is_one_more_than_descendants(self)
        requires
            self.wf(),
        ensures
            self.nodes.dom().len() == 1 + self.descendants(self.root_node_id).len(),
    {
        self.lemma_descendants_of_root();
    }

    /// Renaming a child: a value inserted below `parent` under the segment
    /// `a` and then updated with the old segment `a` and the new segment `b`
    /// yields a child with the same identifier, which sits under `b` and no
    /// longer under `a`.
    pub proof fn law_rename_round_trip(
        self,
        parent: u64,
        a: Seq<char>,
        b: Seq<char>,
        id: u64,
        first: NodeValue,
        second: NodeValue,
    )
        requires
            self.wf(),
            self.nodes.contains_key(parent),
            self.nodes[parent].node is Inner,
            !self.nodes.contains_key(id),
            a.len() > 0,
            b.len() > 0,
            a != b,
            !self.children_of(parent).contains_key(a),
            !self.children_of(parent).contains_key(b),
        ensures
            ({
                let inserted = self.with_new_child(parent, a, id, first);
                let renamed = inserted.with_child_value(parent, a, b, second);
                &&& inserted.wf()
                &&& inserted.children_of(parent).get(a) == Some(id)
                &&& inserted.nodes[id].node.accepts(second)
                &&& renamed.wf()
                &&& renamed.children_of(parent).get(b) == Some(id)
                &&& !renamed.children_of(parent).contains_key(a)
                &&& renamed.nodes[id].id == id
                &&& renamed.nodes[id].node == NodeView::from_value(second)
                &&& renamed.nodes[id].parent == Some(
                    HalfEdgeView { path_segment: b, node_id: parent },
                )
                &&& renamed.nodes.dom() =~= inserted.nodes.dom()
            }),
    {
        let inserted = self.with_new_child(parent, a, id, first);
        self.lemma_with_new_child_wf(parent, a, id, first);
        assert(self.node_wf(parent));
        assert(inserted.nodes[id].node.children().dom() =~= Set::<Seq<char>>::empty());
        inserted.lemma_with_child_value_wf(parent, a, b, second);
    }

    /// Renaming a child, seen from the root: after the rename the path to
    /// the parent followed by `b` leads to the child, and followed by `a` it
    /// ends at the parent.
    pub proof fn law_rename_moves_the_path(
        self,
        to_parent: Seq<Seq<char>>,
        a: Seq<char>,
        b: Seq<char>,
        id: u64,
        first: NodeValue,
        second: NodeValue,
    )
        requires
            self.wf(),
            self.resolve(to_parent).1 == to_parent.len(),
            self.nodes[self.resolve(to_parent).0].node is Inner,
            !self.nodes.contains_key(id),
            a.len() > 0,
            b.len() > 0,
            a != b,
            !self.children_of(self.resolve(to_parent).0).contains_key(a),
            !self.children_of(self.resolve(to_parent).0).contains_key(b),
        ensures
            ({
                let parent = self.resolve(to_parent).0;
                let inserted = self.with_new_child(parent, a, id, first);
                let renamed = inserted.with_child_value(parent, a, b, second);
                &&& inserted.resolve(to_parent.push(a)) == (id, to_parent.len() + 1)
                &&& renamed.resolve(to_parent.push(b)) == (id, to_parent.len() + 1)
                &&& renamed.resolve(to_parent.push(a)) == (parent, to_parent.len())
            }),
    {
        let parent = self.resolve(to_parent).0;
        let root = self.root_node_id;
        let inserted = self.with_new_child(parent, a, id, first);
        let renamed = inserted.with_child_value(parent, a, b, second);
        self.lemma_resolve_from(root, to_parent, 0);
        self.lemma_resolve_depth(root, to_parent, 0);
        self.law_rename_round_trip(parent, a, b, id, first, second);
        assert(self.node_wf(root));
        assert forall|y: u64|
            self.nodes.contains_key(y) && self.depth[y] < to_parent.len()
                implies #[trigger] inserted.children_of(y) == self.children_of(y)
            && #[trigger] renamed.children_of(y) == self.children_of(y) by {}
        self.lemma_resolve_unchanged(inserted, root, to_parent, 0);
        self.lemma_resolve_unchanged(renamed, root, to_parent, 0);
        assert(to_parent.push(a).drop_last() =~= to_parent);
        assert(to_parent.push(b).drop_last() =~= to_parent);
        inserted.lemma_resolve_drop_last(root, to_parent.push(a), 0);
        renamed.lemma_resolve_drop_last(root, to_parent.push(b), 0);
        renamed.lemma_resolve_drop_last(root, to_parent.push(a), 0);
    }

    /// The boundary between a partial and a full match: where a path leads
    /// to a node in full and that node has no child under `next`, the path
    /// with `next` appended is matched in part, by as many segments as the
    /// path has, and is not matched in full. A path without segments gives
    /// no partial match.
    pub proof fn law_partial_match_boundary(self, path: Seq<Seq<char>>, next: Seq<char>)
        requires
            self.wf(),
            self.resolve(path).1 == path.len(),
            !self.children_of(self.resolve(path).0).contains_key(next),
            path.len() < usize::MAX,
        ensures
            self.resolved(path.push(next), MatchNodePath::Full) is None,
            path.len() > 0 ==> self.resolved(path.push(next), MatchNodePath::PartialOrFull) == Some(
                (
                    self.resolve(path).0,
                    MatchedNodePath::Partial { number_of_matched_segments: path.len() as usize },
                ),
            ),
            path.len() == 0 ==> self.resolved(path.push(next), MatchNodePath::PartialOrFull) is None,
    {
        assert(path.push(next).drop_last() =~= path);
        self.lemma_resolve_drop_last(self.root_node_id, path.push(next), 0);
    }

    /// Sharing: an operation leaves the nodes beside the ones it works on as
    /// they are. Replacing a value touches the node itself; a new child, and
    /// a child that takes a value or moves, touch the child and its parent;
    /// a subtree that leaves touches its nodes and the parent of its root.
    pub proof fn law_untouched_nodes_stay(
        self,
        x: u64,
        id: u64,
        parent: u64,
        segment: Seq<char>,
        old_segment: Seq<char>,
        value: NodeValue,
    )
        requires
            self.nodes.contains_key(x),
        ensures
            x != id ==> self.with_node_value(id, value).nodes.get(x) == Some(self.nodes[x]),
            x != id && x != parent ==> self.with_new_child(parent, segment, id, value).nodes.get(x)
                == Some(self.nodes[x]),
            x != parent && x != self.children_of(parent)[old_segment] ==> self.with_child_value(
                parent,
                old_segment,
                segment,
                value,
            ).nodes.get(x) == Some(self.nodes[x]),
            !self.subtree(id).contains(x) && x != self.parent_id(id) ==> self.without_subtree(
                id,
            ).nodes.get(x) == Some(self.nodes[x]),
    {
    }

    /// Giving way: where a child is inserted, updated or grafted below
    /// `parent` under `segment` and is looked up under another segment, the
    /// child that sits under `segment` leaves the tree with its descendants.
    /// Every other node but the parent stays what it was, the tree stays
    /// well-formed, and so the count invariant holds of it.
    pub proof fn law_child_gives_way(self, parent: u64, lookup: Seq<char>, segment: Seq<char>, x: u64)
        requires
            self.wf(),
            self.nodes.contains_key(parent),
            self.nodes.contains_key(x),
            lookup != segment,
            self.children_of(parent).contains_key(segment),
        ensures
            ({
                let freed = self.with_slot_freed(parent, lookup, segment);
                let gone = self.subtree(self.children_of(parent)[segment]);
                &&& freed.wf()
                &&& !freed.children_of(parent).contains_key(segment)
                &&& freed.nodes.contains_key(x) <==> !gone.contains(x)
                &&& !gone.contains(x) && x != parent ==> freed.nodes[x] == self.nodes[x]
                &&& freed.nodes.dom().len() == 1 + freed.descendants(freed.root_node_id).len()
                &&& self.nodes.dom().len() == freed.nodes.dom().len() + gone.len()
            }),
    {
        let d = self.children_of(parent)[segment];
        assert(self.node_wf(parent));
        assert(self.node_wf(d));
        self.lemma_with_slot_freed(parent, lookup, segment);
        self.lemma_without_subtree_wf(d);
        self.lemma_subtree_sizes(d);
        self.lemma_subtree_at_wf(d);
        self.with_slot_freed(parent, lookup, segment).lemma_descendants_of_root();
    }

    /// The node under other identifiers: the value stays, the node itself,
    /// its parent and its children are named as `ids` says.
    pub open spec fn renamed_node(node: TreeNodeView, ids: Map<u64, u64>) -> TreeNodeView {
        TreeNodeView {
            id: ids[node.id],
            parent: match node.parent {
                Some(up) => Some(
                    HalfEdgeView { path_segment: up.path_segment, node_id: ids[up.node_id] },
                ),
                None => None,
            },
            node: match node.node {
                NodeView::Leaf { value } => NodeView::Leaf { value },
                NodeView::Inner { value, children } => NodeView::Inner {
                    value,
                    children: Map::new(
                        |s: Seq<char>| children.contains_key(s),
                        |s: Seq<char>| ids[children[s]],
                    ),
                },
            },
        }
    }

    /// Whether `other` is this tree under other identifiers: `ids` maps the
    /// nodes of this tree one to one onto the nodes of `other`, the root to
    /// the root, and each node has the same value, the same parent and the
    /// same children under the same segments.
    pub open spec fn same_up_to_ids(self, other: PathTreeView, ids: Map<u64, u64>) -> bool {
        &&& ids.dom() =~= self.nodes.dom()
        &&& forall|i: u64, j: u64|
            self.nodes.contains_key(i) && self.nodes.contains_key(j) && #[trigger] ids[i]
                == #[trigger] ids[j] ==> i == j
        &&& forall|y: u64| #[trigger]
            other.nodes.contains_key(y) <==> exists|i: u64|
                self.nodes.contains_key(i) && #[trigger] ids[i] == y
        &&& other.root_node_id == ids[self.root_node_id]
        &&& forall|i: u64|
            self.nodes.contains_key(i) ==> other.nodes[#[trigger] ids[i]] == Self::renamed_node(
                self.nodes[i],
                ids,
            )
    }

    /// The identifiers after a subtree was removed and grafted back: the
    /// nodes of the subtree have the identifiers of their copies, all other
    /// nodes have kept theirs.
    pub open spec fn ids_after_regraft(self, x: u64, copies: Map<u64, u64>) -> Map<u64, u64> {
        Map::new(
            |i: u64| self.nodes.contains_key(i),
            |i: u64|
                if self.subtree(x).contains(i) {
                    copies[i]
                } else {
                    i
                },
        )
    }

    /// In a tree under other identifiers every path leads as far, and to the
    /// node that stands for the one it led to.
    pub proof fn lemma_same_paths(
        self,
        other: PathTreeView,
        ids: Map<u64, u64>,
        cur: u64,
        path: Seq<Seq<char>>,
        i: nat,
    )
        requires
            self.wf(),
            self.same_up_to_ids(other, ids),
            self.nodes.contains_key(cur),
            i <= path.len(),
        ensures
            other.resolve_from(ids[cur], path, i) == (
                ids[self.resolve_from(cur, path, i).0],
                self.resolve_from(cur, path, i).1,
            ),
        decreases path.len() - i,
    {
        if i < path.len() {
            assert(self.node_wf(cur));
            assert(other.nodes[ids[cur]] == Self::renamed_node(self.nodes[cur], ids));
            match self.children_of(cur).get(path[i as int]) {
                Some(child) => {
                    assert(self.children_of(cur).contains_key(path[i as int]));
                    assert(other.children_of(ids[cur]).get(path[i as int]) == Some(ids[child]));
                    self.lemma_same_paths(other, ids, child, path, i + 1);
                },
                None => {
                    assert(!other.children_of(ids[cur]).contains_key(path[i as int]));
                },
            }
        }
    }

    /// Removing and grafting back: a subtree that was removed and grafted in
    /// again below its former parent, under its former segment, gives the
    /// tree that was there before, under other identifiers for the nodes of
    /// the subtree.
    pub proof fn law_remove_then_graft(self, x: u64, after: PathTreeView, copies: Map<u64, u64>)
        requires
            self.wf(),
            self.nodes.contains_key(x),
            x != self.root_node_id,
            self.without_subtree(x).grafted(
                after,
                self.parent_id(x),
                self.nodes[x].parent->0.path_segment,
                self.nodes[x].parent->0.path_segment,
                self.subtree_at(x),
                copies,
            ),
        ensures
            self.same_up_to_ids(after, self.ids_after_regraft(x, copies)),
    {
        reveal(PathTreeView::grafting);
        let p = self.parent_id(x);
        let segment = self.nodes[x].parent->0.path_segment;
        let rest = self.without_subtree(x);
        let sub = self.subtree_at(x);
        let top = copies[x];
        let rooted = rest.with_graft_root(p, segment, segment, sub, top);
        let ids = self.ids_after_regraft(x, copies);
        let inside = self.subtree(x);
        self.lemma_without_subtree_wf(x);
        self.lemma_subtree_at_wf(x);
        assert(self.node_wf(x));
        assert(self.node_wf(p));
        assert(!rest.children_of(p).contains_key(segment));
        assert(rooted == rest.with_new_child(p, segment, top, sub.nodes[x].node.value()));
        assert(sub.nodes.dom() =~= inside);
        assert(rest.nodes.dom() =~= self.nodes.dom().difference(inside));
        let hang = rooted.nodes[top].parent;
        assert(hang == Some(HalfEdgeView { path_segment: segment, node_id: p }));
        // one to one
        assert forall|i: u64, j: u64|
            self.nodes.contains_key(i) && self.nodes.contains_key(j) && #[trigger] ids[i]
                == #[trigger] ids[j] implies i == j by {
            if inside.contains(i) && !inside.contains(j) {
                assert(rooted.nodes.contains_key(j));
                if i != x {
                    assert(!rooted.nodes.contains_key(copies[i]));
                }
            }
            if inside.contains(j) && !inside.contains(i) {
                assert(rooted.nodes.contains_key(i));
                if j != x {
                    assert(!rooted.nodes.contains_key(copies[j]));
                }
            }
        }
        // onto
        assert forall|y: u64| #[trigger]
            after.nodes.contains_key(y) <==> exists|i: u64|
                self.nodes.contains_key(i) && #[trigger] ids[i] == y by {
            if after.nodes.contains_key(y) {
                if rooted.nodes.contains_key(y) {
                    if y == top {
                        assert(self.nodes.contains_key(x) && ids[x] == y);
                    } else {
                        assert(rest.nodes.contains_key(y));
                        assert(self.nodes.contains_key(y) && ids[y] == y);
                    }
                } else {
                    let i = choose|i: u64| sub.nodes.dom().contains(i) && #[trigger] copies[i] == y;
                    assert(self.nodes.contains_key(i) && ids[i] == y);
                }
            }
            if exists|i: u64| self.nodes.contains_key(i) && #[trigger] ids[i] == y {
                let i = choose|i: u64| self.nodes.contains_key(i) && #[trigger] ids[i] == y;
                if inside.contains(i) {
                    assert(sub.nodes.dom().contains(i) && copies[i] == y);
                } else {
                    assert(rooted.nodes.contains_key(y));
                }
            }
        }
        // each node is what it was
        assert forall|i: u64| self.nodes.contains_key(i) implies after.nodes[#[trigger] ids[i]]
            == Self::renamed_node(self.nodes[i], ids) by {
            let was = self.nodes[i];
            let want = Self::renamed_node(was, ids);
            assert(self.node_wf(i));
            if inside.contains(i) {
                let copy = sub.copy_of(copies, sub.nodes.dom(), hang, i);
                assert(after.nodes[copies[i]] == copy);
                self.lemma_ancestor_depth(x, i);
                if i != x {
                    assert(self.is_ancestor_or_self(x, self.parent_id(i)));
                    assert(inside.contains(self.parent_id(i)));
                } else {
                    assert(!inside.contains(p));
                }
                assert(copy.node.children() =~= want.node.children()) by {
                    assert forall|s: Seq<char>| #[trigger]
                        was.node.children().contains_key(s) implies inside.contains(
                        was.node.children()[s],
                    ) by {
                        let c = was.node.children()[s];
                        assert(self.node_wf(c));
                        self.lemma_child_below(x, i, c);
                    }
                }
                assert(copy == want);
            } else {
                self.lemma_outside_subtree(x, i);
                assert(rest.nodes.contains_key(i));
                assert(i != top);
                assert(after.nodes[i] == rooted.nodes[i]);
                if i != self.root_node_id {
                    assert(!inside.contains(self.parent_id(i)));
                }
                assert(rooted.nodes[i].node.children() =~= want.node.children()) by {
                    assert forall|s: Seq<char>| #[trigger]
                        was.node.children().contains_key(s) implies (if i == p && s == segment {
                        was.node.children()[s] == x
                    } else {
                        !inside.contains(was.node.children()[s])
                    }) by {}
                }
                assert(rooted.nodes[i] == want);
            }
        }
        assert(after.root_node_id == ids[self.root_node_id]);
    }

    /// Removing and grafting back, seen from the root: afterwards every path
    /// leads as far as before, and where it leads to a node, that node has
    /// the value that the node there had before.
    pub proof fn law_remove_then_graft_keeps_values(
        self,
        x: u64,
        after: PathTreeView,
        copies: Map<u64, u64>,
        path: Seq<Seq<char>>,
    )
        requires
            self.wf(),
            self.nodes.contains_key(x),
            x != self.root_node_id,
            self.without_subtree(x).grafted(
                after,
                self.parent_id(x),
                self.nodes[x].parent->0.path_segment,
                self.nodes[x].parent->0.path_segment,
                self.subtree_at(x),
                copies,
            ),
        ensures
            after.resolve(path).1 == self.resolve(path).1,
            after.nodes[after.resolve(path).0].node.value() == self.nodes[self.resolve(
                path,
            ).0].node.value(),
            after.nodes.dom().len() == self.nodes.dom().len(),
    {
        let ids = self.ids_after_regraft(x, copies);
        self.law_remove_then_graft(x, after, copies);
        self.lemma_same_paths(after, ids, self.root_node_id, path, 0);
        self.lemma_resolve_from(self.root_node_id, path, 0);
        let reached = self.resolve(path).0;
        assert(after.nodes[ids[reached]] == Self::renamed_node(self.nodes[reached], ids));
        self.lemma_same_size(after, ids);
    }

    /// A tree under other identifiers has as many nodes.
    pub proof fn lemma_same_size(self, other: PathTreeView, ids: Map<u64, u64>)
        requires
            self.wf(),
            self.same_up_to_ids(other, ids),
        ensures
            other.nodes.dom().len() == self.nodes.dom().len(),
            other.nodes.dom().finite(),
    {
        let f = |i: u64| ids[i];
        assert(other.nodes.dom() =~= self.nodes.dom().map(f)) by {
            assert forall|y: u64| other.nodes.dom().contains(y) implies self.nodes.dom().map(
                f,
            ).contains(y) by {
                let i = choose|i: u64| self.nodes.contains_key(i) && #[trigger] ids[i] == y;
                assert(self.nodes.dom().contains(i) && f(i) == y);
            }
            assert forall|y: u64| self.nodes.dom().map(f).contains(y) implies other.nodes.dom().contains(
                y,
            ) by {
                let i = choose|i: u64| self.nodes.dom().contains(i) && y == f(i);
                assert(self.nodes.contains_key(i) && ids[i] == y);
            }
        }
        assert(vstd::relations::injective_on(f, self.nodes.dom())) by {
            assert forall|a: u64, b: u64|
                self.nodes.dom().contains(a) && self.nodes.dom().contains(b) && #[trigger] f(a)
                    == #[trigger] f(b) implies a == b by {
                assert(ids[a] == ids[b]);
            }
        }
        vstd::set_lib::lemma_map_size(self.nodes.dom(), other.nodes.dom(), f);
    }
}

} // verus!
