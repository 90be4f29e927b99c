//! The mathematical model of a path tree and what it means for it to be
//! well-formed.

use vstd::prelude::*;
use crate::edge::HalfEdgeView;
use crate::node::{NodeValue, NodeView};
use crate::tree_node::TreeNodeView;

verus! {

/// Mathematical value of a path tree: the identifier of the root, the nodes
/// by identifier, and for each node the number of edges between it and the
/// root.
pub struct PathTreeView {
    pub root_node_id: u64,
    pub nodes: Map<u64, TreeNodeView>,
    pub depth: Map<u64, nat>,
}

impl PathTreeView {
    /// The identifier of the parent of `id`. Meaningful for a node that has a
    /// parent.
    pub open spec fn parent_id(self, id: u64) -> u64 {
        self.nodes[id].parent->0.node_id
    }

    /// The children of `id` by segment.
    pub open spec fn children_of(self, id: u64) -> Map<Seq<char>, u64> {
        self.nodes[id].node.children()
    }

    /// Whether `parent` has `child` as its child under `segment`.
    pub open spec fn has_child(self, parent: u64, segment: Seq<char>, child: u64) -> bool {
        self.nodes.contains_key(parent) && self.children_of(parent).get(segment) == Some(child)
    }

    /// What holds of each node of a well-formed tree.
    ///
    /// The node is entered under its own identifier. The root has no parent;
    /// every other node has one, is entered in the parent's children under
    /// the segment of its parent edge, and lies one edge deeper than the
    /// parent. Each child of the node is a node of the tree whose parent edge
    /// points back, and no segment is empty.
    pub open spec fn node_wf(self, id: u64) -> bool {
        let n = self.nodes[id];
        &&& n.id == id
        &&& self.depth.contains_key(id)
        &&& id == self.root_node_id ==> n.parent is None && self.depth[id] == 0
        &&& id != self.root_node_id ==> {
            &&& n.parent is Some
            &&& self.has_child(n.parent->0.node_id, n.parent->0.path_segment, id)
            &&& self.depth[id] == self.depth[n.parent->0.node_id] + 1
        }
        &&& n.node.children().dom().finite()
        &&& forall|s: Seq<char>| #[trigger]
            n.node.children().contains_key(s) ==> {
                &&& s.len() > 0
                &&& self.nodes.contains_key(n.node.children()[s])
                &&& self.nodes[n.node.children()[s]].parent == Some(
                    HalfEdgeView { path_segment: s, node_id: id },
                )
            }
    }

    /// Well-formedness: the root is a node of the tree, the tree is finite and
    /// every node is well-formed.
    pub open spec fn wf(self) -> bool {
        &&& self.nodes.dom().finite()
        &&& self.nodes.contains_key(self.root_node_id)
        &&& self.depth.dom() =~= self.nodes.dom()
        &&& forall|id: u64| #[trigger] self.nodes.contains_key(id) ==> self.node_wf(id)
    }

    /// Whether `a` lies on the way from `d` up to the root, `d` itself
    /// included.
    pub open spec fn is_ancestor_or_self(self, a: u64, d: u64) -> bool
        decreases self.depth[d],
    {
        d == a || {
            &&& self.nodes.contains_key(d)
            &&& self.nodes[d].parent is Some
            &&& self.depth[self.parent_id(d)] < self.depth[d]
            &&& self.is_ancestor_or_self(a, self.parent_id(d))
        }
    }

    /// The nodes of the subtree below and including `a`.
    pub open spec fn subtree(self, a: u64) -> Set<u64> {
        Set::new(|d: u64| self.nodes.contains_key(d) && self.is_ancestor_or_self(a, d))
    }

    /// The nodes strictly below `a`.
    pub open spec fn descendants(self, a: u64) -> Set<u64> {
        self.subtree(a).remove(a)
    }

    /// Follows `path` from node `cur`, starting with segment `i`, as far as
    /// children exist. Gives the node reached and the number of segments of
    /// `path` that lie behind it.
    pub open spec fn resolve_from(self, cur: u64, path: Seq<Seq<char>>, i: nat) -> (u64, nat)
        decreases path.len() - i,
    {
        if i >= path.len() {
            (cur, i)
        } else {
            match self.children_of(cur).get(path[i as int]) {
                Some(child) => self.resolve_from(child, path, i + 1),
                None => (cur, i),
            }
        }
    }

    /// Follows `path` from the root as far as children exist.
    pub open spec fn resolve(self, path: Seq<Seq<char>>) -> (u64, nat) {
        self.resolve_from(self.root_node_id, path, 0)
    }

    /// Every node lies at or below the root.
    pub proof fn lemma_root_reaches(self, d: u64)
        requires
            self.wf(),
            self.nodes.contains_key(d),
        ensures
            self.is_ancestor_or_self(self.root_node_id, d),
        decreases self.depth[d],
    {
        if d != self.root_node_id {
            assert(self.node_wf(d));
            let p = self.parent_id(d);
            assert(self.nodes.contains_key(p));
            self.lemma_root_reaches(p);
        }
    }

    /// An ancestor is a node of the tree and lies nearer to the root.
    pub proof fn lemma_ancestor_depth(self, a: u64, d: u64)
        requires
            self.wf(),
            self.nodes.contains_key(d),
            self.is_ancestor_or_self(a, d),
        ensures
            self.nodes.contains_key(a),
            self.depth[a] <= self.depth[d],
            a != d ==> self.depth[a] < self.depth[d],
        decreases self.depth[d],
    {
        if d != a {
            assert(self.node_wf(d));
            let p = self.parent_id(d);
            self.lemma_ancestor_depth(a, p);
        }
    }

    /// Being an ancestor is transitive.
    pub proof fn lemma_ancestor_trans(self, a: u64, b: u64, d: u64)
        requires
            self.wf(),
            self.nodes.contains_key(d),
            self.is_ancestor_or_self(a, b),
            self.is_ancestor_or_self(b, d),
        ensures
            self.is_ancestor_or_self(a, d),
        decreases self.depth[d],
    {
        if d != b {
            assert(self.node_wf(d));
            self.lemma_ancestor_trans(a, b, self.parent_id(d));
        }
    }

    /// Whether `node` is the node that the tree holds under the node's
    /// identifier.
    pub open spec fn has_node(self, node: TreeNodeView) -> bool {
        self.nodes.get(node.id) == Some(node)
    }

    /// The tree after the payload of node `id` was replaced by `value`.
    pub open spec fn with_node_value(self, id: u64, value: NodeValue) -> PathTreeView {
        PathTreeView { nodes: self.nodes.insert(id, self.nodes[id].with_value(value)), ..self }
    }

    /// The tree after a new node `id` with `value` became the child of
    /// `parent` under `segment`.
    pub open spec fn with_new_child(
        self,
        parent: u64,
        segment: Seq<char>,
        id: u64,
        value: NodeValue,
    ) -> PathTreeView {
        let child = TreeNodeView {
            id,
            parent: Some(HalfEdgeView { path_segment: segment, node_id: parent }),
            node: NodeView::from_value(value),
        };
        let new_parent = self.nodes[parent].with_node(
            self.nodes[parent].node.with_child(segment, id),
        );
        PathTreeView {
            root_node_id: self.root_node_id,
            nodes: self.nodes.insert(id, child).insert(parent, new_parent),
            depth: self.depth.insert(id, self.depth[parent] + 1),
        }
    }

    /// The tree after the child of `parent` under `old_segment` took `value`
    /// and moved to `segment`. With equal segments only the value changes.
    pub open spec fn with_child_value(
        self,
        parent: u64,
        old_segment: Seq<char>,
        segment: Seq<char>,
        value: NodeValue,
    ) -> PathTreeView {
        let id = self.children_of(parent)[old_segment];
        let child = self.nodes[id].with_value(value).with_parent(
            Some(HalfEdgeView { path_segment: segment, node_id: parent }),
        );
        let new_parent = self.nodes[parent].with_node(
            self.nodes[parent].node.without_child(old_segment).with_child(segment, id),
        );
        PathTreeView { nodes: self.nodes.insert(parent, new_parent).insert(id, child), ..self }
    }

    /// The node that a path leads to lies as deep as the path has led.
    pub proof fn lemma_resolve_depth(self, cur: u64, path: Seq<Seq<char>>, i: nat)
        requires
            self.wf(),
            self.nodes.contains_key(cur),
            i <= path.len(),
        ensures
            self.depth[self.resolve_from(cur, path, i).0] == self.depth[cur] + self.resolve_from(
                cur,
                path,
                i,
            ).1 - i,
        decreases path.len() - i,
    {
        if i < path.len() {
            assert(self.node_wf(cur));
            match self.children_of(cur).get(path[i as int]) {
                Some(child) => {
                    assert(self.children_of(cur).contains_key(path[i as int]));
                    assert(self.node_wf(child));
                    self.lemma_resolve_depth(child, path, i + 1);
                },
                None => {},
            }
        }
    }

    /// A path leads the same way in two trees that differ only in nodes
    /// which the first tree lacks or which lie at least as deep as the path
    /// is long.
    pub proof fn lemma_resolve_unchanged(
        self,
        other: PathTreeView,
        cur: u64,
        path: Seq<Seq<char>>,
        i: nat,
    )
        requires
            self.wf(),
            self.nodes.contains_key(cur),
            i <= path.len(),
            forall|y: u64|
                self.nodes.contains_key(y) && self.depth[y] < self.depth[cur] + path.len() - i
                    ==> #[trigger] other.children_of(y) == self.children_of(y),
        ensures
            other.resolve_from(cur, path, i) == self.resolve_from(cur, path, i),
        decreases path.len() - i,
    {
        if i < path.len() {
            assert(self.node_wf(cur));
            assert(other.children_of(cur) == self.children_of(cur));
            match self.children_of(cur).get(path[i as int]) {
                Some(child) => {
                    assert(self.children_of(cur).contains_key(path[i as int]));
                    assert(self.node_wf(child));
                    self.lemma_resolve_unchanged(other, child, path, i + 1);
                },
                None => {},
            }
        }
    }

    /// A path leads no further than it is followed: where it leads `k`
    /// segments far, its first `k` segments lead to the same node.
    pub proof fn lemma_resolve_take(self, cur: u64, path: Seq<Seq<char>>, i: nat)
        requires
            i <= path.len(),
        ensures
            i <= self.resolve_from(cur, path, i).1 <= path.len(),
            self.resolve_from(cur, path.take(self.resolve_from(cur, path, i).1 as int), i)
                == self.resolve_from(cur, path, i),
        decreases path.len() - i,
    {
        let k = self.resolve_from(cur, path, i).1;
        if i < path.len() {
            match self.children_of(cur).get(path[i as int]) {
                Some(child) => {
                    self.lemma_resolve_take(child, path, i + 1);
                    assert(path.take(k as int)[i as int] == path[i as int]);
                },
                None => {},
            }
        }
    }

    /// Replacing a payload by a value that the node accepts keeps the tree
    /// well-formed.
    pub proof fn lemma_with_node_value_wf(self, id: u64, value: NodeValue)
        requires
            self.wf(),
            self.nodes.contains_key(id),
            self.nodes[id].node.accepts(value),
        ensures
            self.with_node_value(id, value).wf(),
    {
        let t = self.with_node_value(id, value);
        assert(t.nodes.dom() =~= self.nodes.dom());
        assert(self.node_wf(id));
        let kept = t.children_of(id) == self.children_of(id);
        assert(!kept ==> t.children_of(id) =~= Map::<Seq<char>, u64>::empty()
            && !self.nodes[id].node.has_children());
        assert forall|x: u64| #[trigger] t.nodes.contains_key(x) implies t.node_wf(x) by {
            assert(self.node_wf(x));
            if x != self.root_node_id {
                let e = self.nodes[x].parent->0;
                if e.node_id == id {
                    assert(self.children_of(id).contains_key(e.path_segment));
                    assert(self.children_of(id).dom().contains(e.path_segment));
                }
            }
            assert forall|s: Seq<char>| #[trigger]
                t.nodes[x].node.children().contains_key(s) implies {
                &&& s.len() > 0
                &&& t.nodes.contains_key(t.nodes[x].node.children()[s])
                &&& t.nodes[t.nodes[x].node.children()[s]].parent == Some(
                    HalfEdgeView { path_segment: s, node_id: x },
                )
            } by {
                assert(self.nodes[x].node.children().contains_key(s));
            }
        }
    }

    /// Adding a new node below an inner node, under a free segment, keeps the
    /// tree well-formed.
    pub proof fn lemma_with_new_child_wf(
        self,
        parent: u64,
        segment: Seq<char>,
        id: u64,
        value: NodeValue,
    )
        requires
            self.wf(),
            self.nodes.contains_key(parent),
            self.nodes[parent].node is Inner,
            !self.children_of(parent).contains_key(segment),
            segment.len() > 0,
            !self.nodes.contains_key(id),
        ensures
            self.with_new_child(parent, segment, id, value).wf(),
    {
        let t = self.with_new_child(parent, segment, id, value);
        assert(t.nodes.dom() =~= self.nodes.dom().insert(id));
        assert(self.node_wf(parent));
        assert(t.children_of(parent) =~= self.children_of(parent).insert(segment, id));
        assert(t.children_of(id) =~= Map::<Seq<char>, u64>::empty());
        assert forall|x: u64| #[trigger] t.nodes.contains_key(x) implies t.node_wf(x) by {
            if x == id {
                assert(t.has_child(parent, segment, id));
            } else {
                assert(self.node_wf(x));
                if x != self.root_node_id {
                    let e = self.nodes[x].parent->0;
                    assert(self.children_of(e.node_id).contains_key(e.path_segment));
                    assert(t.has_child(e.node_id, e.path_segment, x));
                }
                assert forall|s: Seq<char>| #[trigger]
                    t.nodes[x].node.children().contains_key(s) implies {
                    &&& s.len() > 0
                    &&& t.nodes.contains_key(t.nodes[x].node.children()[s])
                    &&& t.nodes[t.nodes[x].node.children()[s]].parent == Some(
                        HalfEdgeView { path_segment: s, node_id: x },
                    )
                } by {
                    if !(x == parent && s == segment) {
                        assert(self.nodes[x].node.children().contains_key(s));
                    }
                }
            }
        }
    }

    /// Giving a child a value that it accepts, and moving it to a segment
    /// that is its own or free, keeps the tree well-formed.
    pub proof fn lemma_with_child_value_wf(
        self,
        parent: u64,
        old_segment: Seq<char>,
        segment: Seq<char>,
        value: NodeValue,
    )
        requires
            self.wf(),
            self.nodes.contains_key(parent),
            self.children_of(parent).contains_key(old_segment),
            self.nodes[self.children_of(parent)[old_segment]].node.accepts(value),
            segment.len() > 0,
            segment != old_segment ==> !self.children_of(parent).contains_key(segment),
        ensures
            self.with_child_value(parent, old_segment, segment, value).wf(),
    {
        let t = self.with_child_value(parent, old_segment, segment, value);
        let id = self.children_of(parent)[old_segment];
        assert(self.node_wf(parent));
        assert(self.node_wf(id));
        assert(id != parent);
        assert(t.nodes.dom() =~= self.nodes.dom());
        assert(t.children_of(parent) =~= self.children_of(parent).remove(old_segment).insert(
            segment,
            id,
        ));
        let kept = t.children_of(id) == self.children_of(id);
        assert(!kept ==> t.children_of(id) =~= Map::<Seq<char>, u64>::empty()
            && !self.nodes[id].node.has_children());
        assert forall|x: u64| #[trigger] t.nodes.contains_key(x) implies t.node_wf(x) by {
            assert(self.node_wf(x));
            if x == id {
                assert(t.has_child(parent, segment, id));
            } else if x != self.root_node_id {
                let e = self.nodes[x].parent->0;
                assert(self.children_of(e.node_id).contains_key(e.path_segment));
                if e.node_id == id {
                    assert(self.children_of(id).dom().contains(e.path_segment));
                }
                if e.node_id == parent {
                    assert(e.path_segment != old_segment);
                }
                assert(t.has_child(e.node_id, e.path_segment, x));
            }
            assert forall|s: Seq<char>| #[trigger]
                t.nodes[x].node.children().contains_key(s) implies {
                &&& s.len() > 0
                &&& t.nodes.contains_key(t.nodes[x].node.children()[s])
                &&& t.nodes[t.nodes[x].node.children()[s]].parent == Some(
                    HalfEdgeView { path_segment: s, node_id: x },
                )
            } by {
                if !(x == parent && s == segment) {
                    assert(self.nodes[x].node.children().contains_key(s));
                    if x == parent {
                        assert(s != old_segment);
                        assert(self.children_of(parent)[s] != id) by {
                            assert(self.nodes[self.children_of(parent)[s]].parent == Some(
                                HalfEdgeView { path_segment: s, node_id: parent },
                            ));
                            assert(self.nodes[id].parent == Some(
                                HalfEdgeView { path_segment: old_segment, node_id: parent },
                            ));
                        }
                    }
                }
            }
        }
    }
}

} // verus!
