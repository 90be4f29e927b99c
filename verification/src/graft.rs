//! Grafting a tree into another tree as a subtree.

use vstd::prelude::*;
use std::collections::HashMap;
use std::sync::Arc;
use crate::edge::HalfEdgeView;
use crate::error::InsertOrUpdateNodeValueError;
use crate::model::PathTreeView;
use crate::node::{Node, NodeView};
use crate::node_id::NewNodeId;
use crate::tree::{lookup_segment, PathTree};
use crate::tree_node::{share, TreeNode, TreeNodeView};

verus! {

broadcast use vstd::std_specs::hash::group_hash_axioms;

/// One more entry under a new key adds its value to the values of a map.
proof fn lemma_values_insert(m: Map<u64, u64>, k: u64, v: u64)
    requires
        !m.contains_key(k),
    ensures
        m.insert(k, v).values() =~= m.values().insert(v),
{
    let more = m.insert(k, v);
    assert forall|y: u64| m.values().insert(v).contains(y) implies more.values().contains(y) by {
        if y == v {
            assert(more.contains_key(k) && more[k] == y);
        } else {
            let j = choose|j: u64| m.contains_key(j) && #[trigger] m[j] == y;
            assert(more.contains_key(j) && more[j] == y);
        }
    }
    assert forall|y: u64| more.values().contains(y) implies m.values().insert(v).contains(y) by {
        let j = choose|j: u64| more.contains_key(j) && #[trigger] more[j] == y;
        if j != k {
            assert(m.contains_key(j) && m[j] == y);
        }
    }
}

impl PathTreeView {
    /// The copy of node `i` of the tree under the new identifiers `ids`.
    ///
    /// The copy has the value of the node. Its parent is the copy of the
    /// node's parent, under the same segment; the copy of the root hangs on
    /// `top`. Of the node's children it has the copies of those in `done`.
    pub open spec fn copy_of(
        self,
        ids: Map<u64, u64>,
        done: Set<u64>,
        top: Option<HalfEdgeView>,
        i: u64,
    ) -> TreeNodeView {
        let n = self.nodes[i];
        TreeNodeView {
            id: ids[i],
            parent: if i == self.root_node_id {
                top
            } else {
                Some(
                    HalfEdgeView {
                        path_segment: n.parent->0.path_segment,
                        node_id: ids[n.parent->0.node_id],
                    },
                )
            },
            node: match n.node {
                NodeView::Leaf { value } => NodeView::Leaf { value },
                NodeView::Inner { value, children } => NodeView::Inner {
                    value,
                    children: Map::new(
                        |s: Seq<char>| children.contains_key(s) && done.contains(children[s]),
                        |s: Seq<char>| ids[children[s]],
                    ),
                },
            },
        }
    }

    /// Whether `after` is this tree together with copies of the nodes `done`
    /// of the tree `sub`, under the new identifiers `ids`.
    ///
    /// This tree holds the copy of the root of `sub` already, without
    /// children. Every other copy has an identifier that this tree has no
    /// node for, and no two nodes share a copy. The other nodes of this tree
    /// are in `after` what they are here.
    #[verifier::opaque]
    pub open spec fn grafting(
        self,
        sub: PathTreeView,
        after: PathTreeView,
        ids: Map<u64, u64>,
        done: Set<u64>,
    ) -> bool {
        let top = ids[sub.root_node_id];
        &&& ids.dom() =~= done
        &&& done.contains(sub.root_node_id)
        &&& done.subset_of(sub.nodes.dom())
        &&& self.nodes.contains_key(top)
        &&& after.root_node_id == self.root_node_id
        &&& forall|i: u64, j: u64|
            done.contains(i) && done.contains(j) && #[trigger] ids[i] == #[trigger] ids[j] ==> i == j
        &&& forall|i: u64|
            done.contains(i) && i != sub.root_node_id ==> !self.nodes.contains_key(#[trigger] ids[i])
        &&& forall|y: u64|
            #[trigger] after.nodes.contains_key(y) <==> self.nodes.contains_key(y) || exists|i: u64|
                done.contains(i) && #[trigger] ids[i] == y
        &&& forall|y: u64|
            self.nodes.contains_key(y) && y != top ==> #[trigger] after.nodes[y] == self.nodes[y]
        &&& forall|i: u64|
            done.contains(i) ==> after.nodes[#[trigger] ids[i]] == sub.copy_of(
                ids,
                done,
                self.nodes[top].parent,
                i,
            )
    }

    /// This tree after the value of the root of `sub` took the place below
    /// `parent`: the child found under `lookup` has taken the value and sits
    /// under `segment`, or a new node `top` sits there.
    pub open spec fn with_graft_root(
        self,
        parent: u64,
        lookup: Seq<char>,
        segment: Seq<char>,
        sub: PathTreeView,
        top: u64,
    ) -> PathTreeView {
        let value = sub.nodes[sub.root_node_id].node.value();
        if self.children_of(parent).contains_key(lookup) {
            self.with_child_value(parent, lookup, segment, value)
        } else {
            self.with_new_child(parent, segment, top, value)
        }
    }

    /// Whether a tree can be grafted in below `parent` in the place of the
    /// child under `lookup`: the parent is an inner node, and the child, if
    /// there is one, has no children.
    pub open spec fn takes_graft(self, parent: u64, lookup: Seq<char>) -> bool {
        &&& self.nodes[parent].node is Inner
        &&& self.children_of(parent).contains_key(lookup) ==> !self.nodes[self.children_of(
            parent,
        )[lookup]].node.has_children()
    }

    /// Whether `after` is this tree with the tree `sub` grafted in below
    /// `parent` under `segment`, the nodes of `sub` copied under the new
    /// identifiers `ids`.
    ///
    /// Where the child is looked up under another segment and another child
    /// sits under `segment`, that child has given way first, with
    /// everything below it. The copy of the root of `sub` takes the place of
    /// the child that was found under `lookup` and keeps its identifier;
    /// where there was none it is a node that this tree has no node for.
    pub open spec fn grafted(
        self,
        after: PathTreeView,
        parent: u64,
        lookup: Seq<char>,
        segment: Seq<char>,
        sub: PathTreeView,
        ids: Map<u64, u64>,
    ) -> bool {
        self.with_slot_freed(parent, lookup, segment).grafted_into_free_slot(
            after,
            parent,
            lookup,
            segment,
            sub,
            ids,
        )
    }

    /// Whether `after` is this tree, which has no other child under
    /// `segment`, with the tree `sub` grafted in below `parent` under
    /// `segment`, the nodes of `sub` copied under the new identifiers `ids`.
    pub open spec fn grafted_into_free_slot(
        self,
        after: PathTreeView,
        parent: u64,
        lookup: Seq<char>,
        segment: Seq<char>,
        sub: PathTreeView,
        ids: Map<u64, u64>,
    ) -> bool {
        &&& self.children_of(parent).contains_key(lookup) ==> ids[sub.root_node_id]
            == self.children_of(parent)[lookup]
        &&& !self.children_of(parent).contains_key(lookup) ==> !self.nodes.contains_key(
            ids[sub.root_node_id],
        )
        &&& self.with_graft_root(
            parent,
            lookup,
            segment,
            sub,
            ids[sub.root_node_id],
        ).grafting(sub, after, ids, sub.nodes.dom())
    }

    /// While grafting, the nodes that have a copy are those that are done.
    pub proof fn lemma_grafting_dom(
        self,
        sub: PathTreeView,
        after: PathTreeView,
        ids: Map<u64, u64>,
        done: Set<u64>,
    )
        requires
            self.grafting(sub, after, ids, done),
        ensures
            ids.dom() =~= done,
    {
        reveal(PathTreeView::grafting);
    }

    /// While grafting, the tree has grown by one node for each copy but that
    /// of the root.
    pub proof fn lemma_grafting_size(
        self,
        sub: PathTreeView,
        after: PathTreeView,
        ids: Map<u64, u64>,
        done: Set<u64>,
    )
        requires
            self.wf(),
            sub.wf(),
            self.grafting(sub, after, ids, done),
        ensures
            after.nodes.dom().finite(),
            after.nodes.dom().len() == self.nodes.dom().len() + done.len() - 1,
    {
        reveal(PathTreeView::grafting);
        let others = done.remove(sub.root_node_id);
        let f = |i: u64| ids[i];
        let copies = others.map(f);
        vstd::set_lib::lemma_len_subset(done, sub.nodes.dom());
        assert(vstd::relations::injective_on(f, others)) by {
            assert forall|a: u64, b: u64|
                others.contains(a) && others.contains(b) && #[trigger] f(a) == #[trigger] f(
                    b,
                ) implies a == b by {
                assert(ids[a] == ids[b]);
            }
        }
        vstd::set_lib::lemma_map_size(others, copies, f);
        assert(copies.disjoint(self.nodes.dom())) by {
            assert forall|y: u64| copies.contains(y) implies !self.nodes.dom().contains(y) by {
                let i = choose|i: u64| others.contains(i) && y == f(i);
                assert(!self.nodes.contains_key(ids[i]));
            }
        }
        assert(after.nodes.dom() =~= self.nodes.dom().union(copies)) by {
            assert forall|y: u64| after.nodes.dom().contains(y) implies self.nodes.dom().union(
                copies,
            ).contains(y) by {
                if !self.nodes.contains_key(y) {
                    let i = choose|i: u64| done.contains(i) && #[trigger] ids[i] == y;
                    assert(others.contains(i) && f(i) == y);
                }
            }
            assert forall|y: u64| self.nodes.dom().union(copies).contains(
                y,
            ) implies after.nodes.dom().contains(y) by {
                if copies.contains(y) {
                    let i = choose|i: u64| others.contains(i) && y == f(i);
                    assert(done.contains(i) && ids[i] == y);
                }
            }
        }
        vstd::set_lib::lemma_set_disjoint_lens(self.nodes.dom(), copies);
    }

    /// Once the value of the root of `sub` has taken its place below `parent`,
    /// the grafting can start.
    pub proof fn lemma_graft_rooted(
        self,
        parent: u64,
        lookup: Seq<char>,
        segment: Seq<char>,
        sub: PathTreeView,
        top: u64,
    )
        requires
            self.wf(),
            sub.wf(),
            self.nodes.contains_key(parent),
            self.nodes[parent].node is Inner,
            self.with_graft_root(parent, lookup, segment, sub, top).wf(),
            self.children_of(parent).contains_key(lookup) ==> top == self.children_of(parent)[lookup]
                && !self.nodes[top].node.has_children(),
            !self.children_of(parent).contains_key(lookup) ==> !self.nodes.contains_key(top),
        ensures
            self.with_graft_root(parent, lookup, segment, sub, top).grafting(
                sub,
                self.with_graft_root(parent, lookup, segment, sub, top),
                Map::<u64, u64>::empty().insert(sub.root_node_id, top),
                Set::<u64>::empty().insert(sub.root_node_id),
            ),
    {
        let rooted = self.with_graft_root(parent, lookup, segment, sub, top);
        assert(self.node_wf(parent));
        if self.children_of(parent).contains_key(lookup) {
            assert(self.node_wf(top));
            assert(self.nodes[top].node.children() =~= Map::<Seq<char>, u64>::empty());
            assert(rooted.nodes[top].node.children() =~= Map::<Seq<char>, u64>::empty());
        } else {
            assert(rooted.nodes[top].node.children() =~= Map::<Seq<char>, u64>::empty());
        }
        assert(rooted.nodes.contains_key(top));
        assert(rooted.node_wf(top));
        rooted.lemma_grafting_start(sub, top);
    }

    /// The grafting starts with the copy of the root in place.
    pub proof fn lemma_grafting_start(self, sub: PathTreeView, top: u64)
        requires
            sub.wf(),
            self.nodes.contains_key(top),
            self.nodes[top].id == top,
            self.nodes[top].node == NodeView::from_value(sub.nodes[sub.root_node_id].node.value()),
        ensures
            self.grafting(
                sub,
                self,
                Map::<u64, u64>::empty().insert(sub.root_node_id, top),
                Set::<u64>::empty().insert(sub.root_node_id),
            ),
    {
        reveal(PathTreeView::grafting);
        let ids = Map::<u64, u64>::empty().insert(sub.root_node_id, top);
        let done = Set::<u64>::empty().insert(sub.root_node_id);
        let root = sub.root_node_id;
        assert(sub.node_wf(root));
        let copy = sub.copy_of(ids, done, self.nodes[top].parent, root);
        assert(copy.node.children() =~= Map::<Seq<char>, u64>::empty()) by {
            assert forall|s: Seq<char>| !copy.node.children().contains_key(s) by {
                if sub.children_of(root).contains_key(s) {
                    assert(sub.node_wf(sub.children_of(root)[s]));
                }
            }
        }
        assert(copy.node == self.nodes[top].node);
        assert(ids[root] == top);
        assert forall|y: u64| #[trigger]
            self.nodes.contains_key(y) <==> self.nodes.contains_key(y) || exists|i: u64|
                done.contains(i) && #[trigger] ids[i] == y by {}
    }

    /// In a list of the descendants of the root, each after its parent, the
    /// node at position `i` comes after its parent and before its children.
    pub proof fn lemma_next_in_line(self, list: Seq<u64>, i: int)
        requires
            self.wf(),
            self.lists_descendants(self.root_node_id, list),
            0 <= i < list.len(),
        ensures
            self.nodes.contains_key(list[i]),
            list[i] != self.root_node_id,
            !list.take(i).to_set().insert(self.root_node_id).contains(list[i]),
            list.take(i).to_set().insert(self.root_node_id).contains(self.parent_id(list[i])),
            forall|s: Seq<char>| #[trigger]
                self.children_of(list[i]).contains_key(s) ==> !list.take(i).to_set().insert(
                    self.root_node_id,
                ).contains(self.children_of(list[i])[s]),
            list.take(i + 1).to_set().insert(self.root_node_id) =~= list.take(i).to_set().insert(
                self.root_node_id,
            ).insert(list[i]),
    {
        let c = list[i];
        let done = list.take(i).to_set().insert(self.root_node_id);
        assert(list.to_set().contains(list[i]));
        assert(self.node_wf(c));
        assert(self.parent_visited(self.root_node_id, list, i, list[i]));
        assert(done.contains(self.parent_id(c))) by {
            if self.parent_id(c) != self.root_node_id {
                let j = choose|j: int|
                    0 <= j < i && j < list.len() && #[trigger] list[j] == self.parent_id(c);
                assert(list.take(i)[j] == list[j]);
            }
        }
        assert(!done.contains(c)) by {
            if list.take(i).contains(c) {
                let j = choose|j: int| 0 <= j < i && list.take(i)[j] == c;
                assert(list[j] == list[i]);
            }
        }
        assert forall|s: Seq<char>| #[trigger]
            self.children_of(c).contains_key(s) implies !done.contains(self.children_of(c)[s]) by {
            let child = self.children_of(c)[s];
            assert(self.node_wf(child));
            if list.take(i).contains(child) {
                let j = choose|j: int| 0 <= j < i && list.take(i)[j] == child;
                assert(list[j] == child);
                assert(self.parent_visited(self.root_node_id, list, j, list[j]));
                let a = choose|a: int|
                    0 <= a < j && a < list.len() && #[trigger] list[a] == self.parent_id(child);
                assert(list[a] == list[i]);
            }
        }
        assert(list.take(i + 1).to_set().insert(self.root_node_id) =~= done.insert(c)) by {
            assert(list.take(i + 1) =~= list.take(i).push(c));
            assert forall|x: u64| done.insert(c).contains(x) implies list.take(i + 1).to_set().insert(
                self.root_node_id,
            ).contains(x) by {
                if x == c {
                    assert(list.take(i + 1)[i] == x);
                } else if x != self.root_node_id {
                    let j = choose|j: int| 0 <= j < i && list.take(i)[j] == x;
                    assert(list.take(i + 1)[j] == x);
                }
            }
        }
    }

    /// Before a step of the grafting: the copy of the parent of node `c` is
    /// an inner node and has no child yet under the segment of `c`.
    pub proof fn lemma_grafting_parent(
        self,
        sub: PathTreeView,
        now: PathTreeView,
        ids: Map<u64, u64>,
        done: Set<u64>,
        c: u64,
    )
        requires
            sub.wf(),
            self.grafting(sub, now, ids, done),
            sub.nodes.contains_key(c),
            c != sub.root_node_id,
            !done.contains(c),
            done.contains(sub.parent_id(c)),
        ensures
            now.nodes.contains_key(ids[sub.parent_id(c)]),
            now.nodes[ids[sub.parent_id(c)]].node is Inner,
            !now.children_of(ids[sub.parent_id(c)]).contains_key(
                sub.nodes[c].parent->0.path_segment,
            ),
            sub.nodes[c].parent->0.path_segment.len() > 0,
            ids.contains_key(sub.parent_id(c)),
    {
        reveal(PathTreeView::grafting);
        let q = sub.parent_id(c);
        let segment = sub.nodes[c].parent->0.path_segment;
        let hang = self.nodes[ids[sub.root_node_id]].parent;
        assert(sub.node_wf(c));
        assert(sub.node_wf(q));
        assert(sub.children_of(q).contains_key(segment));
        assert(now.nodes[ids[q]] == sub.copy_of(ids, done, hang, q));
    }

    /// One step of the grafting: node `c`, whose parent was copied and none
    /// of whose children was, gets the copy `new` below the copy of its
    /// parent.
    pub proof fn lemma_grafting_step(
        self,
        sub: PathTreeView,
        now: PathTreeView,
        ids: Map<u64, u64>,
        done: Set<u64>,
        c: u64,
        new: u64,
    )
        requires
            sub.wf(),
            self.grafting(sub, now, ids, done),
            sub.nodes.contains_key(c),
            c != sub.root_node_id,
            !done.contains(c),
            done.contains(sub.parent_id(c)),
            forall|s: Seq<char>| #[trigger]
                sub.children_of(c).contains_key(s) ==> !done.contains(sub.children_of(c)[s]),
            !now.nodes.contains_key(new),
        ensures
            self.grafting(
                sub,
                now.with_new_child(
                    ids[sub.parent_id(c)],
                    sub.nodes[c].parent->0.path_segment,
                    new,
                    sub.nodes[c].node.value(),
                ),
                ids.insert(c, new),
                done.insert(c),
            ),
            ids.insert(c, new)[sub.root_node_id] == ids[sub.root_node_id],
    {
        reveal(PathTreeView::grafting);
        let q = sub.parent_id(c);
        let segment = sub.nodes[c].parent->0.path_segment;
        let value = sub.nodes[c].node.value();
        let top = ids[sub.root_node_id];
        let hang = self.nodes[top].parent;
        let next = now.with_new_child(ids[q], segment, new, value);
        let ids2 = ids.insert(c, new);
        let done2 = done.insert(c);
        assert(sub.node_wf(c));
        assert(sub.node_wf(q));
        assert(sub.children_of(q).contains_key(segment));
        assert(now.nodes[ids[q]] == sub.copy_of(ids, done, hang, q));
        assert(now.nodes.contains_key(ids[q]));
        assert(!self.nodes.contains_key(new));
        assert(ids2[sub.root_node_id] == top);
        assert forall|i: u64, j: u64|
            done2.contains(i) && done2.contains(j) && #[trigger] ids2[i] == #[trigger] ids2[j] implies i
            == j by {
            if i == c && j != c {
                assert(now.nodes.contains_key(ids[j]));
            }
            if j == c && i != c {
                assert(now.nodes.contains_key(ids[i]));
            }
        }
        assert forall|i: u64| done2.contains(i) && i != sub.root_node_id implies !self.nodes.contains_key(
            #[trigger] ids2[i],
        ) by {}
        assert forall|y: u64| #[trigger]
            next.nodes.contains_key(y) <==> self.nodes.contains_key(y) || exists|i: u64|
                done2.contains(i) && #[trigger] ids2[i] == y by {
            if next.nodes.contains_key(y) {
                if y == new {
                    assert(done2.contains(c) && ids2[c] == y);
                } else {
                    assert(now.nodes.contains_key(y));
                    if !self.nodes.contains_key(y) {
                        let i = choose|i: u64| done.contains(i) && #[trigger] ids[i] == y;
                        assert(done2.contains(i) && ids2[i] == y);
                    }
                }
            }
            if exists|i: u64| done2.contains(i) && #[trigger] ids2[i] == y {
                let i = choose|i: u64| done2.contains(i) && #[trigger] ids2[i] == y;
                if i != c {
                    assert(done.contains(i) && ids[i] == y);
                }
            }
        }
        assert forall|y: u64| self.nodes.contains_key(y) && y != top implies #[trigger] next.nodes[y]
            == self.nodes[y] by {
            assert(now.nodes[y] == self.nodes[y]);
            if y == ids[q] {
                if q != sub.root_node_id {
                    assert(!self.nodes.contains_key(ids[q]));
                }
            }
        }
        assert forall|i: u64| done2.contains(i) implies next.nodes[#[trigger] ids2[i]] == sub.copy_of(
            ids2,
            done2,
            hang,
            i,
        ) by {
            let copy = sub.copy_of(ids2, done2, hang, i);
            if i == c {
                assert(copy.node.children() =~= Map::<Seq<char>, u64>::empty());
                assert(next.nodes[new].node.children() =~= Map::<Seq<char>, u64>::empty());
                assert(c != sub.root_node_id);
            } else {
                let before = sub.copy_of(ids, done, hang, i);
                assert(now.nodes[ids[i]] == before);
                assert(sub.node_wf(i));
                if i != sub.root_node_id {
                    assert(sub.nodes[i].parent->0.node_id != c) by {
                        if sub.nodes[i].parent->0.node_id == c {
                            assert(sub.children_of(c).contains_key(
                                sub.nodes[i].parent->0.path_segment,
                            ));
                        }
                    }
                }
                if i == q {
                    assert(copy.node.children() =~= before.node.children().insert(segment, new)) by {
                        assert forall|s: Seq<char>| #[trigger]
                            sub.children_of(q).contains_key(s) && s != segment implies sub.children_of(
                            q,
                        )[s] != c by {
                            assert(sub.node_wf(sub.children_of(q)[s]));
                        }
                    }
                    assert(next.nodes[ids[q]].node.children() =~= copy.node.children());
                } else {
                    assert(ids[i] != ids[q]);
                    assert(ids[i] != new);
                    assert(copy.node.children() =~= before.node.children()) by {
                        assert forall|s: Seq<char>| #[trigger]
                            sub.children_of(i).contains_key(s) implies sub.children_of(i)[s]
                            != c by {
                            assert(sub.node_wf(sub.children_of(i)[s]));
                        }
                    }
                }
            }
        }
    }
}

impl<G: NewNodeId> PathTree<G> {
    /// Insert a subtree.
    ///
    /// The nodes of the subtree are copied into this tree, below
    /// `parent_node`, and get new identifiers from this tree's generator.
    /// The copy of the subtree's root takes the place of the child that is
    /// found under `old_child_path_segment`, or under `child_path_segment`
    /// where no old segment is given: it keeps the identifier of that child
    /// and sits under `child_path_segment`. Where no child is found, the
    /// copy of the root is a new node.
    ///
    /// A child that is replaced must not have any children. Otherwise the
    /// call fails with a value type mismatch. It fails with a path conflict
    /// if the parent node is a leaf. In either case this tree stays as it
    /// was, and the value of the subtree's root comes back in the error.
    ///
    /// Where the two segments differ and another child sits under
    /// `child_path_segment`, that child gives way as soon as the graft is
    /// taken: it leaves the tree with all its descendants.
    ///
    /// The parent node has to be one that the tree holds. The generator has
    /// to have an identifier left for each node that is created.
    ///
    /// Returns the new identifier of the inserted or replaced node, i.e. the
    /// root node of the subtree.
    pub fn insert_or_replace_subtree(
        &mut self,
        parent_node: &Arc<TreeNode>,
        child_path_segment: &str,
        old_child_path_segment: Option<&str>,
        subtree: PathTree<G>,
    ) -> (r: Result<u64, InsertOrUpdateNodeValueError>)
        requires
            old(self).wf(),
            subtree.wf(),
            old(self)@.has_node(parent_node@),
            child_path_segment@.len() > 0,
            old(self)@.takes_graft(
                parent_node.id,
                lookup_segment(child_path_segment, old_child_path_segment),
            ) ==> old(self).generator().remaining() >= subtree@.nodes.dom().len() - (
            if parent_node@.node.children().contains_key(
                lookup_segment(child_path_segment, old_child_path_segment),
            ) {
                1int
            } else {
                0int
            }),
        ensures
            final(self).wf(),
            r is Ok <==> old(self)@.takes_graft(
                parent_node.id,
                lookup_segment(child_path_segment, old_child_path_segment),
            ),
            match r {
                Ok(new_root_id) => {
                    let lookup = lookup_segment(child_path_segment, old_child_path_segment);
                    let freed = old(self)@.with_slot_freed(
                        parent_node.id,
                        lookup,
                        child_path_segment@,
                    );
                    &&& final(self).generator().remaining() == old(self).generator().remaining()
                        - (final(self)@.nodes.dom().len() - freed.nodes.dom().len())
                    &&& final(self)@.nodes.dom().len() == freed.nodes.dom().len()
                        + subtree@.nodes.dom().len() - (if parent_node@.node.children().contains_key(
                        lookup,
                    ) {
                        1int
                    } else {
                        0int
                    })
                    &&& old(self).generator().issued().subset_of(final(self).generator().issued())
                    &&& exists|ids: Map<u64, u64>|
                        {
                            &&& #[trigger] old(self)@.grafted(
                                final(self)@,
                                parent_node.id,
                                lookup,
                                child_path_segment@,
                                subtree@,
                                ids,
                            )
                            &&& ids[subtree@.root_node_id] == new_root_id
                            &&& final(self).generator().issued() == old(
                                self,
                            ).generator().issued().union(ids.values())
                            &&& forall|i: u64|
                                #[trigger] subtree@.nodes.contains_key(i) && !old(
                                    self,
                                )@.nodes.contains_key(ids[i]) ==> !old(
                                    self,
                                ).generator().issued().contains(ids[i])
                        }
                },
                Err(e) => {
                    let lookup = lookup_segment(child_path_segment, old_child_path_segment);
                    &&& final(self)@ == old(self)@
                    &&& final(self).generator() == old(self).generator()
                    &&& e.value() == subtree@.nodes[subtree@.root_node_id].node.value()
                    &&& match e {
                        InsertOrUpdateNodeValueError::PathConflict { conflict, .. } => {
                            &&& parent_node@.node is Leaf
                            &&& conflict.parent_node@ == parent_node@
                            &&& conflict.child_path_segment@ == child_path_segment@
                        },
                        InsertOrUpdateNodeValueError::ValueTypeMismatch { .. } => {
                            &&& parent_node@.node.children().get(lookup) matches Some(replaced)
                            &&& old(self)@.nodes[replaced].node.has_children()
                        },
                    }
                },
            },
    {
        let ghost before = self@;
        let ghost sub = subtree@;
        let ghost lookup_view = lookup_segment(child_path_segment, old_child_path_segment);
        let subtree_root_node = subtree.root_node();
        let subtree_root_value = subtree_root_node.node.value();
        let subtree_root_id = subtree.root_node_id();
        // The slot has to be free, or taken by a node without children.
        let lookup = match old_child_path_segment {
            Some(segment) => segment,
            None => child_path_segment,
        };
        proof {
            assert(before.node_wf(parent_node.id));
            before.lemma_with_slot_freed(parent_node.id, lookup_view, child_path_segment@);
        }
        let ghost freed = before.with_slot_freed(parent_node.id, lookup_view, child_path_segment@);
        match parent_node.node.child_id(lookup) {
            Some(replaced_id) => {
                assert(parent_node@.node.children().contains_key(lookup@));
                let replaced = self.get_node(replaced_id);
                let occupied = match &replaced.node {
                    Node::Inner(inner) => inner.has_children(),
                    Node::Leaf(_) => false,
                };
                if occupied {
                    return Err(
                        InsertOrUpdateNodeValueError::ValueTypeMismatch { value: subtree_root_value },
                    );
                }
                assert(replaced@.node.children().dom() =~= Set::<Seq<char>>::empty());
            },
            None => {},
        }
        let new_subtree_root_node_id = match self.insert_or_update_child_node_value(
            parent_node,
            child_path_segment,
            old_child_path_segment,
            subtree_root_value,
        ) {
            Ok(done) => done.child_node.id,
            Err(e) => {
                return Err(e);
            },
        };
        proof {
            assert(freed.children_of(parent_node.id).contains_key(lookup_view)
                == before.children_of(parent_node.id).contains_key(lookup_view));
            freed.lemma_graft_rooted(
                parent_node.id,
                lookup_view,
                child_path_segment@,
                sub,
                new_subtree_root_node_id,
            );
        }
        let ghost issued_rooted = self.generator().issued();
        let ghost rooted = self@;
        let old_to_new_node_id = self.copy_descendants(&subtree, new_subtree_root_node_id);
        proof {
            assert(rooted == freed.with_graft_root(
                parent_node.id,
                lookup_view,
                child_path_segment@,
                sub,
                new_subtree_root_node_id,
            ));
            assert(before.grafted(
                self@,
                parent_node.id,
                lookup_view,
                child_path_segment@,
                sub,
                old_to_new_node_id@,
            ));
            rooted.lemma_grafting_size(sub, self@, old_to_new_node_id@, sub.nodes.dom());
            assert(freed.nodes.dom().finite());
            assert(rooted.nodes.dom() =~= if before.children_of(parent_node.id).contains_key(
                lookup_view,
            ) {
                freed.nodes.dom()
            } else {
                freed.nodes.dom().insert(new_subtree_root_node_id)
            });
            assert(parent_node@.node.children().get(lookup_view) matches Some(replaced)
                ==> !before.nodes[replaced].node.has_children());
            assert(old_to_new_node_id@.values().contains(new_subtree_root_node_id)) by {
                assert(old_to_new_node_id@.contains_key(sub.root_node_id));
            }
            assert(self.generator().issued() =~= old(self).generator().issued().union(
                old_to_new_node_id@.values(),
            ));
            assert forall|i: u64|
                #[trigger] sub.nodes.contains_key(i) && !before.nodes.contains_key(
                    old_to_new_node_id@[i],
                ) implies !old(self).generator().issued().contains(old_to_new_node_id@[i]) by {
                if i != sub.root_node_id {
                    assert(!issued_rooted.contains(old_to_new_node_id@[i]));
                }
            }
        }
        Ok(new_subtree_root_node_id)
    }

    /// Copies the descendants of the root of `subtree` into this tree, which
    /// holds the copy `top` of the root already. Each copy gets a new
    /// identifier and hangs below the copy of its parent.
    ///
    /// Returns the identifier of the copy for each node of `subtree`.
    fn copy_descendants(&mut self, subtree: &PathTree<G>, top: u64) -> (r: HashMap<u64, u64>)
        requires
            old(self).wf(),
            subtree.wf(),
            old(self)@.grafting(
                subtree@,
                old(self)@,
                Map::<u64, u64>::empty().insert(subtree@.root_node_id, top),
                Set::<u64>::empty().insert(subtree@.root_node_id),
            ),
            old(self)@.nodes.contains_key(top),
            old(self).generator().remaining() >= subtree@.nodes.dom().len() - 1,
        ensures
            final(self).wf(),
            old(self)@.grafting(subtree@, final(self)@, r@, subtree@.nodes.dom()),
            final(self).generator().issued() == old(self).generator().issued().union(r@.values()),
            r@[subtree@.root_node_id] == top,
            r@.dom() =~= subtree@.nodes.dom(),
            final(self).generator().remaining() == old(self).generator().remaining() - (
            subtree@.nodes.dom().len() - 1),
            old(self).generator().issued().subset_of(final(self).generator().issued()),
            forall|i: u64|
                #[trigger] subtree@.nodes.contains_key(i) && i != subtree@.root_node_id ==> !old(
                    self,
                ).generator().issued().contains(r@[i]),
    {
        let ghost rooted = self@;
        let ghost sub = subtree@;
        let subtree_root_id = subtree.root_node_id();
        let descendant_node_ids = subtree.descendant_ids(subtree_root_id);
        let mut old_to_new_node_id = HashMap::<u64, u64>::new();
        old_to_new_node_id.insert(subtree_root_id, top);
        proof {
            sub.lemma_descendants_of_root();
            assert(old_to_new_node_id@ =~= Map::<u64, u64>::empty().insert(sub.root_node_id, top));
            assert(descendant_node_ids@.take(0).to_set().insert(sub.root_node_id)
                =~= Set::<u64>::empty().insert(sub.root_node_id));
            lemma_values_insert(Map::<u64, u64>::empty(), sub.root_node_id, top);
            assert(Map::<u64, u64>::empty().values() =~= Set::<u64>::empty());
            assert(self.generator().issued() =~= self.generator().issued().union(
                old_to_new_node_id@.values(),
            ));
        }
        let mut i: usize = 0;
        while i < descendant_node_ids.len()
            invariant
                self.wf(),
                subtree.wf(),
                sub == subtree@,
                i <= descendant_node_ids@.len(),
                sub.lists_descendants(sub.root_node_id, descendant_node_ids@),
                sub.descendants(sub.root_node_id) =~= sub.nodes.dom().remove(sub.root_node_id),
                rooted.grafting(
                    sub,
                    self@,
                    old_to_new_node_id@,
                    descendant_node_ids@.take(i as int).to_set().insert(sub.root_node_id),
                ),
                self.generator().remaining() == old(self).generator().remaining() - i,
                old(self).generator().remaining() >= descendant_node_ids@.len(),
                descendant_node_ids@.len() == sub.nodes.dom().len() - 1,
                old_to_new_node_id@[sub.root_node_id] == top,
                forall|j: u64|
                    #[trigger] old_to_new_node_id@.contains_key(j) && j != sub.root_node_id ==> !old(
                        self,
                    ).generator().issued().contains(old_to_new_node_id@[j]),
                old(self).generator().issued().subset_of(self.generator().issued()),
                self.generator().issued() == old(self).generator().issued().union(
                    old_to_new_node_id@.values(),
                ),
            decreases descendant_node_ids@.len() - i,
        {
            let old_node_id = descendant_node_ids[i];
            let ghost ids = descendant_node_ids@;
            let ghost done = ids.take(i as int).to_set().insert(sub.root_node_id);
            let ghost now = self@;
            let ghost ids_before = old_to_new_node_id@;
            proof {
                sub.lemma_next_in_line(ids, i as int);
                rooted.lemma_grafting_parent(sub, now, ids_before, done, old_node_id);
                assert(sub.node_wf(old_node_id));
            }
            let old_node = subtree.get_node(old_node_id);
            let up = match &old_node.parent {
                Some(up) => up,
                None => vstd::pervasive::unreached(),
            };
            let parent_node_id = match old_to_new_node_id.get(&up.node_id) {
                Some(parent_node_id) => *parent_node_id,
                None => vstd::pervasive::unreached(),
            };
            let new_parent_node = share(self.get_node(parent_node_id));
            let new_node_id = match self.insert_or_update_child_node_value(
                &new_parent_node,
                up.path_segment.as_str(),
                None,
                old_node.node.value(),
            ) {
                Ok(done) => done.child_node.id,
                Err(_) => vstd::pervasive::unreached(),
            };
            old_to_new_node_id.insert(old_node_id, new_node_id);
            proof {
                rooted.lemma_grafting_step(sub, now, ids_before, done, old_node_id, new_node_id);
                rooted.lemma_grafting_dom(sub, now, ids_before, done);
                lemma_values_insert(ids_before, old_node_id, new_node_id);
                assert(self.generator().issued() =~= old(self).generator().issued().union(
                    old_to_new_node_id@.values(),
                ));
            }
            i = i + 1;
        }
        proof {
            assert(descendant_node_ids@.take(descendant_node_ids@.len() as int)
                =~= descendant_node_ids@);
            assert(descendant_node_ids@.to_set().insert(sub.root_node_id) =~= sub.nodes.dom());
            rooted.lemma_grafting_dom(sub, self@, old_to_new_node_id@, sub.nodes.dom());
        }
        old_to_new_node_id
    }
}


} // verus!
