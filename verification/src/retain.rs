//! Filtering a tree: the nodes that a predicate rejects leave the tree, and
//! with them everything below.

use vstd::prelude::*;
use crate::model::PathTreeView;
use crate::node::NodeView;
use crate::node_id::NewNodeId;
use crate::tree::PathTree;
use crate::tree_node::{TreeNode, TreeNodeView};

verus! {

impl NodeView {
    /// The content with only those children that are in `keep`.
    pub open spec fn with_children_in(self, keep: Set<u64>) -> NodeView {
        match self {
            NodeView::Inner { value, children } => NodeView::Inner {
                value,
                children: Map::new(
                    |s: Seq<char>| children.contains_key(s) && keep.contains(children[s]),
                    |s: Seq<char>| children[s],
                ),
            },
            NodeView::Leaf { .. } => self,
        }
    }
}

impl PathTreeView {
    /// Whether node `id` stays when the subtrees at the nodes `gone` leave:
    /// none of them lies on the way from `id` up to the root.
    pub open spec fn survives(self, gone: Set<u64>, id: u64) -> bool {
        self.nodes.contains_key(id) && forall|a: u64|
            gone.contains(a) ==> !#[trigger] self.is_ancestor_or_self(a, id)
    }

    /// The nodes that stay when the subtrees at the nodes `gone` leave.
    pub open spec fn survivors(self, gone: Set<u64>) -> Set<u64> {
        Set::new(|id: u64| self.survives(gone, id))
    }

    /// The tree without the subtrees at the nodes `gone`: the nodes that stay
    /// keep their values and those of their children that stay.
    pub open spec fn without_subtrees(self, gone: Set<u64>) -> PathTreeView {
        PathTreeView {
            root_node_id: self.root_node_id,
            nodes: Map::new(
                |id: u64| self.survives(gone, id),
                |id: u64|
                    self.nodes[id].with_node(
                        self.nodes[id].node.with_children_in(self.survivors(gone)),
                    ),
            ),
            depth: self.depth.restrict(self.survivors(gone)),
        }
    }

    /// With no subtree gone the tree is what it was.
    pub proof fn lemma_without_no_subtrees(self)
        requires
            self.wf(),
        ensures
            self.without_subtrees(Set::empty()) == self,
    {
        let gone = Set::<u64>::empty();
        let t = self.without_subtrees(gone);
        assert(t.nodes =~= self.nodes) by {
            assert forall|id: u64| self.nodes.contains_key(id) implies #[trigger] t.nodes[id]
                == self.nodes[id] by {
                assert(self.node_wf(id));
                assert(t.nodes[id].node.children() =~= self.nodes[id].node.children()) by {
                    assert forall|s: Seq<char>| #[trigger]
                        self.nodes[id].node.children().contains_key(s) implies self.survives(
                        gone,
                        self.nodes[id].node.children()[s],
                    ) by {}
                }
            }
        }
        assert(t.depth =~= self.depth);
    }

    /// A node that stays has a parent that stays.
    pub proof fn lemma_parent_survives(self, gone: Set<u64>, id: u64)
        requires
            self.wf(),
            self.survives(gone, id),
            id != self.root_node_id,
        ensures
            self.survives(gone, self.parent_id(id)),
    {
        assert(self.node_wf(id));
        assert forall|a: u64| gone.contains(a) implies !#[trigger] self.is_ancestor_or_self(
            a,
            self.parent_id(id),
        ) by {
            if self.is_ancestor_or_self(a, self.parent_id(id)) {
                assert(self.is_ancestor_or_self(a, id));
            }
        }
    }

    /// Among the nodes that stay, the tree without the subtrees has the
    /// ancestors that the tree has.
    pub proof fn lemma_ancestors_survive(self, gone: Set<u64>, a: u64, d: u64)
        requires
            self.wf(),
            self.survives(gone, d),
            !gone.contains(self.root_node_id),
        ensures
            self.without_subtrees(gone).is_ancestor_or_self(a, d) == self.is_ancestor_or_self(a, d),
        decreases self.depth[d],
    {
        let t = self.without_subtrees(gone);
        assert(self.node_wf(d));
        if d != a && d != self.root_node_id {
            self.lemma_parent_survives(gone, d);
            self.lemma_ancestors_survive(gone, a, self.parent_id(d));
        }
    }

    /// One more subtree leaves. Where its root had left before, nothing
    /// changes; otherwise the tree without the subtrees loses the subtree at
    /// that node.
    pub proof fn lemma_without_one_more(self, gone: Set<u64>, x: u64)
        requires
            self.wf(),
            self.without_subtrees(gone).wf(),
            !gone.contains(self.root_node_id),
            x != self.root_node_id,
        ensures
            !self.without_subtrees(gone).nodes.contains_key(x) ==> self.without_subtrees(
                gone.insert(x),
            ) == self.without_subtrees(gone),
            self.without_subtrees(gone).nodes.contains_key(x) ==> self.without_subtrees(
                gone.insert(x),
            ) == self.without_subtrees(gone).without_subtree(x),
    {
        let cur = self.without_subtrees(gone);
        let gone2 = gone.insert(x);
        let next = self.without_subtrees(gone2);
        if !cur.nodes.contains_key(x) {
            assert forall|id: u64| self.survives(gone, id) == self.survives(gone2, id) by {
                if self.survives(gone, id) && self.is_ancestor_or_self(x, id) {
                    // `x` would stay as well
                    self.lemma_ancestor_depth(x, id);
                    assert forall|a: u64| gone.contains(a) implies !#[trigger] self.is_ancestor_or_self(
                        a,
                        x,
                    ) by {
                        if self.is_ancestor_or_self(a, x) {
                            self.lemma_ancestor_trans(a, x, id);
                        }
                    }
                }
            }
            assert(self.survivors(gone) =~= self.survivors(gone2));
            assert(next.nodes =~= cur.nodes);
            assert(next.depth =~= cur.depth);
        } else {
            let out = cur.without_subtree(x);
            assert(self.node_wf(x));
            assert(cur.node_wf(x));
            let p = self.parent_id(x);
            let segment = self.nodes[x].parent->0.path_segment;
            assert(cur.parent_id(x) == p);
            cur.lemma_without_subtree_wf(x);
            assert forall|id: u64| self.survives(gone2, id) == (cur.nodes.contains_key(id)
                && !cur.subtree(x).contains(id)) by {
                if self.survives(gone, id) {
                    self.lemma_ancestors_survive(gone, x, id);
                }
            }
            assert(self.survivors(gone2) =~= cur.nodes.dom().difference(cur.subtree(x)));
            assert(next.nodes.dom() =~= out.nodes.dom());
            assert forall|id: u64| next.nodes.contains_key(id) implies #[trigger] next.nodes[id]
                == out.nodes[id] by {
                assert(self.node_wf(id));
                assert(cur.node_wf(id));
                cur.lemma_outside_subtree(x, id);
                assert(next.nodes[id].node.children() =~= out.nodes[id].node.children()) by {
                    assert forall|s: Seq<char>| #[trigger]
                        self.children_of(id).contains_key(s) implies (self.survives(
                        gone2,
                        self.children_of(id)[s],
                    ) <==> self.survives(gone, self.children_of(id)[s]) && !(id == p && s
                        == segment)) by {
                        let c = self.children_of(id)[s];
                        if self.survives(gone, c) {
                            assert(cur.children_of(id).contains_key(s));
                        }
                    }
                }
            }
            assert(next.nodes =~= out.nodes);
            assert(next.depth =~= out.depth);
        }
    }
}

/// Whether the predicate can reject a node with this value.
pub open spec fn may_reject<P: Fn(&TreeNode) -> bool>(predicate: P, node: TreeNodeView) -> bool {
    exists|n: TreeNode| n@ == node && #[trigger] call_ensures(predicate, (&n,), false)
}

/// Whether the predicate can accept a node with this value.
pub open spec fn may_accept<P: Fn(&TreeNode) -> bool>(predicate: P, node: TreeNodeView) -> bool {
    exists|n: TreeNode| n@ == node && #[trigger] call_ensures(predicate, (&n,), true)
}

/// The identifiers in a list of nodes to remove, each with its depth.
pub open spec fn listed_ids(entries: Seq<(usize, u64)>) -> Set<u64> {
    Set::new(|id: u64| exists|k: int| 0 <= k < entries.len() && (#[trigger] entries[k]).1 == id)
}

/// One more entry adds its identifier.
pub proof fn lemma_listed_ids_push(entries: Seq<(usize, u64)>, entry: (usize, u64))
    ensures
        listed_ids(entries.push(entry)) =~= listed_ids(entries).insert(entry.1),
{
    let more = entries.push(entry);
    assert forall|id: u64| listed_ids(entries).insert(entry.1).contains(id) implies listed_ids(
        more,
    ).contains(id) by {
        if id == entry.1 {
            assert(more[entries.len() as int].1 == id);
        } else {
            let k = choose|k: int| 0 <= k < entries.len() && (#[trigger] entries[k]).1 == id;
            assert(more[k].1 == id);
        }
    }
    assert forall|id: u64| listed_ids(more).contains(id) implies listed_ids(entries).insert(
        entry.1,
    ).contains(id) by {
        let k = choose|k: int| 0 <= k < more.len() && (#[trigger] more[k]).1 == id;
        if k < entries.len() {
            assert(entries[k].1 == id);
        }
    }
}

/// Lists with the same entries list the same identifiers.
pub proof fn lemma_listed_ids_permuted(a: Seq<(usize, u64)>, b: Seq<(usize, u64)>)
    requires
        a.to_multiset() == b.to_multiset(),
    ensures
        listed_ids(a) =~= listed_ids(b),
{
    broadcast use vstd::seq_lib::to_multiset_contains;

    assert forall|id: u64| listed_ids(a).contains(id) implies listed_ids(b).contains(id) by {
        let k = choose|k: int| 0 <= k < a.len() && (#[trigger] a[k]).1 == id;
        assert(a.contains(a[k]));
        assert(b.to_multiset().count(a[k]) > 0);
        assert(b.contains(a[k]));
        let j = choose|j: int| 0 <= j < b.len() && b[j] == a[k];
        assert(b[j].1 == id);
    }
    assert forall|id: u64| listed_ids(b).contains(id) implies listed_ids(a).contains(id) by {
        let k = choose|k: int| 0 <= k < b.len() && (#[trigger] b[k]).1 == id;
        assert(b.contains(b[k]));
        assert(a.to_multiset().count(b[k]) > 0);
        assert(a.contains(b[k]));
        let j = choose|j: int| 0 <= j < a.len() && a[j] == b[k];
        assert(a[j].1 == id);
    }
}

/// Whether the entries stand in ascending order of depth.
pub open spec fn sorted_by_depth(entries: Seq<(usize, u64)>) -> bool {
    forall|i: int, j: int| 0 <= i < j < entries.len() ==> entries[i].0 <= entries[j].0
}

/// An entry put into a list is one more entry of the list.
proof fn lemma_insert_to_multiset(entries: Seq<(usize, u64)>, i: int, entry: (usize, u64))
    requires
        0 <= i <= entries.len(),
    ensures
        entries.insert(i, entry).to_multiset() =~= entries.to_multiset().insert(entry),
{
    broadcast use vstd::multiset::group_multiset_axioms;

    let more = entries.insert(i, entry);
    assert(more.remove(i) =~= entries);
    assert(more[i] == entry);
    vstd::seq_lib::to_multiset_remove(more, i);
    vstd::seq_lib::to_multiset_contains(more, entry);
    assert(more.contains(entry));
}

/// The entries of the given depth, in their order.
pub open spec fn at_depth(entries: Seq<(usize, u64)>, depth: usize) -> Seq<(usize, u64)> {
    entries.filter(|entry: (usize, u64)| entry.0 == depth)
}

/// A list without an entry of the given depth has none to show.
proof fn lemma_none_at_depth(entries: Seq<(usize, u64)>, depth: usize)
    requires
        forall|k: int| 0 <= k < entries.len() ==> (#[trigger] entries[k]).0 != depth,
    ensures
        at_depth(entries, depth) == Seq::<(usize, u64)>::empty(),
    decreases entries.len(),
{
    reveal(Seq::filter);
    if entries.len() > 0 {
        lemma_none_at_depth(entries.drop_last(), depth);
    }
}

/// An entry appended to a list comes last among the entries of its depth.
proof fn lemma_push_at_depth(entries: Seq<(usize, u64)>, entry: (usize, u64), depth: usize)
    ensures
        at_depth(entries.push(entry), depth) == (if entry.0 == depth {
            at_depth(entries, depth).push(entry)
        } else {
            at_depth(entries, depth)
        }),
{
    reveal(Seq::filter);
    assert(entries.push(entry).drop_last() =~= entries);
}

/// An entry put into a list before deeper entries only comes last among the
/// entries of its depth.
proof fn lemma_insert_at_depth(
    entries: Seq<(usize, u64)>,
    at: int,
    entry: (usize, u64),
    depth: usize,
)
    requires
        0 <= at <= entries.len(),
        forall|k: int| at <= k < entries.len() ==> (#[trigger] entries[k]).0 > entry.0,
    ensures
        at_depth(entries.insert(at, entry), depth) == (if entry.0 == depth {
            at_depth(entries, depth).push(entry)
        } else {
            at_depth(entries, depth)
        }),
{
    let front = entries.subrange(0, at);
    let back = entries.subrange(at, entries.len() as int);
    assert(entries =~= front + back);
    assert(entries.insert(at, entry) =~= front.push(entry) + back);
    Seq::filter_distributes_over_add(front, back, |e: (usize, u64)| e.0 == depth);
    Seq::filter_distributes_over_add(front.push(entry), back, |e: (usize, u64)| e.0 == depth);
    lemma_push_at_depth(front, entry, depth);
    if entry.0 == depth {
        lemma_none_at_depth(back, depth);
        assert(at_depth(front, depth).push(entry) + Seq::<(usize, u64)>::empty() =~= at_depth(
            front,
            depth,
        ).push(entry));
        assert(at_depth(front, depth) + Seq::<(usize, u64)>::empty() =~= at_depth(front, depth));
    }
}

/// Sorts the entries by depth, the shallowest first. Entries of the same
/// depth keep their order.
pub fn sort_by_depth(entries: Vec<(usize, u64)>) -> (r: Vec<(usize, u64)>)
    ensures
        r@.to_multiset() == entries@.to_multiset(),
        sorted_by_depth(r@),
        forall|depth: usize| #[trigger] at_depth(r@, depth) == at_depth(entries@, depth),
{
    let mut sorted: Vec<(usize, u64)> = Vec::new();
    let mut i: usize = 0;
    proof {
        assert(entries@.take(0) =~= Seq::<(usize, u64)>::empty());
    }
    while i < entries.len()
        invariant
            i <= entries@.len(),
            sorted@.to_multiset() == entries@.take(i as int).to_multiset(),
            sorted_by_depth(sorted@),
            forall|depth: usize| #[trigger]
                at_depth(sorted@, depth) == at_depth(entries@.take(i as int), depth),
        decreases entries@.len() - i,
    {
        let entry = entries[i];
        let mut at = sorted.len();
        while at > 0 && sorted[at - 1].0 > entry.0
            invariant
                at <= sorted@.len(),
                forall|k: int| at <= k < sorted@.len() ==> (#[trigger] sorted@[k]).0 > entry.0,
            decreases at,
        {
            at = at - 1;
        }
        let ghost before = sorted@;
        sorted.insert(at, entry);
        proof {
            lemma_insert_to_multiset(before, at as int, entry);
            assert(entries@.take(i + 1) =~= entries@.take(i as int).push(entry));
            assert forall|depth: usize| #[trigger]
                at_depth(sorted@, depth) == at_depth(entries@.take(i + 1), depth) by {
                lemma_insert_at_depth(before, at as int, entry, depth);
                lemma_push_at_depth(entries@.take(i as int), entry, depth);
            }
            vstd::seq_lib::to_multiset_build(entries@.take(i as int), entry);
            assert forall|a: int, b: int| 0 <= a < b < sorted@.len() implies sorted@[a].0
                <= sorted@[b].0 by {
                if a < at && b > at {
                    assert(sorted@[a] == before[a] && sorted@[b] == before[b - 1]);
                } else if a < at && b == at {
                    assert(sorted@[a] == before[a]);
                    if at > 0 {
                        assert(before[a].0 <= before[at - 1].0 || a == at - 1);
                    }
                } else if a == at {
                    assert(sorted@[b] == before[b - 1]);
                } else if a > at {
                    assert(sorted@[a] == before[a - 1] && sorted@[b] == before[b - 1]);
                } else {
                    assert(sorted@[a] == before[a] && sorted@[b] == before[b]);
                }
            }
        }
        i = i + 1;
    }
    proof {
        assert(entries@.take(entries@.len() as int) =~= entries@);
    }
    sorted
}

impl<G: NewNodeId> PathTree<G> {
    /// Retain only the nodes that match the given predicate.
    ///
    /// The predicate is asked once about every node. A node that it rejects
    /// leaves the tree together with all its descendants. The root node is
    /// always retained and cannot be removed.
    pub fn retain_nodes<P: Fn(&TreeNode) -> bool>(&mut self, predicate: P)
        requires
            old(self).wf(),
            forall|node: &TreeNode| old(self)@.has_node(node@) ==> call_requires(predicate, (node,)),
        ensures
            final(self).wf(),
            final(self).generator() == old(self).generator(),
            exists|rejected: Set<u64>|
                {
                    &&& #[trigger] old(self)@.without_subtrees(rejected) == final(self)@
                    &&& !rejected.contains(old(self)@.root_node_id)
                    &&& forall|id: u64|
                        rejected.contains(id) ==> old(self)@.nodes.contains_key(id) && may_reject(
                            predicate,
                            old(self)@.nodes[id],
                        )
                    &&& forall|id: u64|
                        old(self)@.nodes.contains_key(id) && id != old(self)@.root_node_id
                            && !rejected.contains(id) ==> may_accept(predicate, old(self)@.nodes[id])
                },
    {
        let ghost before = self@;
        let root_node_id = self.root_node_id();
        let mut node_ids_to_remove: Vec<(usize, u64)> = Vec::new();
        let nodes = self.nodes();
        proof {
            assert(listed_ids(node_ids_to_remove@) =~= Set::<u64>::empty());
        }
        let mut i: usize = 0;
        while i < nodes.len()
            invariant
                self.wf(),
                self@ == before,
                root_node_id == before.root_node_id,
                i <= nodes@.len(),
                forall|node: &TreeNode| before.has_node(node@) ==> call_requires(predicate, (node,)),
                forall|k: int| 0 <= k < nodes@.len() ==> before.has_node((#[trigger] nodes@[k])@),
                !listed_ids(node_ids_to_remove@).contains(root_node_id),
                forall|id: u64| #[trigger]
                    listed_ids(node_ids_to_remove@).contains(id) ==> before.nodes.contains_key(id)
                        && may_reject(predicate, before.nodes[id]),
                forall|k: int|
                    0 <= k < i && nodes@[k].id != root_node_id && !listed_ids(
                        node_ids_to_remove@,
                    ).contains((#[trigger] nodes@[k]).id) ==> may_accept(
                        predicate,
                        before.nodes[nodes@[k].id],
                    ),
            decreases nodes@.len() - i,
        {
            let node = nodes[i];
            let keep = predicate(&**node);
            let ghost listed = node_ids_to_remove@;
            if !keep && node.id != root_node_id {
                let depth = self.ancestor_nodes_count(node);
                node_ids_to_remove.push((depth, node.id));
                proof {
                    lemma_listed_ids_push(listed, (depth, node.id));
                    assert(may_reject(predicate, before.nodes[node.id]));
                }
            } else {
                proof {
                    if keep {
                        assert(may_accept(predicate, before.nodes[node.id]));
                    }
                }
            }
            i = i + 1;
        }
        // Remove the subtrees in the order of the depth of their root node.
        let ghost unsorted = node_ids_to_remove@;
        let ghost rejected = listed_ids(unsorted);
        let node_ids_to_remove = sort_by_depth(node_ids_to_remove);
        proof {
            lemma_listed_ids_permuted(unsorted, node_ids_to_remove@);
            before.lemma_without_no_subtrees();
            assert forall|id: u64|
                before.nodes.contains_key(id) && id != before.root_node_id && !rejected.contains(
                    id,
                ) implies may_accept(predicate, before.nodes[id]) by {
                let k = choose|k: int| 0 <= k < nodes@.len() && (#[trigger] nodes@[k]).id == id;
                assert(nodes@[k].id == id);
            }
            assert(listed_ids(node_ids_to_remove@.take(0)) =~= Set::<u64>::empty());
        }
        let mut i: usize = 0;
        while i < node_ids_to_remove.len()
            invariant
                self.wf(),
                before.wf(),
                self.generator() == old(self).generator(),
                i <= node_ids_to_remove@.len(),
                self@ == before.without_subtrees(listed_ids(node_ids_to_remove@.take(i as int))),
                rejected == listed_ids(node_ids_to_remove@),
                !rejected.contains(before.root_node_id),
                listed_ids(node_ids_to_remove@.take(i as int)).subset_of(rejected),
            decreases node_ids_to_remove@.len() - i,
        {
            let node_id = node_ids_to_remove[i].1;
            proof {
                let gone = listed_ids(node_ids_to_remove@.take(i as int));
                assert(rejected.contains(node_ids_to_remove@[i as int].1));
                before.lemma_without_one_more(gone, node_id);
                lemma_listed_ids_push(node_ids_to_remove@.take(i as int), node_ids_to_remove@[i as int]);
                assert(node_ids_to_remove@.take(i + 1) =~= node_ids_to_remove@.take(i as int).push(
                    node_ids_to_remove@[i as int],
                ));
            }
            let _ = self.remove_subtree_by_id(node_id);
            i = i + 1;
        }
        proof {
            assert(node_ids_to_remove@.take(node_ids_to_remove@.len() as int)
                =~= node_ids_to_remove@);
            assert(before.without_subtrees(rejected) == self@);
        }
    }
}

} // verus!
