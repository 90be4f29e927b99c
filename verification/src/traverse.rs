//! Walking a tree: from a node down through its descendants, and from a node
//! up through its ancestors.

use vstd::prelude::*;
use std::sync::Arc;
use crate::edge::{HalfEdgeRef, HalfEdgeView};
use crate::model::PathTreeView;
use crate::node::Node;
use crate::node_id::NewNodeId;
use crate::tree::PathTree;
use crate::tree_node::{HalfEdgeTreeNodeRef, TreeNode};

verus! {

/// The identifiers of the nodes that the edges lead to.
pub open spec fn edge_targets<'a>(edges: Seq<HalfEdgeRef<'a>>) -> Seq<u64> {
    edges.map_values(|e: HalfEdgeRef<'a>| e.node_id)
}

impl PathTreeView {
    /// Whether `x` is a node of the tree that lies below `a` and is not `a`.
    pub open spec fn strictly_below(self, a: u64, x: u64) -> bool {
        self.nodes.contains_key(x) && x != a && self.is_ancestor_or_self(a, x)
    }

    /// Whether the parent of `x` is `a` or one of the first `bound` nodes of
    /// `visited`.
    pub open spec fn parent_visited(self, a: u64, visited: Seq<u64>, bound: int, x: u64) -> bool {
        self.parent_id(x) == a || exists|j: int|
            0 <= j < bound && j < visited.len() && #[trigger] visited[j] == self.parent_id(x)
    }

    /// Whether the edge is the one that leads from a parent to its child in
    /// this tree.
    pub open spec fn is_parent_edge(self, edge: HalfEdgeView) -> bool {
        self.nodes.contains_key(edge.node_id) && self.nodes[edge.node_id].parent is Some
            && self.nodes[edge.node_id].parent->0.path_segment == edge.path_segment
    }

    /// Whether `ids` lists the nodes strictly below `a`, each once and each
    /// after its parent.
    pub open spec fn lists_descendants(self, a: u64, ids: Seq<u64>) -> bool {
        &&& ids.no_duplicates()
        &&& ids.to_set() =~= self.descendants(a)
        &&& forall|i: int| 0 <= i < ids.len() ==> self.parent_visited(a, ids, i, #[trigger] ids[i])
    }

    /// What holds while the descendants of `a` are collected depth first:
    /// `out` holds the nodes visited so far, `stack` those that wait.
    ///
    /// No node occurs twice. Every node lies strictly below `a`. The parent
    /// of a visited node was visited before it, the parent of a waiting node
    /// was visited. Every child of `a` and of a visited node was visited or
    /// waits.
    pub open spec fn descent(self, a: u64, out: Seq<u64>, stack: Seq<u64>) -> bool {
        &&& out.no_duplicates()
        &&& stack.no_duplicates()
        &&& forall|i: int, j: int|
            0 <= i < out.len() && 0 <= j < stack.len() ==> #[trigger] out[i] != #[trigger] stack[j]
        &&& forall|i: int| 0 <= i < out.len() ==> self.strictly_below(a, #[trigger] out[i])
        &&& forall|i: int| 0 <= i < stack.len() ==> self.strictly_below(a, #[trigger] stack[i])
        &&& forall|i: int| 0 <= i < out.len() ==> self.parent_visited(a, out, i, #[trigger] out[i])
        &&& forall|i: int|
            0 <= i < stack.len() ==> self.parent_visited(a, out, out.len() as int, #[trigger] stack[i])
        &&& forall|x: u64, s: Seq<char>|
            (x == a || out.contains(x)) && #[trigger] self.children_of(x).contains_key(s)
                ==> out.contains(self.children_of(x)[s]) || stack.contains(self.children_of(x)[s])
    }

    /// Whether `kids` lists the children of `x`, each once.
    pub open spec fn lists_children(self, x: u64, kids: Seq<u64>) -> bool {
        &&& kids.no_duplicates()
        &&& forall|k: int|
            0 <= k < kids.len() ==> self.nodes.contains_key(#[trigger] kids[k])
                && self.nodes[kids[k]].parent is Some && self.parent_id(kids[k]) == x
        &&& forall|s: Seq<char>| #[trigger]
            self.children_of(x).contains_key(s) ==> kids.contains(self.children_of(x)[s])
    }

    /// A child lies strictly below whatever its parent lies below.
    pub proof fn lemma_child_below(self, a: u64, x: u64, c: u64)
        requires
            self.wf(),
            self.nodes.contains_key(x),
            self.is_ancestor_or_self(a, x),
            self.nodes.contains_key(c),
            c != self.root_node_id,
            self.parent_id(c) == x,
        ensures
            self.strictly_below(a, c),
    {
        assert(self.node_wf(c));
        self.lemma_ancestor_depth(a, x);
    }

    /// The collection starts with the children of `a` waiting.
    pub proof fn lemma_descent_start(self, a: u64, kids: Seq<u64>)
        requires
            self.wf(),
            self.nodes.contains_key(a),
            self.lists_children(a, kids),
        ensures
            self.descent(a, Seq::empty(), kids),
    {
        let out = Seq::<u64>::empty();
        assert forall|i: int| 0 <= i < kids.len() implies self.strictly_below(
            a,
            #[trigger] kids[i],
        ) by {
            assert(self.node_wf(kids[i]));
            self.lemma_child_below(a, a, kids[i]);
        }
        assert forall|x: u64, s: Seq<char>|
            (x == a || out.contains(x)) && #[trigger] self.children_of(x).contains_key(
                s,
            ) implies out.contains(self.children_of(x)[s]) || kids.contains(
            self.children_of(x)[s],
        ) by {}
    }

    /// No child of the node on top of the stack was seen before, and each lies
    /// strictly below `a`: the parent of whatever was seen is `a` or was
    /// visited, and the node on top of the stack is neither.
    proof fn lemma_children_unseen(self, a: u64, out: Seq<u64>, stack: Seq<u64>, kids: Seq<u64>)
        requires
            self.wf(),
            self.nodes.contains_key(a),
            self.descent(a, out, stack),
            stack.len() > 0,
            self.lists_children(stack.last(), kids),
        ensures
            forall|k: int|
                0 <= k < kids.len() ==> !out.contains(#[trigger] kids[k]) && !stack.contains(kids[k])
                    && self.strictly_below(a, kids[k]),
    {
        let x = stack.last();
        assert(self.strictly_below(a, stack[stack.len() - 1]));
        assert forall|k: int| 0 <= k < kids.len() implies !out.contains(#[trigger] kids[k])
            && !stack.contains(kids[k]) && self.strictly_below(a, kids[k]) by {
            let c = kids[k];
            assert(self.node_wf(c));
            self.lemma_child_below(a, x, c);
            if out.contains(c) {
                let i = choose|i: int| 0 <= i < out.len() && out[i] == c;
                assert(self.parent_visited(a, out, i, out[i]));
                if self.parent_id(c) != a {
                    let j = choose|j: int|
                        0 <= j < i && j < out.len() && #[trigger] out[j] == self.parent_id(c);
                    assert(out[j] != stack[stack.len() - 1]);
                }
            }
            if stack.contains(c) {
                let i = choose|i: int| 0 <= i < stack.len() && stack[i] == c;
                assert(self.parent_visited(a, out, out.len() as int, stack[i]));
                if self.parent_id(c) != a {
                    let j = choose|j: int|
                        0 <= j < out.len() && j < out.len() && #[trigger] out[j] == self.parent_id(c);
                    assert(out[j] != stack[stack.len() - 1]);
                }
            }
        }
    }

    /// After a step no node occurs twice.
    proof fn lemma_step_distinct(out: Seq<u64>, stack: Seq<u64>, kids: Seq<u64>)
        requires
            out.no_duplicates(),
            stack.no_duplicates(),
            kids.no_duplicates(),
            stack.len() > 0,
            forall|i: int, j: int|
                0 <= i < out.len() && 0 <= j < stack.len() ==> #[trigger] out[i] != #[trigger] stack[j],
            forall|k: int|
                0 <= k < kids.len() ==> !out.contains(#[trigger] kids[k]) && !stack.contains(kids[k]),
        ensures
            out.push(stack.last()).no_duplicates(),
            (stack.drop_last() + kids).no_duplicates(),
            forall|i: int, j: int|
                0 <= i < out.push(stack.last()).len() && 0 <= j < (stack.drop_last() + kids).len()
                    ==> #[trigger] out.push(stack.last())[i] != #[trigger] (stack.drop_last()
                    + kids)[j],
    {
        let x = stack.last();
        let out2 = out.push(x);
        let rest = stack.drop_last();
        let stack2 = rest + kids;
        assert forall|i: int, j: int|
            0 <= i < out2.len() && 0 <= j < out2.len() && i != j implies out2[i] != out2[j] by {
            if i == out.len() {
                assert(out[j] != stack[stack.len() - 1]);
            } else if j == out.len() {
                assert(out[i] != stack[stack.len() - 1]);
            }
        }
        assert forall|i: int, j: int|
            0 <= i < stack2.len() && 0 <= j < stack2.len() && i != j implies stack2[i]
            != stack2[j] by {
            if i < rest.len() && j >= rest.len() {
                assert(stack[i] == stack2[i]);
                assert(stack.contains(stack2[i]));
                assert(!stack.contains(kids[j - rest.len()]));
            } else if j < rest.len() && i >= rest.len() {
                assert(stack[j] == stack2[j]);
                assert(stack.contains(stack2[j]));
                assert(!stack.contains(kids[i - rest.len()]));
            } else if i < rest.len() {
                assert(rest[i] == stack[i] && rest[j] == stack[j]);
            } else {
                assert(stack2[i] == kids[i - rest.len()] && stack2[j] == kids[j - rest.len()]);
            }
        }
        assert forall|i: int, j: int| 0 <= i < out2.len() && 0 <= j < stack2.len() implies
            #[trigger] out2[i] != #[trigger] stack2[j] by {
            if j < rest.len() {
                assert(rest[j] == stack[j]);
                if i == out.len() {
                    assert(stack[j] != stack[stack.len() - 1]);
                } else {
                    assert(out[i] != stack[j]);
                }
            } else {
                let c = kids[j - rest.len()];
                assert(stack2[j] == c);
                assert(!out.contains(c));
                assert(!stack.contains(c));
                if i == out.len() {
                    assert(stack.contains(stack[stack.len() - 1]));
                } else {
                    assert(out.contains(out[i]));
                }
            }
        }
    }

    /// After a step the parent of each visited node was visited before it, and
    /// the parent of each waiting node was visited.
    proof fn lemma_step_parents(self, a: u64, out: Seq<u64>, stack: Seq<u64>, kids: Seq<u64>)
        requires
            stack.len() > 0,
            forall|i: int| 0 <= i < out.len() ==> self.parent_visited(a, out, i, #[trigger] out[i]),
            forall|i: int|
                0 <= i < stack.len() ==> self.parent_visited(
                    a,
                    out,
                    out.len() as int,
                    #[trigger] stack[i],
                ),
            forall|k: int| 0 <= k < kids.len() ==> self.parent_id(#[trigger] kids[k]) == stack.last(),
        ensures
            forall|i: int|
                0 <= i < out.push(stack.last()).len() ==> self.parent_visited(
                    a,
                    out.push(stack.last()),
                    i,
                    #[trigger] out.push(stack.last())[i],
                ),
            forall|i: int|
                0 <= i < (stack.drop_last() + kids).len() ==> self.parent_visited(
                    a,
                    out.push(stack.last()),
                    out.push(stack.last()).len() as int,
                    #[trigger] (stack.drop_last() + kids)[i],
                ),
    {
        let x = stack.last();
        let out2 = out.push(x);
        let rest = stack.drop_last();
        let stack2 = rest + kids;
        assert(self.parent_visited(a, out, out.len() as int, stack[stack.len() - 1]));
        assert forall|i: int| 0 <= i < out2.len() implies self.parent_visited(
            a,
            out2,
            i,
            #[trigger] out2[i],
        ) by {
            if i < out.len() {
                assert(self.parent_visited(a, out, i, out[i]));
                if self.parent_id(out[i]) != a {
                    let j = choose|j: int|
                        0 <= j < i && j < out.len() && #[trigger] out[j] == self.parent_id(out[i]);
                    assert(out2[j] == self.parent_id(out2[i]));
                }
            } else {
                if self.parent_id(x) != a {
                    let j = choose|j: int|
                        0 <= j < out.len() && j < out.len() && #[trigger] out[j] == self.parent_id(x);
                    assert(out2[j] == self.parent_id(x));
                }
            }
        }
        assert forall|i: int| 0 <= i < stack2.len() implies self.parent_visited(
            a,
            out2,
            out2.len() as int,
            #[trigger] stack2[i],
        ) by {
            if i < rest.len() {
                assert(rest[i] == stack[i]);
                assert(self.parent_visited(a, out, out.len() as int, stack[i]));
                if self.parent_id(stack[i]) != a {
                    let j = choose|j: int|
                        0 <= j < out.len() && j < out.len() && #[trigger] out[j] == self.parent_id(
                            stack[i],
                        );
                    assert(out2[j] == self.parent_id(stack2[i]));
                }
            } else {
                assert(stack2[i] == kids[i - rest.len()]);
                assert(out2[out.len() as int] == x);
            }
        }
    }

    /// After a step every child of `a` and of a visited node was visited or
    /// waits.
    proof fn lemma_step_children(self, a: u64, out: Seq<u64>, stack: Seq<u64>, kids: Seq<u64>)
        requires
            stack.len() > 0,
            forall|x: u64, s: Seq<char>|
                (x == a || out.contains(x)) && #[trigger] self.children_of(x).contains_key(s)
                    ==> out.contains(self.children_of(x)[s]) || stack.contains(
                    self.children_of(x)[s],
                ),
            forall|s: Seq<char>| #[trigger]
                self.children_of(stack.last()).contains_key(s) ==> kids.contains(
                    self.children_of(stack.last())[s],
                ),
        ensures
            forall|x: u64, s: Seq<char>|
                (x == a || out.push(stack.last()).contains(x)) && #[trigger] self.children_of(
                    x,
                ).contains_key(s) ==> out.push(stack.last()).contains(self.children_of(x)[s]) || (
                stack.drop_last() + kids).contains(self.children_of(x)[s]),
    {
        let x = stack.last();
        let out2 = out.push(x);
        let rest = stack.drop_last();
        let stack2 = rest + kids;
        assert forall|y: u64, s: Seq<char>|
            (y == a || out2.contains(y)) && #[trigger] self.children_of(y).contains_key(
                s,
            ) implies out2.contains(self.children_of(y)[s]) || stack2.contains(
            self.children_of(y)[s],
        ) by {
            let c = self.children_of(y)[s];
            if y == x {
                assert(kids.contains(c));
                let k = choose|k: int| 0 <= k < kids.len() && kids[k] == c;
                assert(stack2[rest.len() + k] == c);
            } else {
                if y != a {
                    let i = choose|i: int| 0 <= i < out2.len() && out2[i] == y;
                    assert(out[i] == y);
                    assert(out.contains(y));
                }
                if out.contains(c) {
                    let i = choose|i: int| 0 <= i < out.len() && out[i] == c;
                    assert(out2[i] == c);
                } else {
                    assert(stack.contains(c));
                    let i = choose|i: int| 0 <= i < stack.len() && stack[i] == c;
                    if i < rest.len() {
                        assert(stack2[i] == c);
                    } else {
                        assert(out2[out.len() as int] == c);
                    }
                }
            }
        }
    }

    /// One step of the collection: the node on top of the stack is visited,
    /// and its children wait in its place.
    pub proof fn lemma_descent_step(self, a: u64, out: Seq<u64>, stack: Seq<u64>, kids: Seq<u64>)
        requires
            self.wf(),
            self.nodes.contains_key(a),
            self.descent(a, out, stack),
            stack.len() > 0,
            self.lists_children(stack.last(), kids),
        ensures
            self.descent(a, out.push(stack.last()), stack.drop_last() + kids),
    {
        let x = stack.last();
        let out2 = out.push(x);
        let rest = stack.drop_last();
        let stack2 = rest + kids;
        self.lemma_children_unseen(a, out, stack, kids);
        Self::lemma_step_distinct(out, stack, kids);
        self.lemma_step_parents(a, out, stack, kids);
        self.lemma_step_children(a, out, stack, kids);
        assert(self.strictly_below(a, stack[stack.len() - 1]));
        assert forall|i: int| 0 <= i < out2.len() implies self.strictly_below(
            a,
            #[trigger] out2[i],
        ) by {
            if i < out.len() {
                assert(out2[i] == out[i]);
            }
        }
        assert forall|i: int| 0 <= i < stack2.len() implies self.strictly_below(
            a,
            #[trigger] stack2[i],
        ) by {
            if i < rest.len() {
                assert(stack2[i] == stack[i]);
            } else {
                assert(stack2[i] == kids[i - rest.len()]);
            }
        }
    }

    /// Once nothing waits, every node strictly below `a` was visited.
    pub proof fn lemma_descent_complete(self, a: u64, out: Seq<u64>, d: u64)
        requires
            self.wf(),
            self.nodes.contains_key(a),
            self.descent(a, out, Seq::empty()),
            self.strictly_below(a, d),
        ensures
            out.contains(d),
        decreases self.depth[d],
    {
        assert(self.node_wf(d));
        let p = self.parent_id(d);
        let s = self.nodes[d].parent->0.path_segment;
        assert(self.children_of(p).contains_key(s));
        if p != a {
            self.lemma_descent_complete(a, out, p);
        }
        assert(out.contains(self.children_of(p)[s]) || Seq::<u64>::empty().contains(
            self.children_of(p)[s],
        ));
    }

    /// Once nothing waits, the visited nodes are the descendants of `a`.
    pub proof fn lemma_descent_end(self, a: u64, out: Seq<u64>)
        requires
            self.wf(),
            self.nodes.contains_key(a),
            self.descent(a, out, Seq::empty()),
        ensures
            self.lists_descendants(a, out),
            self.descendants(a).finite(),
            self.descendants(a).len() == out.len(),
    {
        assert forall|d: u64| self.descendants(a).contains(d) implies out.to_set().contains(d) by {
            self.lemma_descent_complete(a, out, d);
        }
        assert forall|d: u64| out.to_set().contains(d) implies self.descendants(a).contains(d) by {
            let i = choose|i: int| 0 <= i < out.len() && out[i] == d;
            assert(self.strictly_below(a, out[i]));
        }
        assert(out.to_set() =~= self.descendants(a));
        out.unique_seq_to_set();
        vstd::seq_lib::seq_to_set_is_finite(out);
    }

    /// Whether the list runs depth first: the descendants of a node follow
    /// the node without a gap, so that a node between a node and one of its
    /// descendants is a descendant too.
    pub open spec fn depth_first(self, ids: Seq<u64>) -> bool {
        forall|i: int, j: int, k: int|
            #![trigger self.is_ancestor_or_self(ids[i], ids[k]), ids[j]]
            0 <= i < j < k < ids.len() && self.is_ancestor_or_self(ids[i], ids[k])
                ==> self.is_ancestor_or_self(ids[i], ids[j])
    }

    /// What holds of the order while the descendants are collected depth
    /// first.
    ///
    /// The visited nodes run depth first. A visited node that lies above a
    /// waiting node lies above everything that was visited after it, and
    /// above everything that waits nearer to the top of the stack.
    pub open spec fn descent_order(self, out: Seq<u64>, stack: Seq<u64>) -> bool {
        &&& self.depth_first(out)
        &&& forall|i: int, j: int, s: int|
            #![trigger self.is_ancestor_or_self(out[i], stack[s]), out[j]]
            0 <= i < j < out.len() && 0 <= s < stack.len() && self.is_ancestor_or_self(
                out[i],
                stack[s],
            ) ==> self.is_ancestor_or_self(out[i], out[j])
        &&& forall|i: int, p: int, q: int|
            #![trigger self.is_ancestor_or_self(out[i], stack[p]), stack[q]]
            0 <= i < out.len() && 0 <= p < q < stack.len() && self.is_ancestor_or_self(
                out[i],
                stack[p],
            ) ==> self.is_ancestor_or_self(out[i], stack[q])
    }

    /// A node lies above a child of `x` exactly if it is the child or lies
    /// above `x`.
    pub proof fn lemma_above_child(self, v: u64, x: u64, c: u64)
        requires
            self.wf(),
            self.nodes.contains_key(c),
            self.nodes[c].parent is Some,
            self.parent_id(c) == x,
        ensures
            self.is_ancestor_or_self(v, c) <==> v == c || self.is_ancestor_or_self(v, x),
    {
        assert(self.node_wf(c));
    }

    /// One step of the collection keeps the order.
    pub proof fn lemma_descent_order_step(
        self,
        a: u64,
        out: Seq<u64>,
        stack: Seq<u64>,
        kids: Seq<u64>,
    )
        requires
            self.wf(),
            self.nodes.contains_key(a),
            self.descent(a, out, stack),
            self.descent_order(out, stack),
            stack.len() > 0,
            self.lists_children(stack.last(), kids),
        ensures
            self.descent_order(out.push(stack.last()), stack.drop_last() + kids),
    {
        let x = stack.last();
        let top = stack.len() - 1;
        let n = out.len() as int;
        let out2 = out.push(x);
        let rest = stack.drop_last();
        let stack2 = rest + kids;
        self.lemma_children_unseen(a, out, stack, kids);
        assert(stack[top] == x);
        // a visited node lies above a child of `x` exactly if it lies above `x`
        assert forall|i: int, c: int| 0 <= i < n && 0 <= c < kids.len() implies (
        self.is_ancestor_or_self(out[i], #[trigger] kids[c]) <==> self.is_ancestor_or_self(
            #[trigger] out[i],
            x,
        )) by {
            self.lemma_above_child(out[i], x, kids[c]);
            assert(out.contains(out[i]));
        }
        assert forall|i: int, j: int, k: int|
            #![trigger self.is_ancestor_or_self(out2[i], out2[k]), out2[j]]
            0 <= i < j < k < out2.len() && self.is_ancestor_or_self(
                out2[i],
                out2[k],
            ) implies self.is_ancestor_or_self(out2[i], out2[j]) by {
            if k == n {
                assert(self.is_ancestor_or_self(out[i], stack[top]));
                assert(out[j] == out2[j]);
            } else {
                assert(self.is_ancestor_or_self(out[i], out[k]));
                assert(out[j] == out2[j]);
            }
        }
        assert forall|i: int, j: int, s: int|
            #![trigger self.is_ancestor_or_self(out2[i], stack2[s]), out2[j]]
            0 <= i < j < out2.len() && 0 <= s < stack2.len() && self.is_ancestor_or_self(
                out2[i],
                stack2[s],
            ) implies self.is_ancestor_or_self(out2[i], out2[j]) by {
            // `x` lies below the visited node
            if s < rest.len() {
                assert(stack2[s] == stack[s]);
                assert(self.is_ancestor_or_self(out[i], stack[s]));
                if s < top {
                    assert(self.is_ancestor_or_self(out[i], stack[top]));
                }
            } else {
                assert(stack2[s] == kids[s - rest.len()]);
                assert(self.is_ancestor_or_self(out[i], kids[s - rest.len()]));
            }
            assert(self.is_ancestor_or_self(out[i], stack[top]));
            if j < n {
                assert(out[j] == out2[j]);
            }
        }
        assert forall|i: int, p: int, q: int|
            #![trigger self.is_ancestor_or_self(out2[i], stack2[p]), stack2[q]]
            0 <= i < out2.len() && 0 <= p < q < stack2.len() && self.is_ancestor_or_self(
                out2[i],
                stack2[p],
            ) implies self.is_ancestor_or_self(out2[i], stack2[q]) by {
            if i == n {
                if q < rest.len() {
                    // nothing that waits lies below `x`
                    assert(stack2[p] == stack[p]);
                    self.lemma_not_above_waiting(a, out, stack, p);
                } else {
                    self.lemma_above_child(x, x, kids[q - rest.len()]);
                }
            } else {
                if q < rest.len() {
                    assert(stack2[p] == stack[p] && stack2[q] == stack[q]);
                    assert(self.is_ancestor_or_self(out[i], stack[p]));
                } else {
                    if p < rest.len() {
                        assert(stack2[p] == stack[p]);
                        assert(self.is_ancestor_or_self(out[i], stack[p]));
                        if p < top {
                            assert(self.is_ancestor_or_self(out[i], stack[top]));
                        }
                    } else {
                        assert(stack2[p] == kids[p - rest.len()]);
                    }
                    assert(stack2[q] == kids[q - rest.len()]);
                }
            }
        }
    }

    /// The node on top of the stack does not lie above another waiting node.
    proof fn lemma_not_above_waiting(self, a: u64, out: Seq<u64>, stack: Seq<u64>, p: int)
        requires
            self.wf(),
            self.nodes.contains_key(a),
            self.descent(a, out, stack),
            0 <= p < stack.len() - 1,
        ensures
            !self.is_ancestor_or_self(stack.last(), stack[p]),
    {
        let x = stack.last();
        let s = stack[p];
        assert(stack[stack.len() - 1] == x);
        assert(self.strictly_below(a, stack[stack.len() - 1]));
        assert(self.strictly_below(a, stack[p]));
        assert(self.parent_visited(a, out, out.len() as int, stack[p]));
        assert(self.node_wf(s));
        if self.is_ancestor_or_self(x, s) {
            let up = self.parent_id(s);
            assert(self.is_ancestor_or_self(x, up));
            if up == a {
                self.lemma_ancestor_depth(a, x);
                self.lemma_ancestor_depth(x, a);
            } else {
                let j = choose|j: int|
                    0 <= j < out.len() && j < out.len() && #[trigger] out[j] == up;
                self.lemma_above_visited(a, out, x, j);
            }
        }
    }

    /// A node that lies strictly below `a` and above a visited node was
    /// visited: on the way from a visited node up to `a` all nodes were
    /// visited.
    proof fn lemma_above_visited(self, a: u64, out: Seq<u64>, x: u64, j: int)
        requires
            self.wf(),
            self.nodes.contains_key(a),
            forall|i: int| 0 <= i < out.len() ==> self.strictly_below(a, #[trigger] out[i]),
            forall|i: int| 0 <= i < out.len() ==> self.parent_visited(a, out, i, #[trigger] out[i]),
            0 <= j < out.len(),
            self.strictly_below(a, x),
            self.is_ancestor_or_self(x, out[j]),
        ensures
            out.contains(x),
        decreases self.depth[out[j]],
    {
        let u = out[j];
        assert(self.strictly_below(a, out[j]));
        assert(self.node_wf(u));
        if x != u {
            let up = self.parent_id(u);
            assert(self.parent_visited(a, out, j, out[j]));
            if up == a {
                self.lemma_ancestor_depth(a, x);
                self.lemma_ancestor_depth(x, a);
            } else {
                let i = choose|i: int| 0 <= i < j && i < out.len() && #[trigger] out[i] == up;
                self.lemma_above_visited(a, out, x, i);
            }
        }
    }

    /// The ancestors of `id`, from its parent up to the root.
    pub open spec fn ancestors(self, id: u64) -> Seq<u64>
        decreases self.depth[id],
    {
        let up = self.parent_id(id);
        if self.nodes.contains_key(id) && self.nodes[id].parent is Some && self.depth[up]
            < self.depth[id] {
            seq![self.parent_id(id)] + self.ancestors(self.parent_id(id))
        } else {
            Seq::empty()
        }
    }

    /// A node has as many ancestors as it lies deep, and each is a node of
    /// the tree.
    pub proof fn lemma_ancestors(self, id: u64)
        requires
            self.wf(),
            self.nodes.contains_key(id),
        ensures
            self.ancestors(id).len() == self.depth[id],
            forall|i: int|
                0 <= i < self.ancestors(id).len() ==> self.nodes.contains_key(
                    #[trigger] self.ancestors(id)[i],
                ),
            id == self.root_node_id <==> self.ancestors(id).len() == 0,
        decreases self.depth[id],
    {
        assert(self.node_wf(id));
        if id != self.root_node_id {
            let p = self.parent_id(id);
            self.lemma_ancestors(p);
            let rest = self.ancestors(p);
            assert forall|i: int| 0 <= i < self.ancestors(id).len() implies self.nodes.contains_key(
                #[trigger] self.ancestors(id)[i],
            ) by {
                if i > 0 {
                    assert(self.ancestors(id)[i] == rest[i - 1]);
                }
            }
        }
    }

    /// The nodes strictly below the root are all other nodes of the tree.
    pub proof fn lemma_descendants_of_root(self)
        requires
            self.wf(),
        ensures
            self.descendants(self.root_node_id) =~= self.nodes.dom().remove(self.root_node_id),
            self.nodes.dom().len() == 1 + self.descendants(self.root_node_id).len(),
    {
        assert forall|d: u64| self.nodes.dom().remove(self.root_node_id).contains(d) implies
            self.descendants(self.root_node_id).contains(d) by {
            self.lemma_root_reaches(d);
        }
        assert(self.descendants(self.root_node_id) =~= self.nodes.dom().remove(self.root_node_id));
    }
}

impl<G: NewNodeId> PathTree<G> {
    /// The edges from node `id` to its children, each child once, in no
    /// particular order.
    pub(crate) fn child_edges_of<'a>(&'a self, id: u64) -> (r: Vec<HalfEdgeRef<'a>>)
        requires
            self.wf(),
            self@.nodes.contains_key(id),
        ensures
            self@.lists_children(id, edge_targets(r@)),
            forall|i: int| 0 <= i < r@.len() ==> self@.is_parent_edge((#[trigger] r@[i])@),
    {
        let node = self.get_node(id);
        let edges = match &node.node {
            Node::Inner(inner) => inner.child_edges(),
            Node::Leaf(_) => Vec::new(),
        };
        proof {
            let t = self@;
            let kids = edge_targets(edges@);
            assert(t.node_wf(id));
            assert forall|k: int| 0 <= k < kids.len() implies t.nodes.contains_key(
                #[trigger] kids[k],
            ) && t.nodes[kids[k]].parent is Some && t.parent_id(kids[k]) == id
                && t.is_parent_edge(edges@[k]@) by {
                assert(t.children_of(id).contains_key(edges@[k]@.path_segment));
            }
            assert forall|i: int, j: int|
                0 <= i < kids.len() && 0 <= j < kids.len() && i != j implies kids[i] != kids[j] by {
                assert(t.children_of(id).contains_key(edges@[i]@.path_segment));
                assert(t.children_of(id).contains_key(edges@[j]@.path_segment));
            }
            assert forall|s: Seq<char>| #[trigger]
                t.children_of(id).contains_key(s) implies kids.contains(t.children_of(id)[s]) by {
                let i = choose|i: int| 0 <= i < edges@.len() && (#[trigger] edges@[i])@.path_segment == s;
                assert(kids[i] == t.children_of(id)[s]);
            }
        }
        edges
    }

    /// The edges to all descendants of node `id`, depth first: each
    /// descendant once, and each after its parent.
    pub(crate) fn descendant_edges<'a>(&'a self, id: u64) -> (r: Vec<HalfEdgeRef<'a>>)
        requires
            self.wf(),
            self@.nodes.contains_key(id),
        ensures
            self@.lists_descendants(id, edge_targets(r@)),
            self@.depth_first(edge_targets(r@)),
            forall|i: int| 0 <= i < r@.len() ==> self@.is_parent_edge((#[trigger] r@[i])@),
            self@.descendants(id).finite(),
            self@.descendants(id).len() == r@.len(),
    {
        let mut out: Vec<HalfEdgeRef<'a>> = Vec::new();
        let mut stack = self.child_edges_of(id);
        proof {
            self@.lemma_descent_start(id, edge_targets(stack@));
            assert(edge_targets(out@) =~= Seq::<u64>::empty());
        }
        while stack.len() > 0
            invariant
                self.wf(),
                self@.nodes.contains_key(id),
                self@.descent(id, edge_targets(out@), edge_targets(stack@)),
                self@.descent_order(edge_targets(out@), edge_targets(stack@)),
                forall|i: int| 0 <= i < out@.len() ==> self@.is_parent_edge((#[trigger] out@[i])@),
                forall|i: int|
                    0 <= i < stack@.len() ==> self@.is_parent_edge((#[trigger] stack@[i])@),
                out@.len() <= self@.nodes.dom().len(),
            decreases self@.nodes.dom().len() - out@.len(),
        {
            let ghost out_ids = edge_targets(out@);
            let ghost stack_ids = edge_targets(stack@);
            let edge = stack.pop().unwrap();
            proof {
                assert(self@.strictly_below(id, stack_ids[stack_ids.len() - 1]));
            }
            let mut kids = self.child_edges_of(edge.node_id);
            let ghost kid_ids = edge_targets(kids@);
            proof {
                self@.lemma_descent_step(id, out_ids, stack_ids, kid_ids);
                self@.lemma_descent_order_step(id, out_ids, stack_ids, kid_ids);
            }
            out.push(edge);
            stack.append(&mut kids);
            proof {
                let out2 = edge_targets(out@);
                assert(out2 =~= out_ids.push(stack_ids.last()));
                assert(edge_targets(stack@) =~= stack_ids.drop_last() + kid_ids);
                assert(out2.to_set().subset_of(self@.nodes.dom())) by {
                    assert forall|x: u64| out2.to_set().contains(x) implies self@.nodes.dom().contains(
                        x,
                    ) by {
                        let i = choose|i: int| 0 <= i < out2.len() && out2[i] == x;
                        assert(self@.strictly_below(id, out2[i]));
                    }
                }
                out2.unique_seq_to_set();
                vstd::set_lib::lemma_len_subset(out2.to_set(), self@.nodes.dom());
                assert(!out2.to_set().contains(id)) by {
                    if out2.contains(id) {
                        let i = choose|i: int| 0 <= i < out2.len() && out2[i] == id;
                        assert(self@.strictly_below(id, out2[i]));
                    }
                }
                vstd::set_lib::lemma_len_subset(out2.to_set(), self@.nodes.dom().remove(id));
            }
        }
        proof {
            assert(edge_targets(stack@) =~= Seq::<u64>::empty());
            self@.lemma_descent_end(id, edge_targets(out@));
        }
        out
    }

    /// The edges to all descendants of the given node, depth first.
    ///
    /// Each descendant occurs once, after its parent and before the next
    /// node that is not below the parent. The order of siblings is not
    /// fixed. The node has to be one that the tree holds.
    pub fn descendant_nodes<'a>(&'a self, node: &Arc<TreeNode>) -> (r: Vec<HalfEdgeRef<'a>>)
        requires
            self.wf(),
            self@.has_node(node@),
        ensures
            self@.lists_descendants(node.id, edge_targets(r@)),
            self@.depth_first(edge_targets(r@)),
            forall|i: int| 0 <= i < r@.len() ==> self@.is_parent_edge((#[trigger] r@[i])@),
    {
        self.descendant_edges(node.id)
    }

    /// Number of descendants of the given node, which the tree has to hold.
    #[must_use]
    pub fn descendant_nodes_count(&self, node: &Arc<TreeNode>) -> (r: usize)
        requires
            self.wf(),
            self@.has_node(node@),
        ensures
            r == self@.descendants(node.id).len(),
    {
        self.descendant_edges(node.id).len()
    }
}

/// Iterator over all ancestor nodes of a node, from its parent up to the
/// root.
pub struct AncestorTreeNodeIter<'a, G: NewNodeId> {
    tree: &'a PathTree<G>,
    next_node: Option<&'a Arc<TreeNode>>,
}

impl<'a, G: NewNodeId> AncestorTreeNodeIter<'a, G> {
    /// The tree that is walked.
    pub closed spec fn tree(&self) -> PathTree<G> {
        *self.tree
    }

    /// The node whose parent comes next.
    pub closed spec fn position(&self) -> Option<TreeNode> {
        match self.next_node {
            Some(node) => Some(**node),
            None => None,
        }
    }

    /// Well-formedness: the tree is well-formed and holds the node at which
    /// the iterator stands.
    pub open spec fn wf(&self) -> bool {
        &&& self.tree().wf()
        &&& self.position() matches Some(node) && self.tree()@.has_node(node@)
    }

    /// The ancestors that are still to come.
    pub open spec fn remaining(&self) -> Seq<u64> {
        self.tree()@.ancestors(self.position()->0.id)
    }

    /// Create a new iterator over all ancestor nodes of the given node, which
    /// the tree has to hold.
    #[must_use]
    pub fn new(tree: &'a PathTree<G>, node: &'a Arc<TreeNode>) -> (r: Self)
        requires
            tree.wf(),
            tree@.has_node(node@),
        ensures
            r.wf(),
            r.tree() == *tree,
            r.position() == Some(**node),
    {
        AncestorTreeNodeIter { tree, next_node: Some(node) }
    }

    /// The next ancestor with the segment that leads from it down to the
    /// node before, or `None` once the root was reached.
    pub fn next(&mut self) -> (r: Option<HalfEdgeTreeNodeRef<'a>>)
        requires
            old(self).wf(),
        ensures
            final(self).wf(),
            final(self).tree() == old(self).tree(),
            match r {
                Some(edge) => {
                    &&& old(self).remaining().len() > 0
                    &&& edge.node.id == old(self).remaining()[0]
                    &&& old(self).tree()@.has_node(edge.node@)
                    &&& old(self).position()->0@.parent matches Some(up) && up.path_segment
                        == edge.path_segment@
                    &&& final(self).position() == Some(**edge.node)
                    &&& final(self).remaining() == old(self).remaining().drop_first()
                },
                None => {
                    &&& old(self).remaining().len() == 0
                    &&& old(self).position()->0.id == old(self).tree()@.root_node_id
                    &&& final(self).position() == old(self).position()
                },
            },
    {
        let node: &'a Arc<TreeNode> = match self.next_node {
            Some(node) => node,
            None => { return None; },
        };
        proof {
            assert(self.tree@.node_wf(node.id));
            self.tree@.lemma_ancestors(node.id);
        }
        let parent = match &node.parent {
            Some(parent) => parent,
            None => { return None; },
        };
        let parent_node = self.tree.get_node(parent.node_id);
        proof {
            assert(self.tree@.node_wf(parent.node_id));
            assert(self.tree@.ancestors(node.id).drop_first() =~= self.tree@.ancestors(
                parent.node_id,
            ));
        }
        self.next_node = Some(parent_node);
        Some(HalfEdgeTreeNodeRef { path_segment: parent.path_segment.as_str(), node: parent_node })
    }
}

impl<G: NewNodeId> PathTree<G> {
    /// All ancestor nodes of the given node, from its parent up to the root,
    /// each with the segment that leads from it down to the node before.
    ///
    /// The node has to be one that the tree holds.
    pub fn ancestor_nodes<'a>(&'a self, node: &'a Arc<TreeNode>) -> (r: Vec<
        HalfEdgeTreeNodeRef<'a>,
    >)
        requires
            self.wf(),
            self@.has_node(node@),
        ensures
            r@.len() == self@.ancestors(node.id).len(),
            r@.len() == self@.depth[node.id],
            forall|i: int|
                0 <= i < r@.len() ==> {
                    &&& (#[trigger] r@[i]).node.id == self@.ancestors(node.id)[i]
                    &&& self@.has_node(r@[i].node@)
                    &&& r@[i].node@.node.children().get(r@[i].path_segment@) == Some(
                        if i == 0 {
                            node.id
                        } else {
                            self@.ancestors(node.id)[i - 1]
                        },
                    )
                },
    {
        let mut ancestors: Vec<HalfEdgeTreeNodeRef<'a>> = Vec::new();
        let mut iter = AncestorTreeNodeIter::new(self, node);
        let ghost all = self@.ancestors(node.id);
        proof {
            self@.lemma_ancestors(node.id);
        }
        loop
            invariant_except_break
                iter.wf(),
                iter.tree() == *self,
                ancestors@.len() <= all.len(),
                iter.remaining() == all.skip(ancestors@.len() as int),
                iter.position()->0.id == (if ancestors@.len() == 0 {
                    node.id
                } else {
                    all[ancestors@.len() - 1]
                }),
            invariant
                self.wf(),
                self@.has_node(node@),
                all == self@.ancestors(node.id),
                all.len() == self@.depth[node.id],
                forall|i: int|
                    0 <= i < ancestors@.len() ==> {
                        &&& (#[trigger] ancestors@[i]).node.id == all[i]
                        &&& self@.has_node(ancestors@[i].node@)
                        &&& ancestors@[i].node@.node.children().get(ancestors@[i].path_segment@)
                            == Some(
                            if i == 0 {
                                node.id
                            } else {
                                all[i - 1]
                            },
                        )
                    },
            ensures
                ancestors@.len() == all.len(),
            decreases all.len() - ancestors@.len(),
        {
            let ghost before = iter.position()->0;
            match iter.next() {
                Some(edge) => {
                    proof {
                        assert(self@.node_wf(before.id));
                        let k = ancestors@.len() as int;
                        assert(all.skip(k)[0] == all[k]);
                        assert(all.skip(k).drop_first() =~= all.skip(k + 1));
                    }
                    ancestors.push(edge);
                },
                None => {
                    break ;
                },
            }
        }
        ancestors
    }

    /// The number of ancestors of the given node, which the tree has to hold:
    /// how deep the node lies.
    #[must_use]
    pub fn ancestor_nodes_count(&self, node: &Arc<TreeNode>) -> (r: usize)
        requires
            self.wf(),
            self@.has_node(node@),
        ensures
            r == self@.depth[node.id],
            r == self@.ancestors(node.id).len(),
    {
        self.ancestor_nodes(node).len()
    }
}

} // verus!
