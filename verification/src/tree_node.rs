//! Tree nodes: a node's content together with its identifier and the edge to
//! its parent.

use vstd::prelude::*;
use std::sync::Arc;
use crate::edge::{HalfEdge, HalfEdgeView};
use crate::node::{Node, NodeValue, NodeView};

verus! {

/// Mathematical value of a tree node.
pub struct TreeNodeView {
    pub id: u64,
    pub parent: Option<HalfEdgeView>,
    pub node: NodeView,
}

impl TreeNodeView {
    /// The node after its payload was replaced by `value`. Identifier and
    /// parent stay.
    pub open spec fn with_value(self, value: NodeValue) -> TreeNodeView {
        TreeNodeView { node: self.node.with_value(value), ..self }
    }

    /// The node with another content. Identifier and parent stay.
    pub open spec fn with_node(self, node: NodeView) -> TreeNodeView {
        TreeNodeView { node, ..self }
    }

    /// The node with another parent edge.
    pub open spec fn with_parent(self, parent: Option<HalfEdgeView>) -> TreeNodeView {
        TreeNodeView { parent, ..self }
    }
}

/// Immutable node in the tree.
#[derive(Debug)]
pub struct TreeNode {
    /// Identifier for direct lookup.
    pub id: u64,
    /// Link to the parent node: `None` for the root node, `Some` for all
    /// other nodes.
    pub parent: Option<HalfEdge>,
    /// The actual content of this node.
    pub node: Node,
}

/// The parent edge of a node as a mathematical value.
pub open spec fn parent_view(parent: Option<HalfEdge>) -> Option<HalfEdgeView> {
    match parent {
        Some(edge) => Some(edge@),
        None => None,
    }
}

impl View for TreeNode {
    type V = TreeNodeView;

    open spec fn view(&self) -> TreeNodeView {
        TreeNodeView { id: self.id, parent: parent_view(self.parent), node: self.node@ }
    }
}

/// The node behind an optional handle as a mathematical value.
pub open spec fn shared_view(node: Option<Arc<TreeNode>>) -> Option<TreeNodeView> {
    match node {
        Some(node) => Some(node@),
        None => None,
    }
}

/// The new value does not fit the node that was to take it.
#[derive(Debug, Clone, Copy, PartialEq, Eq, Structural)]
pub enum UpdateNodeValueError {
    /// A leaf value was offered to a node that has children.
    ValueTypeMismatch { value: NodeValue },
}

/// A copy of the parent edge.
pub fn clone_parent(parent: &Option<HalfEdge>) -> (r: Option<HalfEdge>)
    ensures
        parent_view(r) == parent_view(*parent),
{
    match parent {
        Some(edge) => Some(edge.clone()),
        None => None,
    }
}

impl TreeNode {
    /// Clone the node with a new value.
    ///
    /// A leaf takes a leaf value and an inner value alike and has no children
    /// afterwards. An inner node keeps its children under an inner value; it
    /// takes a leaf value only while it has no children. Otherwise the value
    /// comes back in the error.
    pub fn try_clone_with_value(&self, new_value: NodeValue) -> (r: Result<
        TreeNode,
        UpdateNodeValueError,
    >)
        ensures
            match r {
                Ok(node) => self@.node.accepts(new_value) && node@ == self@.with_value(new_value),
                Err(e) => !self@.node.accepts(new_value) && e == (
                UpdateNodeValueError::ValueTypeMismatch { value: new_value }),
            },
    {
        let node = match &self.node {
            Node::Inner(inner) => {
                match new_value {
                    NodeValue::Inner(value) => {
                        let mut inner = inner.clone();
                        inner.value = value;
                        Node::Inner(inner)
                    },
                    NodeValue::Leaf(_) => {
                        if inner.has_children() {
                            return Err(UpdateNodeValueError::ValueTypeMismatch { value: new_value });
                        }
                        Node::from_value(new_value)
                    },
                }
            },
            Node::Leaf(_) => Node::from_value(new_value),
        };
        Ok(TreeNode { id: self.id, parent: clone_parent(&self.parent), node })
    }
}

impl Clone for TreeNode {
    fn clone(&self) -> (r: Self)
        ensures
            r@ == self@,
    {
        TreeNode { id: self.id, parent: clone_parent(&self.parent), node: self.node.clone() }
    }
}

/// `Arc::clone`: another handle to the same node.
#[verifier::external_body]
pub(crate) fn share(node: &Arc<TreeNode>) -> (r: Arc<TreeNode>)
    ensures
        r == *node,
{
    Arc::clone(node)
}

/// Another handle to the same node. The node itself is not copied.
pub fn share_node(node: &Arc<TreeNode>) -> (r: Arc<TreeNode>)
    ensures
        r == *node,
{
    share(node)
}

/// `Arc::ptr_eq`: whether the two handles point to the same allocation. Two
/// handles that do hold the same node; two equal nodes may still live in
/// different allocations.
#[verifier::external_body]
pub(crate) fn same_allocation(a: &Arc<TreeNode>, b: &Arc<TreeNode>) -> (r: bool)
    ensures
        r ==> *a == *b,
{
    Arc::ptr_eq(a, b)
}

/// `str::eq`: whether the two segments have the same characters.
#[verifier::external_body]
pub(crate) fn same_segment(a: &str, b: &str) -> (r: bool)
    ensures
        r == (a@ == b@),
{
    a == b
}

/// Half-edge to another node in the tree. Borrows the path segment and the
/// target node.
#[derive(Debug)]
pub struct HalfEdgeTreeNodeRef<'a> {
    /// Path segment from the (implicit) source to the target node.
    pub path_segment: &'a str,
    /// The target node.
    pub node: &'a Arc<TreeNode>,
}

} // verus!
