//! The node model: a node is either an inner node with children or a leaf.

use vstd::prelude::*;
use crate::child_map::ChildMap;
use crate::edge::HalfEdgeRef;

verus! {

/// Identifier of a node, unique among the nodes of a tree.
pub type NodeId = u64;

/// Payload of an inner node: an opaque handle that the tree never looks into.
pub type InnerValue = u64;

/// Payload of a leaf node: an opaque handle that the tree never looks into.
pub type LeafValue = u64;

/// A payload together with the kind of node that carries it.
#[derive(Debug, Clone, Copy, PartialEq, Eq, Structural)]
pub enum NodeValue {
    Inner(InnerValue),
    Leaf(LeafValue),
}

/// Inner node: a value and the children by path segment.
#[derive(Debug)]
pub struct InnerNode {
    pub value: InnerValue,
    pub children: ChildMap,
}

/// Leaf node: a value and no children.
#[derive(Debug, Clone, Copy)]
pub struct LeafNode {
    pub value: LeafValue,
}

/// The content of a node.
#[derive(Debug)]
pub enum Node {
    Inner(InnerNode),
    Leaf(LeafNode),
}

/// Mathematical value of a node's content.
pub enum NodeView {
    Inner { value: u64, children: Map<Seq<char>, u64> },
    Leaf { value: u64 },
}

impl NodeView {
    /// The content that a fresh node with this value has: no children.
    pub open spec fn from_value(value: NodeValue) -> NodeView {
        match value {
            NodeValue::Inner(value) => NodeView::Inner { value, children: Map::empty() },
            NodeValue::Leaf(value) => NodeView::Leaf { value },
        }
    }

    /// The children by segment; a leaf has none.
    pub open spec fn children(self) -> Map<Seq<char>, u64> {
        match self {
            NodeView::Inner { children, .. } => children,
            NodeView::Leaf { .. } => Map::empty(),
        }
    }

    /// The payload with its kind.
    pub open spec fn value(self) -> NodeValue {
        match self {
            NodeView::Inner { value, .. } => NodeValue::Inner(value),
            NodeView::Leaf { value } => NodeValue::Leaf(value),
        }
    }

    /// Whether the node has at least one child.
    pub open spec fn has_children(self) -> bool {
        !(self.children().dom() =~= Set::empty())
    }

    /// Whether the payload may be replaced by `value`: only a leaf value on a
    /// node with children is refused.
    pub open spec fn accepts(self, value: NodeValue) -> bool {
        !(value is Leaf && self.has_children())
    }

    /// The content with `id` entered as the child under `segment`. A leaf
    /// stays as it is.
    pub open spec fn with_child(self, segment: Seq<char>, id: u64) -> NodeView {
        match self {
            NodeView::Inner { value, children } => NodeView::Inner {
                value,
                children: children.insert(segment, id),
            },
            NodeView::Leaf { .. } => self,
        }
    }

    /// The content without the child under `segment`.
    pub open spec fn without_child(self, segment: Seq<char>) -> NodeView {
        match self {
            NodeView::Inner { value, children } => NodeView::Inner {
                value,
                children: children.remove(segment),
            },
            NodeView::Leaf { .. } => self,
        }
    }

    /// The content after the payload was replaced by `value`: an inner value
    /// keeps the children of an inner node; every other replacement yields a
    /// node without children.
    pub open spec fn with_value(self, value: NodeValue) -> NodeView {
        match (self, value) {
            (NodeView::Inner { children, .. }, NodeValue::Inner(value)) => NodeView::Inner {
                value,
                children,
            },
            _ => NodeView::from_value(value),
        }
    }
}

impl View for InnerNode {
    type V = NodeView;

    open spec fn view(&self) -> NodeView {
        NodeView::Inner { value: self.value, children: self.children@ }
    }
}

impl InnerNode {
    /// An inner node without children.
    pub fn new(value: InnerValue) -> (r: InnerNode)
        ensures
            r@ == NodeView::from_value(NodeValue::Inner(value)),
    {
        InnerNode { value, children: ChildMap::new() }
    }

    /// The identifier of the child under `segment`, if there is one.
    pub fn child_id(&self, segment: &str) -> (r: Option<u64>)
        ensures
            r == self@.children().get(segment@),
    {
        self.children.get(segment)
    }

    /// Whether the node has at least one child.
    pub fn has_children(&self) -> (r: bool)
        ensures
            r == self@.has_children(),
    {
        !self.children.is_empty()
    }

    /// The edges to the children, each child once, in no particular order.
    pub fn child_edges(&self) -> (r: Vec<HalfEdgeRef<'_>>)
        ensures
            forall|i: int|
                0 <= i < r@.len() ==> self@.children().get((#[trigger] r@[i])@.path_segment)
                    == Some(r@[i].node_id),
            forall|i: int, j: int|
                0 <= i < j < r@.len() ==> (#[trigger] r@[i])@.path_segment != (
                #[trigger] r@[j])@.path_segment,
            forall|s: Seq<char>|
                self@.children().contains_key(s) ==> exists|i: int|
                    0 <= i < r@.len() && (#[trigger] r@[i])@.path_segment == s,
    {
        self.children.edges()
    }
}

impl Clone for InnerNode {
    fn clone(&self) -> (r: Self)
        ensures
            r@ == self@,
    {
        InnerNode { value: self.value, children: self.children.clone() }
    }
}

impl LeafNode {
    /// A leaf node with the given value.
    pub fn new(value: LeafValue) -> (r: LeafNode)
        ensures
            r.value == value,
    {
        LeafNode { value }
    }
}

impl View for Node {
    type V = NodeView;

    open spec fn view(&self) -> NodeView {
        match self {
            Node::Inner(inner) => inner@,
            Node::Leaf(leaf) => NodeView::Leaf { value: leaf.value },
        }
    }
}

impl Node {
    /// A node without children that carries `value`.
    pub fn from_value(value: NodeValue) -> (r: Node)
        ensures
            r@ == NodeView::from_value(value),
    {
        match value {
            NodeValue::Inner(value) => Node::Inner(InnerNode::new(value)),
            NodeValue::Leaf(value) => Node::Leaf(LeafNode::new(value)),
        }
    }

    /// The payload with its kind.
    pub fn value(&self) -> (r: NodeValue)
        ensures
            r == self@.value(),
    {
        match self {
            Node::Inner(inner) => NodeValue::Inner(inner.value),
            Node::Leaf(leaf) => NodeValue::Leaf(leaf.value),
        }
    }

    /// The identifier of the child under `segment`, if there is one.
    pub fn child_id(&self, segment: &str) -> (r: Option<u64>)
        ensures
            r == self@.children().get(segment@),
    {
        match self {
            Node::Inner(inner) => inner.child_id(segment),
            Node::Leaf(_) => None,
        }
    }

    /// Whether the payload may be replaced by `value`: only a leaf value on a
    /// node with children is refused.
    pub fn accepts(&self, value: NodeValue) -> (r: bool)
        ensures
            r == self@.accepts(value),
    {
        match value {
            NodeValue::Inner(_) => true,
            NodeValue::Leaf(_) => match self {
                Node::Inner(inner) => !inner.has_children(),
                Node::Leaf(_) => {
                    assert(self@.children().dom() =~= Set::<Seq<char>>::empty());
                    true
                },
            },
        }
    }
}

impl Clone for Node {
    fn clone(&self) -> (r: Self)
        ensures
            r@ == self@,
    {
        match self {
            Node::Inner(inner) => Node::Inner(inner.clone()),
            Node::Leaf(leaf) => Node::Leaf(LeafNode { value: leaf.value }),
        }
    }
}

} // verus!
