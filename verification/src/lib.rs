//! Immutable, path-addressable tree with structural sharing.
//!
//! A [`PathTree`] holds its nodes in a persistent map. Every mutation
//! replaces only the nodes that it works on; a clone of the tree taken
//! before the mutation keeps its contents, and shares every other node with
//! the tree.
//!
//! The contracts are stated over a mathematical model of the tree,
//! [`PathTreeView`]: the root, the nodes by identifier and the depth of each
//! node. The operations expect a well-formed tree and leave one behind. What
//! holds of every well-formed tree, and what the operations have in common,
//! is proved in [`laws`].

pub mod child_map;
pub mod edge;
pub mod error;
pub mod graft;
pub mod insert;
pub mod laws;
pub mod model;
pub mod node;
pub mod node_id;
pub mod node_map;
pub mod path;
pub mod remove;
pub mod retain;
pub mod traverse;
pub mod tree;
pub mod tree_node;

pub use self::child_map::ChildMap;
pub use self::edge::{HalfEdge, HalfEdgeRef, HalfEdgeView};
pub use self::error::{InsertOrUpdateNodeValueError, TreeNodeParentChildPathConflict};
pub use self::insert::TreeNodeParentChildContext;
pub use self::model::PathTreeView;
pub use self::node::{
    InnerNode, InnerValue, LeafNode, LeafValue, Node, NodeId, NodeValue, NodeView,
};
pub use self::node_id::{NewNodeId, SequentialNodeId};
pub use self::node_map::NodeMap;
pub use self::path::RootPath;
pub use self::remove::RemovedSubtree;
pub use self::traverse::AncestorTreeNodeIter;
pub use self::tree::{
    MatchNodePath, MatchedNodePath, ParentChildTreeNode, PathTree, ResolvedNodePath,
};
pub use self::tree_node::{
    share_node, HalfEdgeTreeNodeRef, TreeNode, TreeNodeView, UpdateNodeValueError,
};
