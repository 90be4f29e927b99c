//! What the mutating operations of a tree report when they refuse a value.

use vstd::prelude::*;
use std::sync::Arc;
use crate::node::NodeValue;
use crate::tree_node::{TreeNode, UpdateNodeValueError};

verus! {

/// A conflicting path from a parent to a child node: the parent cannot have
/// children.
#[derive(Debug)]
pub struct TreeNodeParentChildPathConflict {
    /// The node below which the path could not go on.
    pub parent_node: Arc<TreeNode>,
    /// The segment that should have led on from there.
    pub child_path_segment: String,
}

/// Why a value was neither inserted nor used for an update. The value comes
/// back to the caller in either case.
#[derive(Debug)]
pub enum InsertOrUpdateNodeValueError {
    /// The path leads through a node that cannot have children.
    PathConflict { conflict: TreeNodeParentChildPathConflict, value: NodeValue },
    /// A leaf value was offered to a node that has children.
    ValueTypeMismatch { value: NodeValue },
}

impl InsertOrUpdateNodeValueError {
    /// The value that was refused.
    pub open spec fn value(self) -> NodeValue {
        match self {
            InsertOrUpdateNodeValueError::PathConflict { value, .. } => value,
            InsertOrUpdateNodeValueError::ValueTypeMismatch { value } => value,
        }
    }

    /// Hands the refused value back.
    pub fn into_value(self) -> (r: NodeValue)
        ensures
            r == self.value(),
    {
        match self {
            InsertOrUpdateNodeValueError::PathConflict { value, .. } => value,
            InsertOrUpdateNodeValueError::ValueTypeMismatch { value } => value,
        }
    }

    /// What the error says, in words.
    pub fn message(&self) -> (r: &'static str)
        ensures
            r@ == (if self is PathConflict {
                "path conflict"@
            } else {
                "value type mismatch"@
            }),
    {
        match self {
            InsertOrUpdateNodeValueError::PathConflict { .. } => "path conflict",
            InsertOrUpdateNodeValueError::ValueTypeMismatch { .. } => "value type mismatch",
        }
    }
}

impl UpdateNodeValueError {
    /// The value that was refused.
    pub open spec fn value(self) -> NodeValue {
        match self {
            UpdateNodeValueError::ValueTypeMismatch { value } => value,
        }
    }

    /// Hands the refused value back.
    pub fn into_value(self) -> (r: NodeValue)
        ensures
            r == self.value(),
    {
        match self {
            UpdateNodeValueError::ValueTypeMismatch { value } => value,
        }
    }

    /// What the error says, in words.
    pub fn message(&self) -> (r: &'static str)
        ensures
            r@ == "value type mismatch"@,
    {
        "value type mismatch"
    }
}

impl From<UpdateNodeValueError> for InsertOrUpdateNodeValueError {
    fn from(from: UpdateNodeValueError) -> (r: Self) {
        match from {
            UpdateNodeValueError::ValueTypeMismatch { value } => {
                InsertOrUpdateNodeValueError::ValueTypeMismatch { value }
            },
        }
    }
}

impl vstd::std_specs::convert::FromSpecImpl<UpdateNodeValueError> for InsertOrUpdateNodeValueError {
    open spec fn obeys_from_spec() -> bool {
        true
    }

    open spec fn from_spec(from: UpdateNodeValueError) -> Self {
        InsertOrUpdateNodeValueError::ValueTypeMismatch { value: from.value() }
    }
}

} // verus!
