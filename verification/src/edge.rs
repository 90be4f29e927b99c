//! Half-edges: one link of the parent/child relation, seen from one end.

use vstd::prelude::*;

verus! {

/// Mathematical value of a half-edge: the segment and the identifier of the
/// node at the far end.
pub struct HalfEdgeView {
    pub path_segment: Seq<char>,
    pub node_id: u64,
}

/// Half-edge to another node in the tree. Owns the path segment.
#[derive(Debug)]
pub struct HalfEdge {
    /// Path segment from the (implicit) source to the target node.
    pub path_segment: String,
    /// The id of the target node.
    pub node_id: u64,
}

impl View for HalfEdge {
    type V = HalfEdgeView;

    open spec fn view(&self) -> HalfEdgeView {
        HalfEdgeView { path_segment: self.path_segment@, node_id: self.node_id }
    }
}

impl Clone for HalfEdge {
    fn clone(&self) -> (r: Self)
        ensures
            r@ == self@,
    {
        HalfEdge { path_segment: self.path_segment.clone(), node_id: self.node_id }
    }
}

/// Half-edge to another node in the tree. Borrows the path segment.
#[derive(Debug)]
pub struct HalfEdgeRef<'a> {
    /// Path segment from the (implicit) source to the target node.
    pub path_segment: &'a str,
    /// The id of the target node.
    pub node_id: u64,
}

impl<'a> View for HalfEdgeRef<'a> {
    type V = HalfEdgeView;

    open spec fn view(&self) -> HalfEdgeView {
        HalfEdgeView { path_segment: self.path_segment@, node_id: self.node_id }
    }
}

impl<'a> HalfEdgeRef<'a> {
    /// The same edge with a segment of its own.
    pub fn to_owned(&self) -> (r: HalfEdge)
        ensures
            r@ == self@,
    {
        HalfEdge { path_segment: self.path_segment.to_owned(), node_id: self.node_id }
    }
}

} // verus!
