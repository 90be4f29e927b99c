//! The children of an inner node: a persistent map from path segment to the
//! identifier of the child.

use vstd::prelude::*;
use crate::edge::HalfEdgeRef;

verus! {

/// Persistent map from path segment to child identifier.
///
/// Cloning is cheap: the clone shares its structure with the map that it was
/// cloned from.
#[verifier::external_body]
#[derive(Debug)]
pub struct ChildMap {
    inner: rpds::HashTrieMap<String, u64>,
}

/// The entries of a child map: which segment leads to which child.
pub uninterp spec fn child_entries(m: ChildMap) -> Map<Seq<char>, u64>;

impl View for ChildMap {
    type V = Map<Seq<char>, u64>;

    open spec fn view(&self) -> Map<Seq<char>, u64> {
        child_entries(*self)
    }
}

impl ChildMap {
    /// `rpds::HashTrieMap::new`: a map without entries.
    #[verifier::external_body]
    pub(crate) fn new() -> (m: ChildMap)
        ensures
            (child_entries(m) == Map::<Seq<char>, u64>::empty()),
    {
        ChildMap { inner: rpds::HashTrieMap::new() }
    }

    /// `rpds::HashTrieMap::get`: the child entered under `segment`, if there
    /// is one.
    #[verifier::external_body]
    pub(crate) fn get(&self, segment: &str) -> (r: Option<u64>)
        ensures
            r == child_entries(*self).get(segment@),
    {
        self.inner.get(segment).copied()
    }

    /// `rpds::HashTrieMap::insert_mut`: enters `id` under `segment`, in place
    /// of what was entered there before.
    #[verifier::external_body]
    pub(crate) fn insert_mut(&mut self, segment: String, id: u64)
        ensures
            child_entries(*final(self)) == child_entries(*old(self)).insert(segment@, id),
    {
        self.inner.insert_mut(segment, id)
    }

    /// `rpds::HashTrieMap::remove_mut`: drops the entry under `segment` and
    /// says whether there was one.
    #[verifier::external_body]
    pub(crate) fn remove_mut(&mut self, segment: &str) -> (r: bool)
        ensures
            r == child_entries(*old(self)).contains_key(segment@),
            child_entries(*final(self)) == child_entries(*old(self)).remove(segment@),
    {
        self.inner.remove_mut(segment)
    }

    /// `rpds::HashTrieMap::is_empty`: whether the map has no entry.
    #[verifier::external_body]
    pub(crate) fn is_empty(&self) -> (r: bool)
        ensures
            r == (child_entries(*self).dom() =~= Set::empty()),
    {
        self.inner.is_empty()
    }

    /// `rpds::HashTrieMap::iter`: every entry once, in an order that the map
    /// does not fix.
    #[verifier::external_body]
    pub(crate) fn edges(&self) -> (r: Vec<HalfEdgeRef<'_>>)
        ensures
            forall|i: int|
                0 <= i < r@.len() ==> child_entries(*self).get((#[trigger] r@[i]).path_segment@)
                    == Some(r@[i].node_id),
            forall|i: int, j: int|
                0 <= i < j < r@.len() ==> (#[trigger] r@[i]).path_segment@ != (
                #[trigger] r@[j]).path_segment@,
            forall|s: Seq<char>|
                child_entries(*self).contains_key(s) ==> exists|i: int|
                    0 <= i < r@.len() && (#[trigger] r@[i]).path_segment@ == s,
    {
        self.inner
            .iter()
            .map(|(segment, id)| HalfEdgeRef { path_segment: segment.as_str(), node_id: *id })
            .collect()
    }
}

impl Clone for ChildMap {
    /// `rpds::HashTrieMap::clone`: a map with the same entries.
    #[verifier::external_body]
    fn clone(&self) -> (r: Self)
        ensures
            child_entries(r) == child_entries(*self),
    {
        ChildMap { inner: self.inner.clone() }
    }
}

} // verus!
