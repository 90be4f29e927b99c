//! The nodes of a tree: a persistent map from identifier to shared node.

use vstd::prelude::*;
use std::sync::Arc;
use crate::tree_node::{TreeNode, TreeNodeView};

verus! {

/// Persistent map from node identifier to shared node.
///
/// Cloning is cheap: the clone shares its structure, and every node, with the
/// map that it was cloned from.
#[verifier::external_body]
#[derive(Debug)]
pub struct NodeMap {
    inner: rpds::HashTrieMap<u64, Arc<TreeNode>>,
}

/// The entries of a node map: which identifier stands for which node.
pub uninterp spec fn node_entries(m: NodeMap) -> Map<u64, TreeNodeView>;

impl View for NodeMap {
    type V = Map<u64, TreeNodeView>;

    open spec fn view(&self) -> Map<u64, TreeNodeView> {
        node_entries(*self)
    }
}

impl NodeMap {
    /// `rpds::HashTrieMap::new`: a map without entries.
    #[verifier::external_body]
    pub(crate) fn new() -> (m: NodeMap)
        ensures
            (node_entries(m) == Map::<u64, TreeNodeView>::empty()),
    {
        NodeMap { inner: rpds::HashTrieMap::new() }
    }

    /// `rpds::HashTrieMap::get`: the node entered under `id`, if there is one.
    #[verifier::external_body]
    pub(crate) fn get(&self, id: u64) -> (r: Option<&Arc<TreeNode>>)
        ensures
            match r {
                Some(node) => node_entries(*self).get(id) == Some(node@),
                None => !node_entries(*self).contains_key(id),
            },
    {
        self.inner.get(&id)
    }

    /// `rpds::HashTrieMap::insert_mut`: enters `node` under `id`, in place of
    /// what was entered there before.
    #[verifier::external_body]
    pub(crate) fn insert_mut(&mut self, id: u64, node: Arc<TreeNode>)
        ensures
            node_entries(*final(self)) == node_entries(*old(self)).insert(id, node@),
    {
        self.inner.insert_mut(id, node)
    }

    /// `rpds::HashTrieMap::remove_mut`: drops the entry under `id` and says
    /// whether there was one.
    #[verifier::external_body]
    pub(crate) fn remove_mut(&mut self, id: u64) -> (r: bool)
        ensures
            r == node_entries(*old(self)).contains_key(id),
            node_entries(*final(self)) == node_entries(*old(self)).remove(id),
    {
        self.inner.remove_mut(&id)
    }

    /// `rpds::HashTrieMap::size`: the number of entries.
    #[verifier::external_body]
    pub(crate) fn size(&self) -> (r: usize)
        ensures
            r == node_entries(*self).dom().len(),
    {
        self.inner.size()
    }

    /// `rpds::HashTrieMap::iter`: every entry once, in an order that the map
    /// does not fix.
    #[verifier::external_body]
    pub(crate) fn entries(&self) -> (r: Vec<(u64, &Arc<TreeNode>)>)
        ensures
            forall|i: int|
                0 <= i < r@.len() ==> node_entries(*self).get((#[trigger] r@[i]).0) == Some(
                    r@[i].1@,
                ),
            forall|i: int, j: int|
                0 <= i < j < r@.len() ==> (#[trigger] r@[i]).0 != (#[trigger] r@[j]).0,
            forall|id: u64|
                node_entries(*self).contains_key(id) ==> exists|i: int|
                    0 <= i < r@.len() && (#[trigger] r@[i]).0 == id,
    {
        self.inner.iter().map(|(id, node)| (*id, node)).collect()
    }
}

impl Clone for NodeMap {
    /// `rpds::HashTrieMap::clone`: a map with the same entries.
    #[verifier::external_body]
    fn clone(&self) -> (r: Self)
        ensures
            node_entries(r) == node_entries(*self),
    {
        NodeMap { inner: self.inner.clone() }
    }
}

} // verus!
