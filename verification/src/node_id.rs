//! Where a tree takes the identifiers of its nodes from.

use vstd::prelude::*;

verus! {

/// Source of node identifiers.
///
/// A tree asks its generator for an identifier whenever it creates a node,
/// and relies on never being handed one that the generator, or a generator
/// that this one was forked from, has handed out before. Two generators
/// forked from one another know nothing of what the other hands out later:
/// trees that descend from a common tree may mint the same identifier, and
/// whoever mixes their nodes has to see to that.
pub trait NewNodeId: Sized {
    /// The identifiers handed out so far. A generator that does not say
    /// otherwise leaves the set unspecified.
    open spec fn issued(&self) -> Set<u64> {
        arbitrary()
    }

    /// How many identifiers the generator can still hand out. A generator
    /// that does not say otherwise leaves the number unspecified.
    open spec fn remaining(&self) -> nat {
        arbitrary()
    }

    /// Hands out an identifier that was not handed out before.
    fn new_node_id(&mut self) -> (id: u64)
        requires
            old(self).remaining() > 0,
        ensures
            !old(self).issued().contains(id),
            final(self).issued() == old(self).issued().insert(id),
            final(self).remaining() == old(self).remaining() - 1,
    ;

    /// Whether the generator can still hand out `count` identifiers.
    fn has_remaining(&self, count: usize) -> (r: bool)
        ensures
            r == (self.remaining() >= count),
    ;

    /// A second generator that remembers what this one has handed out.
    fn fork(&self) -> (r: Self)
        ensures
            r.issued() == self.issued(),
            r.remaining() == self.remaining(),
    ;
}

/// Hands out 0, 1, 2 and so on.
#[derive(Debug)]
pub struct SequentialNodeId {
    next: u64,
}

impl SequentialNodeId {
    /// The identifier that is handed out next.
    pub closed spec fn next(&self) -> u64 {
        self.next
    }

    /// A generator that starts with 0.
    pub fn new() -> (r: Self)
        ensures
            r.next() == 0,
    {
        SequentialNodeId { next: 0 }
    }

    /// A generator that starts with `next`.
    pub fn starting_at(next: u64) -> (r: Self)
        ensures
            r.next() == next,
    {
        SequentialNodeId { next }
    }

    /// Whether another identifier can be handed out.
    pub fn has_next(&self) -> (r: bool)
        ensures
            r == (self.remaining() > 0),
    {
        self.next < u64::MAX
    }
}

impl NewNodeId for SequentialNodeId {
    open spec fn issued(&self) -> Set<u64> {
        Set::new(|id: u64| id < self.next())
    }

    open spec fn remaining(&self) -> nat {
        (u64::MAX - self.next()) as nat
    }

    fn new_node_id(&mut self) -> (id: u64)
        ensures
            id == old(self).next(),
            final(self).next() == old(self).next() + 1,
    {
        let id = self.next;
        self.next = self.next + 1;
        assert(self.issued() =~= old(self).issued().insert(id));
        id
    }

    fn has_remaining(&self, count: usize) -> (r: bool) {
        count as u64 <= u64::MAX - self.next
    }

    fn fork(&self) -> (r: Self)
        ensures
            r.next() == self.next(),
    {
        SequentialNodeId { next: self.next }
    }
}

} // verus!
