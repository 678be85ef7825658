//! Arena identifiers, weak node handles, and the error values.

use vstd::prelude::*;

verus! {

/// The ways an operation can reject its input.
#[derive(Clone, Copy, Debug, PartialEq, Eq, Structural)]
pub enum TreeError {
    /// A handle was redeemed against an arena other than the one that made it.
    InvalidHandle,
    /// Structural removal of the root was attempted.
    CannotDetachRoot,
    /// A sibling-relative insertion was anchored at a node with no parent;
    /// in particular, the root can never gain a sibling.
    RootHasNoSiblings,
}

/// A source of arena identifiers: a strictly increasing counter.
///
/// Every identifier handed out by one generator is distinct from every other
/// identifier it hands out, so two arenas drawn from the same generator never
/// share an identifier.
pub struct IdGen {
    next: u64,
}

impl IdGen {
    /// The identifier this generator will hand out next.
    pub closed spec fn counter(self) -> u64 {
        self.next
    }

    /// Holds exactly when one call of [`IdGen::fresh`] can take the generator
    /// from `pre` to `post` while handing out `id`.
    pub open spec fn step(pre: IdGen, post: IdGen, id: u64) -> bool {
        id == pre.counter() && post.counter() == pre.counter() + 1
    }

    /// A generator that has not handed out any identifier yet.
    pub fn new() -> (r: IdGen)
        ensures
            r.counter() == 0,
    {
        IdGen { next: 0 }
    }

    /// Hands out an identifier this generator has never handed out before
    /// and will never hand out again.
    pub fn fresh(&mut self) -> (r: u64)
        requires
            old(self).counter() < u64::MAX,
        ensures
            IdGen::step(*old(self), *final(self), r),
    {
        let id = self.next;
        self.next = self.next + 1;
        id
    }
}

/// A weak handle to one node: the identifier of the owning arena paired with
/// the node's position in that arena's storage.
///
/// A handle carries no borrow of the arena.  It must be redeemed through the
/// arena that produced it; another arena rejects it.
#[derive(Clone, Copy, Debug, PartialEq, Eq, Hash, Structural)]
pub struct NodeId {
    pub tree_id: u64,
    pub index: usize,
}

impl NodeId {
    /// Identifier of the arena that produced this handle.
    pub open spec fn spec_tree_id(self) -> u64 {
        self.tree_id
    }

    /// Position of the addressed node inside its arena.
    pub open spec fn spec_index(self) -> usize {
        self.index
    }
}

} // verus!
