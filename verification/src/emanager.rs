//! Minting of entity identifiers.
//!
//! An entity is nothing but a 64-bit identifier; the ownership map and the
//! component manager hold everything it owns. The manager hands identifiers
//! out sequentially, so every identifier it mints is fresh for that manager.

use vstd::prelude::*;

verus! {

/// An entity handle: an opaque identifier.
#[derive(Clone, Copy, PartialEq, Eq, Hash, Structural, Debug)]
pub struct Entity {
    pub id: u64,
}

pub struct EManager {
    next: u64,
}

impl EManager {
    /// The identifier the manager would mint next; every earlier mint was
    /// strictly below it.
    pub closed spec fn next_id(self) -> u64 {
        self.next
    }

    pub fn new() -> (r: EManager)
        ensures
            r.next_id() == 0,
    {
        EManager { next: 0 }
    }

    /// Mints a fresh entity: its identifier is this manager's high-water
    /// mark, which then advances.
    pub fn create(&mut self) -> (e: Entity)
        requires
            old(self).next_id() < u64::MAX,
        ensures
            e.id == old(self).next_id(),
            final(self).next_id() == old(self).next_id() + 1,
    {
        Entity { id: self.make_token() }
    }

    fn make_token(&mut self) -> (r: u64)
        requires
            old(self).next_id() < u64::MAX,
        ensures
            r == old(self).next_id(),
            final(self).next_id() == old(self).next_id() + 1,
    {
        let t = self.next;
        self.next = t + 1;
        t
    }
}

} // verus!
