//! Type keys and cells.
//!
//! A `TypeKey` is the runtime identity of a component type: an opaque 64-bit
//! token minted by the caller, one per concrete type. Every per-type
//! structure in the store is keyed by it. A `Cell` is one slot of a per-type
//! slab: either it holds a component value or it is logically empty while
//! the slot stays allocated.

use vstd::prelude::*;

verus! {

/// The runtime identity of a component type.
#[derive(Clone, Copy, PartialEq, Eq, Hash, Structural, Debug)]
pub struct TypeKey {
    pub id: u64,
}

impl TypeKey {
    pub fn new(id: u64) -> (r: TypeKey)
        ensures
            r.id == id,
    {
        TypeKey { id }
    }
}

/// One slot of a per-type slab.
pub enum Cell<V> {
    Occupied(V),
    Empty,
}

impl<V> Cell<V> {
    /// Whether the cell holds a value.
    pub open spec fn is_occupied(self) -> bool {
        self is Occupied
    }

    /// The held value; meaningful only for occupied cells.
    pub open spec fn value(self) -> V
        recommends
            self is Occupied,
    {
        self->Occupied_0
    }
}

} // verus!
