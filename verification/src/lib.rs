//! A verified component store for an entity-component-system runtime.
//!
//! Entities (64-bit identifiers) own at most one component value per type
//! key. Each type key has a contiguous slab of cells, a set of packed (live)
//! indices, and a free list of recyclable indices; a compactor moves live
//! cells to the low end of a slab while preserving every binding.

use vstd::prelude::*;

pub mod component;
pub mod ecs;
pub mod emanager;
pub mod entity;
pub mod entity_factory;
pub mod keys;
pub mod laws;
pub mod level;
pub mod manager;
pub mod memory;
pub mod ownership;
pub mod packer;
pub mod sorted_set;
pub mod storage;
pub mod store;
pub mod type_map;

verus! {

/// Errors reported by the store. Every error is a value returned at the
/// surface; no verified operation panics.
#[derive(Clone, Copy, PartialEq, Eq, Structural, Debug)]
pub enum ErrEcs {
    /// The entity does not own the requested type, or the entity or type
    /// key is unknown.
    NotFound,
    /// A component of this type was given twice to one entity without an
    /// intervening empty.
    DuplicateComponent,
    /// The slot exists but holds no value.
    Empty,
    /// The index lies at or beyond the slab's length.
    OutOfBounds,
}

/// Message understood by a system loop that pumps work over the store.
#[derive(Clone, Copy, PartialEq, Eq, Structural, Debug)]
pub enum Signal {
    Stop,
    Pump,
}

} // verus!
