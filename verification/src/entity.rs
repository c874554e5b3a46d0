//! Entities that carry their own component bindings.
//!
//! In this layer an entity record holds its own table from type key to slot
//! index; the `Level` translates entity-centric calls into (type, index)
//! operations against the store. An entity with no bindings owns nothing.

use vstd::prelude::*;

use crate::ErrEcs;
use crate::keys::TypeKey;
use crate::type_map::TypeMap;

verus! {

pub struct Entity {
    component_indices: TypeMap<usize>,
}

impl Entity {
    pub closed spec fn wf(self) -> bool {
        self.component_indices.wf()
    }

    /// Whether the entity is bound to a slot of type `t`.
    pub closed spec fn has_binding(self, t: u64) -> bool {
        self.component_indices@.dom().contains(t)
    }

    /// The slot index bound for type `t`.
    pub closed spec fn index(self, t: u64) -> usize {
        self.component_indices@[t]
    }

    /// A fresh entity with no components.
    pub fn new() -> (e: Entity)
        ensures
            e.wf(),
            forall|t: u64| !e.has_binding(t),
    {
        Entity { component_indices: TypeMap::new() }
    }

    /// Records that the entity owns slot `i` of this type; a no-op when it
    /// already owns one.
    pub fn insert_component(entity: &mut Entity, key: TypeKey, i: usize)
        requires
            old(entity).wf(),
        ensures
            final(entity).wf(),
            old(entity).has_binding(key.id) ==> *final(entity) == *old(entity),
            !old(entity).has_binding(key.id) ==> {
                &&& final(entity).has_binding(key.id)
                &&& final(entity).index(key.id) == i
                &&& forall|t: u64|
                    t != key.id ==> final(entity).has_binding(t) == old(entity).has_binding(t)
                        && (old(entity).has_binding(t) ==> final(entity).index(t) == old(
                        entity,
                    ).index(t))
            },
    {
        if Entity::has_component(entity, key) {
            return;
        }
        entity.component_indices.insert(key.id, i);
    }

    /// Drops the entity's binding for this type, if any.
    pub fn remove_component(entity: &mut Entity, key: TypeKey)
        requires
            old(entity).wf(),
        ensures
            final(entity).wf(),
            !final(entity).has_binding(key.id),
            forall|t: u64|
                t != key.id ==> final(entity).has_binding(t) == old(entity).has_binding(t) && (
                old(entity).has_binding(t) ==> final(entity).index(t) == old(entity).index(t)),
    {
        entity.component_indices.remove(key.id);
    }

    /// The slot index the entity is bound to for this type.
    pub fn get_component_index(entity: &Entity, key: TypeKey) -> (r: Result<usize, ErrEcs>)
        requires
            entity.wf(),
        ensures
            match r {
                Result::Ok(i) => entity.has_binding(key.id) && i == entity.index(key.id),
                Result::Err(e) => e == ErrEcs::NotFound && !entity.has_binding(key.id),
            },
    {
        match entity.component_indices.get(key.id) {
            Option::Some(i) => Result::Ok(*i),
            Option::None => Result::Err(ErrEcs::NotFound),
        }
    }

    /// Whether the entity owns a component of this type.
    pub fn has_component(entity: &Entity, key: TypeKey) -> (r: bool)
        requires
            entity.wf(),
        ensures
            r == entity.has_binding(key.id),
    {
        entity.component_indices.contains_key(key.id)
    }
}

} // verus!
