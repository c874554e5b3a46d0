//! The entity-facing surface over one component store.
//!
//! A level owns a storage, an index table, and a length table, and turns
//! entity-centric calls into (type key, slot index) operations. Every
//! operation preserves the store invariant and says exactly which cell and
//! which binding it touched.

use vstd::prelude::*;

use crate::ErrEcs;
use crate::component::{
    cempty_post, cinsert_post, component_inv, insert_choice, Component, Indices, Lengths,
};
use crate::entity::Entity;
use crate::keys::{Cell, TypeKey};
use crate::storage::Storage;

verus! {

pub struct Level<V> {
    components: Storage<V>,
    indices: Indices,
    lengths: Lengths,
}

/// What a read of (entity, type) would yield: the value of the occupied
/// cell the entity is bound to, if all links hold.
pub open spec fn spec_read<V>(lvl: Level<V>, e: Entity, t: u64) -> Option<V> {
    if e.has_binding(t) && lvl.storage_part().has(t) && (e.index(t) as int)
        < lvl.storage_part().slab(t).len() && lvl.storage_part().slab(t)[e.index(t) as int]
        is Occupied {
        Option::Some(lvl.storage_part().slab(t)[e.index(t) as int].value())
    } else {
        Option::None
    }
}

impl<V> Level<V> {
    pub closed spec fn storage_part(self) -> Storage<V> {
        self.components
    }

    pub closed spec fn index_part(self) -> Indices {
        self.indices
    }

    pub closed spec fn length_part(self) -> Lengths {
        self.lengths
    }

    /// The store invariant, I1 through I6 over this level's three tables.
    pub open spec fn inv(self) -> bool {
        component_inv(self.storage_part(), self.index_part(), self.length_part())
    }

    pub fn new() -> (r: Level<V>)
        ensures
            r.inv(),
            forall|t: u64| !r.storage_part().has(t),
            forall|t: u64| !r.index_part().has(t),
            forall|t: u64| !r.length_part().has(t),
    {
        let (c, i, l) = Component::new();
        Level { components: c, indices: i, lengths: l }
    }

    /// Gives the entity a component of this type. Fails, changing nothing,
    /// when the entity already owns one.
    pub fn ecinsert(&mut self, entity: &mut Entity, key: TypeKey, component: V) -> (r: Result<
        (),
        ErrEcs,
    >)
        requires
            old(self).inv(),
            old(entity).wf(),
            old(self).storage_part().has(key.id) ==> old(self).storage_part().slab(
                key.id,
            ).len() < usize::MAX,
        ensures
            final(self).inv(),
            final(entity).wf(),
            match r {
                Result::Ok(()) => {
                    &&& !old(entity).has_binding(key.id)
                    &&& cinsert_post(
                        old(self).storage_part(),
                        old(self).index_part(),
                        old(self).length_part(),
                        final(self).storage_part(),
                        final(self).index_part(),
                        final(self).length_part(),
                        key.id,
                        component,
                        insert_choice(old(self).index_part(), key.id),
                    )
                    &&& final(entity).has_binding(key.id)
                    &&& final(entity).index(key.id) == insert_choice(
                        old(self).index_part(),
                        key.id,
                    )
                    &&& forall|t: u64|
                        t != key.id ==> final(entity).has_binding(t) == old(entity).has_binding(t) && (old(entity).has_binding(t) ==> final(entity).index(t) == old(entity).index(t))
                    &&& spec_read(*final(self), *final(entity), key.id) == Option::Some(
                        component,
                    )
                },
                Result::Err(e) => {
                    &&& e == ErrEcs::DuplicateComponent
                    &&& old(entity).has_binding(key.id)
                    &&& *final(self) == *old(self)
                    &&& *final(entity) == *old(entity)
                },
            },
    {
        if Entity::has_component(entity, key) {
            return Result::Err(ErrEcs::DuplicateComponent);
        }
        let i = match Component::insert(
            key,
            component,
            &mut self.components,
            &mut self.indices,
            &mut self.lengths,
        ) {
            Result::Ok(i) => i,
            Result::Err(_) => {
                proof {
                    assert(false);
                }
                0
            },
        };
        Entity::insert_component(entity, key, i);
        Result::Ok(())
    }

    /// Reads the entity's component of this type by value.
    pub fn ecread(&self, entity: &Entity, key: TypeKey) -> (r: Result<V, ErrEcs>) where V: Copy
        requires
            self.inv(),
            entity.wf(),
        ensures
            match r {
                Result::Ok(v) => spec_read(*self, *entity, key.id) == Option::Some(v),
                Result::Err(e) => {
                    &&& spec_read(*self, *entity, key.id) is None
                    &&& e == (if !entity.has_binding(key.id) {
                        ErrEcs::NotFound
                    } else if !self.storage_part().has(key.id) {
                        ErrEcs::NotFound
                    } else if entity.index(key.id) >= self.storage_part().slab(key.id).len() {
                        ErrEcs::OutOfBounds
                    } else {
                        ErrEcs::Empty
                    })
                },
            },
    {
        let i = match Entity::get_component_index(entity, key) {
            Result::Ok(i) => i,
            Result::Err(e) => {
                return Result::Err(e);
            },
        };
        Component::read(key, i, &self.components)
    }

    /// Applies `f` to the entity's component of this type, in place. The
    /// function must accept every value of the component type.
    pub fn ecmodify<F: FnOnce(V) -> V>(&mut self, entity: &Entity, key: TypeKey, f: F) -> (r:
        Result<(), ErrEcs>)
        requires
            old(self).inv(),
            entity.wf(),
            forall|v: V| call_requires(f, (v,)),
        ensures
            final(self).inv(),
            match r {
                Result::Ok(()) => {
                    &&& entity.has_binding(key.id)
                    &&& spec_read(*old(self), *entity, key.id) is Some
                    &&& exists|w: V|
                        call_ensures(f, (spec_read(*old(self), *entity, key.id)->Some_0,), w)
                            && spec_read(*final(self), *entity, key.id) == Option::Some(w)
                    &&& forall|t: u64|
                        t != key.id ==> final(self).storage_part().slab(t) == old(
                            self,
                        ).storage_part().slab(t)
                    &&& forall|t: u64|
                        final(self).storage_part().has(t) == old(self).storage_part().has(t)
                    &&& forall|j: int|
                        0 <= j < old(self).storage_part().slab(key.id).len() && j != entity.index(
                            key.id,
                        ) ==> final(self).storage_part().slab(key.id)[j] == old(
                            self,
                        ).storage_part().slab(key.id)[j]
                    &&& final(self).index_part() == old(self).index_part()
                    &&& final(self).length_part() == old(self).length_part()
                },
                Result::Err(e) => {
                    &&& spec_read(*old(self), *entity, key.id) is None
                    &&& e == (if !entity.has_binding(key.id) {
                        ErrEcs::NotFound
                    } else if !old(self).storage_part().has(key.id) {
                        ErrEcs::NotFound
                    } else if entity.index(key.id) >= old(self).storage_part().slab(
                        key.id,
                    ).len() {
                        ErrEcs::OutOfBounds
                    } else {
                        ErrEcs::Empty
                    })
                    &&& *final(self) == *old(self)
                },
            },
    {
        let i = match Entity::get_component_index(entity, key) {
            Result::Ok(i) => i,
            Result::Err(e) => {
                return Result::Err(e);
            },
        };
        let r = Component::modify(key, i, &mut self.components, f);
        proof {
            let t = key.id;
            let s0 = old(self).storage_part();
            let s1 = self.storage_part();
            let x1 = self.index_part();
            if r is Ok {
                let v0 = s0.slab(t)[i as int].value();
                let w = choose|w: V|
                    call_ensures(f, (v0,), w) && s1.slab(t) == s0.slab(t).update(
                        i as int,
                        Cell::<V>::Occupied(w),
                    );
                assert(call_ensures(f, (v0,), w) && s1.slab(t) == s0.slab(t).update(
                    i as int,
                    Cell::<V>::Occupied(w),
                ));
                assert(s1.slab(t)[i as int] == Cell::<V>::Occupied(w));
                assert(spec_read(*self, *entity, t) == Option::Some(w));
                assert(s0.slab(t)[i as int].is_occupied() <==> x1.packed_of(t).contains(i));
                assert forall|u: u64, y: usize|
                    x1.has(u) && (y as int) < s1.slab(u).len() implies ((#[trigger] s1.slab(
                    u,
                )[y as int]).is_occupied() <==> x1.packed_of(u).contains(y)) by {
                    if u == t {
                        if y != i {
                            assert(s1.slab(t)[y as int] == s0.slab(t)[y as int]);
                        }
                        assert(s0.slab(t)[y as int].is_occupied() <==> x1.packed_of(t).contains(
                            y,
                        ));
                    } else {
                        assert(s1.slab(u) == s0.slab(u));
                        assert(s0.slab(u)[y as int].is_occupied() <==> x1.packed_of(u).contains(
                            y,
                        ));
                    }
                }
            }
        }
        r
    }

    /// Empties the entity's component of this type, recycling its slot and
    /// dropping the binding.
    pub fn ecempty(&mut self, entity: &mut Entity, key: TypeKey) -> (r: Result<(), ErrEcs>)
        requires
            old(self).inv(),
            old(entity).wf(),
        ensures
            final(self).inv(),
            final(entity).wf(),
            match r {
                Result::Ok(()) => {
                    &&& old(entity).has_binding(key.id)
                    &&& old(self).storage_part().has(key.id)
                    &&& old(entity).index(key.id) < old(self).storage_part().slab(key.id).len()
                    &&& !final(entity).has_binding(key.id)
                    &&& forall|t: u64|
                        t != key.id ==> final(entity).has_binding(t) == old(entity).has_binding(t) && (old(entity).has_binding(t) ==> final(entity).index(t) == old(entity).index(t))
                    &&& spec_read(*final(self), *final(entity), key.id) is None
                    &&& (old(self).storage_part().slab(key.id)[old(entity).index(key.id) as int]
                        is Occupied ==> cempty_post(
                        old(self).storage_part(),
                        old(self).index_part(),
                        old(self).length_part(),
                        final(self).storage_part(),
                        final(self).index_part(),
                        final(self).length_part(),
                        key.id,
                        old(entity).index(key.id),
                    ))
                    &&& (!(old(self).storage_part().slab(key.id)[old(entity).index(
                        key.id,
                    ) as int] is Occupied) ==> *final(self) == *old(self))
                },
                Result::Err(e) => {
                    &&& e == (if !old(entity).has_binding(key.id) || !old(
                        self,
                    ).storage_part().has(key.id) {
                        ErrEcs::NotFound
                    } else {
                        ErrEcs::OutOfBounds
                    })
                    &&& (old(entity).has_binding(key.id) && old(self).storage_part().has(key.id)
                        ==> old(entity).index(key.id) >= old(self).storage_part().slab(
                        key.id,
                    ).len())
                    &&& *final(self) == *old(self)
                    &&& *final(entity) == *old(entity)
                },
            },
    {
        let i = match Entity::get_component_index(entity, key) {
            Result::Ok(i) => i,
            Result::Err(e) => {
                return Result::Err(e);
            },
        };
        match Component::empty(key, i, &mut self.components, &mut self.indices, &mut self.lengths) {
            Result::Err(e) => Result::Err(e),
            Result::Ok(()) => {
                Entity::remove_component(entity, key);
                Result::Ok(())
            },
        }
    }

    /// How many components of this type are live: zero for a type the level
    /// has never seen.
    pub fn component_len(&self, key: TypeKey) -> (r: usize)
        requires
            self.inv(),
        ensures
            r == (if self.length_part().has(key.id) {
                self.length_part().count(key.id) as int
            } else {
                0int
            }),
    {
        match Component::len::<V>(key, &self.lengths) {
            Result::Ok(n) => n,
            Result::Err(_) => 0,
        }
    }
}

} // verus!
