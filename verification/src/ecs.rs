//! The store façade: entity-centric operations over the component manager,
//! the ownership map, and the identifier minter.
//!
//! Every operation preserves the store invariant and pins down exactly what
//! it changed: which binding, which cell, and that everything else — every
//! other entity's reads included — stands as it stood.

use vstd::prelude::*;

use crate::ErrEcs;
use crate::emanager::EManager;
use crate::keys::{Cell, TypeKey};
use crate::manager::{alloc_free_post, cm_pack_post, cm_unpack_post, CManager};
use crate::memory::{compress_post, Memory};
use crate::ownership::COwnership;
use crate::store::store_inv;

verus! {

/// The compaction policy: a type is worth compacting once its slab is at
/// least `capacity_floor` cells and the live share is at or under
/// `ratio_num / ratio_den`.
pub struct Config {
    pub capacity_floor: usize,
    pub ratio_num: usize,
    pub ratio_den: usize,
}

impl Default for Config {
    /// One live cell in five, on slabs of ten thousand cells or more.
    fn default() -> (r: Config)
        ensures
            r.capacity_floor == 10000,
            r.ratio_num == 1,
            r.ratio_den == 5,
    {
        Config { capacity_floor: 10000, ratio_num: 1, ratio_den: 5 }
    }
}

pub struct Ecs<V> {
    cmanager: CManager<V>,
    cownership: COwnership,
    emanager: EManager,
    config: Config,
}

/// What a read of (entity, type) would yield.
pub open spec fn ecs_read<V>(s: Ecs<V>, e: u64, t: u64) -> Option<V> {
    if s.ownership_part().owns(e, t) && s.manager_part().has_slab(t) && (
    s.ownership_part().index_of(e, t) as int) < s.manager_part().slab(t).len()
        && s.manager_part().slab(t)[s.ownership_part().index_of(e, t) as int] is Occupied {
        Option::Some(s.manager_part().slab(t)[s.ownership_part().index_of(e, t) as int].value())
    } else {
        Option::None
    }
}

/// Bindings and reads outside (id, t) are exactly as they were.
pub open spec fn frame_except<V>(pre: Ecs<V>, post: Ecs<V>, id: u64, t: u64) -> bool {
    &&& forall|e: u64| e != id ==> post.ownership_part().has_entity(e)
        == pre.ownership_part().has_entity(e)
    &&& forall|e: u64, u: u64|
        !(e == id && u == t) ==> post.ownership_part().owns(e, u) == pre.ownership_part().owns(
            e,
            u,
        ) && (pre.ownership_part().owns(e, u) ==> post.ownership_part().index_of(e, u)
            == pre.ownership_part().index_of(e, u))
    &&& forall|e: u64, u: u64|
        !(e == id && u == t) ==> ecs_read(post, e, u) == ecs_read(pre, e, u)
    &&& forall|u: u64|
        u != t ==> post.manager_part().has_slab(u) == pre.manager_part().has_slab(u)
            && post.manager_part().has_packed(u) == pre.manager_part().has_packed(u)
            && post.manager_part().has_free(u) == pre.manager_part().has_free(u)
    &&& forall|u: u64| u != t ==> post.manager_part().slab(u) == pre.manager_part().slab(u)
    &&& forall|u: u64|
        u != t && pre.manager_part().has_packed(u) ==> post.manager_part().packed(u)
            == pre.manager_part().packed(u)
    &&& forall|u: u64|
        u != t && pre.manager_part().has_free(u) ==> post.manager_part().free_q(u)
            == pre.manager_part().free_q(u) && post.manager_part().next_free(u)
            == pre.manager_part().next_free(u)
}

/// Everything a successful give changes.
pub open spec fn give_post<V>(pre: Ecs<V>, post: Ecs<V>, id: u64, t: u64, v: V) -> bool {
    let i = pre.manager_part().alloc_choice(t);
    &&& !pre.ownership_part().owns(id, t)
    &&& post.ownership_part().owns(id, t)
    &&& post.ownership_part().index_of(id, t) == i
    &&& ecs_read(post, id, t) == Option::Some(v)
    &&& post.manager_part().has_slab(t)
    &&& post.manager_part().slab(t)[i] == Cell::Occupied(v)
    &&& post.manager_part().slab(t).len() == (if pre.manager_part().has_slab(t)
        && pre.manager_part().slab(t).len() > i {
        pre.manager_part().slab(t).len() as int
    } else {
        i + 1
    })
    &&& cm_pack_post(pre.manager_part(), post.manager_part(), t, i as usize)
    &&& alloc_free_post(pre.manager_part(), post.manager_part(), t, i as usize)
    &&& frame_except(pre, post, id, t)
}

/// Everything a successful empty changes.
pub open spec fn empty_post<V>(pre: Ecs<V>, post: Ecs<V>, id: u64, t: u64) -> bool {
    let i = pre.ownership_part().index_of(id, t);
    &&& pre.ownership_part().owns(id, t)
    &&& !post.ownership_part().owns(id, t)
    &&& post.ownership_part().has_entity(id)
    &&& ecs_read(post, id, t) is None
    &&& post.manager_part().slab(t) == pre.manager_part().slab(t).update(
        i as int,
        Cell::<V>::Empty,
    )
    &&& cm_unpack_post(pre.manager_part(), post.manager_part(), t, i)
    &&& post.manager_part().has_free(t)
    &&& forall|y: usize|
        post.manager_part().free_q(t).contains(y) <==> (pre.manager_part().free_q(t).contains(y)
            || y == i)
    &&& post.manager_part().next_free(t) == pre.manager_part().next_free(t)
    &&& frame_except(pre, post, id, t)
}

impl<V> Ecs<V> {
    pub closed spec fn manager_part(self) -> CManager<V> {
        self.cmanager
    }

    pub closed spec fn ownership_part(self) -> COwnership {
        self.cownership
    }

    pub closed spec fn minter_part(self) -> EManager {
        self.emanager
    }

    pub closed spec fn config_part(self) -> Config {
        self.config
    }

    /// The store invariant at quiescent points.
    pub open spec fn wf(self) -> bool {
        store_inv(self.manager_part(), self.ownership_part())
    }

    pub fn new() -> (r: Ecs<V>)
        ensures
            r.wf(),
            forall|t: u64| !r.manager_part().has_slab(t),
            forall|e: u64| !r.ownership_part().has_entity(e),
            r.minter_part().next_id() == 0,
            r.config_part().capacity_floor == 10000,
            r.config_part().ratio_num == 1,
            r.config_part().ratio_den == 5,
    {
        Ecs {
            cmanager: CManager::new(),
            cownership: COwnership::new(),
            emanager: EManager::new(),
            config: Config::default(),
        }
    }

    /// A store with its own compaction thresholds.
    pub fn with_config(config: Config) -> (r: Ecs<V>)
        ensures
            r.wf(),
            forall|t: u64| !r.manager_part().has_slab(t),
            forall|e: u64| !r.ownership_part().has_entity(e),
            r.config_part() == config,
    {
        Ecs {
            cmanager: CManager::new(),
            cownership: COwnership::new(),
            emanager: EManager::new(),
            config,
        }
    }

    /// Mints a fresh entity identifier.
    pub fn espawn(&mut self) -> (r: u64)
        requires
            old(self).wf(),
            old(self).minter_part().next_id() < u64::MAX,
        ensures
            final(self).wf(),
            r == old(self).minter_part().next_id(),
            final(self).minter_part().next_id() == old(self).minter_part().next_id() + 1,
            final(self).manager_part() == old(self).manager_part(),
            final(self).ownership_part() == old(self).ownership_part(),
            final(self).config_part() == old(self).config_part(),
    {
        let e = self.emanager.create();
        e.id
    }

    /// Gives entity `id` a component of this type at the next allocatable
    /// slot. Fails, changing nothing, when the entity already owns one.
    pub fn ecinsert(&mut self, id: u64, key: TypeKey, component: V) -> (r: Result<(), ErrEcs>)
        requires
            old(self).wf(),
            old(self).manager_part().has_slab(key.id) ==> old(self).manager_part().slab(
                key.id,
            ).len() < usize::MAX,
        ensures
            final(self).wf(),
            final(self).minter_part() == old(self).minter_part(),
            final(self).config_part() == old(self).config_part(),
            match r {
                Result::Ok(()) => give_post(*old(self), *final(self), id, key.id, component),
                Result::Err(e) => {
                    &&& e == ErrEcs::DuplicateComponent
                    &&& old(self).ownership_part().owns(id, key.id)
                    &&& *final(self) == *old(self)
                },
            },
    {
        let ghost t = key.id;
        let ghost pre = *self;
        match self.cownership.get_cindex_by_id(id, key) {
            Result::Ok(_) => {
                return Result::Err(ErrEcs::DuplicateComponent);
            },
            Result::Err(_) => {},
        }
        proof {
            // The next allocatable slot is unowned and within reach.
            let cm = pre.manager_part();
            if cm.has_slab(t) {
                if cm.free_q(t).len() > 0 {
                    assert(cm.free_q(t).contains(cm.free_q(t)[0]));
                    assert(!cm.packed(t).contains(cm.free_q(t)[0]));
                } else {
                    assert(cm.alloc_choice(t) == cm.slab(t).len());
                }
            }
        }
        let i = self.cmanager.cinsert(key, component);
        self.cownership.insert_by_id(i, id, key);
        proof {
            let post = *self;
            let cm0 = pre.manager_part();
            let co0 = pre.ownership_part();
            let cm1 = post.manager_part();
            let co1 = post.ownership_part();
            co0.lemma_owns_entity();
            co1.lemma_owns_entity();
            // The chosen slot was nobody's binding.
            assert forall|e: u64| co0.owns(e, t) implies co0.index_of(e, t) != i by {
                if co0.index_of(e, t) == i {
                    assert(cm0.packed(t).contains(i));
                    if cm0.has_slab(t) && cm0.free_q(t).len() > 0 {
                        assert(cm0.free_q(t).contains(i));
                    } else if cm0.has_slab(t) {
                        assert((i as int) < cm0.slab(t).len());
                    }
                }
            }
            // The store invariant, clause by clause.
            assert forall|u: u64| cm1.has_slab(u) == cm1.has_packed(u) by {
                if u != t {
                    assert(cm0.has_slab(u) == cm0.has_packed(u));
                }
            }
            assert forall|u: u64| cm1.has_slab(u) == cm1.has_free(u) by {
                if u != t {
                    assert(cm0.has_slab(u) == cm0.has_free(u));
                }
            }
            assert forall|u: u64| #[trigger] cm1.has_slab(u) implies cm1.next_free(u)
                == cm1.slab(u).len() by {
                if u == t {
                    if cm0.has_slab(t) && cm0.free_q(t).len() > 0 {
                        assert(cm0.free_q(t).contains(cm0.free_q(t)[0]));
                        assert((i as int) < cm0.slab(t).len());
                    }
                } else {
                    assert(cm0.has_slab(u) == cm0.has_free(u));
                }
            }
            assert forall|u: u64, y: usize|
                cm1.has_packed(u) && #[trigger] cm1.packed(u).contains(y) implies y < cm1.slab(
                u,
            ).len() by {
                if u == t {
                    if y != i {
                        assert(cm0.packed(t).contains(y));
                    }
                } else {
                    assert(cm0.packed(u).contains(y));
                }
            }
            assert forall|u: u64, y: usize|
                cm1.has_free(u) && #[trigger] cm1.free_q(u).contains(y) implies y < cm1.slab(
                u,
            ).len() by {
                if u == t {
                    assert(cm0.has_free(t) && cm0.free_q(t).contains(y) && y != i);
                    assert(cm0.has_slab(t));
                } else {
                    assert(cm0.free_q(u).contains(y));
                }
            }
            assert forall|u: u64, y: usize|
                cm1.has_packed(u) && #[trigger] cm1.packed(u).contains(y) implies !(
            #[trigger] cm1.free_q(u).contains(y)) by {
                if u == t {
                    if cm1.free_q(t).contains(y) {
                        assert(cm0.free_q(t).contains(y) && y != i);
                        assert(cm0.packed(t).contains(y) || y == i);
                    }
                } else {
                    if cm1.free_q(u).contains(y) {
                        assert(cm0.packed(u).contains(y) && cm0.free_q(u).contains(y));
                    }
                }
            }
            assert forall|u: u64, y: usize|
                cm1.has_slab(u) && y < cm1.slab(u).len() implies (#[trigger] cm1.packed(
                u,
            ).contains(y) || cm1.free_q(u).contains(y)) by {
                if u == t {
                    if y != i {
                        if cm0.has_slab(t) && y < cm0.slab(t).len() {
                            assert(cm0.packed(t).contains(y) || cm0.free_q(t).contains(y));
                        } else {
                            assert(y as int == i as int);
                        }
                    }
                } else {
                    assert(cm0.packed(u).contains(y) || cm0.free_q(u).contains(y));
                }
            }
            assert forall|u: u64, y: usize|
                cm1.has_slab(u) && (y as int) < cm1.slab(u).len() implies ((#[trigger] cm1.slab(
                u,
            )[y as int]).is_occupied() <==> cm1.packed(u).contains(y)) by {
                if u == t {
                    if y != i {
                        if cm0.has_slab(t) && (y as int) < cm0.slab(t).len() {
                            assert(cm1.slab(t)[y as int] == cm0.slab(t)[y as int]);
                            assert(cm0.slab(t)[y as int].is_occupied() <==> cm0.packed(
                                t,
                            ).contains(y));
                        } else {
                            assert(cm1.slab(t)[y as int] == Cell::<V>::Empty);
                            if cm1.packed(t).contains(y) {
                                assert(cm0.has_packed(t) && cm0.packed(t).contains(y));
                                assert((y as int) < cm0.slab(t).len());
                            }
                        }
                    }
                } else {
                    assert(cm1.slab(u) == cm0.slab(u));
                    assert(cm1.packed(u) == cm0.packed(u));
                    assert(cm0.slab(u)[y as int].is_occupied() <==> cm0.packed(u).contains(y));
                }
            }
            assert forall|e: u64, u: u64| #[trigger] co1.owns(e, u) implies cm1.has_slab(u)
                && cm1.packed(u).contains(co1.index_of(e, u)) by {
                if e == id && u == t {
                } else {
                    assert(co0.owns(e, u));
                    assert(co1.index_of(e, u) == co0.index_of(e, u));
                    assert(cm0.packed(u).contains(co0.index_of(e, u)));
                    if u != t {
                        assert(cm1.packed(u) == cm0.packed(u));
                    }
                }
            }
            assert forall|e1: u64, e2: u64, u: u64|
                #[trigger] co1.owns(e1, u) && #[trigger] co1.owns(e2, u) && co1.index_of(e1, u)
                    == co1.index_of(e2, u) implies e1 == e2 by {
                if u == t {
                    if e1 == id && e2 != id {
                        assert(co0.owns(e2, t));
                        assert(co0.index_of(e2, t) != i);
                    } else if e2 == id && e1 != id {
                        assert(co0.owns(e1, t));
                        assert(co0.index_of(e1, t) != i);
                    } else if e1 != id && e2 != id {
                        assert(co0.owns(e1, u) && co0.owns(e2, u));
                    }
                } else {
                    assert(co0.owns(e1, u) && co0.owns(e2, u));
                }
            }
            assert forall|u: u64, y: usize|
                cm1.has_packed(u) && #[trigger] cm1.packed(u).contains(y) implies exists|e: u64|
                #[trigger] co1.owns(e, u) && co1.index_of(e, u) == y by {
                if u == t && y == i {
                    assert(co1.owns(id, t) && co1.index_of(id, t) == i);
                } else if u == t {
                    assert(cm0.packed(t).contains(y));
                    let e2 = choose|e2: u64|
                        #[trigger] co0.owns(e2, t) && co0.index_of(e2, t) == y;
                    assert(e2 != id);
                    assert(co1.owns(e2, t) && co1.index_of(e2, t) == y);
                } else {
                    assert(cm0.packed(u).contains(y));
                    let e2 = choose|e2: u64|
                        #[trigger] co0.owns(e2, u) && co0.index_of(e2, u) == y;
                    assert(co1.owns(e2, u) && co1.index_of(e2, u) == y);
                }
            }
            // The read frame.
            assert forall|e: u64, u: u64| !(e == id && u == t) implies ecs_read(post, e, u)
                == ecs_read(pre, e, u) by {
                if co0.owns(e, u) {
                    assert(co1.index_of(e, u) == co0.index_of(e, u));
                    if u == t {
                        let y = co0.index_of(e, t);
                        assert(cm0.packed(t).contains(y));
                        assert(y != i);
                        assert((y as int) < cm0.slab(t).len());
                        assert(cm1.slab(t)[y as int] == cm0.slab(t)[y as int]);
                    }
                }
            }
            assert(ecs_read(post, id, t) == Option::Some(component));
        }
        Result::Ok(())
    }

    /// Reads entity `id`'s component of this type by value. Succeeds
    /// exactly when the entity owns one.
    pub fn ecread(&self, id: u64, key: TypeKey) -> (r: Result<V, ErrEcs>) where V: Copy
        requires
            self.wf(),
        ensures
            match r {
                Result::Ok(v) => ecs_read(*self, id, key.id) == Option::Some(v),
                Result::Err(e) => {
                    &&& e == ErrEcs::NotFound
                    &&& !self.ownership_part().owns(id, key.id)
                    &&& ecs_read(*self, id, key.id) is None
                },
            },
    {
        let i = match self.cownership.get_cindex_by_id(id, key) {
            Result::Ok(i) => i,
            Result::Err(e) => {
                return Result::Err(e);
            },
        };
        match self.cmanager.cget(key, i) {
            Result::Ok(v) => Result::Ok(*v),
            Result::Err(_) => {
                proof {
                    assert(self.manager_part().packed(key.id).contains(i));
                    assert(false);
                }
                Result::Err(ErrEcs::NotFound)
            },
        }
    }

    /// Replaces entity `id`'s component of this type. Succeeds exactly when
    /// the entity owns one; everything else stands.
    pub fn ecset(&mut self, id: u64, key: TypeKey, component: V) -> (r: Result<(), ErrEcs>)
        requires
            old(self).wf(),
        ensures
            final(self).wf(),
            final(self).minter_part() == old(self).minter_part(),
            final(self).config_part() == old(self).config_part(),
            match r {
                Result::Ok(()) => {
                    &&& old(self).ownership_part().owns(id, key.id)
                    &&& ecs_read(*final(self), id, key.id) == Option::Some(component)
                    &&& final(self).ownership_part() == old(self).ownership_part()
                    &&& final(self).manager_part().slab(key.id) == old(self).manager_part().slab(
                        key.id,
                    ).update(
                        old(self).ownership_part().index_of(id, key.id) as int,
                        Cell::Occupied(component),
                    )
                    &&& frame_except(*old(self), *final(self), id, key.id)
                },
                Result::Err(e) => {
                    &&& e == ErrEcs::NotFound
                    &&& !old(self).ownership_part().owns(id, key.id)
                    &&& *final(self) == *old(self)
                },
            },
    {
        let ghost t = key.id;
        let ghost pre = *self;
        let i = match self.cownership.get_cindex_by_id(id, key) {
            Result::Ok(i) => i,
            Result::Err(e) => {
                return Result::Err(e);
            },
        };
        proof {
            assert(pre.manager_part().packed(t).contains(i));
        }
        let sr = self.cmanager.cset(key, i, component);
        proof {
            assert(sr is Ok);
            let post = *self;
            let cm0 = pre.manager_part();
            let cm1 = post.manager_part();
            assert forall|u: u64, y: usize|
                cm1.has_slab(u) && (y as int) < cm1.slab(u).len() implies ((#[trigger] cm1.slab(
                u,
            )[y as int]).is_occupied() <==> cm1.packed(u).contains(y)) by {
                if u == t {
                    if y != i {
                        assert(cm1.slab(t)[y as int] == cm0.slab(t)[y as int]);
                    }
                    assert(cm0.slab(t)[y as int].is_occupied() <==> cm0.packed(t).contains(y));
                } else {
                    assert(cm1.slab(u) == cm0.slab(u));
                    assert(cm0.slab(u)[y as int].is_occupied() <==> cm0.packed(u).contains(y));
                }
            }
            assert forall|e: u64, u: u64| !(e == id && u == t) implies ecs_read(post, e, u)
                == ecs_read(pre, e, u) by {
                let co0 = pre.ownership_part();
                if co0.owns(e, u) && u == t {
                    let y = co0.index_of(e, t);
                    assert(cm0.packed(t).contains(y));
                    if y == i {
                        assert(co0.owns(id, t) && co0.index_of(id, t) == i);
                        assert(e == id);
                    }
                    assert((y as int) < cm0.slab(t).len());
                    assert(cm1.slab(t)[y as int] == cm0.slab(t)[y as int]);
                }
            }
        }
        Result::Ok(())
    }

    /// Applies `f` to entity `id`'s component of this type, in place. The
    /// function must accept every value of the component type.
    pub fn ecmodify<F: FnOnce(V) -> V>(&mut self, id: u64, key: TypeKey, f: F) -> (r: Result<
        (),
        ErrEcs,
    >)
        requires
            old(self).wf(),
            forall|v: V| call_requires(f, (v,)),
        ensures
            final(self).wf(),
            final(self).minter_part() == old(self).minter_part(),
            final(self).config_part() == old(self).config_part(),
            match r {
                Result::Ok(()) => {
                    &&& old(self).ownership_part().owns(id, key.id)
                    &&& ecs_read(*old(self), id, key.id) is Some
                    &&& exists|w: V|
                        call_ensures(f, (ecs_read(*old(self), id, key.id)->Some_0,), w)
                            && ecs_read(*final(self), id, key.id) == Option::Some(w)
                    &&& final(self).ownership_part() == old(self).ownership_part()
                    &&& frame_except(*old(self), *final(self), id, key.id)
                },
                Result::Err(e) => {
                    &&& e == ErrEcs::NotFound
                    &&& !old(self).ownership_part().owns(id, key.id)
                    &&& *final(self) == *old(self)
                },
            },
    {
        let ghost t = key.id;
        let ghost pre = *self;
        let i = match self.cownership.get_cindex_by_id(id, key) {
            Result::Ok(i) => i,
            Result::Err(e) => {
                return Result::Err(e);
            },
        };
        proof {
            assert(pre.manager_part().packed(t).contains(i));
        }
        let mr = self.cmanager.cmodify(key, i, f);
        proof {
            assert(mr is Ok);
            let post = *self;
            let cm0 = pre.manager_part();
            let cm1 = post.manager_part();
            let v0 = cm0.slab(t)[i as int].value();
            let w = choose|w: V|
                call_ensures(f, (v0,), w) && cm1.slab(t) == cm0.slab(t).update(
                    i as int,
                    Cell::<V>::Occupied(w),
                );
            assert(call_ensures(f, (v0,), w) && cm1.slab(t) == cm0.slab(t).update(
                i as int,
                Cell::<V>::Occupied(w),
            ));
            assert(ecs_read(post, id, t) == Option::Some(w));
            assert forall|u: u64, y: usize|
                cm1.has_slab(u) && (y as int) < cm1.slab(u).len() implies ((#[trigger] cm1.slab(
                u,
            )[y as int]).is_occupied() <==> cm1.packed(u).contains(y)) by {
                if u == t {
                    if y != i {
                        assert(cm1.slab(t)[y as int] == cm0.slab(t)[y as int]);
                    }
                    assert(cm0.slab(t)[y as int].is_occupied() <==> cm0.packed(t).contains(y));
                } else {
                    assert(cm1.slab(u) == cm0.slab(u));
                    assert(cm0.slab(u)[y as int].is_occupied() <==> cm0.packed(u).contains(y));
                }
            }
            assert forall|e: u64, u: u64| !(e == id && u == t) implies ecs_read(post, e, u)
                == ecs_read(pre, e, u) by {
                let co0 = pre.ownership_part();
                if co0.owns(e, u) && u == t {
                    let y = co0.index_of(e, t);
                    assert(cm0.packed(t).contains(y));
                    if y == i {
                        assert(co0.owns(id, t) && co0.index_of(id, t) == i);
                        assert(e == id);
                    }
                    assert((y as int) < cm0.slab(t).len());
                    assert(cm1.slab(t)[y as int] == cm0.slab(t)[y as int]);
                }
            }
        }
        Result::Ok(())
    }

    /// Empties entity `id`'s component of this type: the cell releases its
    /// value, the slot becomes recyclable, the binding goes.
    pub fn ecempty(&mut self, id: u64, key: TypeKey) -> (r: Result<(), ErrEcs>)
        requires
            old(self).wf(),
        ensures
            final(self).wf(),
            final(self).minter_part() == old(self).minter_part(),
            final(self).config_part() == old(self).config_part(),
            match r {
                Result::Ok(()) => empty_post(*old(self), *final(self), id, key.id),
                Result::Err(e) => {
                    &&& e == ErrEcs::NotFound
                    &&& !old(self).ownership_part().owns(id, key.id)
                    &&& *final(self) == *old(self)
                },
            },
    {
        let ghost t = key.id;
        let ghost pre = *self;
        let i = match self.cownership.get_cindex_by_id(id, key) {
            Result::Ok(i) => i,
            Result::Err(e) => {
                return Result::Err(e);
            },
        };
        proof {
            assert(pre.manager_part().packed(t).contains(i));
            pre.ownership_part().lemma_owns_entity();
        }
        let rr = self.cownership.remove_by_id(id, key);
        let cr = self.cmanager.cremove(key, i);
        proof {
            assert(rr is Ok);
            assert(cr is Ok);
            let post = *self;
            let cm0 = pre.manager_part();
            let co0 = pre.ownership_part();
            let cm1 = post.manager_part();
            let co1 = post.ownership_part();
            co1.lemma_owns_entity();
            assert(!cm0.free_q(t).contains(i));
            assert forall|u: u64, y: usize|
                cm1.has_packed(u) && #[trigger] cm1.packed(u).contains(y) implies y < cm1.slab(
                u,
            ).len() by {
                if u == t {
                    assert(cm0.packed(t).contains(y));
                } else {
                    assert(cm0.packed(u).contains(y));
                }
            }
            assert forall|u: u64, y: usize|
                cm1.has_free(u) && #[trigger] cm1.free_q(u).contains(y) implies y < cm1.slab(
                u,
            ).len() by {
                if u == t {
                    if y != i {
                        assert(cm0.has_free(t) && cm0.free_q(t).contains(y));
                    }
                } else {
                    assert(cm0.free_q(u).contains(y));
                }
            }
            assert forall|u: u64, y: usize|
                cm1.has_packed(u) && #[trigger] cm1.packed(u).contains(y) implies !(
            #[trigger] cm1.free_q(u).contains(y)) by {
                if u == t {
                    assert(cm0.packed(t).contains(y) && y != i);
                    if cm1.free_q(t).contains(y) {
                        assert(cm0.free_q(t).contains(y));
                    }
                } else {
                    if cm1.free_q(u).contains(y) {
                        assert(cm0.packed(u).contains(y) && cm0.free_q(u).contains(y));
                    }
                }
            }
            assert forall|u: u64, y: usize|
                cm1.has_slab(u) && y < cm1.slab(u).len() implies (#[trigger] cm1.packed(
                u,
            ).contains(y) || cm1.free_q(u).contains(y)) by {
                if u == t {
                    if y == i {
                        assert(cm1.free_q(t).contains(i));
                    } else {
                        assert(cm0.packed(t).contains(y) || cm0.free_q(t).contains(y));
                    }
                } else {
                    assert(cm0.packed(u).contains(y) || cm0.free_q(u).contains(y));
                }
            }
            assert forall|u: u64, y: usize|
                cm1.has_slab(u) && (y as int) < cm1.slab(u).len() implies ((#[trigger] cm1.slab(
                u,
            )[y as int]).is_occupied() <==> cm1.packed(u).contains(y)) by {
                if u == t {
                    if y == i {
                        assert(cm1.slab(t)[y as int] == Cell::<V>::Empty);
                    } else {
                        assert(cm1.slab(t)[y as int] == cm0.slab(t)[y as int]);
                        assert(cm0.slab(t)[y as int].is_occupied() <==> cm0.packed(t).contains(
                            y,
                        ));
                    }
                } else {
                    assert(cm1.slab(u) == cm0.slab(u));
                    assert(cm1.packed(u) == cm0.packed(u));
                    assert(cm0.slab(u)[y as int].is_occupied() <==> cm0.packed(u).contains(y));
                }
            }
            assert forall|e: u64, u: u64| #[trigger] co1.owns(e, u) implies cm1.has_slab(u)
                && cm1.packed(u).contains(co1.index_of(e, u)) by {
                assert(co0.owns(e, u));
                assert(co1.index_of(e, u) == co0.index_of(e, u));
                assert(cm0.packed(u).contains(co0.index_of(e, u)));
                if u == t {
                    assert(!(e == id));
                    assert(co0.index_of(e, t) != i);
                } else {
                    assert(cm1.packed(u) == cm0.packed(u));
                }
            }
            assert forall|e1: u64, e2: u64, u: u64|
                #[trigger] co1.owns(e1, u) && #[trigger] co1.owns(e2, u) && co1.index_of(e1, u)
                    == co1.index_of(e2, u) implies e1 == e2 by {
                assert(co0.owns(e1, u) && co0.owns(e2, u));
                assert(co1.index_of(e1, u) == co0.index_of(e1, u));
                assert(co1.index_of(e2, u) == co0.index_of(e2, u));
            }
            assert forall|u: u64, y: usize|
                cm1.has_packed(u) && #[trigger] cm1.packed(u).contains(y) implies exists|e: u64|
                #[trigger] co1.owns(e, u) && co1.index_of(e, u) == y by {
                if u == t {
                    assert(cm0.packed(t).contains(y) && y != i);
                    let e2 = choose|e2: u64|
                        #[trigger] co0.owns(e2, t) && co0.index_of(e2, t) == y;
                    assert(e2 != id);
                    assert(co1.owns(e2, t) && co1.index_of(e2, t) == y);
                } else {
                    assert(cm0.packed(u).contains(y));
                    let e2 = choose|e2: u64|
                        #[trigger] co0.owns(e2, u) && co0.index_of(e2, u) == y;
                    assert(co1.owns(e2, u) && co1.index_of(e2, u) == y);
                }
            }
            assert forall|e: u64, u: u64| !(e == id && u == t) implies ecs_read(post, e, u)
                == ecs_read(pre, e, u) by {
                if co0.owns(e, u) {
                    assert(co1.owns(e, u) && co1.index_of(e, u) == co0.index_of(e, u));
                    if u == t {
                        let y = co0.index_of(e, t);
                        assert(cm0.packed(t).contains(y));
                        if y == i {
                            assert(e == id);
                        }
                        assert(cm1.slab(t)[y as int] == cm0.slab(t)[y as int]);
                    }
                }
            }
        }
        Result::Ok(())
    }

    /// The physical slab length for this type; zero before its first use.
    pub fn capacity(&self, key: TypeKey) -> (r: usize)
        requires
            self.wf(),
        ensures
            r == (if self.manager_part().has_slab(key.id) {
                self.manager_part().slab(key.id).len() as int
            } else {
                0int
            }),
    {
        if self.cmanager.knows_type(key) {
            self.cmanager.capacity(key)
        } else {
            0
        }
    }

    /// The count of live components of this type; zero before its first
    /// use.
    pub fn len(&self, key: TypeKey) -> (r: usize)
        requires
            self.wf(),
        ensures
            r == (if self.manager_part().has_packed(key.id) {
                self.manager_part().packed(key.id).len() as int
            } else {
                0int
            }),
    {
        if self.cmanager.knows_type(key) {
            self.cmanager.plen(key)
        } else {
            0
        }
    }

    /// A snapshot of this type's live slot indices, ascending: what a
    /// system iterating the type's components walks. Empty before the
    /// type's first use.
    pub fn iter_packed(&self, key: TypeKey) -> (r: Vec<usize>)
        requires
            self.wf(),
        ensures
            self.manager_part().has_packed(key.id) ==> r@ == self.manager_part().packed(key.id),
            !self.manager_part().has_packed(key.id) ==> r@ == Seq::<usize>::empty(),
    {
        if self.cmanager.knows_type(key) {
            self.cmanager.iter_packed(key)
        } else {
            Vec::new()
        }
    }

    /// Whether the compaction policy asks for this type to be compacted:
    /// the slab has reached the floor and the live share is at or under the
    /// configured ratio.
    pub fn should_compress(&self, key: TypeKey) -> (r: bool)
        requires
            self.wf(),
        ensures
            r == (self.manager_part().has_slab(key.id)
                && self.manager_part().slab(key.id).len()
                >= self.config_part().capacity_floor
                && self.manager_part().packed(key.id).len()
                * self.config_part().ratio_den <= self.manager_part().slab(key.id).len()
                * self.config_part().ratio_num),
    {
        if !self.cmanager.knows_type(key) {
            return false;
        }
        let cap = self.cmanager.capacity(key);
        if cap < self.config.capacity_floor {
            return false;
        }
        let live = self.cmanager.plen(key);
        let a = live as u128;
        let b = self.config.ratio_den as u128;
        let c = cap as u128;
        let d = self.config.ratio_num as u128;
        proof {
            let top = 0xFFFF_FFFF_FFFF_FFFFu128;
            assert(a <= top && b <= top && c <= top && d <= top);
            assert(a * b <= top * top && c * d <= top * top) by (nonlinear_arith)
                requires
                    a <= top,
                    b <= top,
                    c <= top,
                    d <= top,
            ;
        }
        a * b <= c * d
    }

    /// Compacts this type exactly when the configured policy asks for it,
    /// and never fails: a type the policy selects always has a slab. Run
    /// after a give, a set, or an empty to keep iteration dense.
    pub fn maybe_compress(&mut self, key: TypeKey) -> (r: Result<(), ErrEcs>)
        requires
            old(self).wf(),
        ensures
            final(self).wf(),
            r is Ok,
            final(self).minter_part() == old(self).minter_part(),
            final(self).config_part() == old(self).config_part(),
            forall|e: u64, u: u64| ecs_read(*final(self), e, u) == ecs_read(*old(self), e, u),
            (old(self).manager_part().has_slab(key.id) && old(self).manager_part().slab(
                key.id,
            ).len() >= old(self).config_part().capacity_floor && old(self).manager_part().packed(
                key.id,
            ).len() * old(self).config_part().ratio_den <= old(self).manager_part().slab(
                key.id,
            ).len() * old(self).config_part().ratio_num) ==> compress_post(
                old(self).manager_part(),
                old(self).ownership_part(),
                final(self).manager_part(),
                final(self).ownership_part(),
                key.id,
            ),
            !(old(self).manager_part().has_slab(key.id) && old(self).manager_part().slab(
                key.id,
            ).len() >= old(self).config_part().capacity_floor && old(self).manager_part().packed(
                key.id,
            ).len() * old(self).config_part().ratio_den <= old(self).manager_part().slab(
                key.id,
            ).len() * old(self).config_part().ratio_num) ==> *final(self) == *old(self),
    {
        if self.should_compress(key) {
            let r = self.compress_memory(key);
            proof {
                assert(r is Ok);
            }
            r
        } else {
            Result::Ok(())
        }
    }

    /// Compacts one type's slab to exactly its live count; every binding
    /// keeps its value, every other type stands untouched.
    pub fn compress_memory(&mut self, key: TypeKey) -> (r: Result<(), ErrEcs>)
        requires
            old(self).wf(),
        ensures
            final(self).wf(),
            final(self).minter_part() == old(self).minter_part(),
            final(self).config_part() == old(self).config_part(),
            match r {
                Result::Ok(()) => {
                    &&& old(self).manager_part().has_slab(key.id)
                    &&& compress_post(
                        old(self).manager_part(),
                        old(self).ownership_part(),
                        final(self).manager_part(),
                        final(self).ownership_part(),
                        key.id,
                    )
                    &&& forall|e: u64, u: u64|
                        ecs_read(*final(self), e, u) == ecs_read(*old(self), e, u)
                },
                Result::Err(e) => {
                    &&& e == ErrEcs::NotFound
                    &&& !old(self).manager_part().has_slab(key.id)
                    &&& *final(self) == *old(self)
                },
            },
    {
        let ghost pre = *self;
        let r = Memory::compress(&mut self.cmanager, &mut self.cownership, key);
        proof {
            if r is Ok {
                let t = key.id;
                let post = *self;
                let cm0 = pre.manager_part();
                let co0 = pre.ownership_part();
                let cm1 = post.manager_part();
                let co1 = post.ownership_part();
                assert forall|e: u64, u: u64| ecs_read(post, e, u) == ecs_read(pre, e, u) by {
                    if co0.owns(e, u) {
                        if u == t {
                            assert(cm1.slab(t)[co1.index_of(e, t) as int] == cm0.slab(
                                t,
                            )[co0.index_of(e, t) as int]);
                            assert(cm0.packed(t).contains(co0.index_of(e, t)));
                            assert(cm1.packed(t).contains(co1.index_of(e, t)));
                        } else {
                            assert(co1.index_of(e, u) == co0.index_of(e, u));
                            assert(cm1.slab(u) == cm0.slab(u));
                        }
                    }
                }
            }
        }
        r
    }

    /// Frees an entity wholesale: every component it owns is emptied, then
    /// its record goes. Fails only for an entity with no record.
    pub fn ecfree(&mut self, id: u64) -> (r: Result<(), ErrEcs>)
        requires
            old(self).wf(),
        ensures
            final(self).wf(),
            final(self).minter_part() == old(self).minter_part(),
            final(self).config_part() == old(self).config_part(),
            match r {
                Result::Ok(()) => {
                    &&& old(self).ownership_part().has_entity(id)
                    &&& !final(self).ownership_part().has_entity(id)
                    &&& forall|u: u64| !final(self).ownership_part().owns(id, u)
                    &&& forall|e: u64|
                        e != id ==> final(self).ownership_part().has_entity(e) == old(
                            self,
                        ).ownership_part().has_entity(e)
                    &&& forall|e: u64, u: u64|
                        e != id ==> final(self).ownership_part().owns(e, u) == old(
                            self,
                        ).ownership_part().owns(e, u) && (old(self).ownership_part().owns(e, u)
                            ==> final(self).ownership_part().index_of(e, u) == old(
                            self,
                        ).ownership_part().index_of(e, u))
                    &&& forall|e: u64, u: u64|
                        e != id ==> ecs_read(*final(self), e, u) == ecs_read(*old(self), e, u)
                },
                Result::Err(e) => {
                    &&& e == ErrEcs::NotFound
                    &&& !old(self).ownership_part().has_entity(id)
                    &&& *final(self) == *old(self)
                },
            },
    {
        let ghost pre = *self;
        let handle = crate::emanager::Entity { id };
        if !self.cownership.is_entity_active(&handle) {
            return Result::Err(ErrEcs::NotFound);
        }
        let types = self.cownership.components_of(id);
        let n = types.len();
        let mut k: usize = 0;
        proof {
            pre.ownership_part().lemma_owns_entity();
        }
        while k < n
            invariant
                n == types@.len(),
                0 <= k <= n,
                self.wf(),
                forall|u: u64| types@.contains(u) <==> pre.ownership_part().owns(id, u),
                pre.ownership_part().has_entity(id),
                forall|u: u64|
                    self.ownership_part().owns(id, u) ==> pre.ownership_part().owns(id, u),
                forall|i: int, j: int| 0 <= i < j < n ==> types@[i] != types@[j],
                self.minter_part() == pre.minter_part(),
                self.config_part() == pre.config_part(),
                forall|e: u64| self.ownership_part().has_entity(e) == pre.ownership_part(
                ).has_entity(e),
                forall|j: int|
                    0 <= j < k ==> !self.ownership_part().owns(id, (#[trigger] types@[j])),
                forall|j: int|
                    k <= j < n ==> self.ownership_part().owns(id, (#[trigger] types@[j]))
                        && self.ownership_part().index_of(id, types@[j]) == pre.ownership_part(
                    ).index_of(id, types@[j]),
                forall|e: u64, u: u64|
                    e != id ==> self.ownership_part().owns(e, u) == pre.ownership_part().owns(
                        e,
                        u,
                    ) && (pre.ownership_part().owns(e, u) ==> self.ownership_part().index_of(
                        e,
                        u,
                    ) == pre.ownership_part().index_of(e, u)),
                forall|e: u64, u: u64|
                    e != id ==> ecs_read(*self, e, u) == ecs_read(pre, e, u),
            decreases n - k,
        {
            let tk = TypeKey::new(types[k]);
            proof {
                assert(types@.contains(types@[k as int]));
                assert(self.ownership_part().owns(id, tk.id));
            }
            let er = self.ecempty(id, tk);
            proof {
                assert(er is Ok);
                assert forall|j: int|
                    0 <= j < k + 1 implies !self.ownership_part().owns(
                    id,
                    (#[trigger] types@[j]),
                ) by {
                    if j < k {
                        if types@[j] == tk.id {
                            assert(types@[j] != types@[k as int]);
                            assert(false);
                        }
                    }
                }
            }
            k = k + 1;
        }
        let ghost mid = *self;
        let fr = self.cownership.remove_entry(&handle);
        proof {
            assert(fr is Ok);
            let post = *self;
            let co1 = post.ownership_part();
            let com = mid.ownership_part();
            let cm1 = post.manager_part();
            co1.lemma_owns_entity();
            com.lemma_owns_entity();
            // `id` owned nothing by now, so forgetting it only drops a
            // record; the surjectivity witnesses all differ from `id`.
            assert forall|u: u64| !com.owns(id, u) by {
                if com.owns(id, u) {
                    assert(types@.contains(u));
                    let j = choose|j: int| 0 <= j < n && types@[j] == u;
                    assert(!com.owns(id, types@[j]));
                }
            }
            assert forall|e: u64, u: u64| #[trigger] co1.owns(e, u) implies cm1.has_slab(u)
                && cm1.packed(u).contains(co1.index_of(e, u)) by {
                assert(e != id);
                assert(com.owns(e, u) && com.index_of(e, u) == co1.index_of(e, u));
            }
            assert forall|e1: u64, e2: u64, u: u64|
                #[trigger] co1.owns(e1, u) && #[trigger] co1.owns(e2, u) && co1.index_of(e1, u)
                    == co1.index_of(e2, u) implies e1 == e2 by {
                assert(com.owns(e1, u) && com.owns(e2, u));
                assert(com.index_of(e1, u) == co1.index_of(e1, u));
                assert(com.index_of(e2, u) == co1.index_of(e2, u));
            }
            assert forall|u: u64, y: usize|
                cm1.has_packed(u) && #[trigger] cm1.packed(u).contains(y) implies exists|e: u64|
                #[trigger] co1.owns(e, u) && co1.index_of(e, u) == y by {
                let e2 = choose|e2: u64| #[trigger] com.owns(e2, u) && com.index_of(e2, u) == y;
                assert(e2 != id);
                assert(co1.owns(e2, u) && co1.index_of(e2, u) == y);
            }
            assert forall|e: u64, u: u64| e != id implies ecs_read(post, e, u) == ecs_read(
                pre,
                e,
                u,
            ) by {
                assert(ecs_read(mid, e, u) == ecs_read(pre, e, u));
                if com.owns(e, u) {
                    assert(co1.owns(e, u) && co1.index_of(e, u) == com.index_of(e, u));
                }
            }
        }
        Result::Ok(())
    }
}

} // verus!
