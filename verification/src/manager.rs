//! The per-type component manager: storage, packed sets, and the index
//! allocator.
//!
//! For each type key the manager books a free entry: the recyclable indices
//! in ascending order and the high-water mark `next_free`. Allocation pops
//! the smallest recycled index when one exists, else takes `next_free` and
//! advances it; this smallest-first discipline is what lets the compactor
//! left-pack a slab.

use vstd::prelude::*;

use crate::ErrEcs;
use crate::keys::{Cell, TypeKey};
use crate::packer::Packer;
use crate::sorted_set::{SortedSet, is_sorted_strict};
use crate::storage::Storage;
use crate::type_map::TypeMap;

verus! {

/// The allocator's record for one type key.
pub struct FreeEntry {
    /// The smallest index never yet handed out.
    pub next_free: usize,
    /// Recycled indices, ascending.
    pub free_q: SortedSet,
}

/// The three per-type structures, one table each.
pub struct Components<V> {
    storage: Storage<V>,
    packer: Packer,
    free: TypeMap<FreeEntry>,
}

pub struct CManager<V> {
    components: Components<V>,
}

impl<V> CManager<V> {
    pub closed spec fn wf(self) -> bool {
        &&& self.components.storage.wf()
        &&& self.components.packer.wf()
        &&& self.components.free.wf()
        &&& forall|t: u64|
            self.components.free@.dom().contains(t) ==> (
            #[trigger] self.components.free@[t]).free_q.wf()
    }

    pub closed spec fn has_slab(self, t: u64) -> bool {
        self.components.storage.has(t)
    }

    pub closed spec fn slab(self, t: u64) -> Seq<Cell<V>> {
        self.components.storage.slab(t)
    }

    pub closed spec fn has_packed(self, t: u64) -> bool {
        self.components.packer.has(t)
    }

    pub closed spec fn packed(self, t: u64) -> Seq<usize> {
        self.components.packer.set_of(t)
    }

    pub closed spec fn has_free(self, t: u64) -> bool {
        self.components.free@.dom().contains(t)
    }

    pub closed spec fn free_q(self, t: u64) -> Seq<usize> {
        self.components.free@[t].free_q@
    }

    pub closed spec fn next_free(self, t: u64) -> usize {
        self.components.free@[t].next_free
    }

    /// The index the allocator would hand out next for `t`.
    pub open spec fn alloc_choice(self, t: u64) -> int {
        if self.has_free(t) && self.free_q(t).len() > 0 {
            self.free_q(t)[0] as int
        } else if self.has_free(t) {
            self.next_free(t) as int
        } else {
            0
        }
    }

    /// Allocation must not run the high-water mark past `usize`.
    pub open spec fn alloc_ok(self, t: u64) -> bool {
        self.alloc_choice(t) < usize::MAX
    }

    /// The packed and free sequences are kept strictly sorted.
    pub proof fn lemma_sorted(self, t: u64)
        requires
            self.wf(),
        ensures
            self.has_packed(t) ==> is_sorted_strict(self.packed(t)),
            self.has_free(t) ==> is_sorted_strict(self.free_q(t)),
    {
        if self.has_packed(t) {
            self.components.packer.lemma_sorted(t);
        }
    }

    pub fn new() -> (r: CManager<V>)
        ensures
            r.wf(),
            forall|t: u64| !r.has_slab(t),
            forall|t: u64| !r.has_packed(t),
            forall|t: u64| !r.has_free(t),
    {
        CManager {
            components: Components {
                storage: Storage::new(),
                packer: Packer::new(),
                free: TypeMap::new(),
            },
        }
    }

    /// Sets a slab to exactly `new_size` cells; see `Storage::resize`.
    pub fn cresize(&mut self, key: TypeKey, new_size: usize) -> (r: Result<(), ErrEcs>)
        requires
            old(self).wf(),
        ensures
            final(self).wf(),
            packer_unchanged(*old(self), *final(self)),
            free_unchanged(*old(self), *final(self)),
            match r {
                Result::Ok(()) => {
                    &&& old(self).has_slab(key.id)
                    &&& final(self).slab(key.id).len() == new_size
                    &&& forall|j: int|
                        0 <= j < new_size ==> final(self).slab(key.id)[j] == (if j < old(
                            self,
                        ).slab(key.id).len() {
                            old(self).slab(key.id)[j]
                        } else {
                            Cell::<V>::Empty
                        })
                    &&& forall|t: u64| final(self).has_slab(t) == old(self).has_slab(t)
                    &&& forall|t: u64|
                        t != key.id ==> final(self).slab(t) == old(self).slab(t)
                },
                Result::Err(e) => {
                    &&& e == ErrEcs::NotFound
                    &&& !old(self).has_slab(key.id)
                    &&& *final(self) == *old(self)
                },
            },
    {
        self.components.storage.resize(key, new_size)
    }

    /// A borrow of the component of this type at index `i`.
    pub fn cget(&self, key: TypeKey, i: usize) -> (r: Result<&V, ErrEcs>)
        requires
            self.wf(),
        ensures
            match r {
                Result::Ok(v) => {
                    &&& self.has_slab(key.id)
                    &&& i < self.slab(key.id).len()
                    &&& self.slab(key.id)[i as int] == Cell::Occupied(*v)
                },
                Result::Err(e) => {
                    &&& e == (if !self.has_slab(key.id) {
                        ErrEcs::NotFound
                    } else if i >= self.slab(key.id).len() {
                        ErrEcs::OutOfBounds
                    } else {
                        ErrEcs::Empty
                    })
                    &&& (self.has_slab(key.id) && i < self.slab(key.id).len() ==> !self.slab(
                        key.id,
                    )[i as int].is_occupied())
                },
            },
    {
        self.components.storage.get(key, i)
    }

    /// Overwrites the component of this type at index `i`.
    pub fn cset(&mut self, key: TypeKey, i: usize, comp: V) -> (r: Result<(), ErrEcs>)
        requires
            old(self).wf(),
        ensures
            final(self).wf(),
            packer_unchanged(*old(self), *final(self)),
            free_unchanged(*old(self), *final(self)),
            match r {
                Result::Ok(()) => {
                    &&& old(self).has_slab(key.id)
                    &&& i < old(self).slab(key.id).len()
                    &&& final(self).slab(key.id) == old(self).slab(key.id).update(
                        i as int,
                        Cell::Occupied(comp),
                    )
                    &&& forall|t: u64| final(self).has_slab(t) == old(self).has_slab(t)
                    &&& forall|t: u64|
                        t != key.id ==> final(self).slab(t) == old(self).slab(t)
                },
                Result::Err(e) => {
                    &&& e == (if !old(self).has_slab(key.id) {
                        ErrEcs::NotFound
                    } else {
                        ErrEcs::OutOfBounds
                    })
                    &&& (old(self).has_slab(key.id) ==> i >= old(self).slab(key.id).len())
                    &&& *final(self) == *old(self)
                },
            },
    {
        self.components.storage.set(key, i, comp)
    }

    /// Allocates an index, places `comp` there, and marks it packed.
    /// Returns the index used.
    pub fn cinsert(&mut self, key: TypeKey, comp: V) -> (r: usize)
        requires
            old(self).wf(),
            old(self).alloc_ok(key.id),
        ensures
            final(self).wf(),
            r == old(self).alloc_choice(key.id),
            alloc_free_post(*old(self), *final(self), key.id, r),
            // The slab afterwards.
            final(self).has_slab(key.id),
            final(self).slab(key.id).len() == if old(self).has_slab(key.id) && old(self).slab(
                key.id,
            ).len() > r {
                old(self).slab(key.id).len() as int
            } else {
                r + 1
            },
            final(self).slab(key.id)[r as int] == Cell::Occupied(comp),
            forall|j: int|
                0 <= j < final(self).slab(key.id).len() && j != r ==> final(self).slab(
                    key.id,
                )[j] == (if old(self).has_slab(key.id) && j < old(self).slab(key.id).len() {
                    old(self).slab(key.id)[j]
                } else {
                    Cell::Empty
                }),
            forall|t: u64| t != key.id ==> final(self).has_slab(t) == old(self).has_slab(t),
            forall|t: u64| t != key.id ==> final(self).slab(t) == old(self).slab(t),
            // The packed set afterwards.
            cm_pack_post(*old(self), *final(self), key.id, r),
    {
        let i = self.find_available_index(key);
        self.components.storage.insert(key, i, comp);
        self.components.packer.pack(key, i);
        i
    }

    /// Exchanges the cell at `i` with the cell at the next allocatable
    /// index `j`, marks `i` recyclable, and returns `j`. The caller must
    /// rebind whatever owned `i` and repair the packed set: this routine
    /// touches only the slab and the free entry.
    pub fn unsafe_swap_with_free(&mut self, key: TypeKey, i: usize) -> (r: usize)
        requires
            old(self).wf(),
            old(self).has_free(key.id),
            old(self).has_slab(key.id),
            old(self).alloc_ok(key.id),
            i < old(self).slab(key.id).len(),
            old(self).alloc_choice(key.id) < old(self).slab(key.id).len(),
        ensures
            final(self).wf(),
            r == old(self).alloc_choice(key.id),
            r < old(self).slab(key.id).len(),
            packer_unchanged(*old(self), *final(self)),
            // The slab after the swap.
            forall|t: u64| final(self).has_slab(t) == old(self).has_slab(t),
            forall|t: u64| t != key.id ==> final(self).slab(t) == old(self).slab(t),
            final(self).slab(key.id) == old(self).slab(key.id).update(
                i as int,
                old(self).slab(key.id)[r as int],
            ).update(r as int, old(self).slab(key.id)[i as int]),
            // The free entry: `r` left, `i` entered.
            forall|t: u64| final(self).has_free(t) == old(self).has_free(t),
            forall|t: u64|
                t != key.id && old(self).has_free(t) ==> final(self).free_q(t) == old(
                    self,
                ).free_q(t) && final(self).next_free(t) == old(self).next_free(t),
            forall|y: usize|
                final(self).free_q(key.id).contains(y) <==> ((old(self).free_q(
                    key.id,
                ).contains(y) && y != r) || y == i),
            final(self).next_free(key.id) == if old(self).free_q(key.id).len() > 0 {
                old(self).next_free(key.id) as int
            } else {
                old(self).next_free(key.id) + 1
            },
    {
        let j = self.find_available_index(key);
        self.components.storage.swap(key, i, j);
        let mut entry = FreeEntry { next_free: 0, free_q: SortedSet::new() };
        self.components.free.swap_value(key.id, &mut entry);
        entry.free_q.insert(i);
        self.components.free.insert(key.id, entry);
        j
    }

    /// Resets the free entry after compaction: nothing recyclable, the
    /// high-water mark at `to` (the live count).
    pub fn reset_free(&mut self, key: TypeKey, to: usize) -> (r: Result<(), ErrEcs>)
        requires
            old(self).wf(),
        ensures
            final(self).wf(),
            storage_unchanged(*old(self), *final(self)),
            packer_unchanged(*old(self), *final(self)),
            match r {
                Result::Ok(()) => {
                    &&& old(self).has_free(key.id)
                    &&& forall|t: u64| final(self).has_free(t) == old(self).has_free(t)
                    &&& forall|t: u64|
                        t != key.id && old(self).has_free(t) ==> final(self).free_q(t) == old(
                            self,
                        ).free_q(t) && final(self).next_free(t) == old(self).next_free(t)
                    &&& final(self).free_q(key.id) == Seq::<usize>::empty()
                    &&& final(self).next_free(key.id) == to
                },
                Result::Err(e) => {
                    &&& e == ErrEcs::NotFound
                    &&& !old(self).has_free(key.id)
                    &&& *final(self) == *old(self)
                },
            },
    {
        if !self.components.free.contains_key(key.id) {
            return Result::Err(ErrEcs::NotFound);
        }
        self.components.free.insert(
            key.id,
            FreeEntry { next_free: to, free_q: SortedSet::new() },
        );
        Result::Ok(())
    }

    /// The physical length of this type's slab.
    pub fn capacity(&self, key: TypeKey) -> (r: usize)
        requires
            self.wf(),
            self.has_slab(key.id),
        ensures
            r == self.slab(key.id).len(),
    {
        self.components.storage.capacity(key)
    }

    /// The slab length; occupied counts are read from the packed set.
    pub fn len(&self, key: TypeKey) -> (r: usize)
        requires
            self.wf(),
            self.has_slab(key.id),
        ensures
            r == self.slab(key.id).len(),
    {
        self.components.storage.len(key)
    }

    /// How many indices of this type are packed.
    pub fn plen(&self, key: TypeKey) -> (r: usize)
        requires
            self.wf(),
            self.has_packed(key.id),
        ensures
            r == self.packed(key.id).len(),
    {
        self.components.packer.len(key)
    }

    pub fn pcapacity(&self, key: TypeKey) -> (r: usize)
        requires
            self.wf(),
            self.has_packed(key.id),
        ensures
            r == self.packed(key.id).len(),
    {
        self.components.packer.capacity(key)
    }

    /// A snapshot of this type's live indices, ascending.
    pub fn iter_packed(&self, key: TypeKey) -> (r: Vec<usize>)
        requires
            self.wf(),
            self.has_packed(key.id),
        ensures
            r@ == self.packed(key.id),
    {
        self.components.packer.iter_packed(key)
    }

    /// Applies `f` to the component of this type at index `i`, in place.
    pub fn cmodify<F: FnOnce(V) -> V>(&mut self, key: TypeKey, i: usize, f: F) -> (r: Result<
        (),
        ErrEcs,
    >)
        requires
            old(self).wf(),
            forall|v: V| call_requires(f, (v,)),
        ensures
            final(self).wf(),
            packer_unchanged(*old(self), *final(self)),
            free_unchanged(*old(self), *final(self)),
            match r {
                Result::Ok(()) => {
                    &&& old(self).has_slab(key.id)
                    &&& i < old(self).slab(key.id).len()
                    &&& old(self).slab(key.id)[i as int] is Occupied
                    &&& exists|w: V|
                        call_ensures(f, (old(self).slab(key.id)[i as int].value(),), w)
                            && final(self).slab(key.id) == old(self).slab(key.id).update(
                            i as int,
                            Cell::Occupied(w),
                        )
                    &&& forall|t: u64| final(self).has_slab(t) == old(self).has_slab(t)
                    &&& forall|t: u64|
                        t != key.id ==> final(self).slab(t) == old(self).slab(t)
                },
                Result::Err(e) => {
                    &&& e == (if !old(self).has_slab(key.id) {
                        ErrEcs::NotFound
                    } else if i >= old(self).slab(key.id).len() {
                        ErrEcs::OutOfBounds
                    } else {
                        ErrEcs::Empty
                    })
                    &&& (old(self).has_slab(key.id) && i < old(self).slab(key.id).len()
                        ==> !old(self).slab(key.id)[i as int].is_occupied())
                    &&& *final(self) == *old(self)
                },
            },
    {
        self.components.storage.modify(key, i, f)
    }

    /// Whether this type has a slab yet.
    pub fn knows_type(&self, key: TypeKey) -> (r: bool)
        requires
            self.wf(),
        ensures
            r == self.has_slab(key.id),
    {
        self.components.storage.knows_type(key)
    }

    /// Empties the cell at `i`, unpacks the index, and marks it
    /// recyclable. Nothing is mutated on failure.
    pub fn cremove(&mut self, key: TypeKey, i: usize) -> (r: Result<(), ErrEcs>)
        requires
            old(self).wf(),
        ensures
            final(self).wf(),
            cremove_post(*old(self), *final(self), key.id, i, r),
    {
        self.cremove_by_id(&key, i)
    }

    pub fn cremove_by_id(&mut self, key: &TypeKey, i: usize) -> (r: Result<(), ErrEcs>)
        requires
            old(self).wf(),
        ensures
            final(self).wf(),
            cremove_post(*old(self), *final(self), key.id, i, r),
    {
        if !self.components.packer.knows_type(key) {
            return Result::Err(ErrEcs::NotFound);
        }
        match self.components.storage.remove_by_id(key, i) {
            Result::Err(e) => Result::Err(e),
            Result::Ok(()) => {
                let unpacked = self.components.packer.unpack_by_id(key, i);
                proof {
                    assert(unpacked is Ok);
                }
                self.free_index_by_id(key, i);
                Result::Ok(())
            },
        }
    }

    /// Marks index `i` of this type live.
    pub fn pack(&mut self, key: TypeKey, i: usize)
        requires
            old(self).wf(),
        ensures
            final(self).wf(),
            storage_unchanged(*old(self), *final(self)),
            free_unchanged(*old(self), *final(self)),
            cm_pack_post(*old(self), *final(self), key.id, i),
    {
        self.components.packer.pack(key, i);
    }

    /// Unmarks index `i` of this type.
    pub fn unpack(&mut self, key: TypeKey, i: usize) -> (r: Result<(), ErrEcs>)
        requires
            old(self).wf(),
        ensures
            final(self).wf(),
            storage_unchanged(*old(self), *final(self)),
            free_unchanged(*old(self), *final(self)),
            match r {
                Result::Ok(()) => old(self).has_packed(key.id) && cm_unpack_post(
                    *old(self),
                    *final(self),
                    key.id,
                    i,
                ),
                Result::Err(e) => {
                    &&& e == ErrEcs::NotFound
                    &&& !old(self).has_packed(key.id)
                    &&& *final(self) == *old(self)
                },
            },
    {
        self.components.packer.unpack(key, i)
    }

    /// Books `i` as recyclable, creating the free entry on first use.
    fn free_index_by_id(&mut self, key: &TypeKey, i: usize)
        requires
            old(self).wf(),
        ensures
            final(self).wf(),
            storage_unchanged(*old(self), *final(self)),
            packer_unchanged(*old(self), *final(self)),
            final(self).has_free(key.id),
            forall|t: u64| t != key.id ==> final(self).has_free(t) == old(self).has_free(t),
            forall|t: u64|
                t != key.id && old(self).has_free(t) ==> final(self).free_q(t) == old(
                    self,
                ).free_q(t) && final(self).next_free(t) == old(self).next_free(t),
            forall|y: usize|
                final(self).free_q(key.id).contains(y) <==> ((old(self).has_free(key.id)
                    && old(self).free_q(key.id).contains(y)) || y == i),
            final(self).free_q(key.id).len() == (if old(self).has_free(key.id) {
                old(self).free_q(key.id).len() as int
            } else {
                0int
            }) + (if old(self).has_free(key.id) && old(self).free_q(key.id).contains(i) {
                0int
            } else {
                1int
            }),
            final(self).next_free(key.id) == if old(self).has_free(key.id) {
                old(self).next_free(key.id)
            } else {
                0
            },
    {
        let mut entry = FreeEntry { next_free: 0, free_q: SortedSet::new() };
        if self.components.free.contains_key(key.id) {
            self.components.free.swap_value(key.id, &mut entry);
        }
        entry.free_q.insert(i);
        self.components.free.insert(key.id, entry);
    }

    /// The next index to hand out for this type.
    pub fn find_available_index(&mut self, key: TypeKey) -> (r: usize)
        requires
            old(self).wf(),
            old(self).alloc_ok(key.id),
        ensures
            final(self).wf(),
            r == old(self).alloc_choice(key.id),
            alloc_free_post(*old(self), *final(self), key.id, r),
            storage_unchanged(*old(self), *final(self)),
            packer_unchanged(*old(self), *final(self)),
    {
        self.find_available_free_index_by_id(&key)
    }

    /// Pops the smallest recycled index when one exists, else takes the
    /// high-water mark and advances it.
    pub fn find_available_free_index_by_id(&mut self, key: &TypeKey) -> (r: usize)
        requires
            old(self).wf(),
            old(self).alloc_ok(key.id),
        ensures
            final(self).wf(),
            r == old(self).alloc_choice(key.id),
            alloc_free_post(*old(self), *final(self), key.id, r),
            storage_unchanged(*old(self), *final(self)),
            packer_unchanged(*old(self), *final(self)),
    {
        let mut entry = FreeEntry { next_free: 0, free_q: SortedSet::new() };
        if self.components.free.contains_key(key.id) {
            self.components.free.swap_value(key.id, &mut entry);
        }
        let i: usize = match entry.free_q.first() {
            Option::Some(m) => {
                entry.free_q.remove(m);
                m
            },
            Option::None => {
                let n = entry.next_free;
                entry.next_free = n + 1;
                n
            },
        };
        self.components.free.insert(key.id, entry);
        i
    }
}

/// No slab changed.
pub open spec fn storage_unchanged<V>(pre: CManager<V>, post: CManager<V>) -> bool {
    &&& forall|t: u64| post.has_slab(t) == pre.has_slab(t)
    &&& forall|t: u64| post.slab(t) == pre.slab(t)
}

/// No packed set changed.
pub open spec fn packer_unchanged<V>(pre: CManager<V>, post: CManager<V>) -> bool {
    &&& forall|t: u64| post.has_packed(t) == pre.has_packed(t)
    &&& forall|t: u64| pre.has_packed(t) ==> post.packed(t) == pre.packed(t)
}

/// No free entry changed.
pub open spec fn free_unchanged<V>(pre: CManager<V>, post: CManager<V>) -> bool {
    &&& forall|t: u64| post.has_free(t) == pre.has_free(t)
    &&& forall|t: u64|
        pre.has_free(t) ==> post.free_q(t) == pre.free_q(t) && post.next_free(t)
            == pre.next_free(t)
}

/// After packing `i` under `t`: `i` is live there, all else untouched.
pub open spec fn cm_pack_post<V>(pre: CManager<V>, post: CManager<V>, t: u64, i: usize) -> bool {
    &&& post.has_packed(t)
    &&& forall|y: usize|
        post.packed(t).contains(y) <==> ((pre.has_packed(t) && pre.packed(t).contains(y)) || y
            == i)
    &&& post.packed(t).len() == (if pre.has_packed(t) {
        pre.packed(t).len() as int
    } else {
        0int
    }) + (if pre.has_packed(t) && pre.packed(t).contains(i) {
        0int
    } else {
        1int
    })
    &&& forall|u: u64| u != t ==> post.has_packed(u) == pre.has_packed(u)
    &&& forall|u: u64| u != t && pre.has_packed(u) ==> post.packed(u) == pre.packed(u)
}

/// After unpacking `i` under `t`: `i` is no longer live there, all else
/// untouched.
pub open spec fn cm_unpack_post<V>(pre: CManager<V>, post: CManager<V>, t: u64, i: usize) -> bool {
    &&& post.has_packed(t)
    &&& forall|y: usize| post.packed(t).contains(y) <==> (pre.packed(t).contains(y) && y != i)
    &&& post.packed(t).len() == pre.packed(t).len() - (if pre.packed(t).contains(i) {
        1int
    } else {
        0int
    })
    &&& forall|u: u64| u != t ==> post.has_packed(u) == pre.has_packed(u)
    &&& forall|u: u64| u != t && pre.has_packed(u) ==> post.packed(u) == pre.packed(u)
}

/// What allocation does to the free entry of `t`: the popped index leaves
/// the recycle queue, or the high-water mark advances.
pub open spec fn alloc_free_post<V>(pre: CManager<V>, post: CManager<V>, t: u64, r: usize) -> bool {
    &&& post.has_free(t)
    &&& forall|u: u64| u != t ==> post.has_free(u) == pre.has_free(u)
    &&& forall|u: u64|
        u != t && pre.has_free(u) ==> post.free_q(u) == pre.free_q(u) && post.next_free(u)
            == pre.next_free(u)
    &&& if pre.has_free(t) && pre.free_q(t).len() > 0 {
        &&& (forall|y: usize|
            post.free_q(t).contains(y) <==> (pre.free_q(t).contains(y) && y != r))
        &&& post.free_q(t).len() == pre.free_q(t).len() - 1
        &&& post.next_free(t) == pre.next_free(t)
    } else {
        &&& (forall|y: usize| !post.free_q(t).contains(y))
        &&& post.free_q(t).len() == 0
        &&& post.next_free(t) == r + 1
    }
}

/// What removing one component does: the cell empties, the index leaves
/// the packed set and joins the recycle queue. A failed removal reports
/// why and mutates nothing.
pub open spec fn cremove_post<V>(
    pre: CManager<V>,
    post: CManager<V>,
    t: u64,
    i: usize,
    r: Result<(), ErrEcs>,
) -> bool {
    match r {
        Result::Ok(()) => {
            &&& pre.has_packed(t)
            &&& pre.has_slab(t)
            &&& i < pre.slab(t).len()
            &&& forall|u: u64| post.has_slab(u) == pre.has_slab(u)
            &&& forall|u: u64| u != t ==> post.slab(u) == pre.slab(u)
            &&& post.slab(t) == pre.slab(t).update(i as int, Cell::<V>::Empty)
            &&& cm_unpack_post(pre, post, t, i)
            &&& post.has_free(t)
            &&& forall|u: u64| u != t ==> post.has_free(u) == pre.has_free(u)
            &&& forall|u: u64|
                u != t && pre.has_free(u) ==> post.free_q(u) == pre.free_q(u)
                    && post.next_free(u) == pre.next_free(u)
            &&& forall|y: usize|
                post.free_q(t).contains(y) <==> ((pre.has_free(t) && pre.free_q(t).contains(
                    y,
                )) || y == i)
            &&& post.next_free(t) == if pre.has_free(t) {
                pre.next_free(t)
            } else {
                0
            }
        },
        Result::Err(e) => {
            &&& e == (if !pre.has_packed(t) || !pre.has_slab(t) {
                ErrEcs::NotFound
            } else {
                ErrEcs::OutOfBounds
            })
            &&& (pre.has_packed(t) && pre.has_slab(t) ==> i >= pre.slab(t).len())
            &&& post == pre
        },
    }
}

} // verus!
