//! Per-type slabs of cells.
//!
//! `Storage` maps each type key to a contiguous slab of cells. A slab grows
//! on demand when a value is placed past its end; emptying a cell never
//! shrinks the slab (only `resize`, run by the compactor, does). The slab
//! length is the physical footprint: `capacity` in the sense of the store's
//! invariants. The count of occupied cells is booked elsewhere (lengths
//! table, packed set).

use vstd::prelude::*;

use crate::ErrEcs;
use crate::keys::{Cell, TypeKey};
use crate::type_map::TypeMap;

verus! {

pub struct Storage<V> {
    stored: TypeMap<Vec<Cell<V>>>,
}

impl<V> Storage<V> {
    pub closed spec fn wf(self) -> bool {
        self.stored.wf()
    }

    /// Whether a slab exists for type token `t`.
    pub closed spec fn has(self, t: u64) -> bool {
        self.stored@.dom().contains(t)
    }

    /// The cells of the slab for type token `t`.
    pub closed spec fn slab(self, t: u64) -> Seq<Cell<V>> {
        self.stored@[t]@
    }

    pub fn new() -> (r: Storage<V>)
        ensures
            r.wf(),
            forall|t: u64| !r.has(t),
    {
        Storage { stored: TypeMap::new() }
    }

    /// Whether a slab exists for this type yet.
    pub fn knows_type(&self, key: TypeKey) -> (r: bool)
        requires
            self.wf(),
        ensures
            r == self.has(key.id),
    {
        self.stored.contains_key(key.id)
    }

    /// Exchanges the cells at `i` and `j` of one slab, whatever their
    /// states.
    pub fn swap(&mut self, key: TypeKey, i: usize, j: usize)
        requires
            old(self).wf(),
            old(self).has(key.id),
            i < old(self).slab(key.id).len(),
            j < old(self).slab(key.id).len(),
        ensures
            final(self).wf(),
            final(self).slab(key.id) == old(self).slab(key.id).update(
                i as int,
                old(self).slab(key.id)[j as int],
            ).update(j as int, old(self).slab(key.id)[i as int]),
            forall|t: u64| final(self).has(t) == old(self).has(t),
            forall|t: u64| t != key.id ==> final(self).slab(t) == old(self).slab(t),
    {
        self.swap_by_id(&key, i, j)
    }

    pub fn swap_by_id(&mut self, key: &TypeKey, i: usize, j: usize)
        requires
            old(self).wf(),
            old(self).has(key.id),
            i < old(self).slab(key.id).len(),
            j < old(self).slab(key.id).len(),
        ensures
            final(self).wf(),
            final(self).slab(key.id) == old(self).slab(key.id).update(
                i as int,
                old(self).slab(key.id)[j as int],
            ).update(j as int, old(self).slab(key.id)[i as int]),
            forall|t: u64| final(self).has(t) == old(self).has(t),
            forall|t: u64| t != key.id ==> final(self).slab(t) == old(self).slab(t),
    {
        let ghost s0 = self.slab(key.id);
        if i == j {
            proof {
                assert(s0.update(i as int, s0[j as int]).update(j as int, s0[i as int]) =~= s0);
            }
            return;
        }
        let mut slab: Vec<Cell<V>> = Vec::new();
        self.stored.swap_value(key.id, &mut slab);
        let mut tmp: Cell<V> = Cell::Empty;
        slab.set_and_swap(i, &mut tmp);
        slab.set_and_swap(j, &mut tmp);
        slab.set_and_swap(i, &mut tmp);
        self.stored.swap_value(key.id, &mut slab);
        proof {
            assert(final(self).slab(key.id) =~= s0.update(i as int, s0[j as int]).update(
                j as int,
                s0[i as int],
            ));
        }
    }

    /// The physical length of the slab: how many cells are allocated,
    /// occupied or not.
    pub fn capacity(&self, key: TypeKey) -> (r: usize)
        requires
            self.wf(),
            self.has(key.id),
        ensures
            r == self.slab(key.id).len(),
    {
        self.capacity_by_id(&key)
    }

    pub fn capacity_by_id(&self, key: &TypeKey) -> (r: usize)
        requires
            self.wf(),
            self.has(key.id),
        ensures
            r == self.slab(key.id).len(),
    {
        match self.stored.get(key.id) {
            Option::Some(slab) => slab.len(),
            Option::None => {
                proof {
                    assert(false);
                }
                0
            },
        }
    }

    /// The slab length again: emptying a cell keeps its allocation, so the
    /// slab never has spare cells beyond its length.
    pub fn len(&self, key: TypeKey) -> (r: usize)
        requires
            self.wf(),
            self.has(key.id),
        ensures
            r == self.slab(key.id).len(),
    {
        self.len_by_id(&key)
    }

    pub fn len_by_id(&self, key: &TypeKey) -> (r: usize)
        requires
            self.wf(),
            self.has(key.id),
        ensures
            r == self.slab(key.id).len(),
    {
        self.capacity_by_id(key)
    }

    /// A borrow of the value at cell `i`.
    pub fn get(&self, key: TypeKey, i: usize) -> (r: Result<&V, ErrEcs>)
        requires
            self.wf(),
        ensures
            match r {
                Result::Ok(v) => {
                    &&& self.has(key.id)
                    &&& i < self.slab(key.id).len()
                    &&& self.slab(key.id)[i as int] == Cell::Occupied(*v)
                },
                Result::Err(e) => {
                    &&& e == (if !self.has(key.id) {
                        ErrEcs::NotFound
                    } else if i >= self.slab(key.id).len() {
                        ErrEcs::OutOfBounds
                    } else {
                        ErrEcs::Empty
                    })
                    &&& (self.has(key.id) && i < self.slab(key.id).len() ==> !self.slab(
                        key.id,
                    )[i as int].is_occupied())
                },
            },
    {
        match self.stored.get(key.id) {
            Option::None => Result::Err(ErrEcs::NotFound),
            Option::Some(slab) => {
                if i >= slab.len() {
                    Result::Err(ErrEcs::OutOfBounds)
                } else {
                    match &slab[i] {
                        Cell::Occupied(v) => Result::Ok(v),
                        Cell::Empty => Result::Err(ErrEcs::Empty),
                    }
                }
            },
        }
    }

    /// Places `comp` at cell `i`, creating the slab on first use and
    /// growing it with empty cells when `i` lies past the end.
    pub fn insert(&mut self, key: TypeKey, i: usize, comp: V)
        requires
            old(self).wf(),
            i < usize::MAX,
        ensures
            final(self).wf(),
            final(self).has(key.id),
            final(self).slab(key.id).len() == if old(self).has(key.id) && old(self).slab(
                key.id,
            ).len() > i {
                old(self).slab(key.id).len() as int
            } else {
                i + 1
            },
            final(self).slab(key.id)[i as int] == Cell::Occupied(comp),
            forall|j: int|
                0 <= j < final(self).slab(key.id).len() && j != i ==> final(self).slab(
                    key.id,
                )[j] == (if old(self).has(key.id) && j < old(self).slab(key.id).len() {
                    old(self).slab(key.id)[j]
                } else {
                    Cell::Empty
                }),
            forall|t: u64| t != key.id ==> final(self).has(t) == old(self).has(t),
            forall|t: u64| t != key.id ==> final(self).slab(t) == old(self).slab(t),
    {
        let ghost s0 = self.slab(key.id);
        let ghost had = self.has(key.id);
        let mut slab: Vec<Cell<V>> = Vec::new();
        if self.stored.contains_key(key.id) {
            self.stored.swap_value(key.id, &mut slab);
        }
        if slab.len() <= i {
            // Grow with empty cells so that position `i` exists.
            while slab.len() < i + 1
                invariant
                    slab@.len() <= i + 1,
                    i < usize::MAX,
                    slab@.len() >= (if had {
                        s0.len() as int
                    } else {
                        0int
                    }),
                    forall|j: int|
                        0 <= j < slab@.len() ==> slab@[j] == (if had && j < s0.len() {
                            s0[j]
                        } else {
                            Cell::<V>::Empty
                        }),
                decreases i + 1 - slab@.len(),
            {
                slab.push(Cell::Empty);
            }
        }
        slab.set(i, Cell::Occupied(comp));
        self.stored.insert(key.id, slab);
    }

    /// Empties cell `i`, releasing the stored value while keeping the slot
    /// allocated. Idempotent on cells that are already empty.
    pub fn remove(&mut self, key: TypeKey, i: usize) -> (r: Result<(), ErrEcs>)
        requires
            old(self).wf(),
        ensures
            final(self).wf(),
            match r {
                Result::Ok(()) => {
                    &&& old(self).has(key.id)
                    &&& i < old(self).slab(key.id).len()
                    &&& final(self).slab(key.id) == old(self).slab(key.id).update(
                        i as int,
                        Cell::<V>::Empty,
                    )
                    &&& forall|t: u64| final(self).has(t) == old(self).has(t)
                    &&& forall|t: u64| t != key.id ==> final(self).slab(t) == old(self).slab(t)
                },
                Result::Err(e) => {
                    &&& e == (if !old(self).has(key.id) {
                        ErrEcs::NotFound
                    } else {
                        ErrEcs::OutOfBounds
                    })
                    &&& (old(self).has(key.id) ==> i >= old(self).slab(key.id).len())
                    &&& *final(self) == *old(self)
                },
            },
    {
        self.remove_by_id(&key, i)
    }

    pub fn remove_by_id(&mut self, key: &TypeKey, i: usize) -> (r: Result<(), ErrEcs>)
        requires
            old(self).wf(),
        ensures
            final(self).wf(),
            match r {
                Result::Ok(()) => {
                    &&& old(self).has(key.id)
                    &&& i < old(self).slab(key.id).len()
                    &&& final(self).slab(key.id) == old(self).slab(key.id).update(
                        i as int,
                        Cell::<V>::Empty,
                    )
                    &&& forall|t: u64| final(self).has(t) == old(self).has(t)
                    &&& forall|t: u64| t != key.id ==> final(self).slab(t) == old(self).slab(t)
                },
                Result::Err(e) => {
                    &&& e == (if !old(self).has(key.id) {
                        ErrEcs::NotFound
                    } else {
                        ErrEcs::OutOfBounds
                    })
                    &&& (old(self).has(key.id) ==> i >= old(self).slab(key.id).len())
                    &&& *final(self) == *old(self)
                },
            },
    {
        let n = match self.stored.get(key.id) {
            Option::None => {
                return Result::Err(ErrEcs::NotFound);
            },
            Option::Some(slab) => slab.len(),
        };
        if i >= n {
            return Result::Err(ErrEcs::OutOfBounds);
        }
        let mut slab: Vec<Cell<V>> = Vec::new();
        self.stored.swap_value(key.id, &mut slab);
        slab.set(i, Cell::Empty);
        self.stored.swap_value(key.id, &mut slab);
        Result::Ok(())
    }

    /// Overwrites cell `i` with a fresh value; fails when the cell lies
    /// beyond the slab.
    pub fn set(&mut self, key: TypeKey, i: usize, comp: V) -> (r: Result<(), ErrEcs>)
        requires
            old(self).wf(),
        ensures
            final(self).wf(),
            match r {
                Result::Ok(()) => {
                    &&& old(self).has(key.id)
                    &&& i < old(self).slab(key.id).len()
                    &&& final(self).slab(key.id) == old(self).slab(key.id).update(
                        i as int,
                        Cell::Occupied(comp),
                    )
                    &&& forall|t: u64| final(self).has(t) == old(self).has(t)
                    &&& forall|t: u64| t != key.id ==> final(self).slab(t) == old(self).slab(t)
                },
                Result::Err(e) => {
                    &&& e == (if !old(self).has(key.id) {
                        ErrEcs::NotFound
                    } else {
                        ErrEcs::OutOfBounds
                    })
                    &&& (old(self).has(key.id) ==> i >= old(self).slab(key.id).len())
                    &&& *final(self) == *old(self)
                },
            },
    {
        let n = match self.stored.get(key.id) {
            Option::None => {
                return Result::Err(ErrEcs::NotFound);
            },
            Option::Some(slab) => slab.len(),
        };
        if i >= n {
            return Result::Err(ErrEcs::OutOfBounds);
        }
        let mut slab: Vec<Cell<V>> = Vec::new();
        self.stored.swap_value(key.id, &mut slab);
        slab.set(i, Cell::Occupied(comp));
        self.stored.swap_value(key.id, &mut slab);
        Result::Ok(())
    }

    /// Applies `f` to the value at cell `i`, in place. The function must
    /// accept every value, since the store cannot know what the cell holds.
    pub fn modify<F: FnOnce(V) -> V>(&mut self, key: TypeKey, i: usize, f: F) -> (r: Result<
        (),
        ErrEcs,
    >)
        requires
            old(self).wf(),
            forall|v: V| call_requires(f, (v,)),
        ensures
            final(self).wf(),
            match r {
                Result::Ok(()) => {
                    &&& old(self).has(key.id)
                    &&& i < old(self).slab(key.id).len()
                    &&& old(self).slab(key.id)[i as int] is Occupied
                    &&& exists|w: V|
                        call_ensures(f, (old(self).slab(key.id)[i as int].value(),), w)
                            && final(self).slab(key.id) == old(self).slab(key.id).update(
                            i as int,
                            Cell::Occupied(w),
                        )
                    &&& forall|t: u64| final(self).has(t) == old(self).has(t)
                    &&& forall|t: u64| t != key.id ==> final(self).slab(t) == old(self).slab(t)
                },
                Result::Err(e) => {
                    &&& e == (if !old(self).has(key.id) {
                        ErrEcs::NotFound
                    } else if i >= old(self).slab(key.id).len() {
                        ErrEcs::OutOfBounds
                    } else {
                        ErrEcs::Empty
                    })
                    &&& (old(self).has(key.id) && i < old(self).slab(key.id).len() ==> !old(
                        self,
                    ).slab(key.id)[i as int].is_occupied())
                    &&& *final(self) == *old(self)
                },
            },
    {
        let occupied = match self.get(key, i) {
            Result::Err(e) => {
                return Result::Err(e);
            },
            Result::Ok(_) => true,
        };
        let ghost s0 = self.slab(key.id);
        let mut slab: Vec<Cell<V>> = Vec::new();
        self.stored.swap_value(key.id, &mut slab);
        let mut tmp: Cell<V> = Cell::Empty;
        slab.set_and_swap(i, &mut tmp);
        match tmp {
            Cell::Occupied(v) => {
                let w = f(v);
                let mut back = Cell::Occupied(w);
                slab.set_and_swap(i, &mut back);
                self.stored.swap_value(key.id, &mut slab);
                proof {
                    assert(final(self).slab(key.id) =~= s0.update(
                        i as int,
                        final(self).slab(key.id)[i as int],
                    ));
                }
                Result::Ok(())
            },
            Cell::Empty => {
                proof {
                    assert(false);
                }
                Result::Err(ErrEcs::Empty)
            },
        }
    }

    /// Sets the slab to exactly `new_size` cells: past cells are dropped,
    /// missing cells are appended empty.
    pub fn resize(&mut self, key: TypeKey, new_size: usize) -> (r: Result<(), ErrEcs>)
        requires
            old(self).wf(),
        ensures
            final(self).wf(),
            match r {
                Result::Ok(()) => {
                    &&& old(self).has(key.id)
                    &&& final(self).slab(key.id).len() == new_size
                    &&& forall|j: int|
                        0 <= j < new_size ==> final(self).slab(key.id)[j] == (if j < old(
                            self,
                        ).slab(key.id).len() {
                            old(self).slab(key.id)[j]
                        } else {
                            Cell::<V>::Empty
                        })
                    &&& forall|t: u64| final(self).has(t) == old(self).has(t)
                    &&& forall|t: u64| t != key.id ==> final(self).slab(t) == old(self).slab(t)
                },
                Result::Err(e) => {
                    &&& e == ErrEcs::NotFound
                    &&& !old(self).has(key.id)
                    &&& *final(self) == *old(self)
                },
            },
    {
        if !self.stored.contains_key(key.id) {
            return Result::Err(ErrEcs::NotFound);
        }
        let ghost s0 = self.slab(key.id);
        let mut slab: Vec<Cell<V>> = Vec::new();
        self.stored.swap_value(key.id, &mut slab);
        slab.truncate(new_size);
        while slab.len() < new_size
            invariant
                slab@.len() <= new_size,
                slab@.len() < new_size ==> slab@.len() >= s0.len(),
                forall|j: int|
                    0 <= j < slab@.len() ==> slab@[j] == (if j < s0.len() {
                        s0[j]
                    } else {
                        Cell::<V>::Empty
                    }),
            decreases new_size - slab@.len(),
        {
            slab.push(Cell::Empty);
        }
        self.stored.swap_value(key.id, &mut slab);
        Result::Ok(())
    }
}

} // verus!
