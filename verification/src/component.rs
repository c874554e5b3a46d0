//! Component operations over a storage, an index table, and a length table.
//!
//! The three structures travel together: per type key, the storage holds the
//! cells, the index table splits `[0, slab length)` into packed and free
//! indices, and the length table counts the occupied cells. `Component`'s
//! operations keep them in step; `component_inv` is the exact statement of
//! that step, and every operation here preserves it.

use vstd::prelude::*;

use crate::ErrEcs;
use crate::keys::{Cell, TypeKey};
use crate::sorted_set::SortedSet;
use crate::storage::Storage;
use crate::type_map::TypeMap;

verus! {

/// Per-type index bookkeeping: packed (live) and free (recyclable) indices.
pub struct Indices {
    packed: TypeMap<SortedSet>,
    free: TypeMap<SortedSet>,
}

impl Indices {
    pub closed spec fn wf(self) -> bool {
        &&& self.packed.wf()
        &&& self.free.wf()
        &&& forall|t: u64|
            self.packed@.dom().contains(t) ==> (#[trigger] self.packed@[t]).wf()
        &&& forall|t: u64| self.free@.dom().contains(t) ==> (#[trigger] self.free@[t]).wf()
        &&& forall|t: u64| self.packed@.dom().contains(t) == self.free@.dom().contains(t)
    }

    /// Whether this type has index bookkeeping yet.
    pub closed spec fn has(self, t: u64) -> bool {
        self.packed@.dom().contains(t)
    }

    /// The live indices of this type, ascending.
    pub closed spec fn packed_of(self, t: u64) -> Seq<usize> {
        self.packed@[t]@
    }

    /// The recyclable indices of this type, ascending.
    pub closed spec fn free_of(self, t: u64) -> Seq<usize> {
        self.free@[t]@
    }

    /// Both index sequences are kept strictly sorted; this exports that
    /// fact.
    pub proof fn lemma_sorted(self, t: u64)
        requires
            self.wf(),
            self.has(t),
        ensures
            crate::sorted_set::is_sorted_strict(self.packed_of(t)),
            crate::sorted_set::is_sorted_strict(self.free_of(t)),
    {
    }
}

/// An insertion never passes over a recyclable slot for a higher one: the
/// slot it would use lies at or below every free index of the type.
pub proof fn lemma_insert_choice_smallest(x: Indices, t: u64, i: usize)
    requires
        x.wf(),
        x.has(t),
        x.free_of(t).contains(i),
    ensures
        insert_choice(x, t) <= i,
{
    x.lemma_sorted(t);
    crate::sorted_set::lemma_sorted_min(x.free_of(t), i);
}

/// Per-type counts of occupied cells.
pub struct Lengths {
    counts: TypeMap<usize>,
}

impl Lengths {
    pub closed spec fn wf(self) -> bool {
        self.counts.wf()
    }

    pub closed spec fn has(self, t: u64) -> bool {
        self.counts@.dom().contains(t)
    }

    pub closed spec fn count(self, t: u64) -> usize {
        self.counts@[t]
    }
}

/// The joint invariant of a (storage, indices, lengths) triple. For each
/// known type: packed and free indices split the slab's positions exactly,
/// a cell is occupied precisely when its index is packed, and the recorded
/// length is the packed count.
pub open spec fn component_inv<V>(s: Storage<V>, x: Indices, l: Lengths) -> bool {
    &&& s.wf()
    &&& x.wf()
    &&& l.wf()
    &&& forall|t: u64| s.has(t) == x.has(t)
    &&& forall|t: u64| s.has(t) == l.has(t)
    &&& forall|t: u64|
        x.has(t) ==> s.slab(t).len() == (#[trigger] x.packed_of(t)).len() + x.free_of(t).len()
    &&& forall|t: u64, y: usize|
        x.has(t) && #[trigger] x.packed_of(t).contains(y) ==> y < s.slab(t).len()
    &&& forall|t: u64, y: usize|
        x.has(t) && #[trigger] x.free_of(t).contains(y) ==> y < s.slab(t).len()
    &&& forall|t: u64, y: usize|
        !(x.has(t) && #[trigger] x.packed_of(t).contains(y) && #[trigger] x.free_of(
            t,
        ).contains(y))
    &&& forall|t: u64, y: usize|
        x.has(t) && y < s.slab(t).len() ==> (#[trigger] x.packed_of(t).contains(y)
            || x.free_of(t).contains(y))
    &&& forall|t: u64, y: usize|
        x.has(t) && (y as int) < s.slab(t).len() ==> ((#[trigger] s.slab(t)[y as int]).is_occupied()
            <==> x.packed_of(t).contains(y))
    &&& forall|t: u64| #[trigger] x.has(t) ==> l.count(t) == x.packed_of(t).len()
}

/// The index an insertion of type `t` would use: the smallest free index,
/// else the occupied count, which under the invariant is the first index
/// past every packed and free one.
pub open spec fn insert_choice(x: Indices, t: u64) -> int {
    if x.has(t) && x.free_of(t).len() > 0 {
        x.free_of(t)[0] as int
    } else if x.has(t) {
        x.packed_of(t).len() as int
    } else {
        0
    }
}

/// Everything an insertion changes, and that it changes nothing else.
pub open spec fn cinsert_post<V>(
    s0: Storage<V>,
    x0: Indices,
    l0: Lengths,
    s1: Storage<V>,
    x1: Indices,
    l1: Lengths,
    t: u64,
    component: V,
    i: int,
) -> bool {
    &&& i == insert_choice(x0, t)
    &&& s1.has(t)
    &&& s1.slab(t).len() == (if s0.has(t) && s0.slab(t).len() > i {
        s0.slab(t).len() as int
    } else {
        i + 1
    })
    &&& s1.slab(t)[i] == Cell::Occupied(component)
    &&& forall|j: int|
        0 <= j < s1.slab(t).len() && j != i ==> s1.slab(t)[j] == (if s0.has(t) && j < s0.slab(
            t,
        ).len() {
            s0.slab(t)[j]
        } else {
            Cell::Empty
        })
    &&& forall|u: u64| u != t ==> s1.has(u) == s0.has(u)
    &&& forall|u: u64| u != t ==> s1.slab(u) == s0.slab(u)
    &&& x1.has(t)
    &&& forall|y: usize|
        x1.packed_of(t).contains(y) <==> ((x0.has(t) && x0.packed_of(t).contains(y)) || y == i)
    &&& x1.packed_of(t).len() == (if x0.has(t) {
        x0.packed_of(t).len() as int
    } else {
        0int
    }) + 1
    &&& forall|y: usize|
        x1.free_of(t).contains(y) <==> (x0.has(t) && x0.free_of(t).contains(y) && y != i)
    &&& x1.free_of(t).len() == (if x0.has(t) && x0.free_of(t).len() > 0 {
        x0.free_of(t).len() - 1
    } else {
        0int
    })
    &&& forall|u: u64| u != t ==> x1.has(u) == x0.has(u)
    &&& forall|u: u64|
        u != t && x0.has(u) ==> x1.packed_of(u) == x0.packed_of(u) && x1.free_of(u)
            == x0.free_of(u)
    &&& l1.has(t)
    &&& l1.count(t) == (if l0.has(t) {
        l0.count(t) as int
    } else {
        0int
    }) + 1
    &&& forall|u: u64| u != t ==> l1.has(u) == l0.has(u)
    &&& forall|u: u64| u != t && l0.has(u) ==> l1.count(u) == l0.count(u)
}

/// Everything an empty changes when the cell was occupied.
pub open spec fn cempty_post<V>(
    s0: Storage<V>,
    x0: Indices,
    l0: Lengths,
    s1: Storage<V>,
    x1: Indices,
    l1: Lengths,
    t: u64,
    i: usize,
) -> bool {
    &&& s1.slab(t) == s0.slab(t).update(i as int, Cell::<V>::Empty)
    &&& forall|u: u64| s1.has(u) == s0.has(u)
    &&& forall|u: u64| u != t ==> s1.slab(u) == s0.slab(u)
    &&& x1.has(t)
    &&& forall|y: usize| x1.packed_of(t).contains(y) <==> (x0.packed_of(t).contains(y) && y != i)
    &&& x1.packed_of(t).len() == x0.packed_of(t).len() - 1
    &&& forall|y: usize| x1.free_of(t).contains(y) <==> (x0.free_of(t).contains(y) || y == i)
    &&& x1.free_of(t).len() == x0.free_of(t).len() + (if x0.free_of(t).contains(i) {
        0int
    } else {
        1int
    })
    &&& forall|u: u64| u != t ==> x1.has(u) == x0.has(u)
    &&& forall|u: u64|
        u != t && x0.has(u) ==> x1.packed_of(u) == x0.packed_of(u) && x1.free_of(u)
            == x0.free_of(u)
    &&& l1.has(t)
    &&& l1.count(t) == l0.count(t) - 1
    &&& forall|u: u64| u != t ==> l1.has(u) == l0.has(u)
    &&& forall|u: u64| u != t && l0.has(u) ==> l1.count(u) == l0.count(u)
}

/// The component operations; stateless, each call names the structures it
/// works on.
pub struct Component;

impl Component {
    /// A fresh, empty triple of storage, index table, and length table.
    pub fn new<V>() -> (r: (Storage<V>, Indices, Lengths))
        ensures
            component_inv(r.0, r.1, r.2),
            forall|t: u64| !r.0.has(t),
            forall|t: u64| !r.1.has(t),
            forall|t: u64| !r.2.has(t),
    {
        (
            Storage::new(),
            Indices { packed: TypeMap::new(), free: TypeMap::new() },
            Lengths { counts: TypeMap::new() },
        )
    }

    /// Inserts a component of this type at the smallest free index, or just
    /// past the live ones. Returns the index used.
    pub fn insert<V>(
        key: TypeKey,
        component: V,
        storage: &mut Storage<V>,
        indices: &mut Indices,
        lengths: &mut Lengths,
    ) -> (r: Result<usize, ErrEcs>)
        requires
            component_inv(*old(storage), *old(indices), *old(lengths)),
            old(storage).has(key.id) ==> old(storage).slab(key.id).len() < usize::MAX,
        ensures
            component_inv(*final(storage), *final(indices), *final(lengths)),
            r is Ok,
            cinsert_post(
                *old(storage),
                *old(indices),
                *old(lengths),
                *final(storage),
                *final(indices),
                *final(lengths),
                key.id,
                component,
                r->Ok_0 as int,
            ),
    {
        let ghost t = key.id;
        let default_index = match lengths.counts.get(key.id) {
            Option::Some(c) => *c,
            Option::None => 0,
        };
        let i = Component::get_index(key, indices, default_index);
        proof {
            if old(indices).has(t) {
                assert(old(storage).has(t));
                assert(old(lengths).has(t));
                if old(indices).free_of(t).len() > 0 {
                    assert(old(indices).free_of(t).contains(old(indices).free_of(t)[0]));
                    assert(i < old(storage).slab(t).len());
                } else {
                    assert(default_index == old(lengths).count(t));
                    assert(i == old(indices).packed_of(t).len());
                    assert(old(indices).packed_of(t).len() + old(indices).free_of(t).len()
                        == old(storage).slab(t).len());
                    assert(i as int == old(storage).slab(t).len());
                }
                assert(i < usize::MAX);
            } else {
                assert(!old(lengths).has(t));
                assert(i == 0);
            }
        }
        storage.insert(key, i, component);
        // Book the new occupied cell.
        let count = match lengths.counts.get(key.id) {
            Option::Some(c) => *c,
            Option::None => 0,
        };
        proof {
            assert(count < usize::MAX);
        }
        lengths.counts.insert(key.id, count + 1);
        proof {
            let s0 = *old(storage);
            let x0 = *old(indices);
            let l0 = *old(lengths);
            let s1 = *storage;
            let x1 = *indices;
            let l1 = *lengths;
            if x0.has(t) {
                if x0.free_of(t).len() > 0 {
                    assert(!x0.packed_of(t).contains(i));
                } else {
                    if x0.packed_of(t).contains(i) {
                        assert(i < s0.slab(t).len());
                    }
                }
            }
            assert forall|u: u64| s1.has(u) == x1.has(u) by {
                if u != t {
                    assert(s1.has(u) == s0.has(u));
                    assert(x1.has(u) == x0.has(u));
                }
            }
            assert forall|u: u64| s1.has(u) == l1.has(u) by {
                if u != t {
                    assert(s1.has(u) == s0.has(u));
                    assert(l1.counts@.dom().contains(u) == l0.counts@.dom().contains(u));
                    assert(s0.has(u) == l0.has(u));
                } else {
                    assert(l1.counts@.dom().contains(t));
                    assert(s1.has(t));
                }
            }
            assert forall|u: u64| x1.has(u) implies s1.slab(u).len() == x1.packed_of(u).len()
                + x1.free_of(u).len() by {
                if u != t {
                    assert(x0.has(u));
                    assert(s1.slab(u) == s0.slab(u));
                    assert(x1.packed_of(u) == x0.packed_of(u));
                    assert(x1.free_of(u) == x0.free_of(u));
                }
            }
            assert forall|u: u64, y: usize|
                x1.has(u) && #[trigger] x1.packed_of(u).contains(y) implies y < s1.slab(
                u,
            ).len() by {
                if u == t {
                    if x0.has(t) && x0.packed_of(t).contains(y) {
                        assert(y < s0.slab(t).len());
                    } else {
                        assert(y == i);
                    }
                } else {
                    assert(x0.packed_of(u).contains(y));
                }
            }
            assert forall|u: u64, y: usize|
                x1.has(u) && #[trigger] x1.free_of(u).contains(y) implies y < s1.slab(
                u,
            ).len() by {
                if u == t {
                    assert(x0.has(t) && x0.free_of(t).contains(y));
                    assert(y < s0.slab(t).len());
                } else {
                    assert(x0.free_of(u).contains(y));
                }
            }
            assert forall|u: u64, y: usize|
                x1.has(u) && #[trigger] x1.packed_of(u).contains(y) implies !(
            #[trigger] x1.free_of(u).contains(y)) by {
                if u == t {
                    if y != i && x1.free_of(t).contains(y) {
                        assert(x0.free_of(t).contains(y));
                        assert(x0.packed_of(t).contains(y));
                    }
                } else {
                    if x1.free_of(u).contains(y) {
                        assert(x0.packed_of(u).contains(y) && x0.free_of(u).contains(y));
                    }
                }
            }
            assert forall|u: u64, y: usize|
                x1.has(u) && y < s1.slab(u).len() implies (#[trigger] x1.packed_of(u).contains(
                y,
            ) || x1.free_of(u).contains(y)) by {
                if u == t {
                    if y != i {
                        if x0.has(t) && y < s0.slab(t).len() {
                            assert(x0.packed_of(t).contains(y) || x0.free_of(t).contains(y));
                        } else {
                            // The slab grew by exactly the new cell.
                            assert(y as int == i as int);
                        }
                    }
                } else {
                    assert(x0.has(u) && y < s0.slab(u).len());
                    assert(x0.packed_of(u).contains(y) || x0.free_of(u).contains(y));
                }
            }
            assert forall|u: u64, y: usize|
                x1.has(u) && (y as int) < s1.slab(u).len() implies ((#[trigger] s1.slab(
                u,
            )[y as int]).is_occupied() <==> x1.packed_of(u).contains(y)) by {
                if u == t {
                    if y != i {
                        if s0.has(t) && (y as int) < s0.slab(t).len() {
                            assert(s1.slab(t)[y as int] == s0.slab(t)[y as int]);
                            assert(s0.slab(t)[y as int].is_occupied() <==> x0.packed_of(
                                t,
                            ).contains(y));
                        } else {
                            assert(s1.slab(t)[y as int] == Cell::<V>::Empty);
                            if x1.packed_of(t).contains(y) {
                                assert(x0.has(t) && x0.packed_of(t).contains(y));
                                assert((y as int) < s0.slab(t).len());
                            }
                        }
                    }
                } else {
                    assert(x1.has(u) == x0.has(u));
                    assert(x0.has(u));
                    assert(s1.slab(u) == s0.slab(u));
                    assert(x1.packed_of(u) == x0.packed_of(u));
                    assert(s0.slab(u)[y as int].is_occupied() <==> x0.packed_of(u).contains(y));
                }
            }
            assert forall|u: u64| #[trigger] x1.has(u) implies l1.count(u) == x1.packed_of(
                u,
            ).len() by {
                if u == t {
                    assert(l1.count(t) == count + 1);
                } else {
                    assert(x0.has(u));
                    assert(l0.has(u));
                    assert(l1.count(u) == l0.count(u));
                    assert(x1.packed_of(u) == x0.packed_of(u));
                }
            }
        }
        Result::Ok(i)
    }

    /// Pops the smallest free index of this type, or falls back to
    /// `default_index`; the result is marked packed. Bookkeeping for the
    /// type is created on first use.
    fn get_index(key: TypeKey, indices: &mut Indices, default_index: usize) -> (r: usize)
        requires
            old(indices).wf(),
        ensures
            final(indices).wf(),
            r == (if old(indices).has(key.id) && old(indices).free_of(key.id).len() > 0 {
                old(indices).free_of(key.id)[0]
            } else {
                default_index
            }),
            final(indices).has(key.id),
            forall|y: usize|
                final(indices).packed_of(key.id).contains(y) <==> ((old(indices).has(key.id)
                    && old(indices).packed_of(key.id).contains(y)) || y == r),
            final(indices).packed_of(key.id).len() == (if old(indices).has(key.id) {
                old(indices).packed_of(key.id).len() as int
            } else {
                0int
            }) + (if old(indices).has(key.id) && old(indices).packed_of(key.id).contains(r) {
                0int
            } else {
                1int
            }),
            forall|y: usize|
                final(indices).free_of(key.id).contains(y) <==> (old(indices).has(key.id) && old(
                    indices,
                ).free_of(key.id).contains(y) && y != r),
            final(indices).free_of(key.id).len() == (if old(indices).has(key.id) && old(
                indices,
            ).free_of(key.id).len() > 0 {
                old(indices).free_of(key.id).len() - 1
            } else {
                0int
            }),
            forall|u: u64| u != key.id ==> final(indices).has(u) == old(indices).has(u),
            forall|u: u64|
                u != key.id && old(indices).has(u) ==> final(indices).packed_of(u) == old(
                    indices,
                ).packed_of(u) && final(indices).free_of(u) == old(indices).free_of(u),
    {
        let mut packed_set: SortedSet = SortedSet::new();
        let mut free_set: SortedSet = SortedSet::new();
        if indices.packed.contains_key(key.id) {
            indices.packed.swap_value(key.id, &mut packed_set);
        }
        if indices.free.contains_key(key.id) {
            indices.free.swap_value(key.id, &mut free_set);
        }
        let index: usize = match free_set.first() {
            Option::Some(m) => {
                free_set.remove(m);
                m
            },
            Option::None => default_index,
        };
        packed_set.insert(index);
        indices.packed.insert(key.id, packed_set);
        indices.free.insert(key.id, free_set);
        index
    }

    /// Moves index `i` of this type from packed to free; a no-op when it is
    /// not packed. The bookkeeping for the type must exist.
    fn free_index(key: TypeKey, i: usize, indices: &mut Indices)
        requires
            old(indices).wf(),
            old(indices).has(key.id),
        ensures
            final(indices).wf(),
            final(indices).has(key.id),
            forall|u: u64| final(indices).has(u) == old(indices).has(u),
            forall|u: u64|
                u != key.id && old(indices).has(u) ==> final(indices).packed_of(u) == old(
                    indices,
                ).packed_of(u) && final(indices).free_of(u) == old(indices).free_of(u),
            old(indices).packed_of(key.id).contains(i) ==> {
                &&& forall|y: usize|
                    final(indices).packed_of(key.id).contains(y) <==> (old(indices).packed_of(
                        key.id,
                    ).contains(y) && y != i)
                &&& final(indices).packed_of(key.id).len() == old(indices).packed_of(
                    key.id,
                ).len() - 1
                &&& forall|y: usize|
                    final(indices).free_of(key.id).contains(y) <==> (old(indices).free_of(
                        key.id,
                    ).contains(y) || y == i)
                &&& final(indices).free_of(key.id).len() == old(indices).free_of(key.id).len()
                    + (if old(indices).free_of(key.id).contains(i) {
                    0int
                } else {
                    1int
                })
            },
            !old(indices).packed_of(key.id).contains(i) ==> {
                &&& final(indices).packed_of(key.id) == old(indices).packed_of(key.id)
                &&& final(indices).free_of(key.id) == old(indices).free_of(key.id)
            },
    {
        let mut packed_set: SortedSet = SortedSet::new();
        let mut free_set: SortedSet = SortedSet::new();
        indices.packed.swap_value(key.id, &mut packed_set);
        indices.free.swap_value(key.id, &mut free_set);
        let removed = packed_set.remove(i);
        if removed {
            free_set.insert(i);
        }
        indices.packed.insert(key.id, packed_set);
        indices.free.insert(key.id, free_set);
        proof {
            if !old(indices).packed_of(key.id).contains(i) {
                assert(final(indices).packed_of(key.id) =~= old(indices).packed_of(key.id));
                assert(final(indices).free_of(key.id) =~= old(indices).free_of(key.id));
            }
        }
    }

    /// Overwrites the component of this type at index `i`; the cell must
    /// already be occupied, so the books stay balanced.
    pub fn set<V>(key: TypeKey, i: usize, component: V, storage: &mut Storage<V>) -> (r: Result<
        (),
        ErrEcs,
    >)
        requires
            old(storage).wf(),
        ensures
            final(storage).wf(),
            match r {
                Result::Ok(()) => {
                    &&& old(storage).has(key.id)
                    &&& i < old(storage).slab(key.id).len()
                    &&& old(storage).slab(key.id)[i as int] is Occupied
                    &&& final(storage).slab(key.id) == old(storage).slab(key.id).update(
                        i as int,
                        Cell::Occupied(component),
                    )
                    &&& forall|t: u64| final(storage).has(t) == old(storage).has(t)
                    &&& forall|t: u64|
                        t != key.id ==> final(storage).slab(t) == old(storage).slab(t)
                },
                Result::Err(e) => {
                    &&& e == (if !old(storage).has(key.id) {
                        ErrEcs::NotFound
                    } else if i >= old(storage).slab(key.id).len() {
                        ErrEcs::OutOfBounds
                    } else {
                        ErrEcs::Empty
                    })
                    &&& (old(storage).has(key.id) && i < old(storage).slab(key.id).len()
                        ==> !old(storage).slab(key.id)[i as int].is_occupied())
                    &&& *final(storage) == *old(storage)
                },
            },
    {
        match storage.get(key, i) {
            Result::Err(e) => Result::Err(e),
            Result::Ok(_) => storage.set(key, i, component),
        }
    }

    /// Applies `f` to the component of this type at index `i`, in place.
    pub fn modify<V, F: FnOnce(V) -> V>(
        key: TypeKey,
        i: usize,
        storage: &mut Storage<V>,
        f: F,
    ) -> (r: Result<(), ErrEcs>)
        requires
            old(storage).wf(),
            forall|v: V| call_requires(f, (v,)),
        ensures
            final(storage).wf(),
            match r {
                Result::Ok(()) => {
                    &&& old(storage).has(key.id)
                    &&& i < old(storage).slab(key.id).len()
                    &&& old(storage).slab(key.id)[i as int] is Occupied
                    &&& exists|w: V|
                        call_ensures(f, (old(storage).slab(key.id)[i as int].value(),), w)
                            && final(storage).slab(key.id) == old(storage).slab(key.id).update(
                            i as int,
                            Cell::Occupied(w),
                        )
                    &&& forall|t: u64| final(storage).has(t) == old(storage).has(t)
                    &&& forall|t: u64|
                        t != key.id ==> final(storage).slab(t) == old(storage).slab(t)
                },
                Result::Err(e) => {
                    &&& e == (if !old(storage).has(key.id) {
                        ErrEcs::NotFound
                    } else if i >= old(storage).slab(key.id).len() {
                        ErrEcs::OutOfBounds
                    } else {
                        ErrEcs::Empty
                    })
                    &&& (old(storage).has(key.id) && i < old(storage).slab(key.id).len()
                        ==> !old(storage).slab(key.id)[i as int].is_occupied())
                    &&& *final(storage) == *old(storage)
                },
            },
    {
        storage.modify(key, i, f)
    }

    /// Reads the component of this type at index `i` by value.
    pub fn read<V: Copy>(key: TypeKey, i: usize, storage: &Storage<V>) -> (r: Result<V, ErrEcs>)
        requires
            storage.wf(),
        ensures
            match r {
                Result::Ok(v) => {
                    &&& storage.has(key.id)
                    &&& i < storage.slab(key.id).len()
                    &&& storage.slab(key.id)[i as int] == Cell::Occupied(v)
                },
                Result::Err(e) => {
                    &&& e == (if !storage.has(key.id) {
                        ErrEcs::NotFound
                    } else if i >= storage.slab(key.id).len() {
                        ErrEcs::OutOfBounds
                    } else {
                        ErrEcs::Empty
                    })
                    &&& (storage.has(key.id) && i < storage.slab(key.id).len() ==> !storage.slab(
                        key.id,
                    )[i as int].is_occupied())
                },
            },
    {
        match storage.get(key, i) {
            Result::Ok(v) => Result::Ok(*v),
            Result::Err(e) => Result::Err(e),
        }
    }

    /// Empties the cell of this type at index `i` and recycles the index.
    /// Idempotent on cells that are already empty.
    pub fn empty<V>(
        key: TypeKey,
        i: usize,
        storage: &mut Storage<V>,
        indices: &mut Indices,
        lengths: &mut Lengths,
    ) -> (r: Result<(), ErrEcs>)
        requires
            component_inv(*old(storage), *old(indices), *old(lengths)),
        ensures
            component_inv(*final(storage), *final(indices), *final(lengths)),
            match r {
                Result::Ok(()) => {
                    &&& old(storage).has(key.id)
                    &&& i < old(storage).slab(key.id).len()
                    &&& (old(storage).slab(key.id)[i as int] is Occupied ==> cempty_post(
                        *old(storage),
                        *old(indices),
                        *old(lengths),
                        *final(storage),
                        *final(indices),
                        *final(lengths),
                        key.id,
                        i,
                    ))
                    &&& (!(old(storage).slab(key.id)[i as int] is Occupied) ==> *final(storage)
                        == *old(storage) && *final(indices) == *old(indices) && *final(lengths)
                        == *old(lengths))
                },
                Result::Err(e) => {
                    &&& e == (if !old(storage).has(key.id) {
                        ErrEcs::NotFound
                    } else {
                        ErrEcs::OutOfBounds
                    })
                    &&& (old(storage).has(key.id) ==> i >= old(storage).slab(key.id).len())
                    &&& *final(storage) == *old(storage)
                    &&& *final(indices) == *old(indices)
                    &&& *final(lengths) == *old(lengths)
                },
            },
    {
        let occupied = match storage.get(key, i) {
            Result::Err(e) => {
                match e {
                    ErrEcs::Empty => false,
                    e2 => {
                        return Result::Err(e2);
                    },
                }
            },
            Result::Ok(_) => true,
        };
        if !occupied {
            // Emptying an already-empty slot is a no-op.
            return Result::Ok(());
        }
        let removed = storage.remove(key, i);
        proof {
            assert(removed is Ok);
        }
        Component::free_index(key, i, indices);
        let count = match lengths.counts.get(key.id) {
            Option::Some(c) => *c,
            Option::None => 0,
        };
        proof {
            assert(old(lengths).has(key.id));
            assert(count == old(indices).packed_of(key.id).len());
            assert(old(indices).packed_of(key.id).contains(i));
            assert(count >= 1);
        }
        lengths.counts.insert(key.id, count - 1);
        proof {
            let t = key.id;
            let s0 = *old(storage);
            let x0 = *old(indices);
            let l0 = *old(lengths);
            let s1 = *storage;
            let x1 = *indices;
            let l1 = *lengths;
            assert(x0.packed_of(t).contains(i));
            assert(!x0.free_of(t).contains(i));
            assert(s1.slab(t).len() == s0.slab(t).len());
            assert forall|u: u64| s1.has(u) == x1.has(u) by {
                if u != t {
                    assert(s1.has(u) == s0.has(u));
                    assert(x1.has(u) == x0.has(u));
                }
            }
            assert forall|u: u64| s1.has(u) == l1.has(u) by {
                if u != t {
                    assert(s1.has(u) == s0.has(u));
                    assert(l1.counts@.dom().contains(u) == l0.counts@.dom().contains(u));
                    assert(s0.has(u) == l0.has(u));
                } else {
                    assert(l1.counts@.dom().contains(t));
                    assert(s1.has(t));
                }
            }
            assert forall|u: u64| x1.has(u) implies s1.slab(u).len() == x1.packed_of(u).len()
                + x1.free_of(u).len() by {
                if u != t {
                    assert(x0.has(u));
                    assert(s1.slab(u) == s0.slab(u));
                    assert(x1.packed_of(u) == x0.packed_of(u));
                    assert(x1.free_of(u) == x0.free_of(u));
                }
            }
            assert forall|u: u64, y: usize|
                x1.has(u) && #[trigger] x1.packed_of(u).contains(y) implies y < s1.slab(
                u,
            ).len() by {
                if u == t {
                    assert(x0.packed_of(t).contains(y));
                } else {
                    assert(x0.packed_of(u).contains(y));
                }
            }
            assert forall|u: u64, y: usize|
                x1.has(u) && #[trigger] x1.free_of(u).contains(y) implies y < s1.slab(
                u,
            ).len() by {
                if u == t {
                    if y != i {
                        assert(x0.free_of(t).contains(y));
                    }
                } else {
                    assert(x0.free_of(u).contains(y));
                }
            }
            assert forall|u: u64, y: usize|
                x1.has(u) && #[trigger] x1.packed_of(u).contains(y) implies !(
            #[trigger] x1.free_of(u).contains(y)) by {
                if u == t {
                    assert(x0.packed_of(t).contains(y) && y != i);
                    if x1.free_of(t).contains(y) {
                        assert(x0.free_of(t).contains(y));
                    }
                } else {
                    if x1.free_of(u).contains(y) {
                        assert(x0.packed_of(u).contains(y) && x0.free_of(u).contains(y));
                    }
                }
            }
            assert forall|u: u64, y: usize|
                x1.has(u) && y < s1.slab(u).len() implies (#[trigger] x1.packed_of(u).contains(
                y,
            ) || x1.free_of(u).contains(y)) by {
                if u == t {
                    if y == i {
                        assert(x1.free_of(t).contains(y));
                    } else {
                        assert(x0.packed_of(t).contains(y) || x0.free_of(t).contains(y));
                    }
                } else {
                    assert(x0.has(u) && y < s0.slab(u).len());
                    assert(x0.packed_of(u).contains(y) || x0.free_of(u).contains(y));
                }
            }
            assert forall|u: u64, y: usize|
                x1.has(u) && (y as int) < s1.slab(u).len() implies ((#[trigger] s1.slab(
                u,
            )[y as int]).is_occupied() <==> x1.packed_of(u).contains(y)) by {
                if u == t {
                    if y == i {
                        assert(s1.slab(t)[y as int] == Cell::<V>::Empty);
                    } else {
                        assert(s1.slab(t)[y as int] == s0.slab(t)[y as int]);
                        assert(s0.slab(t)[y as int].is_occupied() <==> x0.packed_of(t).contains(
                            y,
                        ));
                    }
                } else {
                    assert(x1.has(u) == x0.has(u));
                    assert(x0.has(u));
                    assert(s1.slab(u) == s0.slab(u));
                    assert(x1.packed_of(u) == x0.packed_of(u));
                    assert(s0.slab(u)[y as int].is_occupied() <==> x0.packed_of(u).contains(y));
                }
            }
            assert forall|u: u64| #[trigger] x1.has(u) implies l1.count(u) == x1.packed_of(
                u,
            ).len() by {
                if u == t {
                    assert(l1.count(t) == count - 1);
                } else {
                    assert(x0.has(u));
                    assert(l0.has(u));
                    assert(l1.count(u) == l0.count(u));
                    assert(x1.packed_of(u) == x0.packed_of(u));
                }
            }
        }
        Result::Ok(())
    }

    /// The physical cell count of this type's slab.
    pub fn capacity<V>(key: TypeKey, storage: &Storage<V>) -> (r: Result<usize, ErrEcs>)
        requires
            storage.wf(),
        ensures
            match r {
                Result::Ok(n) => storage.has(key.id) && n == storage.slab(key.id).len(),
                Result::Err(e) => e == ErrEcs::NotFound && !storage.has(key.id),
            },
    {
        if storage.knows_type(key) {
            Result::Ok(storage.capacity(key))
        } else {
            Result::Err(ErrEcs::NotFound)
        }
    }

    /// The count of occupied cells of this type.
    pub fn len<V>(key: TypeKey, lengths: &Lengths) -> (r: Result<usize, ErrEcs>)
        requires
            lengths.wf(),
        ensures
            match r {
                Result::Ok(n) => lengths.has(key.id) && n == lengths.count(key.id),
                Result::Err(e) => e == ErrEcs::NotFound && !lengths.has(key.id),
            },
    {
        match lengths.counts.get(key.id) {
            Option::Some(c) => Result::Ok(*c),
            Option::None => Result::Err(ErrEcs::NotFound),
        }
    }

    /// Whether the cell of this type at index `i` is empty.
    pub fn is_empty<V>(key: TypeKey, i: usize, storage: &Storage<V>) -> (r: Result<bool, ErrEcs>)
        requires
            storage.wf(),
        ensures
            match r {
                Result::Ok(b) => {
                    &&& storage.has(key.id)
                    &&& i < storage.slab(key.id).len()
                    &&& b == !storage.slab(key.id)[i as int].is_occupied()
                },
                Result::Err(e) => {
                    &&& e == (if !storage.has(key.id) {
                        ErrEcs::NotFound
                    } else {
                        ErrEcs::OutOfBounds
                    })
                    &&& (storage.has(key.id) ==> i >= storage.slab(key.id).len())
                },
            },
    {
        match storage.get(key, i) {
            Result::Ok(_) => Result::Ok(false),
            Result::Err(e) => match e {
                ErrEcs::Empty => Result::Ok(true),
                e2 => Result::Err(e2),
            },
        }
    }
}

} // verus!
