//! The per-type sets of packed (live) indices.
//!
//! An index is packed while its cell is occupied and owned. Iterating the
//! packed set of a type yields every live component of that type, which is
//! what keeps dense iteration possible after compaction.

use vstd::prelude::*;

use crate::ErrEcs;
use crate::keys::TypeKey;
use crate::sorted_set::{SortedSet, is_sorted_strict};
use crate::type_map::TypeMap;

verus! {

pub struct Packer {
    packed: TypeMap<SortedSet>,
}

impl Packer {
    pub closed spec fn wf(self) -> bool {
        &&& self.packed.wf()
        &&& forall|t: u64|
            self.packed@.dom().contains(t) ==> (#[trigger] self.packed@[t]).wf()
    }

    /// Whether a packed set exists for type token `t`.
    pub closed spec fn has(self, t: u64) -> bool {
        self.packed@.dom().contains(t)
    }

    /// The packed indices of type token `t`, in ascending order.
    pub closed spec fn set_of(self, t: u64) -> Seq<usize> {
        self.packed@[t]@
    }

    /// The packed set is kept strictly sorted; this exports that fact.
    pub proof fn lemma_sorted(self, t: u64)
        requires
            self.wf(),
            self.has(t),
        ensures
            is_sorted_strict(self.set_of(t)),
    {
    }

    pub fn new() -> (r: Packer)
        ensures
            r.wf(),
            forall|t: u64| !r.has(t),
    {
        Packer { packed: TypeMap::new() }
    }

    /// How many indices of this type are packed.
    pub fn len(&self, key: TypeKey) -> (r: usize)
        requires
            self.wf(),
            self.has(key.id),
        ensures
            r == self.set_of(key.id).len(),
    {
        match self.packed.get(key.id) {
            Option::Some(s) => s.len(),
            Option::None => {
                proof {
                    assert(false);
                }
                0
            },
        }
    }

    /// The packed count again: the set allocates nothing beyond its
    /// elements.
    pub fn capacity(&self, key: TypeKey) -> (r: usize)
        requires
            self.wf(),
            self.has(key.id),
        ensures
            r == self.set_of(key.id).len(),
    {
        self.len(key)
    }

    /// Whether a packed set exists for this type yet.
    pub fn knows_type(&self, key: &TypeKey) -> (r: bool)
        requires
            self.wf(),
        ensures
            r == self.has(key.id),
    {
        self.packed.contains_key(key.id)
    }

    /// Whether index `i` of this type is packed.
    pub fn contains(&self, key: TypeKey, i: usize) -> (r: bool)
        requires
            self.wf(),
        ensures
            r == (self.has(key.id) && self.set_of(key.id).contains(i)),
    {
        match self.packed.get(key.id) {
            Option::Some(s) => s.contains(i),
            Option::None => false,
        }
    }

    /// A snapshot of this type's live indices, ascending: what an
    /// iteration over the type's components walks.
    pub fn iter_packed(&self, key: TypeKey) -> (r: Vec<usize>)
        requires
            self.wf(),
            self.has(key.id),
        ensures
            r@ == self.set_of(key.id),
    {
        match self.packed.get(key.id) {
            Option::Some(s) => s.as_list(),
            Option::None => {
                proof {
                    assert(false);
                }
                Vec::new()
            },
        }
    }

    /// Marks index `i` of this type live, creating the set on first use.
    pub fn pack(&mut self, key: TypeKey, i: usize)
        requires
            old(self).wf(),
        ensures
            pack_post(*old(self), *final(self), key.id, i),
    {
        self.pack_by_id(&key, i)
    }

    pub fn pack_by_id(&mut self, key: &TypeKey, i: usize)
        requires
            old(self).wf(),
        ensures
            pack_post(*old(self), *final(self), key.id, i),
    {
        let mut s: SortedSet = SortedSet::new();
        if self.packed.contains_key(key.id) {
            self.packed.swap_value(key.id, &mut s);
        }
        s.insert(i);
        self.packed.insert(key.id, s);
    }

    /// Unmarks index `i`; a no-op on an index that is not packed, an error
    /// on a type that has no packed set at all.
    pub fn unpack(&mut self, key: TypeKey, i: usize) -> (r: Result<(), ErrEcs>)
        requires
            old(self).wf(),
        ensures
            match r {
                Result::Ok(()) => old(self).has(key.id) && unpack_post(
                    *old(self),
                    *final(self),
                    key.id,
                    i,
                ),
                Result::Err(e) => {
                    &&& e == ErrEcs::NotFound
                    &&& !old(self).has(key.id)
                    &&& *final(self) == *old(self)
                },
            },
    {
        self.unpack_by_id(&key, i)
    }

    pub fn unpack_by_id(&mut self, key: &TypeKey, i: usize) -> (r: Result<(), ErrEcs>)
        requires
            old(self).wf(),
        ensures
            match r {
                Result::Ok(()) => old(self).has(key.id) && unpack_post(
                    *old(self),
                    *final(self),
                    key.id,
                    i,
                ),
                Result::Err(e) => {
                    &&& e == ErrEcs::NotFound
                    &&& !old(self).has(key.id)
                    &&& *final(self) == *old(self)
                },
            },
    {
        if !self.packed.contains_key(key.id) {
            return Result::Err(ErrEcs::NotFound);
        }
        let mut s: SortedSet = SortedSet::new();
        self.packed.swap_value(key.id, &mut s);
        s.remove(i);
        self.packed.insert(key.id, s);
        Result::Ok(())
    }
}

/// After packing `i` under `t`: `i` is live there, every other membership
/// and every other type are untouched.
pub open spec fn pack_post(pre: Packer, post: Packer, t: u64, i: usize) -> bool {
    &&& post.wf()
    &&& post.has(t)
    &&& forall|y: usize|
        post.set_of(t).contains(y) <==> ((pre.has(t) && pre.set_of(t).contains(y)) || y == i)
    &&& post.set_of(t).len() == (if pre.has(t) {
        pre.set_of(t).len() as int
    } else {
        0int
    }) + (if pre.has(t) && pre.set_of(t).contains(i) {
        0int
    } else {
        1int
    })
    &&& forall|u: u64| u != t ==> post.has(u) == pre.has(u)
    &&& forall|u: u64| u != t ==> post.set_of(u) == pre.set_of(u)
}

/// After unpacking `i` under `t`: `i` is no longer live there, everything
/// else is untouched.
pub open spec fn unpack_post(pre: Packer, post: Packer, t: u64, i: usize) -> bool {
    &&& post.wf()
    &&& post.has(t)
    &&& forall|y: usize|
        post.set_of(t).contains(y) <==> (pre.set_of(t).contains(y) && y != i)
    &&& post.set_of(t).len() == pre.set_of(t).len() - (if pre.set_of(t).contains(i) {
        1int
    } else {
        0int
    })
    &&& forall|u: u64| u != t ==> post.has(u) == pre.has(u)
    &&& forall|u: u64| u != t ==> post.set_of(u) == pre.set_of(u)
}

} // verus!
