//! The ownership map: which entity owns which slot of which type.
//!
//! Each entity identifier maps to its bindings, one slot index per type
//! key. The map is the single source of truth for the entity side of the
//! store; the compactor reads its inverse (index to entity, per type) to
//! know which live cells to move and whom to rebind.

use vstd::prelude::*;

use crate::ErrEcs;
use crate::emanager::Entity;
use crate::keys::TypeKey;
use crate::sorted_set::is_sorted_strict;
use crate::type_map::TypeMap;

verus! {

/// The slot indices of a sequence of (index, entity) pairs.
pub open spec fn pair_firsts(s: Seq<(usize, u64)>) -> Seq<usize> {
    s.map_values(|p: (usize, u64)| p.0)
}

/// A slot index appears in the first column exactly when some pair carries
/// it.
pub proof fn lemma_pair_firsts_contains(s: Seq<(usize, u64)>, y: usize)
    ensures
        pair_firsts(s).contains(y) <==> exists|k: int|
            0 <= k < s.len() && (#[trigger] s[k]).0 == y,
{
    assert(forall|k: int| 0 <= k < s.len() ==> pair_firsts(s)[k] == (#[trigger] s[k]).0);
    if pair_firsts(s).contains(y) {
        let w = choose|w: int| 0 <= w < pair_firsts(s).len() && pair_firsts(s)[w] == y;
        assert(s[w].0 == y);
    }
    if exists|k: int| 0 <= k < s.len() && (#[trigger] s[k]).0 == y {
        let w = choose|w: int| 0 <= w < s.len() && (#[trigger] s[w]).0 == y;
        assert(pair_firsts(s)[w] == y);
    }
}

pub struct COwnership {
    ownership: TypeMap<TypeMap<usize>>,
}

impl COwnership {
    pub closed spec fn wf(self) -> bool {
        &&& self.ownership.wf()
        &&& forall|e: u64|
            self.ownership@.dom().contains(e) ==> (#[trigger] self.ownership@[e]).wf()
    }

    /// Whether the entity has a record at all.
    pub closed spec fn has_entity(self, e: u64) -> bool {
        self.ownership@.dom().contains(e)
    }

    /// Whether entity `e` owns a component of type `t`.
    pub closed spec fn owns(self, e: u64, t: u64) -> bool {
        self.has_entity(e) && self.ownership@[e]@.dom().contains(t)
    }

    /// The slot index of entity `e`'s component of type `t`.
    pub closed spec fn index_of(self, e: u64, t: u64) -> usize {
        self.ownership@[e]@[t]
    }

    /// Owning a component presupposes having a record.
    pub proof fn lemma_owns_entity(self)
        ensures
            forall|e: u64, t: u64| #[trigger] self.owns(e, t) ==> self.has_entity(e),
    {
    }

    pub fn new() -> (r: COwnership)
        ensures
            r.wf(),
            forall|e: u64| !r.has_entity(e),
            forall|e: u64, t: u64| !r.owns(e, t),
    {
        COwnership { ownership: TypeMap::new() }
    }

    pub fn is_entity_active(&self, e: &Entity) -> (r: bool)
        requires
            self.wf(),
        ensures
            r == self.has_entity(e.id),
    {
        self.ownership.contains_key(e.id)
    }

    /// Opens a fresh, empty record for the entity, dropping any earlier
    /// one.
    pub fn insert_new(&mut self, e: &Entity)
        requires
            old(self).wf(),
        ensures
            final(self).wf(),
            final(self).has_entity(e.id),
            forall|t: u64| !final(self).owns(e.id, t),
            forall|e2: u64| e2 != e.id ==> final(self).has_entity(e2) == old(self).has_entity(e2),
            forall|e2: u64, t: u64|
                e2 != e.id ==> final(self).owns(e2, t) == old(self).owns(e2, t) && (old(
                    self,
                ).owns(e2, t) ==> final(self).index_of(e2, t) == old(self).index_of(e2, t)),
    {
        self.ownership.insert(e.id, TypeMap::new());
    }

    /// Records that entity `e` owns slot `i` of type `key`.
    pub fn insert(&mut self, i: usize, e: &Entity, key: TypeKey)
        requires
            old(self).wf(),
            !old(self).owns(e.id, key.id),
        ensures
            final(self).wf(),
            bind_post(*old(self), *final(self), e.id, key.id, i),
    {
        self.insert_by_id(i, e.id, key)
    }

    pub fn insert_by_id(&mut self, i: usize, eid: u64, type_id: TypeKey)
        requires
            old(self).wf(),
            !old(self).owns(eid, type_id.id),
        ensures
            final(self).wf(),
            bind_post(*old(self), *final(self), eid, type_id.id, i),
    {
        let mut inner: TypeMap<usize> = TypeMap::new();
        if self.ownership.contains_key(eid) {
            self.ownership.swap_value(eid, &mut inner);
        }
        inner.insert(type_id.id, i);
        self.ownership.insert(eid, inner);
    }

    /// Moves an existing binding to a new slot index.
    pub fn update_index(&mut self, e: &Entity, key: TypeKey, new_index: usize) -> (r: Result<
        (),
        ErrEcs,
    >)
        requires
            old(self).wf(),
        ensures
            final(self).wf(),
            rebind_post(*old(self), *final(self), e.id, key.id, new_index, r),
    {
        self.update_index_by_id(e.id, key, new_index)
    }

    pub fn update_index_by_id(&mut self, eid: u64, type_id: TypeKey, new_index: usize) -> (r:
        Result<(), ErrEcs>)
        requires
            old(self).wf(),
        ensures
            final(self).wf(),
            rebind_post(*old(self), *final(self), eid, type_id.id, new_index, r),
    {
        if !self.ownership.contains_key(eid) {
            return Result::Err(ErrEcs::NotFound);
        }
        let mut inner: TypeMap<usize> = TypeMap::new();
        self.ownership.swap_value(eid, &mut inner);
        if !inner.contains_key(type_id.id) {
            self.ownership.insert(eid, inner);
            proof {
                assert(final(self).ownership@ =~= old(self).ownership@.insert(
                    eid,
                    old(self).ownership@[eid],
                ));
                assert(final(self).ownership@ =~= old(self).ownership@);
            }
            return Result::Err(ErrEcs::NotFound);
        }
        inner.insert(type_id.id, new_index);
        self.ownership.insert(eid, inner);
        Result::Ok(())
    }

    /// The slot index bound for this entity and type.
    pub fn get_cindex(&self, e: &Entity, key: TypeKey) -> (r: Result<usize, ErrEcs>)
        requires
            self.wf(),
        ensures
            match r {
                Result::Ok(i) => self.owns(e.id, key.id) && i == self.index_of(e.id, key.id),
                Result::Err(err) => err == ErrEcs::NotFound && !self.owns(e.id, key.id),
            },
    {
        self.get_cindex_by_id(e.id, key)
    }

    pub fn get_cindex_by_id(&self, eid: u64, type_id: TypeKey) -> (r: Result<usize, ErrEcs>)
        requires
            self.wf(),
        ensures
            match r {
                Result::Ok(i) => self.owns(eid, type_id.id) && i == self.index_of(
                    eid,
                    type_id.id,
                ),
                Result::Err(err) => err == ErrEcs::NotFound && !self.owns(eid, type_id.id),
            },
    {
        match self.ownership.get(eid) {
            Option::None => Result::Err(ErrEcs::NotFound),
            Option::Some(inner) => match inner.get(type_id.id) {
                Option::None => Result::Err(ErrEcs::NotFound),
                Option::Some(i) => Result::Ok(*i),
            },
        }
    }

    /// Drops the binding of this entity and type; the entity's record
    /// stays. Reports the binding that was not there, changing nothing.
    pub fn remove(&mut self, e: &Entity, key: TypeKey) -> (r: Result<(), ErrEcs>)
        requires
            old(self).wf(),
        ensures
            final(self).wf(),
            unbind_post(*old(self), *final(self), e.id, key.id, r),
    {
        self.remove_by_id(e.id, key)
    }

    pub fn remove_by_id(&mut self, eid: u64, type_id: TypeKey) -> (r: Result<(), ErrEcs>)
        requires
            old(self).wf(),
        ensures
            final(self).wf(),
            unbind_post(*old(self), *final(self), eid, type_id.id, r),
    {
        let owned = match self.ownership.get(eid) {
            Option::None => false,
            Option::Some(inner) => inner.contains_key(type_id.id),
        };
        if !owned {
            return Result::Err(ErrEcs::NotFound);
        }
        let mut inner: TypeMap<usize> = TypeMap::new();
        self.ownership.swap_value(eid, &mut inner);
        inner.remove(type_id.id);
        self.ownership.insert(eid, inner);
        Result::Ok(())
    }

    /// Drops the entity's whole record.
    pub fn remove_entry(&mut self, e: &Entity) -> (r: Result<(), ErrEcs>)
        requires
            old(self).wf(),
        ensures
            final(self).wf(),
            match r {
                Result::Ok(()) => {
                    &&& old(self).has_entity(e.id)
                    &&& !final(self).has_entity(e.id)
                    &&& forall|e2: u64|
                        e2 != e.id ==> final(self).has_entity(e2) == old(self).has_entity(e2)
                    &&& forall|e2: u64, t: u64|
                        e2 != e.id ==> final(self).owns(e2, t) == old(self).owns(e2, t) && (old(
                            self,
                        ).owns(e2, t) ==> final(self).index_of(e2, t) == old(self).index_of(
                            e2,
                            t,
                        ))
                },
                Result::Err(err) => {
                    &&& err == ErrEcs::NotFound
                    &&& !old(self).has_entity(e.id)
                    &&& *final(self) == *old(self)
                },
            },
    {
        if !self.ownership.contains_key(e.id) {
            return Result::Err(ErrEcs::NotFound);
        }
        self.ownership.remove(e.id);
        Result::Ok(())
    }

    /// The types an entity owns, each exactly once.
    pub fn components_of(&self, eid: u64) -> (r: Vec<u64>)
        requires
            self.wf(),
        ensures
            forall|t: u64| r@.contains(t) <==> self.owns(eid, t),
            forall|i: int, j: int| 0 <= i < j < r@.len() ==> r@[i] != r@[j],
    {
        match self.ownership.get(eid) {
            Option::None => Vec::new(),
            Option::Some(inner) => inner.key_list(),
        }
    }

    /// The inverse view for one type: every (slot index, entity) binding,
    /// ascending by index. The caller guarantees that no two entities share
    /// an index of this type, which the store's invariants provide.
    pub fn get_index_entity_map(&self, key: TypeKey) -> (r: Vec<(usize, u64)>)
        requires
            self.wf(),
            forall|e1: u64, e2: u64|
                self.owns(e1, key.id) && self.owns(e2, key.id) && self.index_of(e1, key.id)
                    == self.index_of(e2, key.id) ==> e1 == e2,
        ensures
            is_sorted_strict(pair_firsts(r@)),
            forall|i: usize, e: u64|
                r@.contains((i, e)) <==> (self.owns(e, key.id) && self.index_of(e, key.id) == i),
    {
        let eids = self.ownership.key_list();
        let mut pairs: Vec<(usize, u64)> = Vec::new();
        let n = eids.len();
        let mut p: usize = 0;
        while p < n
            invariant
                self.wf(),
                forall|e1: u64, e2: u64|
                    self.owns(e1, key.id) && self.owns(e2, key.id) && self.index_of(e1, key.id)
                        == self.index_of(e2, key.id) ==> e1 == e2,
                n == eids@.len(),
                0 <= p <= n,
                forall|y: u64| eids@.contains(y) <==> self.has_entity(y),
                forall|i: int, j: int| 0 <= i < j < n ==> eids@[i] != eids@[j],
                is_sorted_strict(pair_firsts(pairs@)),
                forall|i: usize, e: u64|
                    pairs@.contains((i, e)) <==> (eids@.subrange(0, p as int).contains(e)
                        && self.owns(e, key.id) && self.index_of(e, key.id) == i),
            decreases n - p,
        {
            let eid = eids[p];
            let ghost prefix = eids@.subrange(0, p as int);
            let ghost prefix1 = eids@.subrange(0, p + 1);
            proof {
                assert(prefix1 =~= prefix.push(eid));
                assert forall|e: u64| prefix1.contains(e) implies (prefix.contains(e) || e
                    == eid) by {
                    let w = choose|w: int| 0 <= w < prefix1.len() && prefix1[w] == e;
                    if w < p {
                        assert(prefix[w] == e);
                    }
                }
                assert forall|e: u64| prefix.contains(e) implies prefix1.contains(e) by {
                    let w = choose|w: int| 0 <= w < prefix.len() && prefix[w] == e;
                    assert(prefix1[w] == e);
                }
                assert(prefix1.contains(eid)) by {
                    assert(prefix1[p as int] == eid);
                }
                // `eid` has not been seen in the prefix.
                assert(!prefix.contains(eid)) by {
                    if prefix.contains(eid) {
                        let w = choose|w: int| 0 <= w < prefix.len() && prefix[w] == eid;
                        assert(eids@[w] == eids@[p as int]);
                    }
                }
            }
            let owned = match self.ownership.get(eid) {
                Option::Some(inner) => match inner.get(key.id) {
                    Option::Some(i) => Option::Some(*i),
                    Option::None => Option::None,
                },
                Option::None => Option::None,
            };
            match owned {
                Option::Some(i) => {
                    proof {
                        assert(self.has_entity(eid)) by {
                            assert(eids@[p as int] == eid);
                        }
                        assert(self.owns(eid, key.id));
                        assert forall|k: int| 0 <= k < pairs@.len() implies (#[trigger] pairs@[
                            k]).0 != i by {
                            let pr = pairs@[k];
                            assert(pairs@.contains(pr));
                            if pr.0 == i {
                                // Another entity already placed this index:
                                // injectivity forces it to be `eid`, which
                                // is not in the prefix.
                                assert(self.owns(pr.1, key.id) && self.index_of(pr.1, key.id)
                                    == i);
                                assert(pr.1 == eid);
                                assert(prefix.contains(eid));
                            }
                        }
                    }
                    insert_pair(&mut pairs, i, eid);
                },
                Option::None => {
                    proof {
                        if self.has_entity(eid) {
                            assert(!self.owns(eid, key.id));
                        } else {
                            assert(eids@.contains(eid)) by {
                                assert(eids@[p as int] == eid);
                            }
                            assert(false);
                        }
                    }
                },
            }
            p = p + 1;
        }
        proof {
            assert(eids@.subrange(0, n as int) =~= eids@);
            assert forall|i: usize, e: u64|
                pairs@.contains((i, e)) <==> (self.owns(e, key.id) && self.index_of(e, key.id)
                    == i) by {
                if self.owns(e, key.id) {
                    assert(eids@.contains(e));
                }
            }
        }
        pairs
    }
}

/// Inserts (i, e) into a list of pairs kept ascending by slot index, no
/// index twice.
fn insert_pair(pairs: &mut Vec<(usize, u64)>, i: usize, e: u64)
    requires
        is_sorted_strict(pair_firsts(old(pairs)@)),
        forall|k: int| 0 <= k < old(pairs)@.len() ==> (#[trigger] old(pairs)@[k]).0 != i,
    ensures
        is_sorted_strict(pair_firsts(final(pairs)@)),
        forall|pr: (usize, u64)|
            final(pairs)@.contains(pr) <==> (old(pairs)@.contains(pr) || pr == (i, e)),
        final(pairs)@.len() == old(pairs)@.len() + 1,
{
    let ghost s0 = pairs@;
    let n = pairs.len();
    let mut p: usize = 0;
    while p < n && pairs[p].0 < i
        invariant
            n == s0.len(),
            pairs@ == s0,
            0 <= p <= n,
            forall|j: int| 0 <= j < p ==> (#[trigger] s0[j]).0 < i,
        decreases n - p,
    {
        p = p + 1;
    }
    assert(forall|j: int| p <= j < s0.len() ==> (#[trigger] s0[j]).0 > i) by {
        assert(forall|j: int|
            p < j < s0.len() ==> pair_firsts(s0)[p as int] < pair_firsts(s0)[j]);
        assert(forall|j: int| 0 <= j < s0.len() ==> pair_firsts(s0)[j] == (#[trigger] s0[j]).0);
    }
    pairs.insert(p, (i, e));
    proof {
        let s1 = pairs@;
        assert(s1 == s0.insert(p as int, (i, e)));
        let f1 = pair_firsts(s1);
        let f0 = pair_firsts(s0);
        assert(forall|j: int| 0 <= j < s0.len() ==> f0[j] == (#[trigger] s0[j]).0);
        assert(forall|j: int| 0 <= j < s1.len() ==> f1[j] == (#[trigger] s1[j]).0);
        assert forall|a: int, b: int| 0 <= a < b < f1.len() implies f1[a] < f1[b] by {
            if b < p {
                assert(s1[a] == s0[a] && s1[b] == s0[b]);
                assert(f0[a] < f0[b]);
            } else if a > p {
                assert(s1[a] == s0[a - 1] && s1[b] == s0[b - 1]);
                assert(f0[a - 1] < f0[b - 1]);
            } else if a == p && b > p {
                assert(s1[b] == s0[b - 1] && b - 1 >= p);
            } else if b == p {
                assert(s1[a] == s0[a] && a < p);
            } else {
                assert(a < p && b > p);
                assert(s1[a] == s0[a] && s1[b] == s0[b - 1] && b - 1 >= p);
            }
        }
        assert forall|pr: (usize, u64)| s1.contains(pr) implies (s0.contains(pr) || pr == (
        i,
        e,
        )) by {
            let w = choose|w: int| 0 <= w < s1.len() && s1[w] == pr;
            if w < p {
                assert(s0[w] == pr);
            } else if w > p {
                assert(s0[w - 1] == pr);
            }
        }
        assert forall|pr: (usize, u64)| s0.contains(pr) implies s1.contains(pr) by {
            let w = choose|w: int| 0 <= w < s0.len() && s0[w] == pr;
            if w < p {
                assert(s1[w] == pr);
            } else {
                assert(s1[w + 1] == pr);
            }
        }
        assert(s1.contains((i, e))) by {
            assert(s1[p as int] == (i, e));
        }
    }
}

/// After binding entity `e` to slot `i` of type `t`: the binding exists,
/// nothing else moved.
pub open spec fn bind_post(pre: COwnership, post: COwnership, e: u64, t: u64, i: usize) -> bool {
    &&& post.has_entity(e)
    &&& post.owns(e, t)
    &&& post.index_of(e, t) == i
    &&& forall|e2: u64| e2 != e ==> post.has_entity(e2) == pre.has_entity(e2)
    &&& forall|t2: u64|
        t2 != t ==> post.owns(e, t2) == pre.owns(e, t2) && (pre.owns(e, t2)
            ==> post.index_of(e, t2) == pre.index_of(e, t2))
    &&& forall|e2: u64, t2: u64|
        e2 != e ==> post.owns(e2, t2) == pre.owns(e2, t2) && (pre.owns(e2, t2)
            ==> post.index_of(e2, t2) == pre.index_of(e2, t2))
}

/// After rebinding entity `e`'s component of type `t` to slot `i`; an
/// entity that owns nothing of the type is reported and left alone.
pub open spec fn rebind_post(
    pre: COwnership,
    post: COwnership,
    e: u64,
    t: u64,
    i: usize,
    r: Result<(), ErrEcs>,
) -> bool {
    match r {
        Result::Ok(()) => {
            &&& pre.owns(e, t)
            &&& bind_post(pre, post, e, t, i)
        },
        Result::Err(err) => {
            &&& err == ErrEcs::NotFound
            &&& !pre.owns(e, t)
            &&& forall|e2: u64| post.has_entity(e2) == pre.has_entity(e2)
            &&& forall|e2: u64, t2: u64|
                post.owns(e2, t2) == pre.owns(e2, t2) && (pre.owns(e2, t2) ==> post.index_of(
                    e2,
                    t2,
                ) == pre.index_of(e2, t2))
        },
    }
}

/// After unbinding type `t` from entity `e`: the binding is gone, the
/// entity record stays; unknown entities are reported.
pub open spec fn unbind_post(
    pre: COwnership,
    post: COwnership,
    e: u64,
    t: u64,
    r: Result<(), ErrEcs>,
) -> bool {
    match r {
        Result::Ok(()) => {
            &&& pre.owns(e, t)
            &&& post.has_entity(e)
            &&& !post.owns(e, t)
            &&& forall|e2: u64| e2 != e ==> post.has_entity(e2) == pre.has_entity(e2)
            &&& forall|t2: u64|
                t2 != t ==> post.owns(e, t2) == pre.owns(e, t2) && (pre.owns(e, t2)
                    ==> post.index_of(e, t2) == pre.index_of(e, t2))
            &&& forall|e2: u64, t2: u64|
                e2 != e ==> post.owns(e2, t2) == pre.owns(e2, t2) && (pre.owns(e2, t2)
                    ==> post.index_of(e2, t2) == pre.index_of(e2, t2))
        },
        Result::Err(err) => {
            &&& err == ErrEcs::NotFound
            &&& !pre.owns(e, t)
            &&& post == pre
        },
    }
}

} // verus!
