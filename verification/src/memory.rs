//! Compaction: packing one type's live cells to the low end of its slab.
//!
//! The compactor walks the inverse ownership view in ascending slot order.
//! Every live cell already below the live count stays put; every live cell
//! at or above it swaps into the smallest free slot, which the smallest-
//! first allocation discipline guarantees lies below the live count. Each
//! move rebinds the owning entity, so no binding is lost and no value
//! moves without its owner learning the new slot. Afterwards the free list
//! resets and the slab shrinks to exactly the live count.

use vstd::prelude::*;

use crate::ErrEcs;
use crate::store::store_inv;
use crate::keys::TypeKey;
use crate::manager::CManager;
use crate::ownership::{COwnership, lemma_pair_firsts_contains, pair_firsts};
use crate::sorted_set::{
    is_sorted_strict, lemma_dense_set, lemma_sorted_eq, lemma_sorted_gap, lemma_sorted_min,
    lemma_sorted_prefix_id,
};

verus! {

/// What compaction of type `t` achieves: the slab, the high-water mark and
/// the packed count all equal the live count, nothing is recyclable, the
/// packed indices are exactly those below the live count, every binding of
/// `t` still reads its old value at its (possibly new) slot, and no other
/// type and no other binding moved at all.
pub open spec fn compress_post<V>(
    cm0: CManager<V>,
    co0: COwnership,
    cm1: CManager<V>,
    co1: COwnership,
    t: u64,
) -> bool {
    let live = cm0.packed(t).len() as int;
    &&& cm1.slab(t).len() == live
    &&& cm1.next_free(t) == live
    &&& cm1.free_q(t).len() == 0
    &&& cm1.packed(t).len() == live
    &&& forall|y: usize| cm1.packed(t).contains(y) <==> (y as int) < live
    &&& forall|e: u64| co1.has_entity(e) == co0.has_entity(e)
    &&& forall|e: u64, u: u64| co1.owns(e, u) == co0.owns(e, u)
    &&& forall|e: u64, u: u64|
        u != t && co0.owns(e, u) ==> co1.index_of(e, u) == co0.index_of(e, u)
    &&& forall|e: u64|
        #[trigger] co0.owns(e, t) ==> (co1.index_of(e, t) as int) < live && cm1.slab(
            t,
        )[co1.index_of(e, t) as int] == cm0.slab(t)[co0.index_of(e, t) as int]
    &&& forall|u: u64|
        u != t ==> cm1.has_slab(u) == cm0.has_slab(u) && cm1.has_packed(u) == cm0.has_packed(u)
            && cm1.has_free(u) == cm0.has_free(u)
    &&& forall|u: u64| u != t ==> cm1.slab(u) == cm0.slab(u)
    &&& forall|u: u64| u != t && cm0.has_packed(u) ==> cm1.packed(u) == cm0.packed(u)
    &&& forall|u: u64|
        u != t && cm0.has_free(u) ==> cm1.free_q(u) == cm0.free_q(u) && cm1.next_free(u)
            == cm0.next_free(u)
}

pub struct Memory;

impl Memory {
    /// Compacts the slab of one type key down to its live count, keeping
    /// every (entity, type) binding readable with its old value.
    pub fn compress<V>(
        cmanager: &mut CManager<V>,
        cownership: &mut COwnership,
        key: TypeKey,
    ) -> (r: Result<(), ErrEcs>)
        requires
            store_inv(*old(cmanager), *old(cownership)),
        ensures
            store_inv(*final(cmanager), *final(cownership)),
            match r {
                Result::Ok(()) => old(cmanager).has_slab(key.id) && compress_post(
                    *old(cmanager),
                    *old(cownership),
                    *final(cmanager),
                    *final(cownership),
                    key.id,
                ),
                Result::Err(e) => {
                    &&& e == ErrEcs::NotFound
                    &&& !old(cmanager).has_slab(key.id)
                    &&& *final(cmanager) == *old(cmanager)
                    &&& *final(cownership) == *old(cownership)
                },
            },
    {
        let ghost t = key.id;
        let ghost cm0 = *cmanager;
        let ghost co0 = *cownership;
        if !cmanager.knows_type(key) {
            return Result::Err(ErrEcs::NotFound);
        }
        let pairs = cownership.get_index_entity_map(key);
        let live = pairs.len();
        proof {
            cm0.lemma_sorted(t);
            assert forall|y: usize|
                cm0.packed(t).contains(y) <==> pair_firsts(pairs@).contains(y) by {
                lemma_pair_firsts_contains(pairs@, y);
                if cm0.packed(t).contains(y) {
                    let e = choose|e: u64| #[trigger] co0.owns(e, t) && co0.index_of(e, t) == y;
                    assert(pairs@.contains((y, e)));
                }
                if pair_firsts(pairs@).contains(y) {
                    let k = choose|k: int| 0 <= k < pairs@.len() && (#[trigger] pairs@[k]).0
                        == y;
                    let pr = pairs@[k];
                    assert(pairs@.contains(pr));
                    assert(co0.owns(pr.1, t) && co0.index_of(pr.1, t) == y);
                }
            }
            lemma_sorted_eq(cm0.packed(t), pair_firsts(pairs@));
            assert(cm0.packed(t).len() == live);
            if live > 0 {
                assert(cm0.packed(t).contains(cm0.packed(t)[live - 1]));
                lemma_sorted_gap(cm0.packed(t), 0, live - 1);
                assert(live <= cm0.slab(t).len());
            }
        }
        proof {
            assert forall|k: int| 0 <= k < pairs@.len() implies co0.owns(
                (#[trigger] pairs@[k]).1,
                t,
            ) && cownership.index_of(pairs@[k].1, t) == pairs@[k].0 by {
                assert(pairs@[k] == (pairs@[k].0, pairs@[k].1));
                assert(pairs@.contains((pairs@[k].0, pairs@[k].1)));
            }
        }
        let n = pairs.len();
        let mut p: usize = 0;
        while p < n
            invariant
                n == pairs@.len(),
                live == n,
                0 <= p <= n,
                cmanager.has_slab(t),
                t == key.id,
                store_inv(*cmanager, *cownership),
                is_sorted_strict(pair_firsts(pairs@)),
                forall|y: usize, e: u64|
                    pairs@.contains((y, e)) <==> (co0.owns(e, t) && co0.index_of(e, t) == y),
                live <= cm0.slab(t).len(),
                // The slab footprint and high-water mark never move here.
                cmanager.slab(t).len() == cm0.slab(t).len(),
                cmanager.next_free(t) == cm0.next_free(t),
                cmanager.packed(t).len() == live,
                // Ownership domains are untouched; other types entirely so.
                forall|e: u64| cownership.has_entity(e) == co0.has_entity(e),
                forall|e: u64, u: u64| cownership.owns(e, u) == co0.owns(e, u),
                forall|e: u64, u: u64|
                    u != t && co0.owns(e, u) ==> cownership.index_of(e, u) == co0.index_of(e, u),
                forall|u: u64|
                    u != t ==> cmanager.has_slab(u) == cm0.has_slab(u) && cmanager.has_packed(u)
                        == cm0.has_packed(u) && cmanager.has_free(u) == cm0.has_free(u),
                forall|u: u64| u != t ==> cmanager.slab(u) == cm0.slab(u),
                forall|u: u64|
                    u != t && cm0.has_packed(u) ==> cmanager.packed(u) == cm0.packed(u),
                forall|u: u64|
                    u != t && cm0.has_free(u) ==> cmanager.free_q(u) == cm0.free_q(u)
                        && cmanager.next_free(u) == cm0.next_free(u),
                // Processed bindings sit below the live count; unprocessed
                // ones still sit at their original slots.
                forall|k: int|
                    0 <= k < p ==> (cownership.index_of((#[trigger] pairs@[k]).1, t) as int)
                        < live,
                forall|k: int|
                    p <= k < n ==> cownership.index_of((#[trigger] pairs@[k]).1, t) == pairs@[
                    k].0,
                // Every binding of this type still reads its original value.
                forall|e: u64|
                    #[trigger] co0.owns(e, t) ==> cmanager.slab(t)[cownership.index_of(
                        e,
                        t,
                    ) as int] == cm0.slab(t)[co0.index_of(e, t) as int],
            decreases n - p,
        {
            let pr = pairs[p];
            let i = pr.0;
            let eid = pr.1;
            proof {
                assert(pairs@.contains(pairs@[p as int]));
                assert(co0.owns(eid, t) && co0.index_of(eid, t) == i);
                assert(cownership.owns(eid, t));
                assert(cownership.index_of(eid, t) == i);
                assert(cmanager.packed(t).contains(i));
            }
            if i >= live {
                proof {
                    let cmx = *cmanager;
                    cmx.lemma_sorted(t);
                    // Some slot below the live count is free: were every
                    // one of them packed, the packed set would hold more
                    // than `live` indices.
                    if forall|y: usize| (y as int) < live ==> cmx.packed(t).contains(y) {
                        lemma_sorted_prefix_id(cmx.packed(t), live as int);
                        let w = choose|w: int|
                            0 <= w < cmx.packed(t).len() && cmx.packed(t)[w] == i;
                        assert(cmx.packed(t)[w] == i);
                        if w < live {
                            assert(cmx.packed(t)[w] == w);
                        }
                        assert(w >= live);
                        assert(cmx.packed(t).len() > live);
                        assert(false);
                    }
                    let y0 = choose|y: usize| (y as int) < live && !cmx.packed(t).contains(y);
                    assert(y0 < cmx.slab(t).len());
                    assert(cmx.free_q(t).contains(y0));
                    lemma_sorted_min(cmx.free_q(t), y0);
                    assert(cmx.alloc_choice(t) <= y0 as int);
                    assert(cmx.alloc_choice(t) < live);
                    assert(cmx.alloc_choice(t) < cmx.slab(t).len());
                }
                let ghost cmp = *cmanager;
                let ghost cop = *cownership;
                let j = cmanager.unsafe_swap_with_free(key, i);
                proof {
                    // `j` was free, hence unpacked, unowned, and its cell
                    // empty; `i` was owned by `eid` alone.
                    assert(cmp.free_q(t).contains(j));
                    assert(!cmp.packed(t).contains(j));
                    assert(j != i);
                    assert forall|e2: u64| cop.owns(e2, t) implies cop.index_of(e2, t) != j by {
                        if cop.index_of(e2, t) == j {
                            assert(cmp.packed(t).contains(j));
                        }
                    }
                    assert forall|e2: u64| cop.owns(e2, t) && e2 != eid implies cop.index_of(
                        e2,
                        t,
                    ) != i by {}
                }
                let ur = cownership.update_index_by_id(eid, key, j);
                proof {
                    assert(ur is Ok);
                }
                let up = cmanager.unpack(key, i);
                proof {
                    assert(up is Ok);
                }
                cmanager.pack(key, j);
                proof {
                    let cm1 = *cmanager;
                    let co1 = *cownership;
                    co0.lemma_owns_entity();
                    cop.lemma_owns_entity();
                    co1.lemma_owns_entity();
                    // Packed set after the move: `i` out, `j` in.
                    assert(cm1.packed(t).len() == live);
                    assert(cm1.slab(t) == cmp.slab(t).update(i as int, cmp.slab(t)[j as int])
                        .update(j as int, cmp.slab(t)[i as int]));
                    // The store invariant, clause by clause.
                    assert forall|u: u64, y: usize|
                        cm1.has_packed(u) && #[trigger] cm1.packed(u).contains(y) implies y
                        < cm1.slab(u).len() by {
                        if u == t {
                            if y != j {
                                assert(cmp.packed(t).contains(y));
                            }
                        } else {
                            assert(cmp.packed(u).contains(y));
                        }
                    }
                    assert forall|u: u64, y: usize|
                        cm1.has_free(u) && #[trigger] cm1.free_q(u).contains(y) implies y
                        < cm1.slab(u).len() by {
                        if u == t {
                            if y != i {
                                assert(cmp.free_q(t).contains(y));
                            }
                        } else {
                            assert(cmp.free_q(u).contains(y));
                        }
                    }
                    assert forall|u: u64, y: usize|
                        cm1.has_packed(u) && #[trigger] cm1.packed(u).contains(y) implies !(
                    #[trigger] cm1.free_q(u).contains(y)) by {
                        if u == t {
                            if y == j {
                                assert(!cm1.free_q(t).contains(j));
                            } else {
                                assert(cmp.packed(t).contains(y));
                                if cm1.free_q(t).contains(y) {
                                    assert(cmp.free_q(t).contains(y) || y == i);
                                    assert(!cmp.packed(t).contains(i));
                                }
                            }
                        } else {
                            if cm1.free_q(u).contains(y) {
                                assert(cmp.packed(u).contains(y) && cmp.free_q(u).contains(y));
                            }
                        }
                    }
                    assert forall|u: u64, y: usize|
                        cm1.has_slab(u) && y < cm1.slab(u).len() implies (
                    #[trigger] cm1.packed(u).contains(y) || cm1.free_q(u).contains(y)) by {
                        if u == t {
                            if y == j {
                                assert(cm1.packed(t).contains(j));
                            } else if y == i {
                                assert(cm1.free_q(t).contains(i));
                            } else {
                                assert(cmp.packed(t).contains(y) || cmp.free_q(t).contains(y));
                            }
                        } else {
                            assert(cmp.packed(u).contains(y) || cmp.free_q(u).contains(y));
                        }
                    }
                    assert forall|u: u64, y: usize|
                        cm1.has_slab(u) && (y as int) < cm1.slab(u).len() implies ((
                    #[trigger] cm1.slab(u)[y as int]).is_occupied() <==> cm1.packed(u).contains(
                        y,
                    )) by {
                        if u == t {
                            if y == j {
                                assert(cm1.slab(t)[j as int] == cmp.slab(t)[i as int]);
                                assert(cmp.slab(t)[i as int].is_occupied());
                            } else if y == i {
                                assert(cm1.slab(t)[i as int] == cmp.slab(t)[j as int]);
                                assert(!cmp.slab(t)[j as int].is_occupied());
                                assert(!cm1.packed(t).contains(i));
                            } else {
                                assert(cm1.slab(t)[y as int] == cmp.slab(t)[y as int]);
                                assert(cmp.slab(t)[y as int].is_occupied() <==> cmp.packed(
                                    t,
                                ).contains(y));
                            }
                        } else {
                            assert(cm1.slab(u) == cmp.slab(u));
                            assert(cmp.slab(u)[y as int].is_occupied() <==> cmp.packed(
                                u,
                            ).contains(y));
                        }
                    }
                    assert forall|e: u64, u: u64| #[trigger] co1.owns(e, u) implies cm1.has_slab(
                        u,
                    ) && cm1.packed(u).contains(co1.index_of(e, u)) by {
                        assert(cop.owns(e, u));
                        if u == t {
                            if e == eid {
                                assert(co1.index_of(eid, t) == j);
                            } else {
                                assert(co1.index_of(e, u) == cop.index_of(e, u));
                                assert(cop.index_of(e, t) != i && cop.index_of(e, t) != j);
                                assert(cmp.packed(t).contains(cop.index_of(e, t)));
                            }
                        } else {
                            assert(co1.index_of(e, u) == cop.index_of(e, u));
                            assert(cmp.packed(u).contains(cop.index_of(e, u)));
                        }
                    }
                    assert forall|e1: u64, e2: u64, u: u64|
                        #[trigger] co1.owns(e1, u) && #[trigger] co1.owns(e2, u) && co1.index_of(
                            e1,
                            u,
                        ) == co1.index_of(e2, u) implies e1 == e2 by {
                        assert(cop.owns(e1, u) && cop.owns(e2, u));
                        if u == t {
                            if e1 != eid && e2 != eid {
                                assert(co1.index_of(e1, u) == cop.index_of(e1, u));
                                assert(co1.index_of(e2, u) == cop.index_of(e2, u));
                            } else if e1 == eid && e2 != eid {
                                assert(co1.index_of(e2, t) == cop.index_of(e2, t));
                                assert(cop.index_of(e2, t) != j);
                            } else if e2 == eid && e1 != eid {
                                assert(co1.index_of(e1, t) == cop.index_of(e1, t));
                                assert(cop.index_of(e1, t) != j);
                            }
                        } else {
                            assert(co1.index_of(e1, u) == cop.index_of(e1, u));
                            assert(co1.index_of(e2, u) == cop.index_of(e2, u));
                        }
                    }
                    assert forall|u: u64, y: usize|
                        cm1.has_packed(u) && #[trigger] cm1.packed(u).contains(y) implies exists|
                            e: u64,
                        | #[trigger] co1.owns(e, u) && co1.index_of(e, u) == y by {
                        if u == t {
                            if y == j {
                                assert(co1.owns(eid, t) && co1.index_of(eid, t) == j);
                            } else {
                                assert(cmp.packed(t).contains(y) && y != i);
                                let e2 = choose|e2: u64|
                                    #[trigger] cop.owns(e2, t) && cop.index_of(e2, t) == y;
                                assert(e2 != eid);
                                assert(co1.owns(e2, t) && co1.index_of(e2, t) == y);
                            }
                        } else {
                            assert(cmp.packed(u).contains(y));
                            let e2 = choose|e2: u64|
                                #[trigger] cop.owns(e2, u) && cop.index_of(e2, u) == y;
                            assert(co1.owns(e2, u) && co1.index_of(e2, u) == y);
                        }
                    }
                    // Processed and unprocessed slots, and value carrying.
                    assert forall|k: int|
                        0 <= k < p + 1 implies (co1.index_of((#[trigger] pairs@[k]).1, t) as int)
                        < live by {
                        let e2 = pairs@[k].1;
                        assert(pairs@[k] == (pairs@[k].0, pairs@[k].1));
                        assert(pairs@.contains((pairs@[k].0, e2)));
                        assert(co0.owns(e2, t) && co0.index_of(e2, t) == pairs@[k].0);
                        assert(cop.owns(e2, t));
                        if k < p {
                            if e2 == eid {
                                // The same entity cannot stand at two pair
                                // positions: indices are distinct.
                                assert(pairs@.contains(pairs@[k]));
                                assert(co0.owns(e2, t) && co0.index_of(e2, t) == pairs@[k].0);
                                assert(pairs@[k].0 == i);
                                assert(pair_firsts(pairs@)[k] == pairs@[k].0);
                                assert(pair_firsts(pairs@)[p as int] == i);
                                assert(false);
                            }
                            assert(co1.index_of(e2, t) == cop.index_of(e2, t));
                        } else {
                            assert(e2 == eid);
                            assert(co1.index_of(eid, t) == j);
                        }
                    }
                    assert forall|k: int|
                        p + 1 <= k < n implies cownership.index_of((#[trigger] pairs@[k]).1, t)
                        == pairs@[k].0 by {
                        let e2 = pairs@[k].1;
                        assert(pairs@[k] == (pairs@[k].0, pairs@[k].1));
                        assert(pairs@.contains((pairs@[k].0, e2)));
                        assert(co0.owns(e2, t) && co0.index_of(e2, t) == pairs@[k].0);
                        assert(cop.owns(e2, t));
                        if e2 == eid {
                            assert(pairs@[k].0 == i);
                            assert(pair_firsts(pairs@)[k] == pairs@[k].0);
                            assert(pair_firsts(pairs@)[p as int] == i);
                            assert(false);
                        }
                        assert(co1.index_of(e2, t) == cop.index_of(e2, t));
                    }
                    assert forall|e: u64| #[trigger] co0.owns(e, t) implies cm1.slab(
                        t,
                    )[co1.index_of(e, t) as int] == cm0.slab(t)[co0.index_of(e, t) as int] by {
                        if e == eid {
                            assert(co1.index_of(eid, t) == j);
                            assert(cm1.slab(t)[j as int] == cmp.slab(t)[i as int]);
                            assert(cop.index_of(eid, t) == i);
                            assert(cmp.slab(t)[i as int] == cm0.slab(t)[co0.index_of(
                                eid,
                                t,
                            ) as int]);
                        } else {
                            assert(cop.owns(e, t));
                            assert(co1.index_of(e, t) == cop.index_of(e, t));
                            let y = cop.index_of(e, t);
                            assert(y != i && y != j);
                            assert(cm1.slab(t)[y as int] == cmp.slab(t)[y as int]);
                            assert(cmp.slab(t)[y as int] == cm0.slab(t)[co0.index_of(
                                e,
                                t,
                            ) as int]);
                        }
                    }
                }
            }
            p = p + 1;
        }
        let ghost cmr = *cmanager;
        let ghost cor = *cownership;
        proof {
            cmr.lemma_sorted(t);
            assert forall|y: usize| #[trigger] cmr.packed(t).contains(y) implies (y as int)
                < live by {
                let e = choose|e: u64| #[trigger] cor.owns(e, t) && cor.index_of(e, t) == y;
                assert(co0.owns(e, t));
                assert(pairs@.contains((co0.index_of(e, t), e)));
                let k = choose|k: int|
                    0 <= k < pairs@.len() && pairs@[k] == (co0.index_of(e, t), e);
                assert((cor.index_of(pairs@[k].1, t) as int) < live);
                assert(cor.index_of(e, t) == y);
            }
            assert forall|k: int|
                0 <= k < cmr.packed(t).len() implies cmr.packed(t)[k] < cmr.packed(
                t,
            ).len() by {
                assert(cmr.packed(t).contains(cmr.packed(t)[k]));
            }
            lemma_dense_set(cmr.packed(t));
        }
        let rr = cmanager.reset_free(key, live);
        proof {
            assert(rr is Ok);
        }
        let rs = cmanager.cresize(key, live);
        proof {
            assert(rs is Ok);
            let cm1 = *cmanager;
            let co1 = *cownership;
            // The final store invariant over the truncated slab.
            assert forall|u: u64, y: usize|
                cm1.has_packed(u) && #[trigger] cm1.packed(u).contains(y) implies y < cm1.slab(
                u,
            ).len() by {
                if u != t {
                    assert(cm0.has_packed(u));
                    assert(cm1.packed(u) == cm0.packed(u));
                }
            }
            assert forall|u: u64, y: usize|
                cm1.has_free(u) && #[trigger] cm1.free_q(u).contains(y) implies y < cm1.slab(
                u,
            ).len() by {
                if u != t {
                    assert(cm0.has_free(u));
                    assert(cm1.free_q(u) == cm0.free_q(u));
                }
            }
            assert forall|u: u64, y: usize|
                cm1.has_slab(u) && y < cm1.slab(u).len() implies (#[trigger] cm1.packed(
                u,
            ).contains(y) || cm1.free_q(u).contains(y)) by {
                if u == t {
                    assert(cm1.packed(t).contains(y));
                }
            }
            assert forall|u: u64, y: usize|
                cm1.has_slab(u) && (y as int) < cm1.slab(u).len() implies ((#[trigger] cm1.slab(
                u,
            )[y as int]).is_occupied() <==> cm1.packed(u).contains(y)) by {
                if u == t {
                    assert(cm1.slab(t)[y as int] == cmr.slab(t)[y as int]);
                    assert(cmr.slab(t)[y as int].is_occupied() <==> cmr.packed(t).contains(y));
                    assert(cm1.packed(t) == cmr.packed(t));
                } else {
                    assert(cm1.slab(u) == cm0.slab(u));
                    assert(cm0.slab(u)[y as int].is_occupied() <==> cm0.packed(u).contains(y));
                }
            }
            assert forall|e: u64, u: u64| #[trigger] co1.owns(e, u) implies cm1.has_slab(u)
                && cm1.packed(u).contains(co1.index_of(e, u)) by {
                if u != t {
                    assert(co0.owns(e, u));
                }
            }
            assert forall|u: u64, y: usize|
                cm1.has_packed(u) && #[trigger] cm1.packed(u).contains(y) implies exists|e: u64|
                #[trigger] co1.owns(e, u) && co1.index_of(e, u) == y by {
                if u != t {
                    assert(cm0.packed(u).contains(y));
                }
            }
            assert forall|e: u64| #[trigger] co0.owns(e, t) implies (co1.index_of(e, t) as int)
                < live && cm1.slab(t)[co1.index_of(e, t) as int] == cm0.slab(t)[co0.index_of(
                e,
                t,
            ) as int] by {
                assert(pairs@.contains((co0.index_of(e, t), e)));
                let k = choose|k: int|
                    0 <= k < pairs@.len() && pairs@[k] == (co0.index_of(e, t), e);
                assert((cor.index_of(pairs@[k].1, t) as int) < live);
                assert((cor.index_of(e, t) as int) < live);
                assert(co1.index_of(e, t) == cor.index_of(e, t));
                assert(cm1.slab(t)[cor.index_of(e, t) as int] == cmr.slab(t)[cor.index_of(
                    e,
                    t,
                ) as int]);
                assert(cmr.slab(t)[cor.index_of(e, t) as int] == cm0.slab(t)[co0.index_of(
                    e,
                    t,
                ) as int]);
            }
        }
        Result::Ok(())
    }
}

} // verus!
