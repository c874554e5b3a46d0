//! The laws of the store, stated and proved over the operations' named
//! postconditions.
//!
//! Each law quantifies over every state and input its statement allows;
//! the operations' own `ensures` supply the premises.

use vstd::prelude::*;

use crate::component::{
    cempty_post, cinsert_post, component_inv, lemma_insert_choice_smallest, Indices, Lengths,
};
use crate::ecs::{ecs_read, empty_post, give_post, Ecs};
use crate::keys::Cell;
use crate::sorted_set::lemma_sorted_min;
use crate::storage::Storage;

verus! {

/// At the component layer: straight after an insertion, the slot the
/// insertion returned is in bounds and holds the inserted value, so
/// `Component::read` of that slot — whose contract returns exactly the
/// occupant — yields it.
pub proof fn lemma_component_read_after_insert<V>(
    s0: Storage<V>,
    x0: Indices,
    l0: Lengths,
    s1: Storage<V>,
    x1: Indices,
    l1: Lengths,
    t: u64,
    v: V,
    i: usize,
)
    requires
        cinsert_post(s0, x0, l0, s1, x1, l1, t, v, i as int),
    ensures
        s1.has(t),
        (i as int) < s1.slab(t).len(),
        s1.slab(t)[i as int] == Cell::Occupied(v),
        s1.slab(t)[i as int].is_occupied(),
{
}

/// Emptying a binding straight after giving it cannot fail: the slot the
/// give bound lies within the slab, which rules out every error case of
/// the level's empty (no binding, no slab, slot out of bounds).
pub proof fn lemma_level_empty_after_give<V>(
    s0: Storage<V>,
    x0: Indices,
    l0: Lengths,
    s1: Storage<V>,
    x1: Indices,
    l1: Lengths,
    t: u64,
    v: V,
    e: crate::entity::Entity,
)
    requires
        cinsert_post(s0, x0, l0, s1, x1, l1, t, v, crate::component::insert_choice(x0, t)),
        e.has_binding(t),
        e.index(t) as int == crate::component::insert_choice(x0, t),
    ensures
        s1.has(t),
        (e.index(t) as int) < s1.slab(t).len(),
{
}

/// At the component layer: insert, empty the slot, insert again — the
/// second value lands at the freed slot or a lower one, and is read back.
pub proof fn lemma_component_reinsert_reuses_slot<V>(
    s0: Storage<V>,
    x0: Indices,
    l0: Lengths,
    s1: Storage<V>,
    x1: Indices,
    l1: Lengths,
    s2: Storage<V>,
    x2: Indices,
    l2: Lengths,
    s3: Storage<V>,
    x3: Indices,
    l3: Lengths,
    t: u64,
    v1: V,
    v2: V,
    i1: usize,
    i2: usize,
)
    requires
        component_inv(s2, x2, l2),
        cinsert_post(s0, x0, l0, s1, x1, l1, t, v1, i1 as int),
        cempty_post(s1, x1, l1, s2, x2, l2, t, i1),
        cinsert_post(s2, x2, l2, s3, x3, l3, t, v2, i2 as int),
    ensures
        i2 <= i1,
        s3.slab(t)[i2 as int] == Cell::Occupied(v2),
{
    assert(x2.free_of(t).contains(i1));
    lemma_insert_choice_smallest(x2, t, i1);
}

/// The entities bound to type `t`.
pub open spec fn owner_set<V>(s: Ecs<V>, t: u64) -> Set<u64> {
    Set::new(|e: u64| s.ownership_part().owns(e, t))
}

/// The live count of a type is the number of entities bound to it: the
/// binding index is a bijection between the owners and the packed indices.
pub proof fn lemma_live_count_counts_owners<V>(s: Ecs<V>, t: u64)
    requires
        s.wf(),
        s.manager_part().has_packed(t),
    ensures
        owner_set(s, t).finite(),
        owner_set(s, t).len() == s.manager_part().packed(t).len(),
{
    let cm = s.manager_part();
    let co = s.ownership_part();
    let owners = owner_set(s, t);
    let pseq = cm.packed(t);
    let pset = pseq.to_set();
    cm.lemma_sorted(t);
    assert(pseq.no_duplicates()) by {
        assert forall|i: int, j: int|
            0 <= i < pseq.len() && 0 <= j < pseq.len() && i != j implies pseq[i] != pseq[j] by {
            if i < j {
                assert(pseq[i] < pseq[j]);
            } else {
                assert(pseq[j] < pseq[i]);
            }
        }
    }
    vstd::seq_lib::seq_to_set_is_finite::<usize>(pseq);
    pseq.unique_seq_to_set();
    let f = |e: u64| co.index_of(e, t);
    let g = |y: usize| choose|e: u64| #[trigger] co.owns(e, t) && co.index_of(e, t) == y;
    // Every owner appears as the (unique) owner of its own index.
    assert forall|e: u64| owners.contains(e) implies pset.map(g).contains(e) by {
        let y = co.index_of(e, t);
        assert(cm.packed(t).contains(y));
        assert(pseq.contains(y));
        assert(pset.contains(y));
        assert(co.owns(g(y), t) && co.index_of(g(y), t) == y);
        assert(g(y) == e);
    }
    assert forall|z: u64| pset.map(g).contains(z) implies owners.contains(z) by {
        let y = choose|y: usize| pset.contains(y) && z == g(y);
        assert(pseq.contains(y));
        assert(cm.packed(t).contains(y));
        assert(exists|e: u64| #[trigger] co.owns(e, t) && co.index_of(e, t) == y);
        assert(co.owns(g(y), t));
    }
    assert(owners =~= pset.map(g));
    vstd::set_lib::lemma_map_size_bound(pset, owners, g);
    assert(vstd::relations::injective_on(f, owners)) by {
        assert forall|e1: u64, e2: u64|
            owners.contains(e1) && owners.contains(e2) && #[trigger] f(e1) == #[trigger] f(
            e2,
        ) implies e1 == e2 by {
            assert(co.owns(e1, t) && co.owns(e2, t));
        }
    }
    assert forall|y: usize| owners.map(f).contains(y) implies pset.contains(y) by {
        let e = choose|e: u64| owners.contains(e) && y == f(e);
        assert(co.owns(e, t));
        assert(cm.packed(t).contains(y));
        assert(pseq.contains(y));
    }
    assert forall|y: usize| pset.contains(y) implies owners.map(f).contains(y) by {
        assert(pseq.contains(y));
        assert(cm.packed(t).contains(y));
        let e = choose|e: u64| #[trigger] co.owns(e, t) && co.index_of(e, t) == y;
        assert(owners.contains(e) && f(e) == y);
    }
    assert(owners.map(f) =~= pset);
    vstd::set_lib::lemma_map_size(owners, pset, f);
}

/// Reading a binding immediately after giving it — with no mutator of that
/// binding in between — yields the given value.
pub proof fn lemma_read_after_give<V>(pre: Ecs<V>, post: Ecs<V>, id: u64, t: u64, v: V)
    requires
        give_post(pre, post, id, t, v),
    ensures
        ecs_read(post, id, t) == Option::Some(v),
{
}

/// The allocator never passes over a recyclable slot for a higher one: the
/// next index handed out for a type is at or below every free index.
pub proof fn lemma_alloc_takes_smallest<V>(s: Ecs<V>, t: u64, i: usize)
    requires
        s.wf(),
        s.manager_part().has_free(t),
        s.manager_part().free_q(t).contains(i),
    ensures
        s.manager_part().alloc_choice(t) <= i,
{
    s.manager_part().lemma_sorted(t);
    lemma_sorted_min(s.manager_part().free_q(t), i);
}

/// Give, empty, give again: the second value is read back, and the slot it
/// landed on is the freed slot or a lower one.
pub proof fn lemma_regive_reuses_slot<V>(
    s0: Ecs<V>,
    s1: Ecs<V>,
    s2: Ecs<V>,
    s3: Ecs<V>,
    id: u64,
    t: u64,
    v1: V,
    v2: V,
)
    requires
        s2.wf(),
        give_post(s0, s1, id, t, v1),
        empty_post(s1, s2, id, t),
        give_post(s2, s3, id, t, v2),
    ensures
        ecs_read(s3, id, t) == Option::Some(v2),
        s3.ownership_part().index_of(id, t) <= s1.ownership_part().index_of(id, t),
{
    let i1 = s1.ownership_part().index_of(id, t);
    assert(s2.manager_part().free_q(t).contains(i1));
    s2.manager_part().lemma_sorted(t);
    lemma_sorted_min(s2.manager_part().free_q(t), i1);
}

/// The live count of a type is the number of entities bound to it: any
/// listing with exactly one entry per owner has exactly `packed` many
/// entries.
pub proof fn lemma_live_count_is_owner_count<V>(s: Ecs<V>, t: u64, listing: Seq<(usize, u64)>)
    requires
        s.wf(),
        s.manager_part().has_packed(t),
        crate::sorted_set::is_sorted_strict(crate::ownership::pair_firsts(listing)),
        forall|y: usize, e: u64|
            listing.contains((y, e)) <==> (s.ownership_part().owns(e, t)
                && s.ownership_part().index_of(e, t) == y),
    ensures
        listing.len() == s.manager_part().packed(t).len(),
{
    let cm = s.manager_part();
    let co = s.ownership_part();
    cm.lemma_sorted(t);
    assert forall|y: usize|
        cm.packed(t).contains(y) <==> crate::ownership::pair_firsts(listing).contains(y) by {
        crate::ownership::lemma_pair_firsts_contains(listing, y);
        if cm.packed(t).contains(y) {
            let e = choose|e: u64| #[trigger] co.owns(e, t) && co.index_of(e, t) == y;
            assert(listing.contains((y, e)));
        }
        if crate::ownership::pair_firsts(listing).contains(y) {
            let k = choose|k: int| 0 <= k < listing.len() && (#[trigger] listing[k]).0 == y;
            let pr = listing[k];
            assert(listing.contains(pr));
            assert(pr == (pr.0, pr.1));
            assert(co.owns(pr.1, t) && co.index_of(pr.1, t) == y);
            assert(cm.packed(t).contains(y));
        }
    }
    crate::sorted_set::lemma_sorted_eq(cm.packed(t), crate::ownership::pair_firsts(listing));
}

} // verus!
