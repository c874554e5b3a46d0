//! The store invariant: what holds of the component manager and the
//! ownership map at every quiescent point.
//!
//! For each known type key: its packed and free indices split the slab's
//! positions exactly, the high-water mark is the slab length, a cell is
//! occupied precisely when its index is packed, every binding points at a
//! packed index, no two entities share an index, and every packed index is
//! owned by exactly one entity.

use vstd::prelude::*;

use crate::manager::CManager;
use crate::ownership::COwnership;

verus! {

pub open spec fn store_inv<V>(cm: CManager<V>, co: COwnership) -> bool {
    &&& cm.wf()
    &&& co.wf()
    &&& forall|t: u64| cm.has_slab(t) == cm.has_packed(t)
    &&& forall|t: u64| cm.has_slab(t) == cm.has_free(t)
    &&& forall|t: u64|
        #[trigger] cm.has_slab(t) ==> cm.next_free(t) == cm.slab(t).len()
    &&& forall|t: u64, y: usize|
        cm.has_packed(t) && #[trigger] cm.packed(t).contains(y) ==> y < cm.slab(t).len()
    &&& forall|t: u64, y: usize|
        cm.has_free(t) && #[trigger] cm.free_q(t).contains(y) ==> y < cm.slab(t).len()
    &&& forall|t: u64, y: usize|
        !(cm.has_packed(t) && #[trigger] cm.packed(t).contains(y) && #[trigger] cm.free_q(
            t,
        ).contains(y))
    &&& forall|t: u64, y: usize|
        cm.has_slab(t) && y < cm.slab(t).len() ==> (#[trigger] cm.packed(t).contains(y)
            || cm.free_q(t).contains(y))
    &&& forall|t: u64, y: usize|
        cm.has_slab(t) && (y as int) < cm.slab(t).len() ==> ((#[trigger] cm.slab(
            t,
        )[y as int]).is_occupied() <==> cm.packed(t).contains(y))
    &&& forall|e: u64, t: u64|
        #[trigger] co.owns(e, t) ==> cm.has_slab(t) && cm.packed(t).contains(co.index_of(e, t))
    &&& forall|e1: u64, e2: u64, t: u64|
        #[trigger] co.owns(e1, t) && #[trigger] co.owns(e2, t) && co.index_of(e1, t)
            == co.index_of(e2, t) ==> e1 == e2
    &&& forall|t: u64, y: usize|
        cm.has_packed(t) && #[trigger] cm.packed(t).contains(y) ==> exists|e: u64|
            #[trigger] co.owns(e, t) && co.index_of(e, t) == y
}

} // verus!
