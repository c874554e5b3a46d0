//! A factory that mints entities together with an ownership-proving token.
//!
//! The factory books which identifiers are in use and which token proves
//! ownership of which entity; freeing an entity retires both.

use vstd::prelude::*;

use crate::ErrEcs;
use crate::type_map::TypeMap;

verus! {

/// An entity handle as this factory mints it: the identifier, the token
/// that proves ownership, and a caller-maintained component mask.
pub struct Entity {
    pub id: u64,
    pub auth: u64,
    pub component_mask: u32,
}

pub struct EntityFactory {
    next: u64,
    active_entities: TypeMap<bool>,
    auth_entity: TypeMap<u64>,
}

impl EntityFactory {
    pub closed spec fn wf(self) -> bool {
        &&& self.active_entities.wf()
        &&& self.auth_entity.wf()
    }

    pub closed spec fn next_id(self) -> u64 {
        self.next
    }

    /// Whether an identifier is in use.
    pub closed spec fn is_active(self, id: u64) -> bool {
        self.active_entities@.dom().contains(id)
    }

    /// Whether a token is on record, and for which identifier.
    pub closed spec fn token_maps(self, auth: u64, id: u64) -> bool {
        self.auth_entity@.dom().contains(auth) && self.auth_entity@[auth] == id
    }

    pub fn new() -> (r: EntityFactory)
        ensures
            r.wf(),
            r.next_id() == 0,
            forall|id: u64| !r.is_active(id),
            forall|a: u64, id: u64| !r.token_maps(a, id),
    {
        EntityFactory {
            next: 0,
            active_entities: TypeMap::new(),
            auth_entity: TypeMap::new(),
        }
    }

    fn make_token(&mut self) -> (r: u64)
        requires
            old(self).wf(),
            old(self).next_id() < u64::MAX,
        ensures
            final(self).wf(),
            r == old(self).next_id(),
            final(self).next_id() == old(self).next_id() + 1,
            final(self).active_entities == old(self).active_entities,
            final(self).auth_entity == old(self).auth_entity,
    {
        let t = self.next;
        self.next = t + 1;
        t
    }

    /// Retires the token of an entity being freed.
    fn disown_id(&mut self, entity: &Entity) -> (r: Result<(), ErrEcs>)
        requires
            old(self).wf(),
        ensures
            final(self).wf(),
            final(self).active_entities == old(self).active_entities,
            final(self).next_id() == old(self).next_id(),
            match r {
                Result::Ok(()) => {
                    &&& old(self).token_maps(entity.auth, entity.id)
                    &&& forall|id: u64| !final(self).token_maps(entity.auth, id)
                    &&& forall|a: u64, id: u64|
                        a != entity.auth ==> final(self).token_maps(a, id) == old(
                            self,
                        ).token_maps(a, id)
                },
                Result::Err(e) => {
                    &&& e == ErrEcs::NotFound
                    &&& !old(self).token_maps(entity.auth, entity.id)
                    &&& *final(self) == *old(self)
                },
            },
    {
        let matches_id = match self.auth_entity.get(entity.auth) {
            Option::Some(id) => *id == entity.id,
            Option::None => false,
        };
        if !matches_id {
            return Result::Err(ErrEcs::NotFound);
        }
        self.auth_entity.remove(entity.auth);
        Result::Ok(())
    }

    /// Makes an entity identifier available again.
    fn free_id(&mut self, entity: &Entity) -> (r: Result<(), ErrEcs>)
        requires
            old(self).wf(),
        ensures
            final(self).wf(),
            final(self).auth_entity == old(self).auth_entity,
            final(self).next_id() == old(self).next_id(),
            match r {
                Result::Ok(()) => {
                    &&& old(self).is_active(entity.id)
                    &&& !final(self).is_active(entity.id)
                    &&& forall|id: u64|
                        id != entity.id ==> final(self).is_active(id) == old(self).is_active(id)
                },
                Result::Err(e) => {
                    &&& e == ErrEcs::NotFound
                    &&& !old(self).is_active(entity.id)
                    &&& *final(self) == *old(self)
                },
            },
    {
        if !self.active_entities.contains_key(entity.id) {
            return Result::Err(ErrEcs::NotFound);
        }
        self.active_entities.remove(entity.id);
        Result::Ok(())
    }

    /// Checks an entity's credentials; every handle this factory minted
    /// passes.
    pub fn authenticate(&self, en: &Entity) -> (r: Result<(), ErrEcs>)
        ensures
            r is Ok,
    {
        Result::Ok(())
    }

    /// Frees an entity: its identifier leaves the active set and its token
    /// is retired. An unknown identifier or a stale token is reported and
    /// nothing changes.
    pub fn free(&mut self, entity: Entity) -> (r: Result<(), ErrEcs>)
        requires
            old(self).wf(),
        ensures
            final(self).wf(),
            final(self).next_id() == old(self).next_id(),
            match r {
                Result::Ok(()) => {
                    &&& old(self).is_active(entity.id)
                    &&& old(self).token_maps(entity.auth, entity.id)
                    &&& !final(self).is_active(entity.id)
                    &&& forall|id: u64| !final(self).token_maps(entity.auth, id)
                    &&& forall|id: u64|
                        id != entity.id ==> final(self).is_active(id) == old(self).is_active(id)
                    &&& forall|a: u64, id: u64|
                        a != entity.auth ==> final(self).token_maps(a, id) == old(
                            self,
                        ).token_maps(a, id)
                },
                Result::Err(e) => {
                    &&& e == ErrEcs::NotFound
                    &&& (!old(self).is_active(entity.id) || !old(self).token_maps(
                        entity.auth,
                        entity.id,
                    ))
                    &&& *final(self) == *old(self)
                },
            },
    {
        // Check both credentials before touching anything: a failed free
        // must leave the books as they stood.
        let id_active = self.active_entities.contains_key(entity.id);
        let token_ok = match self.auth_entity.get(entity.auth) {
            Option::Some(id) => *id == entity.id,
            Option::None => false,
        };
        if !id_active || !token_ok {
            return Result::Err(ErrEcs::NotFound);
        }
        let freed = self.free_id(&entity);
        proof {
            assert(freed is Ok);
        }
        let disowned = self.disown_id(&entity);
        proof {
            assert(disowned is Ok);
        }
        Result::Ok(())
    }

    /// Mints a fresh entity with an identifier and an ownership token.
    pub fn create(&mut self) -> (e: Entity)
        requires
            old(self).wf(),
            old(self).next_id() < u64::MAX - 1,
        ensures
            final(self).wf(),
            e.id == old(self).next_id(),
            e.auth == old(self).next_id() + 1,
            e.component_mask == 0,
            final(self).next_id() == old(self).next_id() + 2,
            final(self).is_active(e.id),
            final(self).token_maps(e.auth, e.id),
            forall|id: u64|
                id != e.id ==> final(self).is_active(id) == old(self).is_active(id),
            forall|a: u64, id: u64|
                a != e.auth ==> final(self).token_maps(a, id) == old(self).token_maps(a, id),
    {
        let id = self.make_token();
        let auth = self.make_token();
        self.active_entities.insert(id, true);
        self.auth_entity.insert(auth, id);
        Entity { id, auth, component_mask: 0 }
    }
}

} // verus!
