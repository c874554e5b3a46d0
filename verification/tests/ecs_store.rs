use ecstatic::ecs::{Config, Ecs};
use ecstatic::emanager::EManager;
use ecstatic::entity_factory::EntityFactory;
use ecstatic::keys::TypeKey;
use ecstatic::ErrEcs;

#[test]
fn basic_round_trip() {
    let mut ecs: Ecs<u64> = Ecs::new();
    let key = TypeKey::new(1);
    let e = ecs.espawn();
    ecs.ecinsert(e, key, 32u64).unwrap();
    assert_eq!(ecs.ecread(e, key).unwrap(), 32u64);
    assert_eq!(ecs.len(key), 1);
    assert_eq!(ecs.capacity(key), 1);
}

#[test]
fn index_reuse_after_empty() {
    let mut ecs: Ecs<u64> = Ecs::new();
    let key = TypeKey::new(1);
    let e = ecs.espawn();
    ecs.ecinsert(e, key, 32u64).unwrap();
    let cap_before = ecs.capacity(key);
    ecs.ecempty(e, key).unwrap();
    ecs.ecinsert(e, key, 23u64).unwrap();
    // The freed slot is recycled: the slab did not grow.
    assert_eq!(ecs.capacity(key), cap_before);
    assert_eq!(ecs.ecread(e, key).unwrap(), 23u64);
}

#[test]
fn cross_entity_independence() {
    let mut ecs: Ecs<u64> = Ecs::new();
    let key_u64 = TypeKey::new(1);
    let key_usz = TypeKey::new(2);
    let e1 = ecs.espawn();
    let e2 = ecs.espawn();
    ecs.ecinsert(e1, key_u64, 1u64).unwrap();
    ecs.ecinsert(e2, key_u64, 2u64).unwrap();
    ecs.ecinsert(e1, key_usz, 23u64).unwrap();
    assert_eq!(ecs.ecread(e1, key_u64).unwrap(), 1u64);
    assert_eq!(ecs.ecread(e2, key_u64).unwrap(), 2u64);
    assert_eq!(ecs.ecread(e1, key_usz).unwrap(), 23u64);
    assert_eq!(ecs.ecread(e2, key_usz), Err(ErrEcs::NotFound));
}

#[test]
fn duplicate_give_rejected() {
    let mut ecs: Ecs<u64> = Ecs::new();
    let key = TypeKey::new(1);
    let e = ecs.espawn();
    ecs.ecinsert(e, key, 1u64).unwrap();
    assert_eq!(ecs.ecinsert(e, key, 2u64), Err(ErrEcs::DuplicateComponent));
    assert_eq!(ecs.ecread(e, key).unwrap(), 1u64);
}

#[test]
fn set_round_trip() {
    let mut ecs: Ecs<u64> = Ecs::new();
    let key = TypeKey::new(1);
    let e = ecs.espawn();
    ecs.ecinsert(e, key, 1u64).unwrap();
    assert_eq!(ecs.ecread(e, key).unwrap(), 1u64);
    ecs.ecset(e, key, 9u64).unwrap();
    assert_eq!(ecs.ecread(e, key).unwrap(), 9u64);
    let stranger = ecs.espawn();
    assert_eq!(ecs.ecset(stranger, key, 5u64), Err(ErrEcs::NotFound));
}

#[test]
fn modify_round_trip() {
    let mut ecs: Ecs<u64> = Ecs::new();
    let key = TypeKey::new(1);
    let e = ecs.espawn();
    ecs.ecinsert(e, key, 6u64).unwrap();
    ecs.ecmodify(e, key, |v: u64| v.wrapping_mul(7)).unwrap();
    assert_eq!(ecs.ecread(e, key).unwrap(), 42u64);
    let stranger = ecs.espawn();
    assert_eq!(ecs.ecmodify(stranger, key, |v: u64| v), Err(ErrEcs::NotFound));
}

#[test]
fn layout_a_compaction() {
    // Fill 100 entities with one type, free the first 99, compact: one
    // dense cell survives with its value.
    let mut ecs: Ecs<u64> = Ecs::new();
    let key = TypeKey::new(1);
    let mut ev: Vec<u64> = vec![];
    for i in 0..100u64 {
        let e = ecs.espawn();
        ecs.ecinsert(e, key, 1000 + i).unwrap();
        ev.push(e);
    }
    for i in 0..99 {
        ecs.ecfree(ev[i]).unwrap();
    }
    assert_eq!(ecs.len(key), 1);
    assert_eq!(ecs.capacity(key), 100);
    ecs.compress_memory(key).unwrap();
    assert_eq!(ecs.len(key), 1);
    assert_eq!(ecs.capacity(key), 1);
    assert_eq!(ecs.ecread(ev[99], key).unwrap(), 1099);
}

#[test]
fn layout_b_compaction() {
    // Fill 100 entities (value = index + 1), free every even-indexed one,
    // compact: 50 survivors, all values intact, half the footprint.
    let mut ecs: Ecs<u64> = Ecs::new();
    let key = TypeKey::new(1);
    let mut ev: Vec<u64> = vec![];
    for i in 0..100u64 {
        let e = ecs.espawn();
        ecs.ecinsert(e, key, i + 1).unwrap();
        ev.push(e);
    }
    for i in 0..100 {
        if i % 2 == 0 {
            ecs.ecfree(ev[i]).unwrap();
        }
    }
    ecs.compress_memory(key).unwrap();
    assert_eq!(ecs.len(key), 50);
    assert_eq!(ecs.capacity(key), 50);
    for i in 0..100u64 {
        if i % 2 == 1 {
            assert_eq!(ecs.ecread(ev[i as usize], key).unwrap(), i + 1);
        }
    }
}

#[test]
fn compaction_preserves_other_types() {
    let mut ecs: Ecs<u64> = Ecs::new();
    let key_a = TypeKey::new(1);
    let key_b = TypeKey::new(2);
    let keeper = ecs.espawn();
    ecs.ecinsert(keeper, key_b, 77u64).unwrap();
    let mut ev: Vec<u64> = vec![];
    for i in 0..10u64 {
        let e = ecs.espawn();
        ecs.ecinsert(e, key_a, i).unwrap();
        ev.push(e);
    }
    for i in 0..9 {
        ecs.ecempty(ev[i], key_a).unwrap();
    }
    ecs.compress_memory(key_a).unwrap();
    assert_eq!(ecs.len(key_a), 1);
    assert_eq!(ecs.capacity(key_a), 1);
    assert_eq!(ecs.ecread(ev[9], key_a).unwrap(), 9u64);
    assert_eq!(ecs.ecread(keeper, key_b).unwrap(), 77u64);
}

#[test]
fn packed_indices_are_dense_after_compaction() {
    let mut ecs: Ecs<u64> = Ecs::new();
    let key = TypeKey::new(1);
    let mut ev: Vec<u64> = vec![];
    for i in 0..8u64 {
        let e = ecs.espawn();
        ecs.ecinsert(e, key, i).unwrap();
        ev.push(e);
    }
    for i in [0usize, 2, 3, 6] {
        ecs.ecempty(ev[i], key).unwrap();
    }
    assert_eq!(ecs.iter_packed(key), vec![1usize, 4, 5, 7]);
    ecs.compress_memory(key).unwrap();
    assert_eq!(ecs.iter_packed(key), vec![0usize, 1, 2, 3]);
}

#[test]
fn compress_unknown_type_fails() {
    let mut ecs: Ecs<u64> = Ecs::new();
    assert_eq!(ecs.compress_memory(TypeKey::new(9)), Err(ErrEcs::NotFound));
}

#[test]
fn free_entity_cascades() {
    let mut ecs: Ecs<u64> = Ecs::new();
    let key_a = TypeKey::new(1);
    let key_b = TypeKey::new(2);
    let e = ecs.espawn();
    let other = ecs.espawn();
    ecs.ecinsert(e, key_a, 1u64).unwrap();
    ecs.ecinsert(e, key_b, 2u64).unwrap();
    ecs.ecinsert(other, key_a, 3u64).unwrap();
    ecs.ecfree(e).unwrap();
    assert_eq!(ecs.ecread(e, key_a), Err(ErrEcs::NotFound));
    assert_eq!(ecs.ecread(e, key_b), Err(ErrEcs::NotFound));
    assert_eq!(ecs.ecread(other, key_a).unwrap(), 3u64);
    assert_eq!(ecs.ecfree(e), Err(ErrEcs::NotFound));
}

#[test]
fn compaction_policy_thresholds() {
    let mut ecs: Ecs<u64> = Ecs::with_config(Config {
        capacity_floor: 10,
        ratio_num: 1,
        ratio_den: 5,
    });
    let key = TypeKey::new(1);
    let mut ev: Vec<u64> = vec![];
    for i in 0..10u64 {
        let e = ecs.espawn();
        ecs.ecinsert(e, key, i).unwrap();
        ev.push(e);
    }
    // Full slab: the live share is far above one fifth.
    assert!(!ecs.should_compress(key));
    for i in 0..9 {
        ecs.ecempty(ev[i], key).unwrap();
    }
    // One live cell in ten, floor reached: compaction is due.
    assert!(ecs.should_compress(key));
    ecs.maybe_compress(key).unwrap();
    assert_eq!(ecs.len(key), 1);
    assert_eq!(ecs.capacity(key), 1);
    assert_eq!(ecs.ecread(ev[9], key).unwrap(), 9u64);
    // Below the floor again: a further call is a no-op.
    assert!(!ecs.should_compress(key));
    ecs.maybe_compress(key).unwrap();
    assert_eq!(ecs.capacity(key), 1);
}

#[test]
fn unseen_type_reports_nothing() {
    let ecs: Ecs<u64> = Ecs::new();
    let key = TypeKey::new(1);
    assert_eq!(ecs.len(key), 0);
    assert_eq!(ecs.capacity(key), 0);
    assert!(!ecs.should_compress(key));
}

#[test]
fn emanager_mints_fresh_ids() {
    let mut m = EManager::new();
    let a = m.create();
    let b = m.create();
    assert_eq!(a.id, 0);
    assert_eq!(b.id, 1);
}

#[test]
fn entity_factory_create_free() {
    let mut f = EntityFactory::new();
    let e = f.create();
    assert!(f.authenticate(&e).is_ok());
    let id = e.id;
    let auth = e.auth;
    assert_eq!(e.component_mask, 0);
    // A stale token frees nothing: the identifier stays active.
    let stale = ecstatic::entity_factory::Entity { id, auth: auth + 100, component_mask: 0 };
    assert_eq!(f.free(stale), Err(ErrEcs::NotFound));
    f.free(e).unwrap();
    let again = ecstatic::entity_factory::Entity { id, auth, component_mask: 0 };
    assert_eq!(f.free(again), Err(ErrEcs::NotFound));
}
