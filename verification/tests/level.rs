use ecstatic::entity::Entity;
use ecstatic::keys::TypeKey;
use ecstatic::level::Level;

#[test]
fn test_ecremove() {
    let mut level: Level<u64> = Level::new();
    let mut entity = Entity::new();
    let key = TypeKey::new(1);
    level.ecinsert(&mut entity, key, 0u64).unwrap();
    assert!(Entity::has_component(&entity, key));
    assert!(level.component_len(key) == 1);
    level.ecempty(&mut entity, key).unwrap();
    assert!(!Entity::has_component(&entity, key));
    assert!(level.component_len(key) == 0);
}

#[test]
fn test_ecget_modify() {
    let mut level: Level<u64> = Level::new();
    let mut entity = Entity::new();
    let key = TypeKey::new(1);
    level.ecinsert(&mut entity, key, 0u64).unwrap();

    let previous = level.ecread(&entity, key).unwrap();
    level.ecmodify(&entity, key, |component: u64| component.wrapping_add(1)).unwrap();
    let after = level.ecread(&entity, key).unwrap();
    assert!(previous == 0 && after == 1, "previous: {}, after: {}", previous, after);

    let previous = level.ecread(&entity, key).unwrap();
    level.ecmodify(&entity, key, |component: u64| component.wrapping_sub(1)).unwrap();
    let after = level.ecread(&entity, key).unwrap();
    assert!(previous == 1 && after == 0, "previous: {}, after: {}", previous, after);
}

#[test]
fn test_ecget_component_for_entity() {
    let mut level: Level<u64> = Level::new();
    let key_u64 = TypeKey::new(1);
    let key_usz = TypeKey::new(2);

    let mut entity = Entity::new();
    level.ecinsert(&mut entity, key_u64, 1u64).unwrap();
    assert!(Entity::has_component(&entity, key_u64));
    let value = level.ecread(&entity, key_u64).unwrap();
    assert!(value == 1u64, "actual: {}", value);

    let mut entity2 = Entity::new();
    level.ecinsert(&mut entity2, key_u64, 2u64).unwrap();
    assert!(Entity::has_component(&entity2, key_u64));
    let value = level.ecread(&entity2, key_u64).unwrap();
    assert!(value == 2u64, "actual: {}", value);

    level.ecinsert(&mut entity, key_usz, 23u64).unwrap();
    assert!(Entity::has_component(&entity, key_usz));
    assert!(!Entity::has_component(&entity2, key_usz));
    let value = level.ecread(&entity, key_usz).unwrap();
    assert!(value == 23u64, "actual: {}", value);
}

#[test]
#[should_panic]
fn test_none_ecget() {
    let level: Level<u64> = Level::new();
    let entity = Entity::new();
    let _value = level.ecread(&entity, TypeKey::new(1)).unwrap();
}

#[test]
fn test_ecinsert_two_of_same_component_into_same_entity() {
    let mut level: Level<u64> = Level::new();
    let mut entity = Entity::new();
    let key = TypeKey::new(1);
    level.ecinsert(&mut entity, key, 1u64).unwrap();
    let second = level.ecinsert(&mut entity, key, 2u64);
    assert!(second == Err(ecstatic::ErrEcs::DuplicateComponent));
    let value = level.ecread(&entity, key).unwrap();
    assert!(value == 1u64, "actual: {}", value);
}

#[test]
fn test_entity_component_index_bookkeeping() {
    let mut entity = Entity::new();
    let key = TypeKey::new(4);
    assert!(Entity::get_component_index(&entity, key) == Err(ecstatic::ErrEcs::NotFound));
    Entity::insert_component(&mut entity, key, 7);
    assert_eq!(Entity::get_component_index(&entity, key).unwrap(), 7);
    // A second insert for the same type is a no-op.
    Entity::insert_component(&mut entity, key, 9);
    assert_eq!(Entity::get_component_index(&entity, key).unwrap(), 7);
    Entity::remove_component(&mut entity, key);
    assert!(!Entity::has_component(&entity, key));
}
