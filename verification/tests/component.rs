use ecstatic::component::Component;
use ecstatic::keys::TypeKey;

#[derive(Clone, Copy, PartialEq, Eq, Debug)]
enum Comp {
    U64(u64),
    Flag(bool),
}

#[test]
fn test_expected_indices_on_insert() {
    let (mut storage, mut indices, mut lengths) = Component::new();
    let i = Component::insert::<u64>(TypeKey::new(1), 32u64, &mut storage, &mut indices, &mut lengths).unwrap();
    assert!(i == 0);
}

#[test]
fn test_reusing_indices() {
    let (mut storage, mut indices, mut lengths) = Component::new();
    let key = TypeKey::new(1);
    let i = Component::insert::<u64>(key, 32u64, &mut storage, &mut indices, &mut lengths).unwrap();
    Component::empty(key, i, &mut storage, &mut indices, &mut lengths).unwrap();
    let j = Component::insert::<u64>(key, 23u64, &mut storage, &mut indices, &mut lengths).unwrap();
    assert!(i == j, "i: {}, j: {}", i, j);
}

#[test]
fn test_insert() {
    let (mut storage, mut indices, mut lengths) = Component::new();
    let _i = Component::insert::<u64>(TypeKey::new(1), 32u64, &mut storage, &mut indices, &mut lengths).unwrap();
}

#[test]
fn test_is_empty() {
    let (mut storage, mut indices, mut lengths) = Component::new();
    let key = TypeKey::new(1);
    let i = Component::insert::<u64>(key, 32u64, &mut storage, &mut indices, &mut lengths).unwrap();
    assert!(!Component::is_empty(key, i, &storage).unwrap());
    Component::empty(key, i, &mut storage, &mut indices, &mut lengths).unwrap();
    assert!(Component::is_empty(key, i, &storage).unwrap());
}

#[test]
#[should_panic]
fn test_get() {
    let (storage, _indices, _lengths) = Component::new::<u64>();
    match Component::read(TypeKey::new(1), 0, &storage) {
        Ok(_) => (),
        Err(_) => panic!(),
    }
}

#[test]
#[should_panic]
fn test_empty() {
    let (mut storage, mut indices, mut lengths) = Component::new::<u64>();
    match Component::empty(TypeKey::new(1), 0, &mut storage, &mut indices, &mut lengths) {
        Ok(_) => (),
        Err(_) => panic!(),
    }
}

#[test]
#[should_panic]
fn test_set() {
    let (mut storage, _indices, _lengths) = Component::new();
    match Component::set(TypeKey::new(1), 0, 32u64, &mut storage) {
        Ok(_) => (),
        Err(_) => panic!(),
    }
}

#[test]
fn test_len() {
    let (mut storage, mut indices, mut lengths) = Component::new();
    let key = TypeKey::new(1);
    for i in 0..50 {
        Component::insert::<u64>(key, i as u64, &mut storage, &mut indices, &mut lengths).unwrap();
    }
    assert!(Component::len::<u64>(key, &lengths).unwrap() == 50);
}

#[test]
fn test_insert_get() {
    let (mut storage, mut indices, mut lengths) = Component::new();
    let key = TypeKey::new(1);
    let input: u64 = 32;
    let i = Component::insert(key, input, &mut storage, &mut indices, &mut lengths).unwrap();
    let output = Component::read(key, i, &storage).unwrap();
    assert!(input == output, "input: {}, output: {:#?}", input, output);
}

#[test]
fn test_insert_multiple_get_multiple() {
    let (mut storage, mut indices, mut lengths) = Component::new();
    let key = TypeKey::new(1);
    for i in 0..100 {
        Component::insert::<usize>(key, i, &mut storage, &mut indices, &mut lengths).unwrap();
    }
    for i in 0..100 {
        let output = Component::read(key, i, &storage).unwrap();
        assert!(i == output, "i: {}, output: {:#?}", i, output);
    }
}

#[test]
fn test_insert_different_get_different() {
    let (mut storage, mut indices, mut lengths) = Component::new();
    let key_u64 = TypeKey::new(1);
    let key_bool = TypeKey::new(2);
    let i = Component::insert(key_u64, Comp::U64(32), &mut storage, &mut indices, &mut lengths)
        .unwrap();
    let i2 = Component::insert(key_bool, Comp::Flag(true), &mut storage, &mut indices, &mut lengths)
        .unwrap();
    assert!(Component::read(key_bool, i2, &storage).unwrap() == Comp::Flag(true));
    assert!(Component::read(key_u64, i, &storage).unwrap() == Comp::U64(32));
}

#[test]
fn test_insert_empty() {
    let (mut storage, mut indices, mut lengths) = Component::new();
    let key = TypeKey::new(1);
    let i = Component::insert::<u64>(key, 0, &mut storage, &mut indices, &mut lengths).unwrap();
    Component::empty(key, i, &mut storage, &mut indices, &mut lengths).unwrap();
}

#[test]
fn test_insert_remove_insert() {
    let (mut storage, mut indices, mut lengths) = Component::new();
    let key = TypeKey::new(1);
    let i = Component::insert::<u64>(key, 32u64, &mut storage, &mut indices, &mut lengths).unwrap();
    match Component::empty(key, i, &mut storage, &mut indices, &mut lengths) {
        Ok(_) => {
            let i = Component::insert::<u64>(key, 31u64, &mut storage, &mut indices, &mut lengths)
                .unwrap();
            assert!(Component::read(key, i, &storage).unwrap() == 31u64);
        }
        Err(_) => panic!(),
    }
}

#[test]
fn test_insert_set() {
    let (mut storage, mut indices, mut lengths) = Component::new();
    let key = TypeKey::new(1);
    let i = Component::insert::<u64>(key, 32u64, &mut storage, &mut indices, &mut lengths).unwrap();
    match Component::set(key, i, 100u64, &mut storage) {
        Ok(_) => assert!(Component::read(key, i, &storage).unwrap() == 100u64),
        Err(_) => panic!(),
    }
}

#[test]
fn test_insert_empty_insert_set() {
    let (mut storage, mut indices, mut lengths) = Component::new();
    let key = TypeKey::new(1);
    let i = Component::insert::<u64>(key, 32u64, &mut storage, &mut indices, &mut lengths).unwrap();
    match Component::empty(key, i, &mut storage, &mut indices, &mut lengths) {
        Ok(_) => {
            let i = Component::insert::<u64>(key, 31u64, &mut storage, &mut indices, &mut lengths)
                .unwrap();
            match Component::set(key, i, 30u64, &mut storage) {
                Ok(_) => assert!(Component::read(key, i, &storage).unwrap() == 30u64),
                Err(_) => panic!(),
            }
        }
        Err(_) => panic!(),
    }
}

#[test]
fn test_modify_applies_function() {
    let (mut storage, mut indices, mut lengths) = Component::new();
    let key = TypeKey::new(1);
    let i = Component::insert::<u64>(key, 10u64, &mut storage, &mut indices, &mut lengths).unwrap();
    Component::modify(key, i, &mut storage, |v: u64| v.wrapping_mul(3)).unwrap();
    assert_eq!(Component::read(key, i, &storage).unwrap(), 30u64);
}

#[test]
fn test_alloc_takes_smallest_free() {
    let (mut storage, mut indices, mut lengths) = Component::new();
    let key = TypeKey::new(1);
    for v in 0..4u64 {
        Component::insert(key, v, &mut storage, &mut indices, &mut lengths).unwrap();
    }
    Component::empty(key, 2, &mut storage, &mut indices, &mut lengths).unwrap();
    Component::empty(key, 1, &mut storage, &mut indices, &mut lengths).unwrap();
    // Two slots are free; the allocator must hand out the smaller first.
    let a = Component::insert(key, 91u64, &mut storage, &mut indices, &mut lengths).unwrap();
    let b = Component::insert(key, 92u64, &mut storage, &mut indices, &mut lengths).unwrap();
    assert_eq!(a, 1);
    assert_eq!(b, 2);
}

#[test]
fn test_read_after_empty_reports_empty() {
    let (mut storage, mut indices, mut lengths) = Component::new();
    let key = TypeKey::new(1);
    let i = Component::insert::<u64>(key, 7u64, &mut storage, &mut indices, &mut lengths).unwrap();
    Component::empty(key, i, &mut storage, &mut indices, &mut lengths).unwrap();
    assert_eq!(Component::read(key, i, &storage), Err(ecstatic::ErrEcs::Empty));
}

#[test]
fn test_read_past_slab_reports_out_of_bounds() {
    let (mut storage, mut indices, mut lengths) = Component::new();
    let key = TypeKey::new(1);
    Component::insert::<u64>(key, 7u64, &mut storage, &mut indices, &mut lengths).unwrap();
    assert_eq!(Component::read(key, 50, &storage), Err(ecstatic::ErrEcs::OutOfBounds));
}

#[test]
fn test_empty_is_idempotent() {
    let (mut storage, mut indices, mut lengths) = Component::new();
    let key = TypeKey::new(1);
    let i = Component::insert::<u64>(key, 7u64, &mut storage, &mut indices, &mut lengths).unwrap();
    Component::empty(key, i, &mut storage, &mut indices, &mut lengths).unwrap();
    // A second empty of the same slot reports success and changes nothing.
    Component::empty(key, i, &mut storage, &mut indices, &mut lengths).unwrap();
    assert_eq!(Component::len::<u64>(key, &lengths).unwrap(), 0);
    let j = Component::insert::<u64>(key, 9u64, &mut storage, &mut indices, &mut lengths).unwrap();
    assert_eq!(i, j);
}
