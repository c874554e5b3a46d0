use ecstatic::emanager::Entity;
use ecstatic::keys::TypeKey;
use ecstatic::manager::CManager;
use ecstatic::memory::Memory;
use ecstatic::ownership::COwnership;
use ecstatic::packer::Packer;
use ecstatic::storage::Storage;
use ecstatic::ErrEcs;

#[test]
fn storage_insert_get_set_remove() {
    let mut s: Storage<u64> = Storage::new();
    let key = TypeKey::new(1);
    assert!(!s.knows_type(key));
    s.insert(key, 0, 10);
    s.insert(key, 3, 13);
    assert!(s.knows_type(key));
    assert_eq!(s.len(key), 4);
    assert_eq!(s.capacity(key), 4);
    assert_eq!(s.get(key, 0).unwrap(), &10);
    assert_eq!(s.get(key, 3).unwrap(), &13);
    // The cells grown in between are empty.
    assert_eq!(s.get(key, 1), Err(ErrEcs::Empty));
    assert_eq!(s.get(key, 9), Err(ErrEcs::OutOfBounds));
    assert_eq!(s.get(TypeKey::new(2), 0), Err(ErrEcs::NotFound));
    s.set(key, 0, 99).unwrap();
    assert_eq!(s.get(key, 0).unwrap(), &99);
    // The raw slab replaces any allocated cell, empty ones included; the
    // occupied-only discipline sits a layer up.
    s.set(key, 1, 5).unwrap();
    assert_eq!(s.get(key, 1).unwrap(), &5);
    assert_eq!(s.set(key, 9, 5), Err(ErrEcs::OutOfBounds));
    s.remove(key, 0).unwrap();
    assert_eq!(s.get(key, 0), Err(ErrEcs::Empty));
    // Emptying keeps the allocation.
    assert_eq!(s.len(key), 4);
}

#[test]
fn storage_swap_and_resize() {
    let mut s: Storage<u64> = Storage::new();
    let key = TypeKey::new(1);
    s.insert(key, 0, 10);
    s.insert(key, 2, 12);
    s.swap(key, 0, 2);
    assert_eq!(s.get(key, 2).unwrap(), &10);
    assert_eq!(s.get(key, 0).unwrap(), &12);
    s.resize(key, 1).unwrap();
    assert_eq!(s.len(key), 1);
    assert_eq!(s.get(key, 0).unwrap(), &12);
    s.resize(key, 3).unwrap();
    assert_eq!(s.len(key), 3);
    assert_eq!(s.get(key, 2), Err(ErrEcs::Empty));
    assert_eq!(s.resize(TypeKey::new(2), 1), Err(ErrEcs::NotFound));
}

#[test]
fn storage_modify_in_place() {
    let mut s: Storage<u64> = Storage::new();
    let key = TypeKey::new(1);
    s.insert(key, 0, 6);
    s.modify(key, 0, |v: u64| v.wrapping_add(1)).unwrap();
    assert_eq!(s.get(key, 0).unwrap(), &7);
}

#[test]
fn packer_tracks_live_indices() {
    let mut p = Packer::new();
    let key = TypeKey::new(1);
    assert!(!p.knows_type(&key));
    p.pack(key, 4);
    p.pack(key, 1);
    p.pack(key, 4);
    assert_eq!(p.len(key), 2);
    assert_eq!(p.capacity(key), 2);
    assert!(p.contains(key, 1));
    assert!(!p.contains(key, 0));
    assert_eq!(p.iter_packed(key), vec![1usize, 4]);
    p.unpack(key, 1).unwrap();
    assert!(!p.contains(key, 1));
    assert_eq!(p.unpack(TypeKey::new(2), 0), Err(ErrEcs::NotFound));
}

#[test]
fn cmanager_allocates_smallest_first() {
    let mut cm: CManager<u64> = CManager::new();
    let key = TypeKey::new(1);
    assert_eq!(cm.cinsert(key, 100), 0);
    assert_eq!(cm.cinsert(key, 101), 1);
    assert_eq!(cm.cinsert(key, 102), 2);
    assert_eq!(cm.plen(key), 3);
    assert_eq!(cm.pcapacity(key), 3);
    cm.cremove(key, 1).unwrap();
    assert_eq!(cm.plen(key), 2);
    assert_eq!(cm.cget(key, 1), Err(ErrEcs::Empty));
    // The freed slot is handed out again first.
    assert_eq!(cm.find_available_index(key), 1);
    assert_eq!(cm.find_available_index(key), 3);
    assert_eq!(cm.cget(key, 0).unwrap(), &100);
    cm.cset(key, 2, 200).unwrap();
    assert_eq!(cm.cget(key, 2).unwrap(), &200);
    assert_eq!(cm.len(key), 3);
    assert_eq!(cm.capacity(key), 3);
}

#[test]
fn ownership_binds_and_inverts() {
    let mut co = COwnership::new();
    let key = TypeKey::new(1);
    let e1 = Entity { id: 10 };
    let e2 = Entity { id: 20 };
    assert!(!co.is_entity_active(&e1));
    co.insert(3, &e1, key);
    co.insert(0, &e2, key);
    assert!(co.is_entity_active(&e1));
    assert_eq!(co.get_cindex(&e1, key).unwrap(), 3);
    assert_eq!(co.get_cindex_by_id(20, key).unwrap(), 0);
    assert_eq!(co.get_cindex(&e1, TypeKey::new(2)), Err(ErrEcs::NotFound));
    // The inverse view lists (index, entity) ascending by index.
    assert_eq!(co.get_index_entity_map(key), vec![(0usize, 20u64), (3usize, 10u64)]);
    co.update_index(&e1, key, 1).unwrap();
    assert_eq!(co.get_cindex(&e1, key).unwrap(), 1);
    assert_eq!(co.update_index_by_id(99, key, 1), Err(ErrEcs::NotFound));
    assert_eq!(co.components_of(10), vec![key.id]);
    // Unbinding a type the entity does not own is reported, not absorbed.
    assert_eq!(co.remove(&e1, TypeKey::new(9)), Err(ErrEcs::NotFound));
    assert_eq!(co.get_cindex(&e1, key).unwrap(), 1);
    co.remove(&e1, key).unwrap();
    assert_eq!(co.get_cindex(&e1, key), Err(ErrEcs::NotFound));
    assert_eq!(co.remove(&e1, key), Err(ErrEcs::NotFound));
    assert!(co.is_entity_active(&e1));
    co.remove_entry(&e1).unwrap();
    assert!(!co.is_entity_active(&e1));
    assert_eq!(co.remove_entry(&e1), Err(ErrEcs::NotFound));
    co.insert_new(&e1);
    assert!(co.is_entity_active(&e1));
    assert_eq!(co.components_of(10), Vec::<u64>::new());
}

#[test]
fn compress_left_packs_manager_and_ownership() {
    let mut cm: CManager<u64> = CManager::new();
    let mut co = COwnership::new();
    let key = TypeKey::new(1);
    for n in 0..6u64 {
        let i = cm.cinsert(key, 500 + n);
        co.insert_by_id(i, n, key);
    }
    for n in [0u64, 1, 2, 4] {
        let i = co.get_cindex_by_id(n, key).unwrap();
        co.remove_by_id(n, key).unwrap();
        cm.cremove(key, i).unwrap();
    }
    Memory::compress(&mut cm, &mut co, key).unwrap();
    assert_eq!(cm.len(key), 2);
    assert_eq!(cm.plen(key), 2);
    let i3 = co.get_cindex_by_id(3, key).unwrap();
    let i5 = co.get_cindex_by_id(5, key).unwrap();
    assert!(i3 < 2 && i5 < 2 && i3 != i5);
    assert_eq!(cm.cget(key, i3).unwrap(), &503);
    assert_eq!(cm.cget(key, i5).unwrap(), &505);
}
