use storages::generation::{GenerationStorage, StorageId, StorageObject};
use storages::idvec::{IdVec, IdVecIndex};
use storages::novec::{Entry, NoVec};
use storages::persistant::PersistantStorage;
use storages::{ExpandableStorage, KeyIdx, UnorderedStorage};

#[test]
fn generation_push_reuses_freed_slots_with_new_generation() {
    let mut s = GenerationStorage::new();
    let a = s.push("a");
    let b = s.push("b");
    assert_eq!((a, b), (StorageId { index: 0, generation: 0 }, StorageId { index: 1, generation: 0 }));
    assert_eq!(s.remove(0), Some("a"));
    assert_eq!(s.remove(0), None);
    assert_eq!(s.nth_available(0), StorageId { index: 0, generation: 1 });
    assert_eq!(s.nth_available(1), StorageId { index: 2, generation: 0 });
    let c = s.push("c");
    assert_eq!(c, StorageId { index: 0, generation: 1 });
    assert_eq!(s.get(a), None);
    assert_eq!(s.get(c), Some(&"c"));
    assert!(s.contains(b));
    assert_eq!(s.remove_id(a), None);
    assert_eq!(s.remove_id(b), Some("b"));
    assert_eq!(s.get_unchecked(0), Some(&"c"));
    assert_eq!(s.get_unchecked(1), None);
}

#[test]
fn generation_insert_places_exact_ids() {
    let mut s = GenerationStorage::new();
    assert_eq!(s.insert(StorageId { index: 3, generation: 7 }, 30), None);
    assert_eq!(s.get(StorageId { index: 3, generation: 7 }), Some(&30));
    assert_eq!(s.get(StorageId { index: 3, generation: 6 }), None);
    // The slots below the inserted one are free and are used first.
    let id = s.push(1);
    assert!(id.index < 3);
    *s.get_mut(id).unwrap() += 1;
    assert_eq!(s.get(id), Some(&2));
    *s.get_mut_unchecked(3).unwrap() = 31;
    assert_eq!(s.get(StorageId { index: 3, generation: 7 }), Some(&31));
}

#[test]
fn generation_clear_retain_and_listing() {
    let mut s = GenerationStorage::new();
    for v in [1, 2, 3, 4] {
        s.push(v);
    }
    s.retain(|v| v % 2 == 0);
    assert_eq!(s.values(), vec![&2, &4]);
    let ids: Vec<_> = s.iter_with_ids().into_iter().map(|(id, v)| (id.index, *v)).collect();
    assert_eq!(ids, vec![(1, 2), (3, 4)]);
    assert_eq!(s.iter().len(), 2);
    s.clear();
    assert!(s.values().is_empty());
    let id = s.push(9);
    assert_eq!(id.generation, 1);
    s.fill_to(8);
    assert_eq!(s.get_unchecked(7), None);
}

#[test]
fn generation_storage_through_traits() {
    let mut s: GenerationStorage<u8> = Default::default();
    let id = ExpandableStorage::push(&mut s, 5);
    assert_eq!(UnorderedStorage::get(&s, &id), Some(&5));
    assert_eq!(UnorderedStorage::remove(&mut s, &id), Some(5));
    assert_eq!(UnorderedStorage::get(&s, &id), None);
    let idx: IdVecIndex = id.into();
    assert_eq!(idx.0, 0);
}

#[test]
fn storage_object_basics() {
    let mut o = StorageObject::new(4);
    assert!(o.is_some());
    assert_eq!(o.generation(), 0);
    o.increase_generation();
    assert_eq!(o.generation(), 1);
    assert_eq!(o.insert(5), Some(4));
    assert_eq!(*o.unwrap_ref(), 5);
    *o.unwrap_mut() = 6;
    assert_eq!(o.item(), Some(&6));
    assert_eq!(o.remove(), Some(6));
    assert!(o.is_none());
    let mut e: StorageObject<u8> = StorageObject::empty(u64::MAX);
    e.increase_generation();
    assert_eq!(e.generation(), 0);
    assert_eq!(StorageObject::new(3).unwrap(), 3);
}

#[test]
fn persistant_storage_basics() {
    let mut s = PersistantStorage::new();
    let a = s.push(10);
    let b = s.push(20);
    assert_eq!(s.remove_id(a), Some(10));
    let c = s.push(30);
    assert_eq!(c.index, a.index);
    assert_eq!(c.generation, 1);
    assert_eq!(s.get(a), None);
    assert_eq!(s.get(c), Some(&30));
    *s.get_mut(b).unwrap() = 21;
    s.retain(|v| *v > 25);
    assert!(!s.contains(b));
    assert_eq!(s.values(), vec![&30]);
    assert_eq!(s.iter_with_ids().len(), 1);
}

#[test]
fn novec_reuses_lowest_free_position() {
    let mut v = NoVec::new();
    for x in 0..5 {
        assert_eq!(v.push(x * 10), x as usize);
    }
    assert_eq!(v.remove(3), Some(30));
    assert_eq!(v.remove(1), Some(10));
    assert_eq!(v.remove(1), None);
    assert_eq!(v.next_id(), 1);
    assert_eq!(v.push(11), 1);
    assert_eq!(v.push(33), 3);
    assert_eq!(v.push(50), 5);
    assert_eq!(v.values(), vec![&0, &11, &20, &33, &40, &50]);
}

#[test]
fn novec_remove_after_head_keeps_order() {
    let mut v = NoVec::with_capacity(4);
    for x in 0..6 {
        v.push(x);
    }
    assert_eq!(v.remove(1), Some(1));
    assert_eq!(v.remove(4), Some(4));
    assert_eq!(v.remove(3), Some(3));
    assert_eq!(v.push(100), 1);
    assert_eq!(v.push(300), 3);
    assert_eq!(v.push(400), 4);
    assert_eq!(v.push(600), 6);
    let listed: Vec<_> = v.iter().into_iter().map(|(i, x)| (i, *x)).collect();
    assert_eq!(listed, vec![(0, 0), (1, 100), (2, 2), (3, 300), (4, 400), (5, 5), (6, 600)]);
}

#[test]
fn novec_insert_at_any_position() {
    let mut v = NoVec::new();
    assert_eq!(v.insert_at(3, 'd'), None);
    assert_eq!(v.get(3), Some(&'d'));
    assert_eq!(v.get(0), None);
    assert_eq!(v.insert_at(1, 'b'), None);
    assert_eq!(v.insert_at(1, 'B'), Some('b'));
    assert_eq!(v.push('a'), 0);
    assert_eq!(v.push('c'), 2);
    assert_eq!(v.push('e'), 4);
    *v.get_mut(4).unwrap() = 'E';
    assert_eq!(v.values(), vec![&'a', &'B', &'c', &'d', &'E']);
    v.fill_to(7);
    assert_eq!(v.push('f'), 5);
}

#[test]
fn novec_entry_operations() {
    let mut e = Entry::Data(5);
    assert!(e.is_data());
    assert_eq!(*e.data_ref(), 5);
    *e.data_ref_mut() = 6;
    assert_eq!(e.swap_data(7), Some(6));
    assert_eq!(e.swap_next(2), Some(7));
    assert!(e.is_next());
    assert_eq!(e.unwrap_next(), 2);
    *e.next_ref_mut() = 4;
    assert_eq!(e, Entry::Next(4));
    assert_eq!(e.option_ref(), None);
    e.insert_data(1);
    assert_eq!(e.option_ref_mut(), Some(&mut 1));
    assert_eq!(e.option(), Some(1));
    let mut n: Entry<u8> = Entry::Data(1);
    n.set_next(9);
    assert_eq!(n, Entry::Next(9));
    assert_eq!(Entry::Data(3).unwrap_data(), 3);
}

#[test]
fn idvec_positions() {
    let mut v = IdVec::with_capacity(2);
    assert_eq!(v.insert(2, "c"), None);
    assert_eq!(v.get(2), Some(&"c"));
    assert_eq!(v.get(0), None);
    assert_eq!(v.insert(2, "C"), Some("c"));
    v.insert(0, "a");
    *v.get_mut(0).unwrap() = "A";
    let listed: Vec<_> = v.iter().into_iter().map(|(i, x)| (i, *x)).collect();
    assert_eq!(listed, vec![(0, "A"), (2, "C")]);
    assert_eq!(v.remove(2), Some("C"));
    assert_eq!(v.remove(9), None);
    v.fill_to(5);
    assert_eq!(v.get(4), None);
    v.clear();
    assert_eq!(v.get(0), None);
    let idx: IdVecIndex = 4usize.into();
    assert_eq!(idx.0, 4);
    let mut w: IdVec<u8> = IdVec::new();
    assert_eq!(UnorderedStorage::insert(&mut w, IdVecIndex(1), 7), None);
    assert_eq!(UnorderedStorage::get(&w, &IdVecIndex(1)), Some(&7));
}

#[test]
fn key_idx_accessors() {
    let mut k: KeyIdx<String, usize> = KeyIdx::new("k".to_string());
    assert!(k.is_only_key());
    assert!(!k.has_index());
    {
        let (key, index) = k.mut_index();
        assert_eq!(key, "k");
        *index = Some(3);
    }
    assert!(k.has_index());
    assert_eq!(k.index_ref(), Some(&3));
    let r = k.as_ref();
    assert_eq!((r.key.as_str(), r.index), ("k", Some(&3)));
    let r = k.key_ref();
    assert_eq!(r.index, Some(3));
    assert_eq!(k.clone().into_index(), Some(3));
    assert_eq!(k.into_key(), "k".to_string());
}

#[test]
fn mutable_listings_reach_the_stored_values() {
    let mut g = GenerationStorage::new();
    g.push(1);
    let b = g.push(2);
    g.push(3);
    g.remove(b.index);
    for v in g.values_mut() {
        *v *= 10;
    }
    for o in g.iter_mut() {
        *o.unwrap_mut() += 1;
    }
    for (id, v) in g.iter_with_ids_mut() {
        *v += id.index as i32;
    }
    assert_eq!(g.values(), vec![&11, &33]);

    let mut p = PersistantStorage::new();
    p.push(1);
    p.push(2);
    for v in p.values_mut() {
        *v += 1;
    }
    for o in p.iter_mut() {
        *o.unwrap_ref_mut() *= 2;
    }
    for (id, v) in p.iter_with_ids_mut() {
        *v += id.index as i32;
    }
    assert_eq!(p.values(), vec![&4, &7]);

    let mut n = NoVec::new();
    n.push(1);
    n.push(2);
    n.remove(0);
    for (i, v) in n.iter_mut() {
        *v += i as i32;
    }
    for v in n.values_mut() {
        *v *= 2;
    }
    assert_eq!(n.values(), vec![&6]);

    let mut iv = IdVec::new();
    iv.insert(1, 5);
    iv.insert(3, 7);
    for (i, v) in iv.iter_mut() {
        *v += i as i32;
    }
    assert_eq!(iv.get(1), Some(&6));
    assert_eq!(iv.get(3), Some(&10));
}

#[test]
fn key_idx_from_pairs() {
    let key = "k".to_string();
    let mut slot = Some(4usize);
    let a: KeyIdx<&String, &usize> = KeyIdx::from((&key, &slot));
    assert_eq!((a.key, a.index), (&key, Some(&4)));
    let b: KeyIdx<&String, usize> = KeyIdx::from((&key, Some(5)));
    assert_eq!(b.index, Some(5));
    let c: KeyIdx<&String, &usize> = KeyIdx::from((&key, &mut slot));
    assert_eq!(c.index, Some(&4));
}

#[test]
fn block_slice_mut_reaches_values() {
    let mut storage = storages::block_storage::BlockStorage::<u32>::new(2);
    let _first = storage.create(2);
    let key = storage.create(3);
    let mut block = storage.get(key).unwrap();
    block.push(1);
    block.push(2);
    block.push(3);
    for v in block.as_slice_mut() {
        *v *= 5;
    }
    assert_eq!(block.as_slice(), vec![&5, &10, &15]);
}
