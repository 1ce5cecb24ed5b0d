use storages::generation::StorageId;
use storages::map::{MappedGeneration, MappedNoVec};
use storages::KeyIdx;

#[test]
fn mapped_generation_test() {
    let mut storage = MappedGeneration::new();
    storage.insert("Beta".to_string(), "not a cool dude".to_string());
    storage.insert("Gamma".to_string(), "a loser".to_string());
    storage.insert("Alpha".to_string(), "what a cool dude".to_string());

    let mut key_idx: KeyIdx<String, StorageId> = KeyIdx::new("Alpha".to_string());
    storage.fill_key_idx_get(&mut key_idx);
    let removed = storage.remove(&key_idx).unwrap();

    storage.insert("Alpha".to_string(), removed);
    let key = key_idx.into_key();
    let mut key_idx: KeyIdx<String, StorageId> = KeyIdx::new(key);
    storage.fill_key_idx_get(&mut key_idx);
    let item = storage.get(&key_idx);

    assert!(
        KeyIdx {
            key: "Alpha".to_string(),
            index: Some(StorageId {
                index: 2,
                generation: 1
            })
        } == key_idx
    );

    assert!(item.map(|item| &item[..]) == Some("what a cool dude"));
}

#[test]
fn retain_test() {
    let mut storage = MappedGeneration::new();
    let (a, _) = storage.insert("A", 100);
    let (b, _) = storage.insert("B", 100);
    let (c, _) = storage.insert("C", 200);
    let (d, _) = storage.insert("D", 300);

    storage.retain(|_, value| *value != 100);

    println!("{:?}", storage);
    assert!(storage.get_by_index(&a) == None);
    assert!(storage.get_by_index(&b) == None);
    assert!(storage.get_by_index(&c) == Some(&200));
    assert!(storage.get_by_index(&d) == Some(&300));
}

#[test]
fn reinserting_a_key_replaces_its_value() {
    let mut storage = MappedGeneration::new();
    let (first, old) = storage.insert("k", 1);
    assert_eq!(old, None);
    let (second, old) = storage.insert("k", 2);
    assert_eq!(old, Some(1));
    assert_ne!(first, second);
    assert_eq!(storage.get_by_index(&first), None);
    assert_eq!(storage.get_by_key("k"), Some(&2));
    assert_eq!(storage.get_index("k"), Some(&second));
    assert_eq!(storage.get_key(&second), Some(&"k"));
    assert!(storage.contains(&KeyIdx::new("k")));
    assert!(!storage.contains(&KeyIdx::new("missing")));
}

#[test]
fn fill_key_idx_reports_missing_keys() {
    let mut storage = MappedGeneration::new();
    storage.insert("x".to_string(), 5u8);
    let mut present = KeyIdx::new("x".to_string());
    assert!(storage.fill_key_idx(&mut present));
    assert_eq!(present.index, Some(StorageId { index: 0, generation: 0 }));
    let mut missing: KeyIdx<String, StorageId> = KeyIdx::new("y".to_string());
    assert!(!storage.fill_key_idx(&mut missing));
    assert_eq!(missing.index, None);
    assert_eq!(storage.fill_key_idx_get(&mut missing), None);
}

#[test]
fn remove_by_index_drops_the_key() {
    let mut storage = MappedNoVec::new();
    let (i, _) = storage.insert("a", 10);
    let (j, _) = storage.insert("b", 20);
    assert_eq!((i, j), (0, 1));
    assert_eq!(storage.remove_with_index(&i), Some(10));
    assert_eq!(storage.get_by_key("a"), None);
    assert_eq!(storage.get_by_key("b"), Some(&20));
    assert_eq!(storage.indices().len(), 1);
    assert_eq!(storage.values(), vec![&20]);
    let (k, _) = storage.insert("c", 30);
    assert_eq!(k, 0);
    let mut listed: Vec<_> = storage.iter().into_iter().map(|(k, i, v)| (*k, *i, *v)).collect();
    listed.sort();
    assert_eq!(listed, vec![("b", 1, 20), ("c", 0, 30)]);
}

#[test]
fn insert_replace_idx_records_the_index() {
    let mut storage = MappedGeneration::new();
    let mut ki = KeyIdx::new("n");
    assert_eq!(storage.insert_replace_idx(&mut ki, 1), None);
    assert_eq!(ki.index, Some(StorageId { index: 0, generation: 0 }));
    assert_eq!(storage.insert_replace_idx(&mut ki, 2), Some(1));
    assert_eq!(ki.index, Some(StorageId { index: 1, generation: 0 }));
    assert_eq!(storage.get(&ki), Some(&2));
    *storage.get_mut(&ki).unwrap() = 3;
    assert_eq!(storage.get_by_index(&StorageId { index: 1, generation: 0 }), Some(&3));
}
