use storages::mapped::{KeyIdx, MappedNovec};
use storages::one_way_map::OneWayMap;
use storages::oom::OneOrMany;

#[test]
fn mapped_novec_by_key_and_index() {
    let mut m: MappedNovec<String, u32> = MappedNovec::new();
    assert_eq!(m.insert("a".to_string(), 1), 0);
    assert_eq!(m.insert("b".to_string(), 2), 1);
    assert_eq!(m.get_index(&"b".to_string()), Some(1));
    assert_eq!(m.get_by_key(&"a".to_string()), Some(&1));
    assert_eq!(m.get_by_index(1), Some(&2));
    assert_eq!(m.get_key(1), Some(&"b".to_string()));
    assert_eq!(m.get(&KeyIdx::<String>::Index(0)), Some(&1));
    assert_eq!(m.get(&KeyIdx::Key("b".to_string())), Some(&2));
    *m.get_mut(&KeyIdx::Both { key: "a".to_string(), index: 0 }).unwrap() = 10;
    *m.get_mut_by_key(&"b".to_string()).unwrap() += 1;
    assert_eq!(m.values(), vec![&10, &3]);
    assert_eq!(m.remove(0), Some(("a".to_string(), 10)));
    assert_eq!(m.get_by_key(&"a".to_string()), None);
    assert_eq!(m.insert("c".to_string(), 4), 0);
    assert_eq!(m.remove_by_key(&"b".to_string()), Some(("b".to_string(), 3)));
    assert_eq!(m.remove_by_key(&"b".to_string()), None);
    let listed: Vec<_> = m.iter().into_iter().map(|(k, i, v)| (k.clone(), i, *v)).collect();
    assert_eq!(listed, vec![("c".to_string(), 0, 4)]);
}

#[test]
fn mapped_novec_fill_key_idx() {
    let mut m: MappedNovec<String, u32> = MappedNovec::new();
    m.insert("a".to_string(), 1);
    let mut by_key = KeyIdx::Key("a".to_string());
    assert!(!m.fill_key_idx(&mut by_key));
    assert_eq!(by_key, KeyIdx::Both { key: "a".to_string(), index: 0 });
    let mut by_index: KeyIdx<String> = KeyIdx::Index(0);
    assert!(!m.fill_key_idx(&mut by_index));
    assert_eq!(by_index, KeyIdx::Both { key: "a".to_string(), index: 0 });
    let mut missing: KeyIdx<String> = KeyIdx::Index(5);
    assert!(m.fill_key_idx(&mut missing));
    assert_eq!(missing, KeyIdx::Index(5));
    let mut both = KeyIdx::Both { key: "z".to_string(), index: 9 };
    assert!(m.fill_key_idx(&mut both));
}

#[test]
fn mapped_key_idx_parts() {
    assert_eq!(KeyIdx::<u8>::new(None, None), None);
    let k = KeyIdx::new(Some(1u8), Some(2)).unwrap();
    assert!(k.has_key() && k.has_index());
    assert_eq!((k.key(), k.index()), (Some(&1), Some(2)));
    let k = KeyIdx::new(Some(1u8), None).unwrap();
    assert!(k.has_key() && !k.has_index());
    let k = KeyIdx::<u8>::new(None, Some(4)).unwrap();
    assert_eq!((k.key(), k.index()), (None, Some(4)));
}

#[test]
fn one_way_map_overwrites_in_place() {
    let mut m = OneWayMap::new();
    assert_eq!(m.push("x", 1), 0);
    assert_eq!(m.push("y", 2), 1);
    assert_eq!(m.push("x", 3), 0);
    assert_eq!(m.get_idx(&"x"), Some(0));
    assert_eq!(m.get_idx(&"z"), None);
    assert_eq!(m.get(0), Some(&3));
    assert_eq!(m.get(1), Some(&2));
    assert_eq!(m.get(2), None);
    m.clear();
    assert_eq!(m.get(0), None);
    assert_eq!(m.push("y", 5), 0);
}

#[test]
fn one_or_many_grows() {
    let mut v = OneOrMany::new(Vec::new());
    assert!(matches!(v, OneOrMany::Empty));
    v.push(1);
    assert!(matches!(v, OneOrMany::One(1)));
    v.push(2);
    v.push(3);
    let mut it = v.iter();
    assert_eq!(it.next(), Some(&1));
    assert_eq!(it.next(), Some(&2));
    assert_eq!(it.next(), Some(&3));
    assert_eq!(it.next(), None);
    assert_eq!(OneOrMany::new(vec![7]).take_one(), 7);
    let single = OneOrMany::new(vec![8]);
    let mut one = single.iter();
    assert_eq!(one.next(), Some(&8));
    assert_eq!(one.next(), None);
}

#[test]
fn mapped_novec_entry_api() {
    let mut m: MappedNovec<String, u32> = MappedNovec::new();
    {
        let e = m.entry::<String>("a".to_string());
        assert_eq!(e.key(), "a");
        let (i, v) = e.or_insert(5);
        assert_eq!((i, *v), (0, 5));
        *v = 6;
    }
    {
        let (i, v) = m.entry::<String>("a".to_string()).and_modify(|v| *v += 1).or_insert(100);
        assert_eq!((i, *v), (0, 7));
    }
    {
        let (i, v) = m.entry::<String>("b".to_string()).or_insert_with(|| 9);
        assert_eq!((i, *v), (1, 9));
    }
    {
        let (i, v) = m.entry::<String>("c".to_string()).or_default();
        assert_eq!((i, *v), (2, 0));
    }
    assert_eq!(m.values(), vec![&7, &9, &0]);
}

#[test]
fn mapped_novec_mutable_listings() {
    let mut m: MappedNovec<String, u32> = MappedNovec::new();
    m.insert("a".to_string(), 1);
    m.insert("b".to_string(), 2);
    m.insert("c".to_string(), 3);
    m.remove(1);
    for (k, i, v) in m.iter_mut() {
        *v += (k.len() + i) as u32;
    }
    for v in m.values_mut() {
        *v *= 10;
    }
    assert_eq!(m.values(), vec![&20, &60]);
}

#[test]
fn one_or_many_mutable_cursor() {
    let mut v = OneOrMany::new(vec![1, 2, 3]);
    let mut it = v.iter_mut();
    while let Some(x) = it.next() {
        *x *= 2;
    }
    let mut read = v.iter();
    assert_eq!((read.next(), read.next(), read.next(), read.next()), (Some(&2), Some(&4), Some(&6), None));
    let mut one = OneOrMany::new(vec![5]);
    if let Some(x) = one.iter_mut().next() {
        *x += 1;
    }
    assert_eq!(one.take_one(), 6);
    let mut none: OneOrMany<u8> = OneOrMany::new(Vec::new());
    assert!(none.iter_mut().next().is_none());
}
