use std::collections::HashMap;

use pgen::OrdHashMap;

#[test]
fn lib_test_insert() {
    let mut m: OrdHashMap<u64, u64> = OrdHashMap::new();
    assert_eq!(m.len(), 0);
    assert!(m.insert(1, 2).is_none());
    assert_eq!(m.len(), 1);
    assert!(m.insert(2, 4).is_none());
    assert_eq!(m.len(), 2);
    assert_eq!(*m.get(1).unwrap(), 2);
    assert_eq!(*m.get(2).unwrap(), 4);
}

#[test]
fn ordmap_test_insert() {
    let mut m: OrdHashMap<u64, u64> = OrdHashMap::new();
    assert_eq!(m.len(), 0);
    assert!(m.insert(1, 2).is_none());
    assert_eq!(m.len(), 1);
    assert!(m.insert(2, 4).is_none());
    assert_eq!(m.len(), 2);
    assert_eq!(*m.get(1).unwrap(), 2);
    assert_eq!(*m.get(2).unwrap(), 4);
}

#[test]
fn lib_test_clone() {
    let mut m = HashMap::new();
    assert_eq!(m.len(), 0);
    assert!(m.insert(1, 2).is_none());
    assert_eq!(m.len(), 1);
    assert!(m.insert(2, 4).is_none());
    assert_eq!(m.len(), 2);
    let m2 = m.clone();
    assert_eq!(*m2.get(&1).unwrap(), 2);
    assert_eq!(*m2.get(&2).unwrap(), 4);
    assert_eq!(m2.len(), 2);
}

#[test]
fn ordmap_test_clone() {
    let mut m = HashMap::new();
    assert_eq!(m.len(), 0);
    assert!(m.insert(1, 2).is_none());
    assert_eq!(m.len(), 1);
    assert!(m.insert(2, 4).is_none());
    assert_eq!(m.len(), 2);
    let m2 = m.clone();
    assert_eq!(*m2.get(&1).unwrap(), 2);
    assert_eq!(*m2.get(&2).unwrap(), 4);
    assert_eq!(m2.len(), 2);
}

#[test]
fn lib_test_empty_remove() {
    let mut m: HashMap<i32, bool> = HashMap::new();
    assert_eq!(m.remove(&0), None);
}

#[test]
fn ordmap_test_empty_remove() {
    let mut m: HashMap<i32, bool> = HashMap::new();
    assert_eq!(m.remove(&0), None);
}

#[test]
fn lib_test_empty_iter() {
    let mut m: HashMap<i32, bool> = HashMap::new();
    assert_eq!(m.drain().next(), None);
    assert_eq!(m.keys().next(), None);
    assert_eq!(m.values().next(), None);
    assert_eq!(m.values_mut().next(), None);
    assert_eq!(m.iter().next(), None);
    assert_eq!(m.iter_mut().next(), None);
    assert_eq!(m.len(), 0);
    assert!(m.is_empty());
    assert_eq!(m.into_iter().next(), None);
}

#[test]
fn ordmap_test_empty_iter() {
    let mut m: HashMap<i32, bool> = HashMap::new();
    assert_eq!(m.drain().next(), None);
    assert_eq!(m.keys().next(), None);
    assert_eq!(m.values().next(), None);
    assert_eq!(m.values_mut().next(), None);
    assert_eq!(m.iter().next(), None);
    assert_eq!(m.iter_mut().next(), None);
    assert_eq!(m.len(), 0);
    assert!(m.is_empty());
    assert_eq!(m.into_iter().next(), None);
}

#[test]
fn test_insert_moves_key_to_back() {
    let mut m: OrdHashMap<u64, u64> = OrdHashMap::new();
    assert!(m.insert(1, 2).is_none());
    assert!(m.insert(2, 4).is_none());
    assert_eq!(m.insert(1, 9), Some(2));
    assert_eq!(m.len(), 2);
    let mut it = m.iter();
    let first = it.next().unwrap();
    assert_eq!((*first.0, *first.1), (2, 4));
    let second = it.next().unwrap();
    assert_eq!((*second.0, *second.1), (1, 9));
    assert!(it.next().is_none());
}

#[test]
fn test_string_keys() {
    let mut m: OrdHashMap<String, u32> = OrdHashMap::new();
    assert!(m.insert("alpha".to_string(), 10).is_none());
    assert!(m.insert("beta".to_string(), 20).is_none());
    assert_eq!(*m.get(&"alpha".to_string()).unwrap(), 10);
    assert_eq!(*m.get(&"beta".to_string()).unwrap(), 20);
    assert!(m.get(&"gamma".to_string()).is_none());
    assert_eq!(m.remove(&"alpha".to_string()), Some(10));
    assert!(m.get(&"alpha".to_string()).is_none());
    assert_eq!(m.len(), 1);
    let mut it = m.into_iter();
    let kv = it.next().unwrap();
    assert_eq!(kv.0, "beta");
    assert_eq!(kv.1, 20);
    assert!(it.next().is_none());
}
