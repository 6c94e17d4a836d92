use std::sync::Arc;
use std::sync::atomic::AtomicUsize;
use std::sync::atomic::Ordering;

use dark_std::SyncHashMap;

#[test]
fn test_debug() {
    let mut m: SyncHashMap<i32> = SyncHashMap::new();
    m.insert(1, 1);
    let mut parts: Vec<String> = Vec::new();
    let mut it = m.iter();
    while let Some((k, v)) = it.next() {
        parts.push(format!("{}: {}", k, v));
    }
    let rendered = format!("{{{}}}", parts.join(", "));
    assert_eq!(rendered, "{1: 1}");
}

#[test]
fn test_empty() {
    let m: SyncHashMap<i32> = SyncHashMap::new();
    assert_eq!(0, m.len());
}

#[test]
fn test_insert() {
    let mut m = SyncHashMap::<i32>::new();
    let insert = m.insert(1, 2);
    assert_eq!(insert.is_none(), true);
}

#[test]
fn test_insert2() {
    let mut m = SyncHashMap::<String>::new();
    m.insert(1, "1".to_string());
    m.insert(2, "2".to_string());
    m.insert(3, "3".to_string());

    assert_eq!(&"1".to_string(), m.get(&1).unwrap());
    assert_eq!(&"2".to_string(), m.get(&2).unwrap());
    assert_eq!(&"3".to_string(), m.get(&3).unwrap());
    assert!(m.get(&4).is_none());
}

#[test]
fn test_get() {
    let mut m = SyncHashMap::<i32>::new();
    let _insert = m.insert(1, 2);
    let g = m.get(&1).unwrap();
    assert_eq!(&2, g);
}

#[derive(Clone, Debug, Eq, PartialEq, Hash)]
pub struct A {
    inner: i32,
}

#[test]
fn test_remove() {
    let a = A { inner: 0 };
    let mut m = SyncHashMap::<A>::new();
    let _insert = m.insert(1, a);
    let g = m.get(&1).unwrap();
    assert_eq!(&A { inner: 0 }, g);
    let rm = m.remove(&1).unwrap();
    println!("rm:{:?}", rm);
    assert_eq!(1, Arc::strong_count(&rm));
    drop(rm);
    assert_eq!(true, m.is_empty());
    assert!(m.get_mut(&1).is_none());
    assert_eq!(None, m.get(&1));
}

#[test]
fn test_remove2() {
    let mut m = SyncHashMap::<String>::new();
    for i in 0..1000000u64 {
        m.insert(i, String::from("safdfasdfasdfasdfasdfasdfsadf"));
    }
    assert_eq!(1000000, m.len());
    m.clear();
    m.shrink_to_fit();
    assert_eq!(0, m.len());
    for i in 0..1000000u64 {
        m.insert(i, String::from("safdfasdfasdfasdfasdfasdfsadf"));
    }
    assert_eq!(1000000, m.len());
    m.clear();
    m.shrink_to_fit();
    assert_eq!(0, m.len());
}

#[test]
fn test_iter() {
    let mut m = SyncHashMap::<i32>::new();
    let _insert = m.insert(1, 2);
    let mut it = m.iter();
    let mut seen: usize = 0;
    while let Some((k, v)) = it.next() {
        assert_eq!(k, 1);
        assert_eq!(*v, 2);
        seen += 1;
    }
    assert_eq!(seen, 1);
}

#[test]
fn test_iter_mut() {
    let mut m = SyncHashMap::<i32>::new();
    let _insert = m.insert(1, 2);
    let mut it = m.iter_mut();
    let mut seen: usize = 0;
    while let Some(k) = it.next() {
        assert_eq!(k, 1);
        let slot = m.get_mut(&k).unwrap();
        assert_eq!(**slot, 2);
        seen += 1;
    }
    assert_eq!(seen, 1);
}

#[test]
fn test_new_key_read_after_write() {
    let mut m = SyncHashMap::<i32>::new();
    assert!(m.get(&7).is_none());
    assert!(m.insert(7, 70).is_none());
    assert_eq!(m.get(&7), Some(&70));
}

#[test]
fn test_overwrite_staleness() {
    let mut m = SyncHashMap::<i32>::new();
    assert!(m.insert(1, 10).is_none());
    let prev = m.insert(1, 20).unwrap();
    assert_eq!(*prev, 10);
    // The read path still serves the first value after an overwrite.
    assert_eq!(m.get(&1), Some(&10));
    // Removing hands back the authoritative (newest) value.
    let removed = m.remove(&1).unwrap();
    assert_eq!(*removed, 20);
    assert_eq!(m.get(&1), None);
    // After remove and reinsert the read path serves the newest value.
    assert!(m.insert(1, 30).is_none());
    assert_eq!(m.get(&1), Some(&30));
}

#[test]
fn test_remove_then_absent() {
    let mut m = SyncHashMap::<i32>::new();
    m.insert(1, 2);
    m.insert(2, 4);
    assert_eq!(2, m.len());
    let rm = m.remove(&1).unwrap();
    assert_eq!(*rm, 2);
    assert!(m.get(&1).is_none());
    assert_eq!(1, m.len());
}

#[test]
fn test_count_consistency() {
    let mut m = SyncHashMap::<i32>::new();
    for i in 0..5u64 {
        assert!(m.insert(i, i as i32).is_none());
    }
    assert_eq!(5, m.len());
    assert!(!m.is_empty());
}

#[test]
fn test_scenario_insert_remove() {
    let mut m = SyncHashMap::<i32>::new();
    m.insert(1, 2);
    let rm = m.remove(&1).unwrap();
    assert_eq!(*rm, 2);
    assert!(m.get(&1).is_none());
    assert!(m.is_empty());
}

pub struct Resource {
    releases: Arc<AtomicUsize>,
}

impl Drop for Resource {
    fn drop(&mut self) {
        self.releases.fetch_add(1, Ordering::SeqCst);
    }
}

#[test]
fn test_single_release_on_remove() {
    let releases = Arc::new(AtomicUsize::new(0));
    let mut m = SyncHashMap::<Resource>::new();
    m.insert(1, Resource { releases: releases.clone() });
    assert!(m.get(&1).is_some());
    let rm = m.remove(&1).unwrap();
    assert_eq!(0, releases.load(Ordering::SeqCst));
    drop(rm);
    // The owned value is released exactly once; the shadow alias
    // released nothing.
    assert_eq!(1, releases.load(Ordering::SeqCst));
}

#[test]
fn test_single_release_on_clear() {
    let releases = Arc::new(AtomicUsize::new(0));
    let mut m = SyncHashMap::<Resource>::new();
    m.insert(1, Resource { releases: releases.clone() });
    m.insert(2, Resource { releases: releases.clone() });
    m.clear();
    assert_eq!(2, releases.load(Ordering::SeqCst));
}

#[test]
fn test_from_entries() {
    let entries: Vec<(u64, &str)> = vec![(1, "a"), (2, "b"), (3, "c")];
    let m = SyncHashMap::from(entries);
    assert_eq!(3, m.len());
    assert_eq!(m.get(&1), Some(&"a"));
    assert_eq!(m.get(&2), Some(&"b"));
    assert_eq!(m.get(&3), Some(&"c"));
}

#[test]
fn test_into_iter() {
    let mut m = SyncHashMap::<i32>::new();
    m.insert(1, 2);
    m.insert(2, 4);
    let mut pairs: Vec<(u64, i32)> = m.into_iter().into_iter().map(|(k, v)| (k, *v)).collect();
    pairs.sort();
    assert_eq!(pairs, vec![(1, 2), (2, 4)]);
}

#[test]
fn test_with_capacity() {
    let mut m = SyncHashMap::<i32>::with_capacity(16);
    assert!(m.is_empty());
    m.insert(1, 1);
    assert_eq!(1, m.len());
}

#[test]
fn test_new_arc() {
    let m = SyncHashMap::<i32>::new_arc();
    assert_eq!(0, m.len());
}

#[test]
fn test_get_mut_staleness() {
    let mut m = SyncHashMap::<i32>::new();
    m.insert(1, 5);
    {
        let slot = m.get_mut(&1).unwrap();
        *slot = Arc::new(7);
    }
    // The exclusive write went to the authoritative store only.
    assert_eq!(m.get(&1), Some(&5));
    let removed = m.remove(&1).unwrap();
    assert_eq!(*removed, 7);
}

#[test]
fn test_iteration_completeness() {
    let mut m = SyncHashMap::<i32>::new();
    for i in 0..10u64 {
        m.insert(i, (i as i32) * 2);
    }
    m.remove(&3);
    m.insert(3, 33);
    let mut seen: Vec<(u64, i32)> = Vec::new();
    let mut it = m.iter();
    while let Some((k, v)) = it.next() {
        seen.push((k, *v));
    }
    assert_eq!(seen.len(), 10);
    seen.sort();
    for (i, (k, v)) in seen.iter().enumerate() {
        assert_eq!(*k, i as u64);
        if *k == 3 {
            assert_eq!(*v, 33);
        } else {
            assert_eq!(*v, (*k as i32) * 2);
        }
    }
}
