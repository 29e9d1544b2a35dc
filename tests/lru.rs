use hashlink::linked_hash_map::{Entry, RawEntryMut};
use hashlink::LruCache;

fn keys(c: &LruCache<i32, &'static str>) -> Vec<i32> {
    c.iter().iter().map(|e| *e.0).collect()
}

fn ignore(_: i32, _: &str) {}

#[test]
fn lru_capacity_two_scenario() {
    let mut evicted: Vec<(i32, &str)> = Vec::new();
    let mut c: LruCache<i32, &str> = LruCache::new(2);
    c.insert(1, "a", |k, v| evicted.push((k, v)));
    c.insert(2, "b", |k, v| evicted.push((k, v)));
    c.insert(3, "c", |k, v| evicted.push((k, v)));
    assert_eq!(evicted, vec![(1, "a")]);
    assert_eq!(keys(&c), vec![2, 3]);
    assert_eq!(c.get(&2), Some(&"b"));
    assert_eq!(keys(&c), vec![3, 2]);
    c.insert(4, "d", |k, v| evicted.push((k, v)));
    assert_eq!(evicted, vec![(1, "a"), (3, "c")]);
    assert_eq!(keys(&c), vec![2, 4]);
}

#[test]
fn full_cache_evicts_exactly_the_oldest() {
    let mut evicted: Vec<(i32, &str)> = Vec::new();
    let mut c = LruCache::new(3);
    for k in 0..3 {
        assert_eq!(c.insert(k, "x", |k, v| evicted.push((k, v))), None);
    }
    assert!(evicted.is_empty());
    c.insert(3, "y", |k, v| evicted.push((k, v)));
    assert_eq!(evicted, vec![(0, "x")]);
    assert_eq!(keys(&c), vec![1, 2, 3]);
    assert_eq!(c.len(), 3);
}

#[test]
fn reinsert_in_full_cache_evicts_nothing() {
    let mut evicted: Vec<(i32, &str)> = Vec::new();
    let mut c = LruCache::new(2);
    c.insert(1, "a", ignore);
    c.insert(2, "b", ignore);
    assert_eq!(c.insert(1, "z", |k, v| evicted.push((k, v))), Some("a"));
    assert!(evicted.is_empty());
    assert_eq!(keys(&c), vec![2, 1]);
}

#[test]
fn get_promotes_and_peek_does_not() {
    let mut c = LruCache::new(4);
    for k in 1..4 {
        c.insert(k, "v", ignore);
    }
    assert_eq!(c.peek(&1), Some(&"v"));
    if let Some(v) = c.peek_mut(&2) {
        *v = "w";
    }
    assert_eq!(keys(&c), vec![1, 2, 3]);
    assert_eq!(c.get(&1), Some(&"v"));
    assert_eq!(keys(&c), vec![2, 3, 1]);
    if let Some(v) = c.get_mut(&2) {
        *v = "u";
    }
    assert_eq!(keys(&c), vec![3, 1, 2]);
    assert_eq!(c.peek(&2), Some(&"u"));
    assert_eq!(c.get(&9), None);
    assert!(c.get_mut(&9).is_none());
    assert_eq!(keys(&c), vec![3, 1, 2]);
}

#[test]
fn contains_key_marks_as_used() {
    let mut c = LruCache::new(3);
    c.insert(1, "a", ignore);
    c.insert(2, "b", ignore);
    assert!(c.contains_key(&1));
    assert!(!c.contains_key(&5));
    assert_eq!(keys(&c), vec![2, 1]);
}

#[test]
fn remove_lru_and_peek_lru() {
    let mut c = LruCache::new(3);
    assert_eq!(c.peek_lru(), None);
    assert_eq!(c.remove_lru(), None);
    c.insert(1, "a", ignore);
    c.insert(2, "b", ignore);
    assert_eq!(c.peek_lru(), Some((&1, &"a")));
    assert_eq!(c.remove_lru(), Some((1, "a")));
    assert_eq!(c.peek_lru(), Some((&2, &"b")));
    assert_eq!(c.remove(&2), Some("b"));
    assert!(c.is_empty());
}

#[test]
fn set_capacity_evicts_oldest_first() {
    let mut c = LruCache::new(5);
    for k in 1..6 {
        c.insert(k, "v", ignore);
    }
    let evicted = std::cell::RefCell::new(Vec::new());
    c.set_capacity(2, |k, _| evicted.borrow_mut().push(k));
    assert_eq!(evicted.into_inner(), vec![1, 2, 3]);
    assert_eq!(keys(&c), vec![4, 5]);
    assert_eq!(c.capacity(), 2);
    c.set_capacity(10, |_, _| panic!("growing never evicts"));
    assert_eq!(keys(&c), vec![4, 5]);
    assert_eq!(c.capacity(), 10);
}

#[test]
fn zero_capacity_keeps_nothing() {
    let mut evicted: Vec<(i32, &str)> = Vec::new();
    let mut c = LruCache::new(0);
    c.insert(1, "a", |k, v| evicted.push((k, v)));
    assert_eq!(evicted, vec![(1, "a")]);
    assert!(c.is_empty());
}

#[test]
fn unbounded_cache_has_largest_capacity() {
    let mut c: LruCache<i32, &str> = LruCache::new_unbounded();
    assert_eq!(c.capacity(), usize::MAX);
    for k in 0..100 {
        c.insert(k, "v", ignore);
    }
    assert_eq!(c.len(), 100);
}

#[test]
fn entry_may_exceed_capacity_by_one() {
    let mut evicted: Vec<(i32, &str)> = Vec::new();
    let mut c = LruCache::new(2);
    c.insert(1, "a", ignore);
    c.insert(2, "b", ignore);
    match c.entry(3, |k, v| evicted.push((k, v))) {
        Entry::Vacant(e) => {
            e.insert("c");
        }
        Entry::Occupied(_) => panic!("key 3 is absent"),
    }
    assert!(evicted.is_empty());
    assert_eq!(c.len(), 3);
    match c.entry(1, |k, v| evicted.push((k, v))) {
        Entry::Vacant(e) => {
            e.insert("again");
        }
        Entry::Occupied(_) => panic!("key 1 was evicted"),
    }
    assert_eq!(evicted, vec![(1, "a")]);
    assert_eq!(keys(&c), vec![2, 3, 1]);
}

#[test]
fn entry_does_not_promote() {
    let mut c = LruCache::new(3);
    c.insert(1, "a", ignore);
    c.insert(2, "b", ignore);
    match c.entry(1, ignore) {
        Entry::Occupied(o) => assert_eq!(*o.get(), "a"),
        Entry::Vacant(_) => panic!("key 1 is present"),
    }
    assert_eq!(keys(&c), vec![1, 2]);
}

#[test]
fn raw_entry_mut_evicts_when_over_capacity() {
    let mut evicted: Vec<(i32, &str)> = Vec::new();
    let mut c = LruCache::new(1);
    c.insert(1, "a", ignore);
    match c.raw_entry_mut(ignore).from_key(&2) {
        RawEntryMut::Vacant(e) => {
            e.insert(2, "b");
        }
        RawEntryMut::Occupied(_) => panic!("key 2 is absent"),
    }
    assert_eq!(c.len(), 2);
    match c.raw_entry_mut(|k, v| evicted.push((k, v))).from_key(&2) {
        RawEntryMut::Occupied(mut o) => o.to_front(),
        RawEntryMut::Vacant(_) => panic!("key 2 is present"),
    }
    assert_eq!(evicted, vec![(1, "a")]);
    assert_eq!(keys(&c), vec![2]);
    assert_eq!(c.raw_entry().from_key(&2), Some((&2, &"b")));
}

#[test]
fn extend_evicts_without_callback() {
    let mut c = LruCache::new(2);
    c.extend(vec![(1, "a"), (2, "b"), (3, "c"), (2, "d")]);
    assert_eq!(keys(&c), vec![3, 2]);
    assert_eq!(c.peek(&2), Some(&"d"));
}

#[test]
fn drain_and_clear_keep_capacity() {
    let mut c = LruCache::new(3);
    c.insert(1, "a", ignore);
    c.insert(2, "b", ignore);
    assert_eq!(c.drain(), vec![(1, "a"), (2, "b")]);
    assert!(c.is_empty());
    c.insert(3, "c", ignore);
    c.clear();
    assert!(c.is_empty());
    assert_eq!(c.capacity(), 3);
}

#[test]
fn parts_round_trip() {
    let mut c = LruCache::new(4);
    c.insert(3, "c", ignore);
    c.insert(1, "a", ignore);
    c.insert(2, "b", ignore);
    let copy = c.clone();
    let (pairs, cap) = c.into_parts();
    assert_eq!(pairs, vec![(3, "c"), (1, "a"), (2, "b")]);
    assert_eq!(cap, 4);
    let back = LruCache::from_parts(pairs, cap);
    assert_eq!(keys(&back), vec![3, 1, 2]);
    assert_eq!(back.capacity(), 4);
    assert_eq!(keys(&copy), vec![3, 1, 2]);
}

#[test]
fn from_parts_keeps_the_newest() {
    let c = LruCache::from_parts(vec![(1, "a"), (2, "b"), (3, "c")], 2);
    assert_eq!(keys(&c), vec![2, 3]);
}

#[test]
fn with_hasher_cache_evicts() {
    let mut c: LruCache<i32, &str> =
        LruCache::with_hasher(1, std::collections::hash_map::RandomState::new());
    assert!(c.is_empty());
    c.insert(1, "a", ignore);
    c.insert(2, "b", ignore);
    assert_eq!(keys(&c), vec![2]);
}
