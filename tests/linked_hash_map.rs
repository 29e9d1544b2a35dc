use hashlink::linked_hash_map::{Entry, LinkedHashMap, RawEntryMut};

fn keys(m: &LinkedHashMap<i32, &'static str>) -> Vec<i32> {
    m.iter().iter().map(|e| *e.0).collect()
}

fn filled(ks: &[i32]) -> LinkedHashMap<i32, &'static str> {
    let mut m = LinkedHashMap::new();
    for k in ks {
        m.insert(*k, "v");
    }
    m
}

#[test]
fn iteration_follows_insertion_order() {
    let m = filled(&[3, 1, 2]);
    assert_eq!(keys(&m), vec![3, 1, 2]);
    let back: Vec<i32> = m.iter_rev().iter().map(|e| *e.0).collect();
    assert_eq!(back, vec![2, 1, 3]);
    assert_eq!(m.len(), 3);
}

#[test]
fn empty_map_has_no_ends() {
    let mut m: LinkedHashMap<i32, &str> = LinkedHashMap::new();
    assert!(m.is_empty());
    assert_eq!(m.front(), None);
    assert_eq!(m.back(), None);
    assert_eq!(m.pop_front(), None);
    assert_eq!(m.pop_back(), None);
    assert!(m.iter().is_empty());
    assert!(m.drain().is_empty());
}

#[test]
fn reinsert_updates_value_and_moves_to_newest() {
    let mut m = LinkedHashMap::new();
    assert_eq!(m.insert(1, "a"), None);
    assert_eq!(m.insert(2, "b"), None);
    assert_eq!(m.insert(3, "c"), None);
    assert_eq!(m.insert(1, "z"), Some("a"));
    assert_eq!(m.len(), 3);
    assert_eq!(keys(&m), vec![2, 3, 1]);
    assert_eq!(m.get(&1), Some(&"z"));
    assert_eq!(m.back(), Some((&1, &"z")));
}

#[test]
fn get_and_get_mut_do_not_reorder() {
    let mut m = filled(&[1, 2, 3]);
    assert_eq!(m.get(&1), Some(&"v"));
    if let Some(v) = m.get_mut(&2) {
        *v = "w";
    }
    assert_eq!(m.get(&2), Some(&"w"));
    assert_eq!(m.get(&9), None);
    assert!(m.get_mut(&9).is_none());
    assert_eq!(keys(&m), vec![1, 2, 3]);
    assert!(m.contains_key(&3));
    assert!(!m.contains_key(&4));
}

#[test]
fn remove_keeps_the_rest_in_order() {
    let mut m = filled(&[1, 2, 3, 4]);
    assert_eq!(m.remove(&2), Some("v"));
    assert_eq!(m.remove(&2), None);
    assert_eq!(m.remove_entry(&4), Some((4, "v")));
    assert_eq!(keys(&m), vec![1, 3]);
    assert_eq!(m.len(), 2);
}

#[test]
fn pop_front_and_back() {
    let mut m = LinkedHashMap::new();
    m.insert(1, "a");
    m.insert(2, "b");
    m.insert(3, "c");
    assert_eq!(m.front(), Some((&1, &"a")));
    assert_eq!(m.back(), Some((&3, &"c")));
    assert_eq!(m.pop_front(), Some((1, "a")));
    assert_eq!(m.pop_back(), Some((3, "c")));
    assert_eq!(keys(&m), vec![2]);
}

#[test]
fn to_back_and_to_front_move_one_entry() {
    let mut m = filled(&[1, 2, 3, 4]);
    assert!(m.to_back(&2));
    assert_eq!(keys(&m), vec![1, 3, 4, 2]);
    assert!(m.to_front(&4));
    assert_eq!(keys(&m), vec![4, 1, 3, 2]);
    assert!(!m.to_back(&7));
    assert!(!m.to_front(&7));
    assert_eq!(keys(&m), vec![4, 1, 3, 2]);
}

#[test]
fn removed_slots_are_reused_before_growing() {
    let mut m = filled(&[1, 2, 3, 4, 5]);
    assert_eq!(m.allocated_slots(), 5);
    m.remove(&1);
    m.remove(&3);
    m.remove(&5);
    assert_eq!(m.allocated_slots(), 5);
    m.insert(10, "x");
    m.insert(11, "y");
    m.insert(12, "z");
    assert_eq!(m.allocated_slots(), 5);
    assert_eq!(keys(&m), vec![2, 4, 10, 11, 12]);
    m.insert(13, "w");
    assert_eq!(m.allocated_slots(), 6);
}

#[test]
fn drain_takes_everything_in_order() {
    let mut m = filled(&[5, 6, 7]);
    let all = m.drain();
    assert_eq!(all, vec![(5, "v"), (6, "v"), (7, "v")]);
    assert!(m.is_empty());
    m.insert(8, "e");
    assert_eq!(keys(&m), vec![8]);
}

#[test]
fn clear_empties_the_map() {
    let mut m = filled(&[1, 2]);
    m.clear();
    assert!(m.is_empty());
    assert_eq!(m.allocated_slots(), 0);
    m.insert(3, "c");
    assert_eq!(keys(&m), vec![3]);
}

#[test]
fn pairs_round_trip() {
    let pairs = vec![(3, "c"), (1, "a"), (2, "b")];
    let m = LinkedHashMap::from_pairs(pairs.clone());
    assert_eq!(keys(&m), vec![3, 1, 2]);
    assert_eq!(m.into_pairs(), pairs);
}

#[test]
fn from_pairs_later_duplicate_wins_and_moves() {
    let m = LinkedHashMap::from_pairs(vec![(1, "a"), (2, "b"), (1, "c")]);
    assert_eq!(m.into_pairs(), vec![(2, "b"), (1, "c")]);
}

#[test]
fn entry_or_insert_on_vacant_and_occupied() {
    let mut m = filled(&[1]);
    *m.entry(2).or_insert("new") = "changed";
    assert_eq!(m.get(&2), Some(&"changed"));
    let v = m.entry(1).or_insert("ignored");
    assert_eq!(*v, "v");
    assert_eq!(keys(&m), vec![1, 2]);
}

#[test]
fn occupied_entry_moves_replaces_and_removes() {
    let mut m = filled(&[1, 2, 3]);
    match m.entry(2) {
        Entry::Occupied(mut o) => {
            assert_eq!(*o.key(), 2);
            assert_eq!(o.insert("two"), "v");
            assert_eq!(*o.get(), "two");
            o.to_front();
        }
        Entry::Vacant(_) => panic!("key 2 is present"),
    }
    assert_eq!(keys(&m), vec![2, 1, 3]);
    match m.entry(1) {
        Entry::Occupied(mut o) => o.to_back(),
        Entry::Vacant(_) => panic!("key 1 is present"),
    }
    assert_eq!(keys(&m), vec![2, 3, 1]);
    match m.entry(3) {
        Entry::Occupied(o) => assert_eq!(o.remove_entry(), (3, "v")),
        Entry::Vacant(_) => panic!("key 3 is present"),
    }
    assert_eq!(keys(&m), vec![2, 1]);
    assert_eq!(m.get(&2), Some(&"two"));
}

#[test]
fn vacant_entry_inserts_at_newest_end() {
    let mut m = filled(&[1, 2]);
    match m.entry(5) {
        Entry::Vacant(e) => {
            assert_eq!(*e.key(), 5);
            let v = e.insert("five");
            *v = "FIVE";
        }
        Entry::Occupied(_) => panic!("key 5 is absent"),
    }
    assert_eq!(keys(&m), vec![1, 2, 5]);
    assert_eq!(m.get(&5), Some(&"FIVE"));
}

#[test]
fn raw_entries_by_borrowed_key() {
    let mut m = filled(&[1, 2]);
    assert_eq!(m.raw_entry().from_key(&2), Some((&2, &"v")));
    assert_eq!(m.raw_entry().from_key(&3), None);
    match m.raw_entry_mut().from_key(&3) {
        RawEntryMut::Vacant(e) => {
            e.insert(3, "three");
        }
        RawEntryMut::Occupied(_) => panic!("key 3 is absent"),
    }
    match m.raw_entry_mut().from_key(&1) {
        RawEntryMut::Occupied(o) => {
            *o.into_mut() = "one";
        }
        RawEntryMut::Vacant(_) => panic!("key 1 is present"),
    }
    assert_eq!(keys(&m), vec![1, 2, 3]);
    assert_eq!(m.get(&1), Some(&"one"));
    assert_eq!(m.get(&3), Some(&"three"));
}

#[test]
fn string_keys_work() {
    let mut m: LinkedHashMap<String, usize> = LinkedHashMap::new();
    m.insert("b".to_string(), 2);
    m.insert("a".to_string(), 1);
    m.insert("b".to_string(), 3);
    let ks: Vec<String> = m.iter().iter().map(|e| e.0.clone()).collect();
    assert_eq!(ks, vec!["a".to_string(), "b".to_string()]);
    assert_eq!(m.get(&"b".to_string()), Some(&3));
}

#[test]
fn with_hasher_starts_empty() {
    let mut m: LinkedHashMap<i32, i32> =
        LinkedHashMap::with_hasher(std::collections::hash_map::RandomState::new());
    assert!(m.is_empty());
    m.insert(1, 10);
    m.insert(2, 20);
    assert_eq!(m.get(&2), Some(&20));
    assert_eq!(m.len(), 2);
}

#[test]
fn reserve_keeps_entries() {
    let mut m = filled(&[4, 5]);
    m.reserve(100);
    assert_eq!(keys(&m), vec![4, 5]);
    assert_eq!(m.allocated_slots(), 2);
}

#[test]
fn with_capacity_starts_empty() {
    let mut m: LinkedHashMap<i32, &str> = LinkedHashMap::with_capacity(8);
    assert!(m.is_empty());
    assert_eq!(m.allocated_slots(), 0);
    m.insert(1, "a");
    assert_eq!(keys(&m), vec![1]);
}

#[test]
fn shrink_to_fit_releases_free_slots() {
    let mut m = filled(&[1, 2, 3, 4, 5, 6]);
    m.remove(&2);
    m.remove(&5);
    m.to_front(&4);
    assert_eq!(m.allocated_slots(), 6);
    m.shrink_to_fit();
    assert_eq!(m.allocated_slots(), 4);
    assert_eq!(keys(&m), vec![4, 1, 3, 6]);
    assert_eq!(m.get(&3), Some(&"v"));
    assert_eq!(m.remove(&1), Some("v"));
    m.insert(7, "s");
    assert_eq!(keys(&m), vec![4, 3, 6, 7]);
    assert_eq!(m.allocated_slots(), 4);
    let back: Vec<i32> = m.iter_rev().iter().map(|e| *e.0).collect();
    assert_eq!(back, vec![7, 6, 3, 4]);
}
