use std::collections::HashSet;

use lowdb::common::key::Key;
use lowdb::common::lookup::Lookup;
use lowdb::common::value::Value;
use lowdb::memtable::list::SkipList;
use lowdb::memtable::MemTable;

#[test]
fn get_set() {
    let mut mem_table = MemTable::new(0);
    for i in 0..100 {
        let key = Key(format!("{}", i), 1);
        let value = Value::Put(format!("{}", i * 2));
        mem_table.put(key, value);
    }
    for i in 0..100 {
        let key = format!("{}", i);
        let expected = format!("{}", i * 2);
        let Lookup::Found(value) = mem_table.get(&key) else {
            panic!("value not found");
        };
        assert_eq!(expected, value);
    }
}

#[test]
fn mark_deleted() {
    let mut mem_table = MemTable::new(0);
    mem_table.put(Key::new("1", 0), Value::Delete);
    assert_eq!(mem_table.id(), 0);
    assert_eq!(mem_table.get("1"), Lookup::Deleted);
}

#[test]
fn get_empty() {
    let mem_table = MemTable::new(0);
    assert!(mem_table.is_empty());
    assert!(!mem_table.is_full());
    assert_eq!(mem_table.len(), 0);
    assert_eq!(mem_table.get("empty"), Lookup::Absent);
}

#[test]
fn iter() {
    let mut mem_table = MemTable::new(0);
    let mut existed = HashSet::new();
    for i in 0..100 {
        let value = format!("{i}");
        mem_table.put(Key::new(&value, i), Value::set(&value));
        existed.insert(value);
    }
    let mut it = mem_table.iter();
    while let Some((k, _)) = it.next() {
        existed.remove(&k.0);
    }
    assert!(existed.is_empty());
}

#[test]
fn insert_and_get() {
    let mut list = SkipList::new();
    assert!(list.insert(Key::new("apple", 1), Value::set("a1")));
    assert!(list.insert(Key::new("banana", 2), Value::set("b2")));
    assert!(list.insert(Key::new("apple", 3), Value::set("a3")));

    assert_eq!(list.get("apple"), Some(&Value::set("a3")));
    assert_eq!(list.get("banana"), Some(&Value::set("b2")));
    assert_eq!(list.get("cherry"), None);
    assert_eq!(list.len(), 3);
}

#[test]
fn insert_greater_to_lower() {
    let mut list = SkipList::new();
    assert!(list.insert(Key::new("b", 1), Value::Delete));
    assert!(list.insert(Key::new("a", 2), Value::Delete));
}

#[test]
fn tombstone_is_a_hit() {
    let mut list = SkipList::new();
    list.insert(Key::new("k", 1), Value::set("v"));
    list.insert(Key::new("k", 5), Value::Delete);

    assert_eq!(list.get("k"), Some(&Value::Delete));
    assert!(list.get("k").unwrap().is_delete());
    // Reading below the tombstone still sees the old value.
    assert_eq!(list.get_at("k", 4), Some(&Value::set("v")));
}

#[test]
fn snapshot_reads() {
    let mut list = SkipList::new();
    for seq in [10u64, 20, 30] {
        list.insert(Key::new("k", seq), Value::set(&format!("v{seq}")));
    }
    assert_eq!(list.get_at("k", 5), None);
    assert_eq!(list.get_at("k", 10), Some(&Value::set("v10")));
    assert_eq!(list.get_at("k", 25), Some(&Value::set("v20")));
    assert_eq!(list.get_at("k", u64::MAX), Some(&Value::set("v30")));

    let (key, _) = list.get_entry_at("k", 25).unwrap();
    assert_eq!(key.1, 20);
}

#[test]
fn duplicate_is_rejected() {
    let mut list = SkipList::new();
    assert!(list.insert(Key::new("k", 7), Value::set("first")));
    assert!(!list.insert(Key::new("k", 7), Value::set("second")));
    assert_eq!(list.get("k"), Some(&Value::set("first")));
    assert_eq!(list.len(), 1);
}

#[test]
fn iteration_is_sorted_newest_first() {
    let mut list = SkipList::new();
    list.insert(Key::new("b", 1), Value::set("b1"));
    list.insert(Key::new("a", 2), Value::set("a2"));
    list.insert(Key::new("b", 9), Value::Delete);
    list.insert(Key::new("a", 1), Value::set("a1"));

    let mut got: Vec<(String, u64)> = Vec::new();
    let mut it = list.iter();
    while let Some((k, _)) = it.next() {
        got.push((k.0.clone(), k.1));
    }
    assert_eq!(
        got,
        vec![
            ("a".into(), 2u64),
            ("a".into(), 1),
            ("b".into(), 9),
            ("b".into(), 1)
        ]
    );

    // What a flush would emit: first entry of each user-key run.
    let mut flushed: Vec<(&str, &Value)> = Vec::new();
    let mut it = list.iter();
    while let Some((k, v)) = it.next() {
        if flushed.last().map(|(u, _)| *u) != Some(k.0.as_str()) {
            flushed.push((&k.0, v));
        }
    }
    assert_eq!(
        flushed,
        vec![("a", &Value::set("a2")), ("b", &Value::Delete)]
    );
}

#[test]
fn iter_from_seeks() {
    let mut list = SkipList::new();
    for k in ["a", "c", "e", "g"] {
        list.insert(Key::new(k, 1), Value::set(k));
    }
    let mut got: Vec<String> = Vec::new();
    let mut it = list.iter_from("c", u64::MAX);
    while let Some((k, _)) = it.next() {
        got.push(k.0.clone());
    }
    assert_eq!(got, vec!["c", "e", "g"]);
}

#[test]
fn many_inserts_stay_sorted_and_readable() {
    const PARTS: u64 = 8;
    const PER_PART: u64 = 500;

    let mut list = SkipList::new();
    for t in 0..PARTS {
        for i in 0..PER_PART {
            let seq = t * PER_PART + i;
            let key = format!("key{:06}", i * PARTS + t);
            assert!(list.insert(Key(key, seq), Value::set(&format!("v{seq}"))));
        }
    }
    let total = (PARTS * PER_PART) as usize;
    assert_eq!(list.len(), total);
    for i in 0..total as u64 {
        let key = format!("key{i:06}");
        assert!(list.get(&key).is_some(), "missing {key}");
    }
    let mut count = 0;
    let mut prev: Option<Key> = None;
    let mut it = list.iter();
    while let Some((k, _)) = it.next() {
        if let Some(p) = &prev {
            assert!(p.0 < k.0);
        }
        prev = Some(k.clone());
        count += 1;
    }
    assert_eq!(count, total);
    assert!(list.mem_usage() > 0);
}

#[test]
fn table_is_full_at_its_limit() {
    let mut mem_table = MemTable::with_max_size(3, 1);
    assert_eq!(mem_table.id(), 3);
    assert!(!mem_table.is_full());
    mem_table.put(Key::new("k", 1), Value::set("v"));
    assert!(mem_table.is_full());
    assert_eq!(mem_table.len(), 1);
    assert!(!mem_table.is_empty());
    // It stays full, also when a shorter text replaces the one it holds.
    mem_table.put(Key::new("k", 1), Value::Delete);
    assert!(mem_table.is_full());
    mem_table.put(Key::new("l", 2), Value::set("w"));
    assert!(mem_table.is_full());
}

#[test]
fn later_versions_are_invisible() {
    let mut mem_table = MemTable::new(0);
    mem_table.put(Key::new("k", 5), Value::set("old"));
    assert_eq!(
        mem_table.get_seq("k", 7),
        Lookup::Found("old".to_string())
    );
    mem_table.put(Key::new("k", 8), Value::set("new"));
    assert_eq!(
        mem_table.get_seq("k", 7),
        Lookup::Found("old".to_string())
    );
    assert_eq!(
        mem_table.get_seq("k", 8),
        Lookup::Found("new".to_string())
    );
    assert_eq!(mem_table.get_seq("k", 4), Lookup::Absent);
}

#[test]
fn a_version_is_never_replaced() {
    let mut mem_table = MemTable::new(0);
    mem_table.put(Key::new("k", 5), Value::set("first"));
    mem_table.put(Key::new("k", 5), Value::Delete);
    assert_eq!(mem_table.get("k"), Lookup::Found("first".to_string()));
    assert_eq!(mem_table.len(), 1);
}
