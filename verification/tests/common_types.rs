use std::cmp::Ordering;

use lowdb::common::error::DbError;
use lowdb::common::key::{cmp_key, Key};
use lowdb::common::path;
use lowdb::common::sort::sorted_ids;
use lowdb::common::sorted::SortedMap;
use lowdb::common::text;
use lowdb::common::value::Value;

#[test]
fn keys_order_by_user_key_then_newest_first() {
    let a1 = Key::new("a", 1);
    let a2 = Key::new("a", 2);
    let b1 = Key::new("b", 1);
    assert_eq!(a2.cmp(&a1), Ordering::Less);
    assert_eq!(a1.cmp(&a2), Ordering::Greater);
    assert_eq!(a1.cmp(&b1), Ordering::Less);
    assert_eq!(b1.cmp(&b1), Ordering::Equal);
    assert_eq!(cmp_key(&a2, "a", 1), Ordering::Less);
    assert_eq!(cmp_key(&a1, "a", 1), Ordering::Equal);
    assert_eq!(cmp_key(&b1, "a", 9), Ordering::Greater);
}

#[test]
fn sizes_of_keys_and_values() {
    let key = Key::new("key", 7);
    assert_eq!(key.heap_size(), 11);
    assert_eq!(key.disk_size(), 13);
    assert_eq!(key.show(), "(key, 7)");
    let value = Value::set("value");
    assert_eq!(value.heap_size(), 5);
    assert_eq!(value.disk_size(), 7);
    assert_eq!(Value::Delete.heap_size(), 0);
    assert_eq!(Value::Delete.disk_size(), 2);
    assert!(Value::Delete.is_delete());
    assert!(!value.is_delete());
}

#[test]
fn errors_are_shown() {
    assert_eq!(DbError::invalid_state("torn").show(), "invalid state: torn");
    assert_eq!(
        DbError::InvalidInt("too long".to_string()).show(),
        "invalid integer: too long"
    );
    assert_eq!(
        DbError::InvalidValue("bad".to_string()).show(),
        "invalid value :bad"
    );
    assert_eq!(DbError::CommitConflict.show(), "commit conflict");
    let io = std::io::Error::from(std::io::ErrorKind::NotFound);
    let shown = io.to_string();
    assert_eq!(DbError::from(io).show(), format!("I/O error:{shown}"));
}

#[test]
fn foreign_errors_become_errors_of_the_engine() {
    let too_large: Result<u8, std::num::TryFromIntError> = u8::try_from(300u16);
    assert!(matches!(
        DbError::from(too_large.unwrap_err()),
        DbError::InvalidInt(_)
    ));
    let not_a_number: Result<u64, std::num::ParseIntError> = "x".parse::<u64>();
    assert!(matches!(
        DbError::from(not_a_number.unwrap_err()),
        DbError::InvalidValue(_)
    ));
    let short: &[u8] = &[1, 2];
    let slice: Result<[u8; 4], std::array::TryFromSliceError> = short.try_into();
    assert!(matches!(
        DbError::from(slice.unwrap_err()),
        DbError::InvalidValue(_)
    ));
}

#[test]
fn decimal_texts_round_trip() {
    for n in [0u64, 7, 10, 65535, u64::MAX] {
        assert_eq!(text::decimal(n), format!("{n}"));
        assert_eq!(text::parse_decimal(&text::decimal(n), u64::MAX), Some(n));
    }
    assert_eq!(text::parse_decimal("+12", u64::MAX), Some(12));
    assert_eq!(text::parse_decimal("007", u64::MAX), Some(7));
    assert_eq!(text::parse_decimal("", u64::MAX), None);
    assert_eq!(text::parse_decimal("+", u64::MAX), None);
    assert_eq!(text::parse_decimal("1x", u64::MAX), None);
    assert_eq!(text::parse_decimal("-1", u64::MAX), None);
    assert_eq!(text::parse_decimal("18446744073709551616", u64::MAX), None);
    assert_eq!(text::parse_decimal("4294967296", u32::MAX as u64), None);
}

#[test]
fn texts_compare_by_their_bytes() {
    assert!(text::precedes("a", "b"));
    assert!(text::precedes("a", "aa"));
    assert!(!text::precedes("a", "a"));
    assert!(text::precedes("z", "é"));
    assert!(text::same("é", "é"));
    assert_eq!(text::compare("b", "a"), Ordering::Greater);
    assert_eq!(text::byte_len("é"), 2);
}

#[test]
fn paths_join_and_name_files() {
    assert_eq!(path::join("db", "wal"), "db/wal");
    assert_eq!(path::join("db/", "wal"), "db/wal");
    assert_eq!(path::file_name("db/wal/12"), Some("12".to_string()));
    assert_eq!(path::file_name("db/.."), None);
    assert_eq!(path::with_extension("ss/0_1", "sst.tmp"), "ss/0_1.sst.tmp");
}

#[test]
fn numbers_are_sorted() {
    let numbers = vec![3u64, 1, 2, 1];
    assert_eq!(sorted_ids(&numbers), vec![1, 1, 2, 3]);
}

#[test]
fn sorted_map_keeps_keys_in_order() {
    let mut map: SortedMap<u64> = SortedMap::new();
    assert!(map.is_empty());
    map.insert("b".to_string(), 1);
    map.insert("a".to_string(), 2);
    map.insert("c".to_string(), 3);
    map.insert("b".to_string(), 4);
    assert_eq!(map.len(), 3);
    assert_eq!(map.get("b"), Some(&4));
    assert_eq!(map.get("x"), None);
    assert_eq!(map.at(0), ("a", &2));
    assert_eq!(map.at(2), ("c", &3));
}
