use lowdb::common::error::DbError;
use lowdb::common::key::Key;
use lowdb::common::sorted::SortedMap;
use lowdb::common::value::Value;
use lowdb::storage::storage::DiskStorage;
use lowdb::storage::wal::Wal;
use lowdb::storage::Storage;
use lowdb::transaction::oracle::Oracle;
use lowdb::transaction::snapshot::Snapshot;
use lowdb::transaction::Transaction;

fn create_storage() -> Storage {
    let wal = Wal::new("db", &vec![]).unwrap();
    let disk = DiskStorage::load("db", vec![]).unwrap();
    Storage::new(wal, disk, vec![]).unwrap()
}

fn put(oracle: &mut Oracle, storage: &mut Storage, key: &str, value: &str) -> u64 {
    let mut buffer = SortedMap::new();
    buffer.insert(key.to_string(), Value::set(value));
    let tx_id = oracle.next_tx_id();
    oracle.commit(tx_id, storage, None, buffer).unwrap()
}

#[test]
fn tx_visibility() {
    let mut storage = create_storage();
    let mut oracle = Oracle::new(1, 1);

    put(&mut oracle, &mut storage, "k1", "v1");

    let tx = Transaction::new(&mut oracle, &mut storage);

    put(&mut oracle, &mut storage, "k1", "v2");

    assert_eq!(tx.get(&storage, "k1").unwrap(), Some("v1".to_string()));
}

#[test]
fn concurrent_txs() {
    let mut storage = create_storage();
    let mut oracle = Oracle::new(1, 1);

    let mut tx = Transaction::new(&mut oracle, &mut storage);
    let mut tx2 = Transaction::new(&mut oracle, &mut storage);
    tx.set("k1", "v2");
    tx2.set("k1", "v1");
    tx2.commit(&mut oracle, &mut storage).unwrap();

    let Err(DbError::CommitConflict) = tx.commit(&mut oracle, &mut storage) else {
        panic!("first tx does not rollbacked");
    };
}

#[test]
fn aborted_and_dropped_txs_leave_active_set() {
    let mut storage = create_storage();
    let mut oracle = Oracle::new(1, 1);

    let dropped = Transaction::new(&mut oracle, &mut storage);
    dropped.rollback(&mut oracle, &mut storage);

    let mut t1 = Transaction::new(&mut oracle, &mut storage);
    let mut t2 = Transaction::new(&mut oracle, &mut storage);
    t1.set("k", "a");
    t2.set("k", "b");
    t1.commit(&mut oracle, &mut storage).unwrap();
    assert!(matches!(
        t2.commit(&mut oracle, &mut storage),
        Err(DbError::CommitConflict)
    ));

    // Nobody reads below what is visible any more.
    assert_eq!(oracle.watermark(), oracle.read_ts());
}

#[test]
fn in_flight_lower_seq_write_is_not_visible_to_later_snapshot() {
    let mut storage = create_storage();
    let mut oracle = Oracle::new(1, 1);

    let mut buffer = SortedMap::new();
    buffer.insert("k".to_string(), Value::set("late"));
    // A write has its sequence number and is not applied yet.
    let (ts, batch) = oracle.prepare(None, &buffer).unwrap();
    let tx = Transaction::new(&mut oracle, &mut storage);
    assert_eq!(tx.get(&storage, "k").unwrap(), None);

    storage.set_batch(1, batch).unwrap();
    oracle.publish(&buffer, ts);

    assert_eq!(
        tx.get(&storage, "k").unwrap(),
        None,
        "snapshot changed after the tx began"
    );
}

#[test]
fn a_transaction_reads_its_own_writes() {
    let mut storage = create_storage();
    let mut oracle = Oracle::new(1, 1);
    put(&mut oracle, &mut storage, "a", "1");
    put(&mut oracle, &mut storage, "b", "2");

    let mut tx = Transaction::new(&mut oracle, &mut storage);
    tx.set("a", "mine");
    tx.delete("b");
    assert_eq!(tx.get(&storage, "a").unwrap(), Some("mine".to_string()));
    assert_eq!(tx.get(&storage, "b").unwrap(), None);
    assert_eq!(storage.get("a").unwrap(), Some("1".to_string()));
    tx.commit(&mut oracle, &mut storage).unwrap();
    assert_eq!(storage.get("a").unwrap(), Some("mine".to_string()));
    assert_eq!(storage.get("b").unwrap(), None);
}

#[test]
fn a_commit_without_writes_changes_nothing() {
    let mut storage = create_storage();
    let mut oracle = Oracle::new(1, 1);
    let tx = Transaction::new(&mut oracle, &mut storage);
    tx.commit(&mut oracle, &mut storage).unwrap();
    assert_eq!(oracle.read_ts(), 1);
    assert_eq!(oracle.next_tx_id(), 1);
}

#[test]
fn one_commit_has_one_sequence_number() {
    let mut oracle = Oracle::new(10, 1);
    let mut buffer = SortedMap::new();
    buffer.insert("b".to_string(), Value::Delete);
    buffer.insert("a".to_string(), Value::set("1"));
    let (ts, batch) = oracle.prepare(None, &buffer).unwrap();
    assert_eq!(ts, 11);
    assert_eq!(
        batch,
        vec![
            (Key::new("a", 11), Value::set("1")),
            (Key::new("b", 11), Value::Delete),
        ]
    );
    assert_eq!(oracle.read_ts(), 10);
    oracle.publish(&buffer, ts);
    assert_eq!(oracle.read_ts(), 11);
}

#[test]
fn the_watermark_is_the_lowest_reader() {
    let mut storage = create_storage();
    let mut oracle = Oracle::new(5, 1);
    assert_eq!(oracle.watermark(), 5);
    let old = Snapshot::new(&mut oracle, &mut storage);
    assert_eq!(old.read_ts(), 5);
    put(&mut oracle, &mut storage, "k", "v");
    let new = Snapshot::new(&mut oracle, &mut storage);
    assert_eq!(new.read_ts(), 6);
    assert_eq!(oracle.watermark(), 5);
    assert_eq!(old.get(&storage, "k").unwrap(), None);
    assert_eq!(new.get(&storage, "k").unwrap(), Some("v".to_string()));
    old.release(&mut oracle, &mut storage);
    assert_eq!(oracle.watermark(), 6);
    new.release(&mut oracle, &mut storage);
    put(&mut oracle, &mut storage, "k", "w");
    assert_eq!(oracle.watermark(), 7);
}

#[test]
fn a_write_that_cannot_be_logged_uses_up_a_sequence_number() {
    let mut storage = create_storage();
    let mut oracle = Oracle::new(1, 1);
    let mut buffer = SortedMap::new();
    buffer.insert("k".to_string(), Value::set(&"x".repeat(65536)));
    assert!(matches!(
        oracle.commit(1, &mut storage, None, buffer),
        Err(DbError::InvalidInt(_))
    ));
    assert_eq!(oracle.read_ts(), 1);
    assert_eq!(put(&mut oracle, &mut storage, "k", "v"), 3);
}

#[test]
fn forgotten_commits_hide_no_conflict() {
    let mut storage = create_storage();
    let mut oracle = Oracle::new(1, 1);
    let mut reader = Transaction::new(&mut oracle, &mut storage);
    reader.set("k", "mine");
    put(&mut oracle, &mut storage, "k", "theirs");
    for i in 0..10 {
        put(&mut oracle, &mut storage, &format!("other{i}"), "x");
    }
    assert!(matches!(
        reader.commit(&mut oracle, &mut storage),
        Err(DbError::CommitConflict)
    ));
}

#[test]
fn a_frozen_table_is_handed_over() {
    let mut storage = create_storage();
    let mut oracle = Oracle::new(1, 1);
    put(&mut oracle, &mut storage, "k", "v");
    oracle.freeze(&mut storage).unwrap();
    assert!(storage.has_frozen());
    assert!(oracle.has_room());
}

#[test]
fn a_snapshot_keeps_the_tables_it_was_taken_from() {
    let mut storage = create_storage();
    let mut oracle = Oracle::new(1, 1);
    put(&mut oracle, &mut storage, "empty", "");
    put(&mut oracle, &mut storage, "k", "v");
    let before = Snapshot::new(&mut oracle, &mut storage);
    let tx = Transaction::new(&mut oracle, &mut storage);
    oracle.freeze(&mut storage).unwrap();
    assert!(storage.flush_oldest(oracle.watermark()).unwrap());
    let after = Snapshot::new(&mut oracle, &mut storage);
    put(&mut oracle, &mut storage, "k", "w");

    assert_eq!(before.since(), 0);
    assert_eq!(after.since(), 1);
    for key in ["empty", "k", "none"] {
        assert_eq!(
            before.get(&storage, key).unwrap(),
            tx.get(&storage, key).unwrap()
        );
    }
    // The table in memory knows an empty text, a table on disk does not.
    assert_eq!(before.get(&storage, "empty").unwrap(), Some(String::new()));
    assert_eq!(after.get(&storage, "empty").unwrap(), None);
    assert_eq!(before.get(&storage, "k").unwrap(), Some("v".to_string()));
    assert_eq!(after.get(&storage, "k").unwrap(), Some("v".to_string()));

    // Giving one reader up leaves the others what they need.
    after.release(&mut oracle, &mut storage);
    assert_eq!(tx.get(&storage, "empty").unwrap(), Some(String::new()));
    tx.rollback(&mut oracle, &mut storage);
    assert_eq!(before.get(&storage, "empty").unwrap(), Some(String::new()));
    before.release(&mut oracle, &mut storage);
    assert_eq!(oracle.watermark(), oracle.read_ts());
}

#[test]
fn readers_at_the_same_number_are_counted() {
    let mut storage = create_storage();
    let mut oracle = Oracle::new(5, 1);
    assert!(oracle.has_reader_room());
    assert_eq!(oracle.begin(), 5);
    assert_eq!(oracle.begin(), 5);
    put(&mut oracle, &mut storage, "k", "v");
    assert_eq!(oracle.begin(), 6);
    oracle.end(5);
    assert_eq!(oracle.watermark(), 5);
    // There is nobody at this number.
    oracle.end(4);
    assert_eq!(oracle.watermark(), 5);
    oracle.end(5);
    assert_eq!(oracle.watermark(), 6);
    oracle.end(6);
    assert_eq!(oracle.watermark(), oracle.read_ts());
}
