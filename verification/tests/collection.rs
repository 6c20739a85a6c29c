use std::collections::BTreeMap;

use lowdb::collection::wal::Wal;
use lowdb::collection::{Collection, MAX_FROZEN};
use lowdb::common::error::{DbError, DbResult};
use lowdb::common::key::Key;
use lowdb::common::lookup::Lookup;
use lowdb::common::path;
use lowdb::common::value::Value;
use lowdb::memtable::MemTable;
use lowdb::sstable::meta::SSTableMeta;
use lowdb::sstable::writer::SSTableWriter;
use lowdb::storage::storage::DiskStorage;
use lowdb::storage::wal::Wal as Logs;
use lowdb::wal::wal::{WalReader, WalWriter};

/// The files of a collection.
#[derive(Clone, Default)]
struct Disk {
    wal: BTreeMap<String, Vec<u8>>,
    ss: BTreeMap<String, Vec<u8>>,
}

fn readers(wal: &BTreeMap<String, Vec<u8>>, names: &Vec<String>) -> Vec<WalReader> {
    let mut logs = vec![];
    for id in Logs::replay_order(names) {
        let data = wal[&id.to_string()].clone();
        logs.push(WalReader::open(&format!("db/wal/{id}"), data).unwrap());
    }
    logs
}

impl Disk {
    fn try_open(&self) -> DbResult<Collection> {
        let names: Vec<String> = self.wal.keys().cloned().collect();
        let logs = readers(&self.wal, &names);
        let files = self.ss.iter().map(|(n, d)| (n.clone(), d.clone())).collect();
        Collection::open("db", &names, logs, files)
    }

    fn open(&mut self) -> Collection {
        let mut db = self.try_open().unwrap();
        self.sync(&mut db);
        db
    }

    fn sync(&mut self, db: &mut Collection) {
        for (file, bytes) in db.take_writes() {
            let name = path::file_name(&file).unwrap();
            self.wal.entry(name).or_default().extend(bytes);
        }
    }

    fn set(&mut self, db: &mut Collection, key: &str, value: &str) {
        db.set(key, value).unwrap();
        self.sync(db);
    }

    fn flush_oldest(&mut self, db: &mut Collection) -> bool {
        let Some(flush) = db.prepare_flush().unwrap() else {
            return false;
        };
        if let Some(table) = &flush.table {
            let name = path::file_name(&table.meta.path).unwrap();
            self.ss.insert(name, table.data.clone());
        }
        let log = flush.log;
        db.complete_flush(flush);
        self.wal.remove(&log.to_string());
        true
    }

    fn flush(&mut self, db: &mut Collection) {
        db.freeze_active().unwrap();
        self.sync(db);
        while self.flush_oldest(db) {}
    }

    fn close(&mut self, db: &mut Collection) {
        self.flush(db);
        db.begin_shutdown();
    }
}

#[test]
fn lib_flush_moves_the_memtable_to_a_table_and_drops_its_wal() {
    let mut disk = Disk::default();
    let mut db = disk.open();

    for i in 0..3 {
        disk.set(&mut db, &format!("k{i}"), &format!("v{i}"));
    }
    disk.flush(&mut db);

    assert_eq!(disk.ss.len(), 1, "one table per flush");
    assert!(db.prepare_flush().unwrap().is_none());
    assert_eq!(disk.wal.len(), 1, "only the active log survives");

    for i in 0..3 {
        assert_eq!(db.get(&format!("k{i}")).unwrap(), Some(format!("v{i}")));
    }
}

#[test]
fn lib_background_flusher_drains_frozen_memtables() {
    let mut disk = Disk::default();
    let mut db = disk.open();

    for i in 0..3 {
        disk.set(&mut db, &format!("k{i}"), &format!("v{i}"));
        db.force_freeze().unwrap();
        disk.sync(&mut db);
    }
    while disk.flush_oldest(&mut db) {}

    assert_eq!(disk.ss.len(), 3);
    assert_eq!(disk.wal.len(), 1);
    for i in 0..3 {
        assert_eq!(db.get(&format!("k{i}")).unwrap(), Some(format!("v{i}")));
    }
}

#[test]
fn lib_flush_keeps_only_the_newest_version_of_a_key() {
    let mut disk = Disk::default();
    let mut db = disk.open();

    for value in ["a", "b", "c"] {
        disk.set(&mut db, "k", value);
    }
    disk.set(&mut db, "other", "x");
    disk.close(&mut db);

    assert_eq!(disk.ss.len(), 1);
    let (name, file) = disk.ss.iter().next().unwrap();
    let meta = SSTableMeta::read(&format!("db/ss/{name}"), file).unwrap();
    assert_eq!(meta.entries(), 2, "one entry per user key, not per write");

    let db = disk.open();
    assert_eq!(db.get("k").unwrap(), Some("c".to_string()));
    assert_eq!(db.get("other").unwrap(), Some("x".to_string()));
}

#[test]
fn lib_reopen_resumes_the_sequence_above_the_flushed_tables() {
    let mut disk = Disk::default();
    let mut db = disk.open();
    disk.set(&mut db, "k", "first");
    disk.close(&mut db);

    let mut db = disk.open();
    let write = db.log("probe", "x").unwrap();
    assert_eq!(
        write.key.1, 2,
        "next sequence must clear the largest one on disk"
    );
    db.take_writes();

    disk.set(&mut db, "k", "second");
    disk.close(&mut db);

    let db = disk.open();
    assert_eq!(db.get("k").unwrap(), Some("second".to_string()));
}

#[test]
fn lib_a_redundant_wal_after_a_crash_replays_harmlessly() {
    let mut disk = Disk::default();
    let mut db = disk.open();
    disk.set(&mut db, "k", "value");
    disk.flush(&mut db);

    let mut wal = WalWriter::open("db/wal/1").unwrap();
    wal.append(&Key::new("k", 1), &Value::set("value")).unwrap();
    disk.wal.insert("1".to_string(), wal.take_unwritten());
    disk.close(&mut db);

    let mut db = disk.open();
    assert_eq!(db.get("k").unwrap(), Some("value".to_string()));
    while disk.flush_oldest(&mut db) {}
    assert_eq!(db.get("k").unwrap(), Some("value".to_string()));
}

#[test]
fn lib_keys_stay_readable_across_a_flush() {
    const KEYS: usize = 100;

    let mut disk = Disk::default();
    let mut db = disk.open();
    for i in 0..KEYS {
        disk.set(&mut db, &format!("k{i:03}"), &format!("v{i}"));
    }
    let readable = |db: &Collection| {
        for i in 0..KEYS {
            assert_eq!(
                db.get(&format!("k{i:03}")).unwrap(),
                Some(format!("v{i}")),
                "k{i:03} was invisible during a flush"
            );
        }
    };
    for _ in 0..3 {
        for i in 0..KEYS {
            disk.set(&mut db, &format!("k{i:03}"), &format!("v{i}"));
        }
        db.freeze_active().unwrap();
        readable(&db);
        let flush = db.prepare_flush().unwrap().unwrap();
        readable(&db);
        db.complete_flush(flush);
        readable(&db);
    }
}

fn table_file(key: Key, value: Value) -> Vec<u8> {
    let mut writer = SSTableWriter::create("db/ss/0_1");
    writer.add(&key, &value).unwrap();
    writer.finish().unwrap().unwrap().1
}

#[test]
fn storage_load_files_by_levels() {
    let mut files = vec![];
    let mut count = 0;
    for i in 0..3 {
        for _ in 0..10 {
            let file = table_file(Key::new("key", 1), Value::Delete);
            files.push((format!("{}_{}", i, count), file));
            count += 1;
        }
    }
    files.reverse();
    let mut levels = DiskStorage::load("db", files).unwrap();
    for level in 0..3 {
        assert_eq!(levels.level_len(level), 10);
    }
    // The next table gets a fresh id instead of overwriting the newest one.
    let mut mt = MemTable::new(0);
    mt.put(Key::new("k", 2), Value::set("v"));
    let table = levels.prepare_l0(&mt, u64::MAX).unwrap().unwrap();
    assert_eq!(table.meta.path, format!("db/ss/0_{}", count));
}

#[test]
fn storage_newest_l0_table_wins() {
    let mut disk = Disk::default();
    // Same user key in two L0 tables plus a stale copy at L1.
    for (name, seq, value) in [
        ("0_1", 1u64, "old"),
        ("0_2", 2, "new"),
        ("1_0", 0, "compacted"),
    ] {
        let file = table_file(Key::new("k", seq), Value::set(value));
        disk.ss.insert(name.to_string(), file);
    }
    // A crash leftover must not break loading.
    disk.ss.insert("0_9.sst.tmp".to_string(), b"junk".to_vec());

    let db = disk.open();
    assert_eq!(db.get("k").unwrap(), Some("new".to_string()));
    assert_eq!(db.get("missing").unwrap(), None);
}

#[test]
fn wal_restore_tables() {
    let mut logs = BTreeMap::new();
    for i in 0..10u64 {
        let mut writer = WalWriter::open(&format!("db/wal/{i}")).unwrap();
        for j in 0..100u64 {
            let key = Key(format!("{}", i * j), i * j);
            let value = Value::Put(format!("{}", i * j));
            writer.append(&key, &value).unwrap();
        }
        logs.insert(format!("{i}"), writer.take_unwritten());
    }
    let names: Vec<String> = logs.keys().cloned().collect();
    let mut wal = Wal::new("db", &names).unwrap();
    let restored = wal.restore(readers(&logs, &names)).unwrap();
    assert_eq!(restored.tables.len(), 10);
    assert_eq!(restored.max_seq, 9 * 99);

    assert_eq!(wal.new_writer().unwrap().id(), "10");
}

#[test]
fn wal_restore_is_newest_log_first() {
    let mut logs = BTreeMap::new();
    for id in 0..3u64 {
        let mut writer = WalWriter::open(&format!("db/wal/{id}")).unwrap();
        let key = Key::new("k", id + 1);
        writer
            .append(&key, &Value::set(&format!("v{id}")))
            .unwrap();
        logs.insert(format!("{id}"), writer.take_unwritten());
    }
    logs.insert("3.tmp".to_string(), b"junk".to_vec());
    let names: Vec<String> = logs.keys().cloned().collect();

    let mut wal = Wal::new("db", &names).unwrap();
    let restored = wal.restore(readers(&logs, &names)).unwrap();

    assert_eq!(restored.tables.len(), 3);
    assert_eq!(restored.max_seq, 3);

    let Lookup::Found(value) = restored.tables[0].get("k") else {
        panic!("newest log must come first");
    };
    assert_eq!(value, "v2");
    assert_eq!(wal.new_writer().unwrap().id(), "3");
}

#[test]
fn wal_creates_missing_dir() {
    let mut wal = Wal::new("db/fresh", &vec![]).unwrap();
    assert!(wal.restore(vec![]).unwrap().tables.is_empty());
    wal.new_writer().unwrap();
}

#[test]
fn a_log_with_a_torn_write_cannot_be_opened() {
    let mut disk = Disk::default();
    let mut db = disk.open();
    disk.set(&mut db, "a", "1");
    let first = disk.wal["1"].len();
    disk.set(&mut db, "b", "2");
    let log = disk.wal["1"].clone();
    for cut in 0..=log.len() {
        let mut torn = disk.clone();
        torn.wal.insert("1".to_string(), log[..cut].to_vec());
        let left = if cut < first { cut } else { cut - first };
        if left >= 2 && cut < log.len() {
            assert!(matches!(torn.try_open(), Err(DbError::IO(_))));
            continue;
        }
        let db = torn.open();
        assert_eq!(db.get("a").unwrap().is_some(), cut >= first);
        assert_eq!(db.get("b").unwrap().is_some(), cut == log.len());
    }
}

#[test]
fn writers_wait_when_too_many_tables_are_frozen() {
    let mut disk = Disk::default();
    let mut db = disk.open();
    for i in 0..=MAX_FROZEN {
        assert!(!db.over_capacity());
        disk.set(&mut db, &format!("k{i}"), "v");
        db.force_freeze().unwrap();
    }
    assert!(db.over_capacity());
    assert!(db.flush_oldest().unwrap());
    assert!(!db.over_capacity());
}

#[test]
fn flush_and_close_move_everything_to_disk() {
    let mut disk = Disk::default();
    let mut db = disk.open();
    for i in 0..3 {
        disk.set(&mut db, "k", &format!("v{i}"));
        db.force_freeze().unwrap();
    }
    disk.set(&mut db, "k", "last");
    assert!(db.has_room());
    assert!(db.has_table_room());
    assert!(db.has_flush_room());
    db.flush().unwrap();
    assert!(!db.flush_oldest().unwrap());
    assert_eq!(db.get("k").unwrap(), Some("last".to_string()));
    assert!(!db.is_shutdown());
    db.close().unwrap();
    assert!(db.is_shutdown());
}

#[test]
fn a_write_that_cannot_be_logged_is_refused() {
    let mut disk = Disk::default();
    let mut db = disk.open();
    assert!(matches!(
        db.set(&"k".repeat(65536), "v"),
        Err(DbError::InvalidInt(_))
    ));
    assert_eq!(
        db.take_writes(),
        vec![("db/wal/1".to_string(), vec![])]
    );
    assert_eq!(db.log_file(7), "db/wal/7");
    assert!(matches!(
        Wal::new("db", &vec![u64::MAX.to_string()]),
        Err(DbError::InvalidState(_))
    ));
    let reader = WalReader::open("db/wal/x", vec![]).unwrap();
    let wal = Wal::new("db", &vec![]).unwrap();
    let Err(DbError::InvalidValue(text)) = wal.restore(vec![reader]) else {
        panic!("the name is no number");
    };
    assert_eq!(text, "x".parse::<u64>().unwrap_err().to_string());
}
