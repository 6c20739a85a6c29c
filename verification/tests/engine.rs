use std::collections::BTreeMap;

use lowdb::common::error::{DbError, DbResult};
use lowdb::common::key::Key;
use lowdb::common::path;
use lowdb::common::sorted::SortedMap;
use lowdb::common::value::Value;
use lowdb::engine::flusher::{Flusher, Next, Outcome};
use lowdb::engine::DB;
use lowdb::sstable::meta::SSTableMeta;
use lowdb::storage::wal::Wal;
use lowdb::wal::reader::WalReader;
use lowdb::wal::writer::WalWriter;

/// The files of a database.
#[derive(Clone, Default)]
struct Disk {
    wal: BTreeMap<String, Vec<u8>>,
    ss: BTreeMap<String, Vec<u8>>,
}

impl Disk {
    fn try_open(&self) -> DbResult<DB> {
        let names: Vec<String> = self.wal.keys().cloned().collect();
        let mut logs = vec![];
        for id in Wal::replay_order(&names) {
            let data = self.wal[&id.to_string()].clone();
            logs.push(WalReader::open(&format!("db/wal/{id}"), data)?);
        }
        let files = self.ss.iter().map(|(n, d)| (n.clone(), d.clone())).collect();
        DB::open("db", &names, logs, files)
    }

    fn open(&mut self) -> DB {
        let mut db = self.try_open().unwrap();
        self.sync(&mut db);
        db
    }

    fn sync(&mut self, db: &mut DB) {
        for (file, bytes) in db.take_writes() {
            let name = path::file_name(&file).unwrap();
            self.wal.entry(name).or_default().extend(bytes);
        }
    }

    fn set(&mut self, db: &mut DB, key: &str, value: &str) {
        db.set(key, value).unwrap();
        self.sync(db);
    }

    fn flush_oldest(&mut self, db: &mut DB) -> bool {
        let Some(flush) = db.begin_flush().unwrap() else {
            return false;
        };
        if let Some(table) = &flush.table {
            let name = path::file_name(&table.meta.path).unwrap();
            self.ss.insert(name, table.data.clone());
        }
        let log = flush.log;
        db.finish_flush(flush);
        self.wal.remove(&log.to_string());
        true
    }

    fn flush(&mut self, db: &mut DB) -> bool {
        db.freeze().unwrap();
        self.sync(db);
        self.flush_oldest(db)
    }

    fn close(&mut self, db: &mut DB) {
        self.flush(db);
        db.begin_shutdown();
        while self.flush_oldest(db) {}
    }
}

#[test]
fn flush_moves_the_memtable_to_a_table_and_drops_its_wal() {
    let mut disk = Disk::default();
    let mut db = disk.open();

    for i in 0..3 {
        disk.set(&mut db, &format!("k{i}"), &format!("v{i}"));
    }
    disk.flush(&mut db);

    assert_eq!(disk.ss.len(), 1, "one table per flush");
    assert_eq!(disk.wal.len(), 1, "only the active log survives");

    for i in 0..3 {
        assert_eq!(db.get(&format!("k{i}")).unwrap(), Some(format!("v{i}")));
    }
}

#[test]
fn flush_keeps_only_the_newest_version_of_a_key() {
    let mut disk = Disk::default();
    let mut db = disk.open();

    for value in ["a", "b", "c"] {
        disk.set(&mut db, "k", value);
    }
    disk.set(&mut db, "other", "x");
    disk.close(&mut db);

    assert_eq!(disk.ss.len(), 1);
    let (name, file) = disk.ss.iter().next().unwrap();
    let meta = SSTableMeta::read(&format!("db/ss/{name}"), file).unwrap();
    assert_eq!(meta.entries(), 2, "one entry per user key, not per write");

    let db = disk.open();
    assert_eq!(db.get("k").unwrap(), Some("c".to_string()));
    assert_eq!(db.get("other").unwrap(), Some("x".to_string()));
}

#[test]
fn reopen_resumes_the_sequence_above_the_flushed_tables() {
    let mut disk = Disk::default();
    let mut db = disk.open();

    disk.set(&mut db, "k", "first");
    disk.close(&mut db);

    let mut db = disk.open();

    disk.set(&mut db, "k", "second");
    disk.close(&mut db);

    let db = disk.open();
    assert_eq!(db.get("k").unwrap(), Some("second".to_string()));
}

#[test]
fn a_redundant_wal_after_a_crash_replays_harmlessly() {
    let mut disk = Disk::default();
    let mut db = disk.open();
    disk.set(&mut db, "k", "value");
    disk.flush(&mut db);

    let mut wal = WalWriter::open("db/wal/1").unwrap();
    wal.append_kv(1, &Key::new("k", 1), &Value::set("value"))
        .unwrap();
    disk.wal.insert("1".to_string(), wal.take_unwritten());
    disk.close(&mut db);

    let mut db = disk.open();
    assert_eq!(db.get("k").unwrap(), Some("value".to_string()));
    while disk.flush_oldest(&mut db) {}
    assert_eq!(db.get("k").unwrap(), Some("value".to_string()));
}

#[test]
fn a_log_that_outlives_its_table_changes_nothing() {
    let mut disk = Disk::default();
    let mut db = disk.open();
    disk.set(&mut db, "k", "value");
    let log = disk.wal.clone();
    disk.flush(&mut db);
    // The crash came before the log was removed.
    disk.wal.extend(log);
    let mut db = disk.open();
    assert_eq!(db.get("k").unwrap(), Some("value".to_string()));
    while disk.flush_oldest(&mut db) {}
    assert_eq!(db.get("k").unwrap(), Some("value".to_string()));
}

#[test]
fn snapshot_keeps_seeing_old_versions_across_writes_and_flush() {
    let mut disk = Disk::default();
    let mut db = disk.open();

    disk.set(&mut db, "k", "old");
    let snap = db.snapshot();

    disk.set(&mut db, "k", "new");
    disk.set(&mut db, "added", "x");
    // The snapshot must still see `k@old` after the flush.
    disk.flush(&mut db);

    assert_eq!(
        snap.get(db.storage(), "k").unwrap(),
        Some("old".to_string())
    );
    assert_eq!(snap.get(db.storage(), "added").unwrap(), None);
    assert_eq!(db.get("k").unwrap(), Some("new".to_string()));
    disk.close(&mut db);
}

#[test]
fn keys_stay_readable_across_a_flush() {
    const KEYS: usize = 100;

    let mut disk = Disk::default();
    let mut db = disk.open();
    for i in 0..KEYS {
        disk.set(&mut db, &format!("k{i:03}"), &format!("v{i}"));
    }
    let readable = |db: &DB| {
        for i in 0..KEYS {
            assert_eq!(
                db.get(&format!("k{i:03}")).unwrap(),
                Some(format!("v{i}")),
                "k{i:03} was invisible during a flush"
            );
        }
    };

    for _ in 0..3 {
        for i in 0..KEYS {
            disk.set(&mut db, &format!("k{i:03}"), &format!("v{i}"));
        }
        db.freeze().unwrap();
        readable(&db);
        let flush = db.begin_flush().unwrap().unwrap();
        readable(&db);
        db.finish_flush(flush);
        readable(&db);
    }
}

#[test]
fn sequential_transactions_on_same_key_do_not_conflict() {
    let mut disk = Disk::default();
    let mut db = disk.open();

    let mut t1 = db.transaction();
    t1.set("k", "v1");
    db.commit(t1).unwrap();

    // t2 begins strictly after t1 committed: there is nothing to conflict with.
    let mut t2 = db.transaction();
    t2.set("k", "v2");
    db.commit(t2)
        .expect("t2 started after t1 committed and must not conflict");

    assert_eq!(db.get("k").unwrap(), Some("v2".to_string()));
}

#[test]
fn pruning_recent_on_oldest_commit_does_not_hide_conflicts() {
    let mut disk = Disk::default();
    let mut db = disk.open();

    let mut t1 = db.transaction();
    let mut t2 = db.transaction();
    let mut t3 = db.transaction();

    // t2 commits "k" while t3 is running.
    t2.set("k", "from t2");
    db.commit(t2).unwrap();

    // t1 is the oldest; its commit must not hide t2's entry for "k".
    t1.set("other", "x");
    db.commit(t1).unwrap();

    // t3 began before t2 committed "k": first-committer-wins requires abort.
    t3.set("k", "from t3");
    assert!(
        matches!(db.commit(t3), Err(DbError::CommitConflict)),
        "t3 overwrote a key committed after it began (lost update)"
    );
}

#[test]
fn snapshot_does_not_see_writes_committed_after_it_began() {
    let mut disk = Disk::default();
    let mut db = disk.open();

    let mut writer = db.transaction();
    writer.set("k", "v");

    let reader = db.transaction();
    assert_eq!(reader.get(db.storage(), "k").unwrap(), None);

    db.commit(writer).unwrap();

    assert_eq!(
        reader.get(db.storage(), "k").unwrap(),
        None,
        "read inside one transaction changed after a concurrent commit"
    );
}

#[test]
fn plain_write_to_a_tx_key_is_detected_as_conflict() {
    let mut disk = Disk::default();
    let mut db = disk.open();

    let mut tx = db.transaction();
    tx.set("k", "tx");
    db.set("k", "plain").unwrap();

    assert!(
        matches!(db.commit(tx), Err(DbError::CommitConflict)),
        "commit succeeded over a concurrent write to the same key"
    );
}

#[test]
fn successful_commit_is_visible() {
    let mut disk = Disk::default();
    let mut db = disk.open();

    let mut tx = db.transaction();
    tx.set("k", "tx");
    db.set("k", "plain").unwrap();

    match db.commit(tx) {
        Ok(()) => assert_eq!(
            db.get("k").unwrap(),
            Some("tx".to_string()),
            "commit returned Ok but the committed value is shadowed"
        ),
        Err(DbError::CommitConflict) => {}
        Err(e) => panic!("unexpected error: {e:?}"),
    }
}

#[test]
fn committed_tx_and_later_writes_survive_crash_recovery() {
    let mut disk = Disk::default();
    {
        let mut db = disk.open();
        disk.set(&mut db, "before", "1");

        let mut tx = db.transaction();
        tx.set("in_tx", "2");
        db.commit(tx).unwrap();
        disk.sync(&mut db);

        disk.set(&mut db, "after", "3");
        // Simulated crash: no close(), nothing flushed to SSTables.
    }

    let db = disk.open();
    assert_eq!(db.get("before").unwrap(), Some("1".to_string()));
    assert_eq!(
        db.get("in_tx").unwrap(),
        Some("2".to_string()),
        "committed transaction lost after WAL replay"
    );
    assert_eq!(
        db.get("after").unwrap(),
        Some("3".to_string()),
        "plain write after a transaction lost after WAL replay"
    );
}

#[test]
fn commit_is_atomic_for_concurrent_readers() {
    const KEYS: usize = 50;

    let mut disk = Disk::default();
    let mut db = disk.open();

    let mut tx = db.transaction();
    for i in 0..KEYS {
        tx.set(&format!("k{i:03}"), "v");
    }
    let (read_ts, since) = (tx.read_ts(), tx.since());
    let seen = |db: &mut DB| {
        let snap = db.snapshot();
        let mut seen = 0;
        for i in 0..KEYS {
            if snap
                .get(db.storage(), &format!("k{i:03}"))
                .unwrap()
                .is_some()
            {
                seen += 1;
            }
        }
        db.end(snap.read_ts(), snap.since());
        seen
    };

    assert_eq!(seen(&mut db), 0);
    let pending = db.begin_commit(Some(read_ts), tx.into_writes()).unwrap();
    assert_eq!(
        seen(&mut db),
        0,
        "reader observed a partially applied transaction"
    );
    db.finish_commit(pending).unwrap();
    db.end(read_ts, since);
    assert_eq!(seen(&mut db), KEYS);
}

#[test]
fn a_crash_leaves_whole_commits() {
    let mut disk = Disk::default();
    let mut db = disk.open();
    disk.set(&mut db, "a", "1");
    let first = disk.wal["1"].len();
    let mut tx = db.transaction();
    tx.set("b", "2");
    tx.set("c", "3");
    db.commit(tx).unwrap();
    disk.sync(&mut db);
    let log = disk.wal["1"].clone();
    for cut in 0..=log.len() {
        let mut torn = disk.clone();
        torn.wal.insert("1".to_string(), log[..cut].to_vec());
        let db = torn.open();
        let a = db.get("a").unwrap();
        let b = db.get("b").unwrap();
        let c = db.get("c").unwrap();
        assert_eq!(a.is_some(), cut >= first);
        assert_eq!(b.is_some(), cut == log.len());
        assert_eq!(b.is_some(), c.is_some());
    }
}

#[test]
fn a_commit_in_steps_writes_the_log_first() {
    let mut disk = Disk::default();
    let mut db = disk.open();
    let mut buffer = SortedMap::new();
    buffer.insert("k".to_string(), Value::set("v"));
    let pending = db.begin_commit(None, buffer).unwrap();
    disk.sync(&mut db);
    assert_eq!(db.get("k").unwrap(), None);
    // A crash here loses nothing that was promised, and keeps what was logged.
    assert_eq!(disk.clone().open().get("k").unwrap(), Some("v".to_string()));
    db.finish_commit(pending).unwrap();
    assert_eq!(db.get("k").unwrap(), Some("v".to_string()));
}

#[test]
fn flush_reports_whether_there_was_anything() {
    let mut disk = Disk::default();
    let mut db = disk.open();
    assert!(!db.flush().unwrap());
    db.set("k", "v").unwrap();
    assert!(db.flush().unwrap());
    assert!(!db.flush().unwrap());
    assert!(!db.close().unwrap());
    assert!(db.storage().is_shutdown());
    assert!(db.has_commit_room());
    assert!(db.has_flush_room());
}

#[test]
fn a_value_that_is_too_long_is_refused() {
    let mut disk = Disk::default();
    let mut db = disk.open();
    assert!(matches!(
        db.set("k", &"x".repeat(65536)),
        Err(DbError::InvalidInt(_))
    ));
    assert_eq!(db.get("k").unwrap(), None);
    // It fits the log, but not a block of a table.
    db.set("k", &"x".repeat(65530)).unwrap();
    assert!(matches!(db.flush(), Err(DbError::InvalidInt(_))));
    assert_eq!(db.get("k").unwrap(), Some("x".repeat(65530)));
}

#[test]
fn a_refused_commit_does_not_spoil_the_log() {
    let mut disk = Disk::default();
    let mut db = disk.open();
    disk.set(&mut db, "a", "1");
    assert!(db.set("b", &"x".repeat(65536)).is_err());
    disk.sync(&mut db);
    disk.set(&mut db, "c", "3");
    let again = disk.open();
    assert_eq!(again.get("a").unwrap(), Some("1".to_string()));
    assert_eq!(again.get("b").unwrap(), None);
    assert_eq!(again.get("c").unwrap(), Some("3".to_string()));
}

#[test]
fn a_commit_between_the_steps_of_a_flush_is_kept() {
    let mut disk = Disk::default();
    let mut db = disk.open();
    disk.set(&mut db, "k", "old");
    disk.set(&mut db, "other", "o");
    db.freeze().unwrap();
    disk.sync(&mut db);
    let flush = db.begin_flush().unwrap().unwrap();
    disk.set(&mut db, "k", "new");
    let table = flush.table.as_ref().unwrap();
    let name = path::file_name(&table.meta.path).unwrap();
    disk.ss.insert(name, table.data.clone());
    disk.wal.remove(&flush.log.to_string());
    db.finish_flush(flush);
    assert_eq!(db.get("k").unwrap(), Some("new".to_string()));
    assert_eq!(db.get("other").unwrap(), Some("o".to_string()));
    let again = disk.open();
    assert_eq!(again.get("k").unwrap(), Some("new".to_string()));
    assert_eq!(again.get("other").unwrap(), Some("o".to_string()));
}

#[test]
fn files_that_are_no_database_are_refused() {
    let mut disk = Disk::default();
    disk.ss.insert("0_1".to_string(), b"junk".to_vec());
    assert!(disk.try_open().is_err());
    let mut disk = Disk::default();
    disk.wal.insert("1".to_string(), vec![9]);
    assert!(matches!(disk.try_open(), Err(DbError::InvalidState(_))));
    let mut disk = Disk::default();
    disk.wal.insert(u64::MAX.to_string(), vec![]);
    assert!(matches!(disk.try_open(), Err(DbError::InvalidState(_))));
    let mut writer = WalWriter::open("db/wal/1").unwrap();
    writer
        .append_commit(1, &vec![(Key::new("k", u64::MAX), Value::Delete)])
        .unwrap();
    let mut disk = Disk::default();
    disk.wal.insert("1".to_string(), writer.take_unwritten());
    assert!(matches!(disk.try_open(), Err(DbError::InvalidState(_))));
}

#[test]
fn the_flusher_backs_off_and_recovers() {
    let mut flusher = Flusher::new();
    let mut waits = vec![];
    for _ in 0..9 {
        match flusher.next(Outcome::Failed, false) {
            Next::Retry(ms) => waits.push(ms),
            _ => panic!("a failed flush is retried"),
        }
    }
    assert_eq!(
        waits,
        vec![50, 100, 200, 400, 800, 1600, 3200, 5000, 5000]
    );
    assert!(matches!(
        flusher.next(Outcome::Flushed, true),
        Next::Flush
    ));
    assert!(matches!(
        flusher.next(Outcome::Failed, false),
        Next::Retry(50)
    ));
    assert!(matches!(flusher.next(Outcome::Failed, true), Next::Stop));
    assert!(matches!(flusher.next(Outcome::Idle, true), Next::Stop));
    assert!(matches!(flusher.next(Outcome::Idle, false), Next::Wait));
}

#[test]
fn deleted_keys_stay_deleted_across_flush_and_reopen() {
    let mut disk = Disk::default();
    let mut db = disk.open();
    disk.set(&mut db, "k", "v");
    disk.flush(&mut db);
    let mut tx = db.transaction();
    tx.delete("k");
    db.commit(tx).unwrap();
    disk.sync(&mut db);
    assert_eq!(db.get("k").unwrap(), None);
    disk.close(&mut db);
    assert_eq!(disk.ss.len(), 2);
    assert_eq!(disk.open().get("k").unwrap(), None);
}
