use lowdb::common::error::DbError;
use lowdb::common::key::Key;
use lowdb::common::lookup::Lookup;
use lowdb::common::value::Value;
use lowdb::memtable::MemTable;
use lowdb::sstable::meta::SSTableMeta;
use lowdb::sstable::writer::SSTableWriter;
use lowdb::storage::storage::{is_stray, parse_name, DiskStorage};
use lowdb::storage::wal::Wal;
use lowdb::storage::Storage;
use lowdb::wal::reader::WalReader;
use lowdb::wal::writer::WalWriter;
use lowdb::wal::WalCmd;

fn table_file(entries: &[(Key, Value)]) -> Vec<u8> {
    let mut writer = SSTableWriter::create("db/ss/0_1");
    for (k, v) in entries {
        writer.add(k, v).unwrap();
    }
    writer.finish().unwrap().unwrap().1
}

fn create_storage() -> Storage {
    let wal = Wal::new("db", &vec![]).unwrap();
    let disk = DiskStorage::load("db", vec![]).unwrap();
    Storage::new(wal, disk, vec![]).unwrap()
}

#[test]
fn background_flusher_drains_frozen_memtables() {
    let mut storage = create_storage();

    for i in 0..3 {
        let key = Key(format!("k{i}"), i);
        let value = Value::Put(format!("v{i}"));
        storage.set_batch(1, vec![(key, value)]).unwrap();
        storage.force_freeze().unwrap();
    }
    assert!(storage.flush_oldest(0).unwrap());
    assert!(storage.flush_oldest(0).unwrap());
    assert!(storage.flush_oldest(0).unwrap());
    assert!(!storage.has_frozen());
    assert!(!storage.flush_oldest(0).unwrap());

    assert_eq!(storage.snapshot().storage.level_len(0), 3);
    for i in 0..3 {
        assert_eq!(
            storage.get(&format!("k{i}")).unwrap(),
            Some(format!("v{i}"))
        );
    }
}

#[test]
fn l0_writes_one_entry_per_user_key() {
    let mut storage = DiskStorage::load("db", vec![]).unwrap();

    let mut mt = MemTable::new(0);
    mt.put(Key::new("a", 1), Value::set("old"));
    mt.put(Key::new("a", 2), Value::set("new"));
    mt.put(Key::new("b", 3), Value::Delete);

    let table = storage.prepare_l0(&mt, u64::MAX).unwrap().unwrap();
    let file = table.data.clone();
    assert_eq!(table.meta.path, "db/ss/0_1");
    storage.install_l0(table);

    let meta = SSTableMeta::read("db/ss/0_1", &file).unwrap();
    assert_eq!(meta.entries(), 2, "superseded version must be dropped");
    assert_eq!(meta.largest_seq(), 3);
    assert_eq!(meta.smallest_seq(), 2);

    let Lookup::Found(value) = storage.get("a").unwrap() else {
        panic!("newest version must survive");
    };
    assert_eq!(value, "new");
    assert!(matches!(storage.get("b").unwrap(), Lookup::Deleted));

    // The sequence high-water mark survives a reload without the WAL.
    let reloaded = DiskStorage::load("db", vec![("0_1".to_string(), file)]).unwrap();
    assert_eq!(reloaded.max_seq(), 3);
}

#[test]
fn l0_of_an_empty_memtable_writes_nothing() {
    let mut storage = DiskStorage::load("db", vec![]).unwrap();

    assert!(!storage.l0(&MemTable::new(0), u64::MAX).unwrap());

    assert_eq!(
        storage.level_len(0),
        0,
        "no file, not even a temp one, may be left behind"
    );
}

#[test]
fn load_sweeps_stray_temp_files() {
    assert!(is_stray("0_7.sst.tmp"));
    assert!(!is_stray("0_7"));
    assert!(!is_stray("notes.txt"));
    assert!(!is_stray(".tmp"));
    let files = vec![("0_7.sst.tmp".to_string(), b"half written".to_vec())];
    let storage = DiskStorage::load("db", files).unwrap();
    assert_eq!(storage.level_len(0), 0);
}

#[test]
fn load_files_by_levels() {
    let mut files = vec![];
    let mut count = 0;
    for i in 0..3 {
        for _ in 0..10 {
            let file = table_file(&[(Key::new("key", 1), Value::Delete)]);
            files.push((format!("{}_{}", i, count), file));
            count += 1;
        }
    }
    let mut levels = DiskStorage::load("db", files).unwrap();

    for level in 0..3 {
        assert_eq!(levels.level_len(level), 10);
    }
    assert_eq!(levels.level_len(3), 0);
    // The next table gets a fresh id instead of overwriting the newest one.
    let mut mt = MemTable::new(0);
    mt.put(Key::new("k", 2), Value::set("v"));
    let table = levels.prepare_l0(&mt, 0).unwrap().unwrap();
    assert_eq!(table.meta.path, format!("db/ss/0_{}", count));
}

#[test]
fn newest_l0_table_wins() {
    let mut files = vec![];
    for (name, seq, value) in [
        ("0_1", 1u64, "old"),
        ("0_2", 2, "new"),
        ("1_0", 0, "compacted"),
    ] {
        let file = table_file(&[(Key::new("k", seq), Value::set(value))]);
        files.push((name.to_string(), file));
    }
    files.push(("0_9.sst.tmp".to_string(), b"junk".to_vec()));

    let storage = DiskStorage::load("db", files).unwrap();
    let Lookup::Found(value) = storage.get("k").unwrap() else {
        panic!("key must be found");
    };
    assert_eq!(value, "new");
    assert!(matches!(storage.get("missing").unwrap(), Lookup::Absent));
    assert_eq!(
        storage.get_snap("k", 1).unwrap(),
        Lookup::Found("old".to_string())
    );
    assert_eq!(
        storage.get_snap("k", 0).unwrap(),
        Lookup::Found("compacted".to_string())
    );
}

#[test]
fn names_of_tables() {
    assert_eq!(parse_name("0_1"), Some((0, 1)));
    assert_eq!(parse_name("12_345"), Some((12, 345)));
    assert_eq!(parse_name("0_1.sst.tmp"), None);
    assert_eq!(parse_name("01"), None);
    assert_eq!(parse_name("_1"), None);
    assert_eq!(parse_name("0_"), None);
    assert_eq!(parse_name("0_1_2"), None);
    assert_eq!(parse_name("4294967296_1"), None);
}

#[test]
fn a_damaged_table_is_not_loaded() {
    let files = vec![("0_1".to_string(), b"junk".to_vec())];
    assert!(DiskStorage::load("db", files).is_err());
    let last = format!("0_{}", u64::MAX);
    let files = vec![(last, table_file(&[(Key::new("k", 1), Value::Delete)]))];
    assert!(matches!(
        DiskStorage::load("db", files),
        Err(DbError::InvalidState(_))
    ));
}

#[test]
fn the_first_damaged_table_is_reported() {
    let short = b"junk".to_vec();
    let mut wrong = table_file(&[(Key::new("k", 1), Value::set("v"))]);
    let at = wrong.len() - 1;
    wrong[at] ^= 1;
    let load = |names: [&str; 3]| {
        let files = vec![
            (names[0].to_string(), short.clone()),
            (names[1].to_string(), wrong.clone()),
            (
                names[2].to_string(),
                table_file(&[(Key::new("k", 2), Value::Delete)]),
            ),
        ];
        DiskStorage::load("db", files).err().unwrap()
    };
    // A lower level comes first, and within a level a higher number.
    for (names, text) in [
        (["0_1", "0_2", "0_3"], "invalid state: bad sstable magic"),
        (["1_9", "0_1", "0_3"], "invalid state: bad sstable magic"),
        (["0_2", "0_1", "0_3"], "invalid state: cannot read metadata: file empty"),
        (["0_1", "1_9", "0_3"], "invalid state: cannot read metadata: file empty"),
    ] {
        assert_eq!(load(names).show(), text);
    }
}

#[test]
fn a_flush_fills_level_zero() {
    let file = table_file(&[(Key::new("k", 1), Value::set("old"))]);
    let mut storage = DiskStorage::load("db", vec![("1_4".to_string(), file)]).unwrap();
    let mut mt = MemTable::new(0);
    assert!(!storage.l0(&mt, 0).unwrap());
    assert_eq!((storage.level_len(0), storage.level_len(1)), (0, 1));
    mt.put(Key::new("k", 2), Value::set("new"));
    assert!(storage.l0(&mt, 0).unwrap());
    assert!(storage.l0(&mt, 0).unwrap());
    assert_eq!((storage.level_len(0), storage.level_len(1)), (2, 1));
    assert_eq!(storage.level_len(2), 0);
}

#[test]
fn a_new_store_has_room_in_memory() {
    let mut storage = create_storage();
    assert!(!storage.snapshot().mem_table.is_full());
    storage
        .set_batch(1, vec![(Key::new("k", 1), Value::set("v"))])
        .unwrap();
    storage.freeze_if_full().unwrap();
    assert!(!storage.has_frozen());
}

fn log(build: impl Fn(&mut WalWriter)) -> Vec<u8> {
    let mut writer = WalWriter::open("db/wal/0").unwrap();
    build(&mut writer);
    writer.take_unwritten()
}

fn readers(names: &Vec<String>, logs: &[(String, Vec<u8>)]) -> Vec<WalReader> {
    let mut out = vec![];
    for id in Wal::replay_order(names) {
        let (_, data) = logs.iter().find(|(n, _)| *n == id.to_string()).unwrap();
        out.push(WalReader::open(&format!("db/wal/{id}"), data.clone()).unwrap());
    }
    out
}

#[test]
fn restore_tables() {
    let mut logs = vec![];
    for i in 0..10u64 {
        let data = log(|writer| {
            writer.append(&WalCmd::TxBegin(1)).unwrap();
            for j in 0..100u64 {
                let key = Key(format!("{}", i * j), i * j);
                let value = Value::Put(format!("{}", i * j));
                writer.append_kv(1, &key, &value).unwrap();
            }
            writer.append(&WalCmd::TxCommit(1)).unwrap();
        });
        logs.push((format!("{i}"), data));
    }
    let names: Vec<String> = logs.iter().map(|(n, _)| n.clone()).collect();
    let mut wal = Wal::new("db", &names).unwrap();
    let restored = wal.restore(readers(&names, &logs)).unwrap();
    assert_eq!(restored.tables.len(), 10);
    assert_eq!(restored.max_seq, 9 * 99);
    assert_eq!(restored.max_tx_id, 1);

    assert_eq!(wal.new_writer().unwrap().id(), "10");
}

#[test]
fn restore_is_newest_log_first() {
    let mut logs = vec![];
    for id in 0..3u64 {
        let data = log(|writer| {
            writer.append(&WalCmd::TxBegin(1)).unwrap();
            let key = Key::new("k", id + 1);
            writer
                .append_kv(1, &key, &Value::set(&format!("v{id}")))
                .unwrap();
            writer.append(&WalCmd::TxCommit(1)).unwrap();
        });
        logs.push((format!("{id}"), data));
    }
    logs.push(("3.tmp".to_string(), b"junk".to_vec()));
    let names: Vec<String> = logs.iter().map(|(n, _)| n.clone()).collect();

    let mut wal = Wal::new("db", &names).unwrap();
    let restored = wal.restore(readers(&names, &logs)).unwrap();

    assert_eq!(restored.tables.len(), 3);
    assert_eq!(restored.max_seq, 3);

    let Lookup::Found(value) = restored.tables[0].get("k") else {
        panic!("newest log must come first");
    };
    assert_eq!(value, "v2");
    assert_eq!(wal.new_writer().unwrap().id(), "3");
}

#[test]
fn creates_missing_dir() {
    let mut wal = Wal::new("db/fresh", &vec![]).unwrap();
    assert!(wal.restore(vec![]).unwrap().tables.is_empty());
    assert_eq!(wal.new_writer().unwrap().id(), "1");
    assert_eq!(wal.file(1), "db/fresh/wal/1");
}

#[test]
fn only_committed_transactions_are_restored() {
    let data = log(|writer| {
        writer.append(&WalCmd::TxBegin(1)).unwrap();
        writer
            .append_kv(1, &Key::new("a", 1), &Value::set("committed"))
            .unwrap();
        writer.append(&WalCmd::TxBegin(2)).unwrap();
        writer
            .append_kv(2, &Key::new("b", 2), &Value::set("lost"))
            .unwrap();
        writer
            .append_kv(9, &Key::new("c", 7), &Value::set("unknown"))
            .unwrap();
        writer.append(&WalCmd::TxCommit(1)).unwrap();
    });
    let wal = Wal::new("db", &vec![]).unwrap();
    let reader = WalReader::open("db/wal/4", data).unwrap();
    let restored = wal.restore(vec![reader]).unwrap();
    assert_eq!(restored.tables[0].id(), 4);
    assert_eq!(
        restored.tables[0].get("a"),
        Lookup::Found("committed".to_string())
    );
    assert_eq!(restored.tables[0].get("b"), Lookup::Absent);
    assert_eq!(restored.tables[0].get("c"), Lookup::Absent);
    assert_eq!(restored.max_seq, 7);
    assert_eq!(restored.max_tx_id, 1);
}

#[test]
fn an_inconsistent_log_is_reported() {
    let wal = Wal::new("db", &vec![]).unwrap();
    let twice = log(|writer| {
        writer.append(&WalCmd::TxBegin(1)).unwrap();
        writer.append(&WalCmd::TxBegin(1)).unwrap();
    });
    let reader = WalReader::open("db/wal/4", twice).unwrap();
    let Err(DbError::InvalidState(text)) = wal.restore(vec![reader]) else {
        panic!("a transaction began twice");
    };
    assert_eq!(text, "corrupted WAL; duplicate transaction id: '1'");
    let unknown = log(|writer| {
        writer.append(&WalCmd::TxCommit(8)).unwrap();
    });
    let reader = WalReader::open("db/wal/4", unknown).unwrap();
    let Err(DbError::InvalidState(text)) = wal.restore(vec![reader]) else {
        panic!("an unknown transaction was committed");
    };
    assert_eq!(text, "corrupted WAL; unknown transaction commit: '8'");
    let reader = WalReader::open("db/wal/x", vec![]).unwrap();
    let Err(DbError::InvalidValue(text)) = wal.restore(vec![reader]) else {
        panic!("the name is no number");
    };
    assert_eq!(text, "x".parse::<u64>().unwrap_err().to_string());
    let reader = WalReader::open("db/wal/+7", vec![]).unwrap();
    assert_eq!(wal.restore(vec![reader]).unwrap().tables[0].id(), 7);
    assert!(matches!(
        Wal::new("db", &vec![format!("{}", u64::MAX)]),
        Err(DbError::InvalidState(_))
    ));
}

#[test]
fn a_batch_that_cannot_be_logged_is_not_applied() {
    let mut storage = create_storage();
    let batch = vec![
        (Key::new("a", 1), Value::set("v")),
        (Key::new("b", 1), Value::set(&"x".repeat(65536))),
    ];
    assert!(matches!(
        storage.set_batch(1, batch),
        Err(DbError::InvalidInt(_))
    ));
    assert_eq!(storage.get("a").unwrap(), None);
    assert!(storage.snapshot().mem_table.is_empty());
    // Only the record that begins the batch is in the log.
    let mut bytes = vec![1, 0, 0, 0, 0, 0, 0, 0, 1];
    assert_eq!(
        storage.take_writes(),
        vec![("db/wal/1".to_string(), bytes.clone())]
    );
    // A later batch follows it, and is all that comes back.
    storage
        .set_batch(2, vec![(Key::new("c", 2), Value::set("w"))])
        .unwrap();
    bytes.extend(storage.take_writes().remove(0).1);
    let reader = WalReader::open("db/wal/1", bytes).unwrap();
    let wal = Wal::new("db", &vec!["1".to_string()]).unwrap();
    let tables = wal.restore(vec![reader]).unwrap().tables;
    assert_eq!(tables.len(), 1);
    assert_eq!(tables[0].get("a"), Lookup::Absent);
    assert_eq!(tables[0].get("c"), Lookup::Found("w".to_string()));
}

#[test]
fn frozen_logs_are_handed_out_before_the_active_one() {
    let mut storage = create_storage();
    storage
        .set_batch(1, vec![(Key::new("a", 1), Value::set("v"))])
        .unwrap();
    storage.freeze_active().unwrap();
    storage
        .set_batch(2, vec![(Key::new("b", 2), Value::set("w"))])
        .unwrap();
    let writes = storage.take_writes();
    assert_eq!(writes.len(), 2);
    assert_eq!(writes[0].0, "db/wal/1");
    assert_eq!(writes[1].0, "db/wal/2");
    assert!(!writes[0].1.is_empty());
    assert_eq!(storage.log_file(2), "db/wal/2");
    // An empty table is not frozen.
    let mut fresh = create_storage();
    fresh.freeze_active().unwrap();
    assert!(!fresh.has_frozen());
    fresh.freeze_if_full().unwrap();
    assert!(!fresh.has_frozen());
}

#[test]
fn a_flush_keeps_what_readers_above_the_watermark_see() {
    let mut storage = create_storage();
    for seq in 1..=4u64 {
        let value = Value::set(&format!("v{seq}"));
        storage
            .set_batch(seq, vec![(Key::new("k", seq), value)])
            .unwrap();
    }
    storage.force_freeze().unwrap();
    assert!(storage.flush_oldest(2).unwrap());
    for seq in 2..=4u64 {
        assert_eq!(
            storage.get_snap("k", seq).unwrap(),
            Some(format!("v{seq}"))
        );
    }
    assert_eq!(storage.get_snap("k", 1).unwrap(), None);
}

#[test]
fn an_empty_text_reads_back_as_deleted_after_a_flush() {
    let mut storage = create_storage();
    storage
        .set_batch(1, vec![(Key::new("k", 1), Value::set(""))])
        .unwrap();
    assert_eq!(storage.get("k").unwrap(), Some(String::new()));
    storage.force_freeze().unwrap();
    storage.flush_oldest(u64::MAX).unwrap();
    assert_eq!(storage.get("k").unwrap(), None);
}

#[test]
fn shutdown_is_remembered() {
    let mut storage = create_storage();
    assert!(!storage.is_shutdown());
    storage.begin_shutdown();
    assert!(storage.is_shutdown());
    assert!(storage.has_room());
}

#[test]
fn begin_and_commit_are_logged() {
    let mut storage = create_storage();
    storage.begin(3).unwrap();
    storage.commit(3).unwrap();
    let (_, bytes) = storage.take_writes().remove(0);
    let mut reader = WalReader::open("db/wal/1", bytes).unwrap();
    assert_eq!(reader.next().unwrap(), Some(WalCmd::TxBegin(3)));
    assert_eq!(reader.next().unwrap(), Some(WalCmd::TxCommit(3)));
    assert_eq!(reader.next().unwrap(), None);
}
