use std::collections::{BTreeMap, HashSet};

use lowdb::common::error::DbError;
use lowdb::common::key::Key;
use lowdb::common::lookup::Lookup;
use lowdb::common::value::Value;
use lowdb::sstable::bloom::BloomFilter;
use lowdb::sstable::build_from_iter;
use lowdb::sstable::cursor::Cursor;
use lowdb::sstable::encode::{get_u16, get_u32, read_key, read_value};
use lowdb::sstable::footer::{Footer, FOOTER_LEN, MAGIC};
use lowdb::sstable::index::IndexedKey;
use lowdb::sstable::meta::SSTableMeta;
use lowdb::sstable::scan::compact;
use lowdb::sstable::scan::compaction::CompactionScan;
use lowdb::sstable::scan::merge::MergeScan;
use lowdb::sstable::scan::table::TableScan;
use lowdb::sstable::table::{find_in_block, SSTable};
use lowdb::sstable::writer::{tmp_path, SSTableWriter};

fn file_of(entries: &[(Key, Value)]) -> Vec<u8> {
    let mut writer = SSTableWriter::create("ss/0_1");
    for (k, v) in entries {
        writer.add(k, v).unwrap();
    }
    writer.finish().unwrap().unwrap().1
}

fn entries_of(file: Vec<u8>) -> Vec<(Key, Value)> {
    let mut scan = TableScan::open(file).unwrap();
    let mut entries = vec![];
    while let Some(entry) = scan.next().unwrap() {
        entries.push(entry);
    }
    entries
}

#[test]
fn contains() {
    let mut exists = HashSet::new();
    let mut not_exists = HashSet::new();
    let mut hashes = vec![0u64; 10_000];
    for i in 0..10_000 {
        let key = Key(format!("key: {i}"), i);
        if i % 3 == 0 {
            hashes[i as usize] = BloomFilter::hash64(&key.0);
            exists.insert(key);
        } else {
            not_exists.insert(key);
        }
    }
    let bloom = BloomFilter::build(&hashes, 10);
    for e in &exists {
        assert!(bloom.may_contain(&e.0));
    }
    let mut false_pos = 0;
    for n in &not_exists {
        if bloom.may_contain(&n.0) {
            false_pos += 1;
        }
    }
    assert!(false_pos < 10);
}

#[test]
fn footer_write_read() {
    let footer = Footer {
        entries: 1,
        bloom_off: 1,
        bloom_len: 1,
        index_off: 1234,
        index_len: 1000000,
        index_count: 100,
        smallest_seq: 7,
        largest_seq: 42,
        magic: MAGIC,
    };

    let mut buffer = vec![];
    footer.write_to_buf(&mut buffer);
    assert_eq!(buffer.len(), FOOTER_LEN);

    let restored = Footer::read(&buffer, 0).unwrap();

    assert_eq!(footer, restored);
}

#[test]
fn a_footer_with_a_wrong_magic_number_is_refused() {
    let file = file_of(&[(Key::new("key", 2), Value::set("value"))]);
    let mut broken = file.clone();
    let last = broken.len() - 1;
    broken[last] ^= 1;
    assert!(matches!(
        SSTableMeta::read("ss/0_1", &broken),
        Err(DbError::InvalidState(_))
    ));
    assert!(matches!(
        SSTableMeta::read("ss/0_1", &file[..10]),
        Err(_)
    ));
}

fn thousand_entries() -> BTreeMap<String, (Key, Value)> {
    let mut sorted = BTreeMap::new();
    for i in 0..1000 {
        let key = Key(format!("{}", i), i);
        let value = Value::Put(format!("{}", i * 2));
        sorted.insert(key.0.clone(), (key, value));
    }
    sorted
}

#[test]
fn table_scan() {
    let values = thousand_entries();
    let entries: Vec<(Key, Value)> = values.values().cloned().collect();
    let file = file_of(&entries);
    let mut table_scan = TableScan::open(file).unwrap();
    let mut result = Vec::with_capacity(values.len());
    while let Some((k, v)) = table_scan.next().unwrap() {
        result.push((k, v));
    }
    assert_eq!(values.len(), result.len());
    for ((k1, v1), (k2, v2)) in entries.iter().zip(&result) {
        assert_eq!(k1, k2);
        assert_eq!(v1, v2);
    }
}

/// Every entry is 64 bytes on disk (2 + 12 key + 8 seq + 2 + 40 value), so the
/// 64th `add` takes the block to 6 + 4096 bytes and closes it: the writer must not
/// then write a second block without entries in `finish`.
#[test]
fn last_add_fills_block_exactly() {
    const ENTRIES: usize = 64;

    let mut writer = SSTableWriter::create("ss/0_1");
    for i in 0..ENTRIES {
        let key = Key(format!("key{:09}", i), i as u64);
        writer.add(&key, &Value::Put("v".repeat(40))).unwrap();
    }
    let (meta, file) = writer.finish().unwrap().unwrap();

    assert_eq!(meta.index.len(), 1, "no empty trailing block");
    assert_eq!(
        meta.file_size,
        file.len() as u64,
        "reported size matches the bytes on disk"
    );

    let mut scan = TableScan::open(file).unwrap();
    let mut read = 0;
    while let Some((k, _)) = scan.next().unwrap() {
        assert_eq!(k.0, format!("key{:09}", read));
        read += 1;
    }
    assert_eq!(read, ENTRIES);
}

#[test]
fn meta_read() {
    let mut writer = SSTableWriter::create("ss/0_1");

    let key = Key::new("key", 2);
    let value = Value::set("value");

    writer.add(&key, &value).unwrap();
    let (_, file) = writer.finish().unwrap().unwrap();

    let meta = SSTableMeta::read("ss/0_1", &file).unwrap();
    assert_eq!(meta.file_size, file.len() as u64);
    assert_eq!(meta.entries(), 1);
    assert_eq!(meta.smallest_seq(), 2);
    assert_eq!(meta.largest_seq(), 2);
    assert_eq!(meta.first_key, key);
    assert_eq!(meta.last_key, key);
}

#[test]
fn compaction_with_bottom_read_ts_line() {
    let mut tables = vec![];

    for i in 0..10 {
        let key = Key::new("key", i);
        let value = Value::Put(format!("{}", i * i));
        tables.push(TableScan::open(file_of(&[(key, value)])).unwrap());
    }
    let (_, file) = compact("ss/final", tables, false, 7).unwrap().unwrap();

    let mut scan = TableScan::open(file).unwrap();
    assert_eq!(
        Some((Key::new("key", 9), Value::set("81"))),
        scan.next().unwrap()
    );
    assert_eq!(
        Some((Key::new("key", 8), Value::set("64"))),
        scan.next().unwrap()
    );
    assert_eq!(
        Some((Key::new("key", 7), Value::set("49"))),
        scan.next().unwrap()
    );
    assert!(scan.next().unwrap().is_none());
}

#[test]
fn write_block_to_file() {
    let mut writer = SSTableWriter::create("ss/0_1");

    for i in 0..10 {
        writer
            .add(&Key(format!("{}", i), 1), &Value::Put(format!("{}", i * 2)))
            .unwrap();
    }
    let (_, file) = writer.finish().unwrap().unwrap();

    let sum = get_u32(&file, 0);
    assert_eq!(sum, 1471837825);

    let mut len: u16 = get_u16(&file, 4);
    assert_eq!(len, 145);

    let mut i = 0;
    let mut at = 6;

    while len > 0 {
        let (key, end) = read_key(&file, at).unwrap();
        assert_eq!(key.0, format!("{}", i));
        let (value, end) = read_value(&file, end).unwrap();
        len -= key.disk_size() as u16;
        len -= value.disk_size() as u16;
        at = end;
        i += 1;
    }
    assert_eq!(10, i);

    let footer = Footer::read(&file, file.len() - FOOTER_LEN).unwrap();
    assert_eq!(10, footer.entries);
    assert_eq!(151, footer.bloom_off);
    assert_eq!(14, footer.bloom_len);
    assert_eq!(165, footer.index_off);
    assert_eq!(21, footer.index_len);
    assert_eq!(1, footer.index_count);
    assert_eq!(MAGIC, footer.magic);

    let bloom = BloomFilter::read(&file, footer.bloom_off, footer.bloom_len).unwrap();
    assert_eq!(bloom.disk_size(), 14);
    assert!(bloom.may_contain("3"));

    let mut at = footer.index_off as usize;
    for _ in 0..footer.index_count {
        let (indexed, end) = IndexedKey::read(&file, at).unwrap();
        assert_eq!(indexed.disk_size(), 21);
        at = end;
    }
}

#[test]
fn a_table_answers_as_its_entries() {
    let values = thousand_entries();
    let entries: Vec<(Key, Value)> = values.values().cloned().collect();
    let table = SSTable::open("ss/0_1", file_of(&entries)).unwrap();
    assert!(table.meta.index.len() > 1);
    for (k, v) in &entries {
        let Value::Put(text) = v else { unreachable!() };
        assert_eq!(
            table.get(&k.0, u64::MAX).unwrap(),
            Lookup::Found(text.clone())
        );
        assert_eq!(
            table.get(&k.0, k.1).unwrap(),
            Lookup::Found(text.clone())
        );
        if k.1 > 0 {
            assert_eq!(table.get(&k.0, k.1 - 1).unwrap(), Lookup::Absent);
        }
    }
    assert_eq!(table.get("", u64::MAX).unwrap(), Lookup::Absent);
    assert_eq!(table.get("a", u64::MAX).unwrap(), Lookup::Absent);
    assert_eq!(table.get("5x", u64::MAX).unwrap(), Lookup::Absent);
}

#[test]
fn a_deletion_mark_is_found() {
    let file = file_of(&[
        (Key::new("k", 5), Value::Delete),
        (Key::new("k", 3), Value::set("v")),
    ]);
    let table = SSTable::open("ss/0_1", file).unwrap();
    assert_eq!(table.get("k", 9).unwrap(), Lookup::Deleted);
    assert_eq!(
        table.get("k", 4).unwrap(),
        Lookup::Found("v".to_string())
    );
    assert_eq!(table.get("k", 2).unwrap(), Lookup::Absent);
}

#[test]
fn a_damaged_block_is_reported() {
    let mut file = file_of(&[(Key::new("key", 2), Value::set("value"))]);
    file[10] ^= 0x40;
    let table = SSTable::open("ss/0_1", file.clone());
    if let Ok(table) = table {
        let found = table.get(&table.meta.first_key.0, u64::MAX);
        assert!(matches!(
            found,
            Err(DbError::InvalidState(_)) | Ok(Lookup::Absent)
        ));
    }
    let mut scan = TableScan::open(file).unwrap();
    assert!(matches!(scan.next(), Err(DbError::InvalidState(_))));
}

#[test]
fn the_checksum_is_checked_on_reads() {
    let mut file = file_of(&[(Key::new("key", 2), Value::set("value"))]);
    // A byte of the value: keys, index and filter stay intact.
    file[6 + 2 + 3 + 8 + 2] = b'w';
    let table = SSTable::open("ss/0_1", file).unwrap();
    assert!(matches!(
        table.get("key", u64::MAX),
        Err(DbError::InvalidState(_))
    ));
}

#[test]
fn keys_must_ascend() {
    let mut writer = SSTableWriter::create("ss/0_1");
    writer.add(&Key::new("b", 1), &Value::Delete).unwrap();
    let Err(DbError::InvalidValue(text)) = writer.add(&Key::new("a", 1), &Value::Delete) else {
        panic!("the key comes too late");
    };
    assert_eq!(
        text,
        format!("key: {} < last: {}", Key::new("a", 1).show(), Key::new("b", 1).show())
    );
    assert!(matches!(
        writer.add(&Key::new("b", 2), &Value::Delete),
        Err(DbError::InvalidValue(_))
    ));
    writer.add(&Key::new("b", 1), &Value::Delete).unwrap();
}

#[test]
fn an_entry_that_does_not_fit_is_refused() {
    let mut writer = SSTableWriter::create("ss/0_1");
    assert!(matches!(
        writer.add(&Key::new("k", 1), &Value::set(&"x".repeat(65536))),
        Err(DbError::InvalidInt(_))
    ));
    let mut writer = SSTableWriter::create("ss/0_1");
    assert!(matches!(
        writer.add(&Key::new("k", 1), &Value::set(&"x".repeat(65535))),
        Err(DbError::InvalidInt(_))
    ));
}

#[test]
fn no_entries_make_no_table() {
    assert!(SSTableWriter::create("ss/0_1").finish().unwrap().is_none());
    assert!(build_from_iter("ss/0_1", &vec![]).unwrap().is_none());
    assert_eq!(tmp_path("ss/0_1"), "ss/0_1.sst.tmp");
    assert_eq!(SSTableWriter::create("ss/0_1").tmp(), "ss/0_1.sst.tmp");
}

#[test]
fn a_table_is_built_from_entries() {
    let entries = vec![
        (Key::new("a", 2), Value::set("x")),
        (Key::new("a", 1), Value::Delete),
        (Key::new("b", 7), Value::set("y")),
    ];
    let (meta, file) = build_from_iter("ss/0_1", &entries).unwrap().unwrap();
    assert_eq!(meta.path, "ss/0_1");
    assert_eq!(meta.entries(), 3);
    assert_eq!(meta.smallest_seq(), 1);
    assert_eq!(meta.largest_seq(), 7);
    assert_eq!(entries_of(file), entries);
}

#[test]
fn compaction_drops_duplicates_and_old_versions() {
    let newer = file_of(&[
        (Key::new("a", 5), Value::set("same")),
        (Key::new("b", 9), Value::Delete),
    ]);
    let older = file_of(&[
        (Key::new("a", 5), Value::set("same")),
        (Key::new("a", 2), Value::set("old")),
        (Key::new("b", 1), Value::set("gone")),
        (Key::new("c", 3), Value::set("kept")),
    ]);
    let scans = vec![
        TableScan::open(newer.clone()).unwrap(),
        TableScan::open(older.clone()).unwrap(),
    ];
    let (_, file) = compact("ss/1_1", scans, false, u64::MAX).unwrap().unwrap();
    assert_eq!(
        entries_of(file),
        vec![
            (Key::new("a", 5), Value::set("same")),
            (Key::new("b", 9), Value::Delete),
            (Key::new("c", 3), Value::set("kept")),
        ]
    );
    // At the bottom the deletion mark goes too.
    let scans = vec![
        TableScan::open(newer.clone()).unwrap(),
        TableScan::open(older.clone()).unwrap(),
    ];
    let (_, file) = compact("ss/1_1", scans, true, u64::MAX).unwrap().unwrap();
    assert_eq!(
        entries_of(file),
        vec![
            (Key::new("a", 5), Value::set("same")),
            (Key::new("c", 3), Value::set("kept")),
        ]
    );
    // Below the watermark only duplicates go.
    let scans = vec![
        TableScan::open(newer).unwrap(),
        TableScan::open(older).unwrap(),
    ];
    let (_, file) = compact("ss/1_1", scans, false, 0).unwrap().unwrap();
    assert_eq!(
        entries_of(file),
        vec![
            (Key::new("a", 5), Value::set("same")),
            (Key::new("a", 2), Value::set("old")),
            (Key::new("b", 9), Value::Delete),
            (Key::new("b", 1), Value::set("gone")),
            (Key::new("c", 3), Value::set("kept")),
        ]
    );
}

#[test]
fn compaction_of_nothing_writes_nothing() {
    let only = file_of(&[(Key::new("a", 1), Value::Delete)]);
    let scans = vec![TableScan::open(only).unwrap()];
    assert!(compact("ss/1_1", scans, true, 1).unwrap().is_none());
    assert!(compact("ss/1_1", vec![], false, 0).unwrap().is_none());
}

#[test]
fn a_merge_reports_the_first_fault_that_it_meets() {
    let good = file_of(&[(Key::new("a", 1), Value::set("x"))]);
    let mut corrupted = good.clone();
    corrupted[6] ^= 1;
    // The footer gives the blocks one byte less than they take.
    let mut short = good.clone();
    let at = short.len() - FOOTER_LEN + 8 + 7;
    short[at] -= 1;
    let tables = |files: &[&Vec<u8>]| {
        files
            .iter()
            .map(|file| TableScan::open(file.to_vec()).unwrap())
            .collect::<Vec<_>>()
    };
    for (files, message) in [
        (vec![&good, &corrupted, &short], "block corrupted"),
        (vec![&short, &corrupted, &good], "entry runs past the last block"),
    ] {
        let Err(DbError::InvalidState(text)) = compact("ss/1_1", tables(&files), false, 0) else {
            panic!("a table cannot be read");
        };
        assert_eq!(text, message);
    }
}

#[test]
fn a_cursor_reads_the_entries_of_a_block() {
    let file = file_of(&[
        (Key::new("a", 2), Value::set("x")),
        (Key::new("b", 1), Value::Delete),
    ]);
    let len = 6 + get_u16(&file, 4) as usize;
    let mut cursor = Cursor::new(&file[..len]).unwrap();
    let first = cursor.next_entry().unwrap().unwrap();
    assert!(first.before("a", 1));
    assert!(!first.before("a", 2));
    assert!(cursor.next_entry().unwrap().is_some());
    assert!(cursor.next_entry().unwrap().is_none());
    assert!(matches!(
        Cursor::new(&file[..5]),
        Err(DbError::InvalidState(_))
    ));
}

#[test]
fn hashes_are_fixed() {
    assert_eq!(BloomFilter::hash64(""), 0xcbf2_9ce4_8422_2325);
    assert_eq!(BloomFilter::hash64("a"), 0xaf63_dc4c_8601_ec8c);
}

fn bitwise_crc32(bytes: &[u8]) -> u32 {
    let mut c = u32::MAX;
    for &b in bytes {
        c ^= b as u32;
        for _ in 0..8 {
            c = if c & 1 == 1 {
                (c >> 1) ^ 0xEDB8_8320
            } else {
                c >> 1
            };
        }
    }
    !c
}

#[test]
fn the_checksum_of_a_block_is_its_crc32() {
    assert_eq!(bitwise_crc32(b"123456789"), 0xCBF4_3926);
    for len in [0, 1, 15, 16, 63, 64, 127, 128, 129, 1000, 4000] {
        let file = file_of(&[(Key::new("k", 1), Value::set(&"ab".repeat(len)))]);
        let end = 6 + get_u16(&file, 4) as usize;
        assert_eq!(get_u32(&file, 0), bitwise_crc32(&file[6..end]));
    }
}

#[test]
fn a_scan_goes_on_behind_a_bad_block() {
    let big = "x".repeat(4096);
    let mut file = file_of(&[
        (Key::new("a", 1), Value::set(&big)),
        (Key::new("b", 1), Value::set("y")),
    ]);
    file[10] ^= 0x40;
    let mut scan = TableScan::open(file).unwrap();
    let Err(DbError::InvalidState(text)) = scan.next() else {
        panic!("the block is corrupted");
    };
    assert_eq!(text, "block corrupted");
    let (key, value) = scan.next().unwrap().unwrap();
    assert_eq!((key, value), (Key::new("b", 1), Value::set("y")));
    // The bytes of the bad block still count, so the scan runs into what follows.
    assert!(scan.next().is_err());
}

#[test]
fn a_table_is_laid_out_without_gaps() {
    let mut writer = SSTableWriter::create("ss/0_1");
    for i in 0..40u64 {
        let key = Key::new(&format!("k{i:02}"), 100 - i);
        writer.add(&key, &Value::set(&"v".repeat(500))).unwrap();
    }
    let (meta, _) = writer.finish().unwrap().unwrap();
    assert!(meta.index.len() > 1);
    let mut at = 0;
    for pair in meta.index.windows(2) {
        assert!(pair[0].key.0 < pair[1].key.0);
    }
    for block in &meta.index {
        assert_eq!(block.block_off, at);
        at += block.block_len as u64;
    }
    assert_eq!(at, meta.footer.bloom_off);
    assert_eq!(meta.entries(), 40);
    assert_eq!((meta.smallest_seq(), meta.largest_seq()), (61, 100));
    assert_eq!(meta.index.last().unwrap().key, meta.last_key);
}

#[test]
fn a_merge_gives_equal_keys_in_the_order_of_their_tables() {
    let tables = ["z", "second", "third"]
        .iter()
        .map(|text| {
            let file = file_of(&[
                (Key::new("k", 2), Value::set(text)),
                (Key::new(text, 1), Value::set("own")),
            ]);
            TableScan::open(file).unwrap()
        })
        .collect::<Vec<_>>();
    let mut scan = MergeScan::new(tables).unwrap();
    let mut entries = vec![];
    while let Some(entry) = scan.next().unwrap() {
        entries.push(entry);
    }
    assert_eq!(
        entries,
        vec![
            (Key::new("k", 2), Value::set("z")),
            (Key::new("k", 2), Value::set("second")),
            (Key::new("k", 2), Value::set("third")),
            (Key::new("second", 1), Value::set("own")),
            (Key::new("third", 1), Value::set("own")),
            (Key::new("z", 1), Value::set("own")),
        ]
    );
}

#[test]
fn an_entry_is_given_once_the_one_after_it_is_read() {
    let big = "x".repeat(4096);
    let mut file = file_of(&[
        (Key::new("a", 1), Value::set(&big)),
        (Key::new("b", 1), Value::set(&big)),
        (Key::new("c", 1), Value::set("y")),
    ]);
    let second = 6 + get_u16(&file, 4) as usize;
    let third = second + 6 + get_u16(&file, second + 4) as usize;
    file[third + 8] ^= 1;
    let merge = MergeScan::new(vec![TableScan::open(file).unwrap()]).unwrap();
    let mut scan = CompactionScan::new(merge, false, 0).unwrap();
    assert!(scan.next().is_err());
}

#[test]
fn one_block_answers_a_search() {
    let big = "x".repeat(4096);
    let file = file_of(&[
        (Key::new("a", 1), Value::set(&big)),
        (Key::new("b", 2), Value::set("y")),
    ]);
    let meta = SSTableMeta::read("ss/0_1", &file).unwrap();
    assert_eq!(meta.block_of("a", 9), Some(0));
    assert_eq!(meta.block_of("b", 9), Some(1));
    assert_eq!(meta.block_of("A", 9), None);
    assert_eq!(meta.block_of("c", 9), None);
    let at = &meta.index[1];
    let (from, to) = (at.block_off as usize, at.block_off as usize + at.block_len as usize);
    assert_eq!(
        find_in_block(&file[from..to], "b", 9).unwrap(),
        Lookup::Found("y".to_string())
    );
    assert_eq!(meta.block_of("b", 1), None);
}
