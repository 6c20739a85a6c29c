use lowdb::common::error::DbError;
use lowdb::common::key::Key;
use lowdb::common::value::Value;
use lowdb::wal::reader::WalReader;
use lowdb::wal::wal as plain;
use lowdb::wal::writer::WalWriter;
use lowdb::wal::WalCmd;

fn reopened(writer: &mut WalWriter) -> WalReader {
    WalReader::open("db/wal/1", writer.take_unwritten()).unwrap()
}

#[test]
fn lib_wal_operation_write_read() {
    let mut writer = WalWriter::open("db/wal/1").unwrap();

    let key = Key::new("key", 1);
    let value = Value::set("value");
    writer
        .append(&WalCmd::Op(1, key.clone(), value.clone()))
        .unwrap();
    writer
        .append(&WalCmd::Op(1, key.clone(), Value::Delete))
        .unwrap();

    let writer_id = writer.id().to_owned();
    let mut reader = reopened(&mut writer);

    let result = reader.next().unwrap().unwrap();
    assert_eq!(WalCmd::Op(1, key.clone(), value), result);

    let result = reader.next().unwrap().unwrap();
    assert_eq!(WalCmd::Op(1, key, Value::Delete), result);

    assert_eq!(reader.id(), writer_id);
}

#[test]
fn lib_wal_key_value() {
    let mut writer = WalWriter::open("db/wal/1").unwrap();

    let key = Key::new("long_enough_key", 1);
    let value = Value::set("short");
    writer
        .append(&WalCmd::Op(1, key.clone(), value.clone()))
        .unwrap();

    let mut reader = reopened(&mut writer);
    let result = reader.next().unwrap().unwrap();

    assert_eq!(WalCmd::Op(1, key, value), result);
}

#[test]
fn lib_long_key() {
    let mut writer = WalWriter::open("db/wal/1").unwrap();

    let key = Key("k".repeat((u16::MAX as usize) + 5), 1);
    let value = Value::set("value");

    assert!(
        matches!(
            writer.append(&WalCmd::Op(1, key, value)).err().unwrap(),
            DbError::InvalidInt(_)
        ),
        "should validate u16 overflow"
    );
    assert!(writer.take_unwritten().is_empty());
}

#[test]
fn lib_read_empty_file() {
    let mut reader = WalReader::open("db/wal/1", vec![]).unwrap();
    assert!(reader.next().unwrap().is_none());
}

#[test]
fn wal_operation_write_read() {
    let mut writer = plain::WalWriter::open("db/wal/1").unwrap();

    let key = Key::new("key", 1);
    let value = Value::set("value");
    writer.append(&key, &value).unwrap();

    let mut reader = plain::WalReader::open("db/wal/1", writer.take_unwritten()).unwrap();
    let result = reader.next().unwrap().unwrap();

    assert_eq!((key, value), result);
}

#[test]
fn wal_key_value() {
    let mut writer = plain::WalWriter::open("db/wal/1").unwrap();

    let key = Key::new("long_enough_key", 1);
    let value = Value::set("short");
    writer.append(&key, &value).unwrap();

    let mut reader = plain::WalReader::open("db/wal/1", writer.take_unwritten()).unwrap();
    let result = reader.next().unwrap().unwrap();

    assert_eq!((key, value), result);
}

#[test]
fn long_key() {
    let mut writer = plain::WalWriter::open("db/wal/1").unwrap();

    let key = Key("k".repeat((u16::MAX as usize) + 5), 1);
    let value = Value::set("value");

    assert!(
        matches!(
            writer.append(&key, &value).err().unwrap(),
            DbError::InvalidInt(_)
        ),
        "should validate u16 overflow"
    );
}

#[test]
fn read_empty_file() {
    let mut reader = plain::WalReader::open("db/wal/1", vec![]).unwrap();
    assert!(reader.next().unwrap().is_none());
}

#[test]
fn records_have_exact_bytes() {
    let mut writer = WalWriter::open("db/wal/1").unwrap();
    writer.append(&WalCmd::TxBegin(2)).unwrap();
    writer
        .append_batch(2, &vec![(Key::new("k", 3), Value::set("v"))])
        .unwrap();
    writer.append(&WalCmd::TxCommit(2)).unwrap();
    let bytes = writer.take_unwritten();
    assert_eq!(
        bytes,
        vec![
            1, 0, 0, 0, 0, 0, 0, 0, 2, // begin
            4, 0, 1, 0, 0, 0, 0, 0, 0, 0, 2, // batch of one
            0, 1, b'k', 0, 0, 0, 0, 0, 0, 0, 3, 0, 1, b'v', // its write
            2, 0, 0, 0, 0, 0, 0, 0, 2, // commit
        ]
    );
    let mut whole = WalWriter::open("db/wal/1").unwrap();
    whole
        .append_commit(2, &vec![(Key::new("k", 3), Value::set("v"))])
        .unwrap();
    assert_eq!(whole.take_unwritten(), bytes);
}

#[test]
fn a_transaction_that_cannot_be_logged_leaves_only_its_beginning() {
    let mut writer = WalWriter::open("db/wal/1").unwrap();
    let batch = vec![
        (Key::new("a", 1), Value::set("fine")),
        (Key::new("b", 1), Value::set(&"x".repeat(65536))),
    ];
    assert!(matches!(
        writer.append_commit(1, &batch),
        Err(DbError::InvalidInt(_))
    ));
    assert_eq!(writer.take_unwritten(), vec![1, 0, 0, 0, 0, 0, 0, 0, 1]);
}

#[test]
fn a_torn_record_ends_the_log() {
    let mut writer = WalWriter::open("db/wal/1").unwrap();
    writer.append(&WalCmd::TxBegin(1)).unwrap();
    writer
        .append_kv(1, &Key::new("k", 1), &Value::set("v"))
        .unwrap();
    let bytes = writer.take_unwritten();
    for cut in 9..bytes.len() {
        let mut reader = WalReader::open("db/wal/1", bytes[..cut].to_vec()).unwrap();
        assert_eq!(reader.next().unwrap(), Some(WalCmd::TxBegin(1)));
        assert!(reader.next().unwrap().is_none());
    }
}

#[test]
fn an_unknown_record_is_an_error() {
    let mut reader = WalReader::open("db/wal/1", vec![9, 0, 0]).unwrap();
    assert!(matches!(
        reader.next(),
        Err(DbError::InvalidState(_))
    ));
}

#[test]
fn a_log_needs_a_file_name() {
    assert!(matches!(
        WalWriter::open(".."),
        Err(DbError::InvalidState(_))
    ));
    assert!(matches!(
        plain::WalReader::open("..", vec![]),
        Err(DbError::InvalidState(_))
    ));
}

#[test]
fn an_empty_text_is_logged_as_a_deletion() {
    let mut writer = plain::WalWriter::open("db/wal/1").unwrap();
    writer.append(&Key::new("k", 1), &Value::set("")).unwrap();
    let mut reader = plain::WalReader::open("db/wal/1", writer.take_unwritten()).unwrap();
    assert_eq!(
        reader.next().unwrap(),
        Some((Key::new("k", 1), Value::Delete))
    );
}

#[test]
fn a_torn_entry_of_a_plain_log_is_reported() {
    let mut writer = plain::WalWriter::open("db/wal/1").unwrap();
    writer.append(&Key::new("a", 1), &Value::set("v")).unwrap();
    let first = writer.take_unwritten();
    writer.append(&Key::new("bc", 2), &Value::set("w")).unwrap();
    let mut bytes = first.clone();
    bytes.extend(writer.take_unwritten());
    for cut in first.len()..=bytes.len() {
        let mut reader = plain::WalReader::open("db/wal/1", bytes[..cut].to_vec()).unwrap();
        assert_eq!(
            reader.next().unwrap(),
            Some((Key::new("a", 1), Value::set("v")))
        );
        let next = reader.next();
        if cut < first.len() + 2 {
            // Not even the length of the key is there.
            assert_eq!(next.unwrap(), None);
        } else if cut < bytes.len() {
            let Err(DbError::IO(e)) = next else {
                panic!("the entry has been cut off");
            };
            assert_eq!(e.kind(), std::io::ErrorKind::UnexpectedEof);
        } else {
            assert_eq!(next.unwrap(), Some((Key::new("bc", 2), Value::set("w"))));
        }
        assert_eq!(reader.next().unwrap(), None);
    }
}

#[test]
fn text_that_is_not_utf8_is_read_with_replacements() {
    let mut bytes = vec![0, 1, 0xff];
    bytes.extend([0u8; 7]);
    bytes.extend([5, 0, 1, b'v']);
    let mut reader = plain::WalReader::open("db/wal/1", bytes).unwrap();
    assert_eq!(
        reader.next().unwrap(),
        Some((Key::new("\u{fffd}", 5), Value::set("v")))
    );
}
