use rust_kv_store::storage::record::Record;
use rust_kv_store::storage::wal;
use rust_kv_store::storage::wal::{checksum, entry_of, read_log, WalError};

#[test]
fn checksum_is_crc32() {
    assert_eq!(checksum(b""), 0);
    assert_eq!(checksum(b"123456789"), 0xCBF4_3926);
    assert_eq!(checksum(b"a"), 0xE8B7_BE43);
}

#[test]
fn entry_is_encoded_field_by_field() {
    let record = Record::Value { timestamp: 9, key: "a".to_string(), value: "b".to_string() };
    let mut expected = vec![];
    expected.extend(checksum(b"b").to_le_bytes());
    expected.extend(1u64.to_le_bytes());
    expected.extend(1u64.to_le_bytes());
    expected.extend(9u128.to_le_bytes());
    expected.extend(b"ab");
    assert_eq!(entry_of(&record), expected);

    let gone = Record::Tombstone { timestamp: 10, key: "a".to_string() };
    let mut expected = vec![0u8; 4];
    expected.extend(1u64.to_le_bytes());
    expected.extend(0u64.to_le_bytes());
    expected.extend(10u128.to_le_bytes());
    expected.extend(b"a");
    assert_eq!(entry_of(&gone), expected);
}

#[test]
fn wal_set() {
    let mut wal = vec![];
    wal.extend(entry_of(&Record::new("a".to_owned(), "b".to_owned())));
    assert_eq!(wal.len(), 36 + 2);
}

#[test]
fn iterator() {
    let mut wal = vec![];
    wal.extend(entry_of(&Record::new("a".to_owned(), "b".to_owned())));

    let (read_entry, next) = wal::read_entry(&wal, 0).unwrap().unwrap();
    assert_eq!(read_entry.get_key(), "a");
    assert!(matches!(&read_entry, Record::Value { value, .. } if value == "b"));

    assert!(wal::read_entry(&wal, next).unwrap().is_none());
}

#[test]
fn into_memtable() {
    let mut wal = vec![];
    wal.extend(entry_of(&Record::new("a".to_owned(), "b".to_owned())));

    let mem_table = wal::into_memtable(&wal).unwrap();

    assert_eq!(mem_table.get(&"a".to_owned()), Some("b".to_owned()));
}

#[test]
fn replay_applies_entries_in_order() {
    let records = vec![
        Record::Value { timestamp: 1, key: "a".to_string(), value: "1".to_string() },
        Record::Value { timestamp: 2, key: "b".to_string(), value: "2".to_string() },
        Record::Tombstone { timestamp: 3, key: "a".to_string() },
        Record::Value { timestamp: 4, key: "b".to_string(), value: "3".to_string() },
    ];
    let mut wal = vec![];
    for record in &records {
        wal.extend(entry_of(record));
    }
    assert_eq!(read_log(&wal).unwrap(), records);
    let table = wal::into_memtable(&wal).unwrap();
    assert_eq!(table.len(), 2);
    assert_eq!(table.get_record(&"a".to_string()), Some(records[2].clone()));
    assert_eq!(table.get_record(&"b".to_string()), Some(records[3].clone()));
}

#[test]
fn trailing_partial_entry_is_left_out() {
    let first = Record::Value { timestamp: 1, key: "a".to_string(), value: "1".to_string() };
    let second = Record::Value { timestamp: 2, key: "bb".to_string(), value: "22".to_string() };
    let whole = entry_of(&first);
    let partial = entry_of(&second);
    for cut in 0..partial.len() {
        let mut wal = whole.clone();
        wal.extend(&partial[..cut]);
        assert_eq!(read_log(&wal).unwrap(), vec![first.clone()]);
    }
    let mut wal = whole.clone();
    wal.extend(&partial);
    assert_eq!(read_log(&wal).unwrap(), vec![first, second]);
}

#[test]
fn checksum_mismatch_is_fatal() {
    let first = Record::Value { timestamp: 1, key: "a".to_string(), value: "1".to_string() };
    let second = Record::Value { timestamp: 2, key: "b".to_string(), value: "2".to_string() };
    let mut wal = entry_of(&first);
    wal.extend(entry_of(&second));
    let last = wal.len() - 1;
    wal[last] ^= 1;
    assert_eq!(read_log(&wal), Err(WalError::Corrupted));
    assert!(matches!(wal::into_memtable(&wal), Err(WalError::Corrupted)));
}

#[test]
fn empty_value_is_replayed_as_a_deletion() {
    let record = Record::Value { timestamp: 1, key: "a".to_string(), value: String::new() };
    let log = read_log(&entry_of(&record)).unwrap();
    assert_eq!(log, vec![Record::Tombstone { timestamp: 1, key: "a".to_string() }]);
}
