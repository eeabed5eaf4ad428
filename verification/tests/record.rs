use rust_kv_store::storage::record::{DecodeError, Record};

fn value(timestamp: u128, key: &str, value: &str) -> Record {
    Record::Value { timestamp, key: key.to_string(), value: value.to_string() }
}

fn tombstone(timestamp: u128, key: &str) -> Record {
    Record::Tombstone { timestamp, key: key.to_string() }
}

#[test]
fn value_is_encoded_field_by_field() {
    let record = value(0x0102, "k", "vv");
    let mut expected = vec![0u8];
    expected.extend(1u64.to_le_bytes());
    expected.extend(0x0102u128.to_le_bytes());
    expected.extend(b"k");
    expected.extend(2u64.to_le_bytes());
    expected.extend(b"vv");
    assert_eq!(record.as_bytes(), expected);
    assert_eq!(record.size(), 36);
}

#[test]
fn tombstone_is_encoded_field_by_field() {
    let record = tombstone(7, "key");
    let mut expected = vec![1u8];
    expected.extend(3u64.to_le_bytes());
    expected.extend(7u128.to_le_bytes());
    expected.extend(b"key");
    assert_eq!(record.as_bytes(), expected);
    assert_eq!(record.size(), 28);
}

#[test]
fn size_is_the_length_of_the_encoding() {
    for record in [value(1, "", ""), value(2, "käse", "brot"), tombstone(3, "x")] {
        assert_eq!(record.size(), record.as_bytes().len());
    }
}

#[test]
fn decoding_undoes_encoding() {
    let records = [value(11, "a", "b"), tombstone(12, "gone"), value(13, "größe", "∞")];
    let mut bytes = vec![0xAAu8; 5];
    let mut starts = vec![];
    for record in &records {
        starts.push(bytes.len());
        bytes.extend(record.as_bytes());
    }
    bytes.extend([1, 2, 3]);
    for (record, start) in records.iter().zip(starts) {
        let (decoded, next) = Record::from_bytes(&bytes, start).unwrap();
        assert_eq!(&decoded, record);
        assert_eq!(next, start + record.size());
    }
}

#[test]
fn decoding_fails_on_a_short_read_at_any_field() {
    let bytes = value(5, "key", "value").as_bytes();
    for len in 0..bytes.len() {
        assert_eq!(Record::from_bytes(&bytes[..len], 0), Err(DecodeError::ShortRead));
    }
    assert!(Record::from_bytes(&bytes, 0).is_ok());
    assert_eq!(Record::from_bytes(&bytes, bytes.len() + 1), Err(DecodeError::ShortRead));
}

#[test]
fn decoding_rejects_an_unknown_tag() {
    let mut bytes = value(5, "key", "value").as_bytes();
    bytes[0] = 2;
    assert_eq!(Record::from_bytes(&bytes, 0), Err(DecodeError::InvalidTag));
}

#[test]
fn invalid_text_is_read_with_replacement_characters() {
    let mut bytes = tombstone(5, "ab").as_bytes();
    let last = bytes.len() - 1;
    bytes[last] = 0xFF;
    let (decoded, _) = Record::from_bytes(&bytes, 0).unwrap();
    assert_eq!(decoded.get_key(), "a\u{FFFD}");
}

#[test]
fn records_are_equal_when_all_fields_are() {
    assert_eq!(value(1, "a", "b"), value(1, "a", "b"));
    assert_ne!(value(1, "a", "b"), value(2, "a", "b"));
    assert_ne!(value(1, "a", "b"), value(1, "a", "c"));
    assert_ne!(value(1, "a", ""), tombstone(1, "a"));
    assert_eq!(tombstone(1, "a"), tombstone(1, "a").clone());
}

#[test]
fn new_records_carry_key_and_value() {
    let record = Record::new("k".to_string(), "v".to_string());
    assert!(matches!(&record, Record::Value { key, value, .. } if key == "k" && value == "v"));
    let gone = Record::new_tombstone("k".to_string());
    assert!(matches!(&gone, Record::Tombstone { key, .. } if key == "k"));
    assert_eq!(gone.get_key(), "k");
    assert_eq!(record.key_size(), 1);
    assert_eq!(gone.value_size(), 0);
}
