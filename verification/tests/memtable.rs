use rust_kv_store::storage::memtable::MemTable;
use rust_kv_store::storage::record::Record;

#[test]
fn test_get() {
    let mut mem_table = MemTable::new();
    mem_table.set("a".to_string(), "a".to_string());
    assert_eq!(mem_table.get(&"a".to_string()), Some("a".to_string()));
}

#[test]
fn test_get_none() {
    let mut mem_table = MemTable::new();
    mem_table.set("a".to_string(), "a".to_string());
    assert_eq!(mem_table.get(&"b".to_string()), None);
}

#[test]
fn test_delete() {
    let mut mem_table = MemTable::new();
    mem_table.set("a".to_string(), "a".to_string());
    assert_eq!(mem_table.get(&"a".to_string()), Some("a".to_string()));

    mem_table.delete("a".to_string());
    assert_eq!(mem_table.get(&"a".to_string()), None);
}

#[test]
fn records_come_out_in_key_order() {
    let mut mem_table = MemTable::new();
    for key in ["b", "a10", "a2", "c", "a"] {
        mem_table.set(key.to_string(), key.to_uppercase());
    }
    let keys: Vec<String> = mem_table.to_records().iter().map(|r| r.get_key()).collect();
    assert_eq!(keys, vec!["a", "a10", "a2", "b", "c"]);
    assert_eq!(mem_table.len(), 5);
}

#[test]
fn later_record_replaces_earlier() {
    let records = vec![
        Record::Value { timestamp: 1, key: "k".to_string(), value: "old".to_string() },
        Record::Value { timestamp: 2, key: "j".to_string(), value: "x".to_string() },
        Record::Value { timestamp: 3, key: "k".to_string(), value: "new".to_string() },
    ];
    let table = MemTable::from_records(records);
    assert_eq!(table.len(), 2);
    assert_eq!(table.get(&"k".to_string()), Some("new".to_string()));
    assert_eq!(
        table.get_record(&"k".to_string()),
        Some(Record::Value { timestamp: 3, key: "k".to_string(), value: "new".to_string() })
    );
}

#[test]
fn tombstone_is_kept_as_a_record() {
    let mut mem_table = MemTable::new();
    assert!(mem_table.is_empty());
    mem_table.delete("a".to_string());
    assert!(!mem_table.is_empty());
    assert_eq!(mem_table.len(), 1);
    assert_eq!(mem_table.get(&"a".to_string()), None);
    assert!(matches!(
        mem_table.get_record(&"a".to_string()),
        Some(Record::Tombstone { .. })
    ));
    assert_eq!(mem_table.get_record(&"b".to_string()), None);
}

#[test]
fn set_replaces_the_record_of_the_key() {
    let mut mem_table = MemTable::default();
    mem_table.set("a".to_string(), "1".to_string());
    mem_table.set("b".to_string(), "2".to_string());
    mem_table.set("a".to_string(), "3".to_string());
    assert_eq!(mem_table.len(), 2);
    assert_eq!(mem_table.get(&"a".to_string()), Some("3".to_string()));
    assert_eq!(mem_table.get(&"b".to_string()), Some("2".to_string()));
    mem_table.delete("a".to_string());
    mem_table.set("a".to_string(), "4".to_string());
    assert_eq!(mem_table.get(&"a".to_string()), Some("4".to_string()));
}

#[test]
fn table_from_the_records_of_a_table_holds_the_same() {
    let mut mem_table = MemTable::new();
    for i in 0..2000 {
        mem_table.set(format!("key{}", i), format!("value{}", i));
    }
    mem_table.delete("key7".to_string());
    let sstable = rust_kv_store::storage::sstable::SSTable::from_records(mem_table.to_records());
    let copy = MemTable::from_records(sstable.to_records());
    assert_eq!(copy.to_records(), mem_table.to_records());
}
