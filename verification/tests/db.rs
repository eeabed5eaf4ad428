use rust_kv_store::db::{CompactionError, DBConfig, RestoreError, Step, DB};
use rust_kv_store::storage::names::{log_file_name, table_file_name, table_level};
use rust_kv_store::storage::record::Record;
use rust_kv_store::storage::sstable::SSTable;
use rust_kv_store::storage::wal::entry_of;

/// The engine over files that are kept in memory: `files` holds the bytes
/// of the table files in the order of the engine's list, `wal` the log.
struct Store {
    db: DB,
    files: Vec<Vec<u8>>,
    wal: Vec<u8>,
}

impl Store {
    fn open() -> Store {
        Store { db: DB::new(vec![]), files: vec![], wal: vec![] }
    }

    fn write(&mut self, record: Record) {
        assert!(DB::is_storable(&record));
        self.wal.extend(entry_of(&record));
        if let Some(file) = self.db.apply(record) {
            assert_eq!(self.db.sstables().last(), Some(&file.file_name));
            self.files.push(file.bytes);
            self.wal.clear();
        }
    }

    fn set(&mut self, key: String, value: String) {
        self.write(Record::new(key, value));
    }

    fn delete(&mut self, key: String) {
        self.write(Record::new_tombstone(key));
    }

    fn get(&self, key: &String) -> Option<String> {
        let mut step = self.db.get(key);
        loop {
            match step {
                Step::Done(value) => {
                    assert_eq!(self.db.get_in(key, &self.files), Ok(value.clone()));
                    return value;
                }
                Step::Search(table) => {
                    let found = SSTable::find_in(key, &self.files[table]).unwrap();
                    step = DB::resume_get(table, found);
                }
            }
        }
    }

    fn compact(&mut self, level: u8) {
        let names = self.db.sstables().clone();
        let inputs = self.db.compaction_inputs(level);
        let mut taken = vec![];
        let mut left = vec![];
        for (name, file) in names.iter().zip(self.files.drain(..)) {
            if table_level(name) == Some(level) {
                taken.push(file);
            } else {
                left.push(file);
            }
        }
        assert_eq!(inputs.len(), taken.len());
        let file = DB::compact(level, &taken).unwrap();
        left.push(file.bytes);
        let removed = self.db.finish_compaction(level, file.file_name);
        assert_eq!(removed, inputs);
        self.files = left;
    }
}

#[test]
fn db_set() {
    let mut db = Store::open();
    db.set("a".to_owned(), "b".to_owned());

    assert_eq!(db.get(&"a".to_owned()), Some("b".to_owned()));
}

#[test]
fn delete() {
    let mut db = Store::open();
    db.set("a".to_owned(), "b".to_owned());

    assert_eq!(db.get(&"a".to_owned()), Some("b".to_owned()));

    db.delete("a".to_owned());

    assert_eq!(db.get(&"a".to_owned()), None);
}

#[test]
fn restore_wal() {
    let mut db = Store::open();

    db.set("a".to_owned(), "b".to_owned());

    let mut db2 = Store::open();
    db2.db.restore_wal(&db.wal).unwrap();
    assert_eq!(db2.get(&"a".to_owned()), Some("b".to_owned()));
    assert_eq!(
        db2.db.mem_table().to_records(),
        db.db.mem_table().to_records()
    );
}

#[test]
fn multiple_ss_tables() {
    let mut db = Store::open();
    let mem_table_size = 10_000;
    db.db.set_config(DBConfig::MemtableSize, mem_table_size);

    for i in 0..mem_table_size - 1 {
        db.set(format!("{}{}", "a".to_owned(), i), i.to_string());
    }

    assert_eq!(db.db.mem_table().len(), mem_table_size - 1);
    db.set(
        format!("{}{}", "a".to_owned(), mem_table_size),
        mem_table_size.to_string(),
    );
    assert_eq!(db.db.mem_table().len(), 0);
    assert_eq!(db.db.sstables().len(), 1);
    for i in mem_table_size + 1..2 * mem_table_size + 11 {
        db.set(format!("{}{}", "a".to_owned(), i), i.to_string());
    }

    assert_eq!(db.db.mem_table().len(), 10);

    assert_eq!(db.get(&"a1".to_owned()), Some("1".to_owned()));
    assert_eq!(db.get(&"a2".to_owned()), Some("2".to_owned()));
    assert_eq!(db.get(&"a3".to_owned()), Some("3".to_owned()));
}

#[test]
fn compact() {
    let mut db = Store::open();
    let mem_table_size = 10_000;
    db.db.set_config(DBConfig::MemtableSize, mem_table_size);

    for _ in 0..=mem_table_size {
        db.set("a".to_owned(), "0".to_string());
    }
    for i in 0..=mem_table_size {
        db.set(format!("{}{}", "b".to_owned(), i), i.to_string());
    }

    db.set("c".to_owned(), "0".to_string());

    for i in 0..=mem_table_size {
        db.set(format!("{}{}", "d".to_owned(), i), i.to_string());
    }

    assert_eq!(db.get(&"a".to_string()), Some("0".to_string()));
    assert_eq!(db.get(&"b1".to_string()), Some("1".to_string()));
    assert_eq!(db.get(&"c".to_string()), Some("0".to_string()));
    assert_eq!(db.get(&"d1".to_string()), Some("1".to_string()));
    assert_eq!(db.db.sstables().len(), 2);

    db.delete("c".to_owned());

    for i in 0..=mem_table_size {
        db.set(format!("{}{}", "e".to_owned(), i), i.to_string());
    }

    db.compact(0);

    assert_eq!(db.get(&"a".to_string()), Some("0".to_string()));
    assert_eq!(db.get(&"b1".to_string()), Some("1".to_string()));
    assert_eq!(db.get(&"c".to_string()), None);
    assert_eq!(db.get(&"d1".to_string()), Some("1".to_string()));

    assert_eq!(db.db.sstables().len(), 1);
    assert_eq!(table_level(&db.db.sstables()[0]), Some(1));
}

#[test]
fn untouched_key_is_not_found() {
    let mut db = Store::open();
    assert_eq!(db.get(&"a".to_string()), None);
    db.db.set_config(DBConfig::MemtableSize, 2);
    db.set("b".to_string(), "1".to_string());
    db.set("c".to_string(), "2".to_string());
    assert_eq!(db.files.len(), 1);
    assert_eq!(db.get(&"a".to_string()), None);
    assert_eq!(db.get(&"d".to_string()), None);
}

#[test]
fn tombstone_in_newer_table_masks_older_value() {
    let mut db = Store::open();
    db.db.set_config(DBConfig::MemtableSize, 1);
    db.set("a".to_string(), "1".to_string());
    assert_eq!(db.get(&"a".to_string()), Some("1".to_string()));
    db.delete("a".to_string());
    assert_eq!(db.files.len(), 2);
    assert!(db.db.mem_table().is_empty());
    assert_eq!(db.get(&"a".to_string()), None);
    db.set("a".to_string(), "2".to_string());
    assert_eq!(db.get(&"a".to_string()), Some("2".to_string()));
}

#[test]
fn flush_changes_no_lookup() {
    let mut db = Store::open();
    db.db.set_config(DBConfig::MemtableSize, 4);
    db.set("a".to_string(), "1".to_string());
    db.set("b".to_string(), "2".to_string());
    db.delete("a".to_string());
    db.set("c".to_string(), "3".to_string());
    let before: Vec<Option<String>> =
        ["a", "b", "c", "d", "e"].iter().map(|key| db.get(&key.to_string())).collect();
    assert_eq!(db.files.len(), 0);
    db.set("d".to_string(), "4".to_string());
    assert_eq!(db.files.len(), 1);
    assert!(db.wal.is_empty());
    let after: Vec<Option<String>> =
        ["a", "b", "c", "d", "e"].iter().map(|key| db.get(&key.to_string())).collect();
    assert_eq!(before[..3], after[..3]);
    assert_eq!(after[3], Some("4".to_string()));
    assert_eq!(after[4], None);
}

#[test]
fn compaction_changes_no_lookup() {
    let mut db = Store::open();
    db.db.set_config(DBConfig::MemtableSize, 3);
    for round in 0..5 {
        for i in 0..7 {
            if (i + round) % 4 == 0 {
                db.delete(format!("k{}", i));
            } else {
                db.set(format!("k{}", i), format!("{}-{}", round, i));
            }
        }
    }
    let keys: Vec<String> = (0..9).map(|i| format!("k{}", i)).collect();
    let before: Vec<Option<String>> = keys.iter().map(|key| db.get(key)).collect();
    assert!(db.files.len() > 3);
    db.compact(0);
    assert_eq!(db.files.len(), 1);
    let after: Vec<Option<String>> = keys.iter().map(|key| db.get(key)).collect();
    assert_eq!(before, after);
    db.compact(1);
    assert_eq!(table_level(&db.db.sstables()[0]), Some(2));
    let again: Vec<Option<String>> = keys.iter().map(|key| db.get(key)).collect();
    assert_eq!(before, again);
}

#[test]
fn table_files_are_adopted_in_the_order_of_their_names() {
    let names = vec!["30_0.ss", "10_1.ss", "20_0.ss"];
    let db = DB::new(names.iter().map(|name| name.to_string()).collect());
    assert_eq!(db.sstables(), &vec!["10_1.ss", "20_0.ss", "30_0.ss"]);
    assert_eq!(db.compaction_inputs(0), vec!["20_0.ss", "30_0.ss"]);
    assert_eq!(db.compaction_inputs(1), vec!["10_1.ss"]);
    assert!(db.compaction_inputs(2).is_empty());
    assert!(db.mem_table().is_empty());
}

#[test]
fn file_names_carry_time_and_level() {
    assert_eq!(table_file_name(1697040000123456, 0), "1697040000123456_0.ss");
    assert_eq!(table_file_name(0, 255), "0_255.ss");
    assert_eq!(log_file_name(42), "42.wal");
    assert_eq!(table_level(&"1697040000123456_0.ss".to_string()), Some(0));
    assert_eq!(table_level(&"5_007.ss".to_string()), Some(7));
    assert_eq!(table_level(&"5_255.ss".to_string()), Some(255));
    for name in ["5_256.ss", "5_.ss", "5.ss", "5_1.wal", "5_1a.ss", "5_1_2.ss", "", "_.ss"] {
        assert_eq!(table_level(&name.to_string()), None);
    }
}

#[test]
fn records_that_no_table_can_hold_are_not_storable() {
    let big = "x".repeat(32000 - 33 - 1);
    assert!(DB::is_storable(&Record::Value {
        timestamp: 0,
        key: "k".to_string(),
        value: big.clone()
    }));
    assert!(!DB::is_storable(&Record::Value {
        timestamp: 0,
        key: "kk".to_string(),
        value: big
    }));
    assert!(!DB::is_storable(&Record::Tombstone { timestamp: 0, key: String::new() }));
    assert!(DB::is_storable(&Record::Tombstone { timestamp: 0, key: "k".to_string() }));
}

#[test]
fn restore_fails_on_a_corrupted_log() {
    let mut wal = entry_of(&Record::new("a".to_string(), "b".to_string()));
    let last = wal.len() - 1;
    wal[last] ^= 0x40;
    let mut db = DB::new(vec![]);
    db.apply(Record::new("kept".to_string(), "1".to_string()));
    assert_eq!(db.restore_wal(&wal), Err(RestoreError::Corrupted));
    assert_eq!(db.mem_table().len(), 1);
    let empty_key = entry_of(&Record::new(String::new(), "b".to_string()));
    assert_eq!(db.restore_wal(&empty_key), Err(RestoreError::Unstorable));
    assert_eq!(db.mem_table().get(&"kept".to_string()), Some("1".to_string()));
}

#[test]
fn compaction_fails_where_it_cannot_go_on() {
    let table = SSTable::from_records(vec![Record::new("a".to_string(), "b".to_string())]);
    let file = table.to_bytes();
    assert!(matches!(DB::compact(255, &vec![file.clone()]), Err(CompactionError::LevelTooHigh)));
    assert!(matches!(
        DB::compact(0, &vec![file[..10].to_vec()]),
        Err(CompactionError::Unreadable(_))
    ));
    let full = SSTable::from_records(vec![Record::Value {
        timestamp: 0,
        key: "k".to_string(),
        value: "v".repeat(32000 - 34),
    }]);
    let mut grown = full.to_bytes();
    grown[25] = 0xFF;
    assert!(matches!(DB::compact(0, &vec![grown]), Err(CompactionError::Unstorable)));
    let merged = DB::compact(3, &vec![file.clone(), file]).unwrap();
    assert_eq!(table_level(&merged.file_name), Some(4));
    assert_eq!(SSTable::get_in(&"a".to_string(), &merged.bytes), Ok(Some("b".to_string())));
}
