use rust_kv_store::storage::block::{Block, BLOCKSIZE};
use rust_kv_store::storage::index::{Footer, IndexBlock};
use rust_kv_store::storage::memtable::MemTable;
use rust_kv_store::storage::record::{DecodeError, Record};
use rust_kv_store::storage::sstable::SSTable;
use std::mem::size_of_val;

#[test]
fn block_from_bytes() {
    let block = Block::new(vec![
        Record::new("a".to_owned(), "b".to_owned()),
        Record::new("aa".to_owned(), "bb".to_owned()),
    ]);

    let bytes = block.to_bytes();

    let new_block = Block::from_bytes(&bytes).unwrap();
    assert_eq!(block.records(), new_block.records())
}

#[test]
fn get_value_by_index() {
    let entry_a = Record::new("a".to_owned(), "aa".to_owned());
    let entry_b = Record::new("b".to_owned(), "bb".to_owned());

    let mut records = vec![];

    for i in 0..(BLOCKSIZE / size_of_val(&entry_a)) {
        records.push(Record::new(
            format!("{}{}", "a".to_owned(), i),
            format!("{}{}", "aa".to_owned(), i),
        ));
    }

    for i in 0..(BLOCKSIZE / size_of_val(&entry_b)) {
        records.push(Record::new(
            format!("{}{}", "b".to_owned(), i),
            format!("{}{}", "bb".to_owned(), i),
        ));
    }

    let new_sstable = SSTable::from_records(records);
    assert_eq!(
        Some("bb1".to_owned()),
        new_sstable.get_value(&"b1".to_owned())
    )
}

#[test]
fn from_memtable_bytes() {
    let mut mem_table = MemTable::new();
    for i in 0..(BLOCKSIZE / 4) {
        mem_table.set(
            format!("{}{}", "a".to_owned(), i),
            format!("{}{}", "aa".to_owned(), i),
        );
    }

    let new_sstable = SSTable::from_records(mem_table.to_records());
    assert_eq!(
        Some("aa3000".to_owned()),
        new_sstable.get_value(&"a3000".to_owned())
    );
}

fn table_of(count: usize) -> SSTable {
    let mut mem_table = MemTable::new();
    for i in 0..count {
        mem_table.set(
            format!("{}{}", "a".to_owned(), i),
            format!("{}{}", "aa".to_owned(), i),
        );
    }
    SSTable::from_records(mem_table.to_records())
}

#[test]
fn get_from_disk() {
    let new_sstable = table_of(BLOCKSIZE / 5);
    let file = new_sstable.to_bytes();
    assert_eq!(
        SSTable::get_in(&"a3000".to_owned(), &file).unwrap(),
        Some("aa3000".to_owned())
    );

    assert_eq!(
        SSTable::get_in(&"a4001".to_owned(), &file).unwrap(),
        Some("aa4001".to_owned())
    );
}

#[test]
fn file_gives_what_the_table_gives() {
    let table = table_of(3000);
    let file = table.to_bytes();
    for key in ["a0", "a1", "a2999", "a1500", "a3000", "a", "b", "", "a15000"] {
        let key = key.to_string();
        assert_eq!(SSTable::get_in(&key, &file).unwrap(), table.get_value(&key));
    }
    assert_eq!(SSTable::records_in(&file).unwrap(), table.to_records());
}

#[test]
fn file_is_blocks_then_index_then_footer() {
    let table = table_of(3000);
    let file = table.to_bytes();
    let records = table.to_records();
    let mut blocks = 1;
    let mut offset = 0;
    let mut index_size = 24 + records[0].key_size();
    for record in &records {
        if offset + record.size() > BLOCKSIZE {
            blocks += 1;
            offset = 0;
            index_size += 24 + record.key_size();
        }
        offset += record.size();
    }
    assert!(blocks > 1);
    assert_eq!(file.len(), blocks * BLOCKSIZE + index_size + 16);
    let footer = Footer::from_bytes(&file).unwrap();
    assert_eq!(footer.index_offset, (blocks * BLOCKSIZE) as u64);
    assert_eq!(footer.index_size, index_size as u64);
    let index = SSTable::read_index(&file).unwrap();
    assert_eq!(index.len(), blocks);
    for k in 0..blocks {
        assert_eq!(index.offset_at(k), (k * BLOCKSIZE) as u64);
    }
}

#[test]
fn key_before_the_first_block_is_sought_there() {
    let table = table_of(3000);
    let file = table.to_bytes();
    let index = SSTable::read_index(&file).unwrap();
    assert_eq!(index.get_block_index(&"Z".to_string()), 0);
    assert_eq!(index.get_block_offset(&"Z".to_string()), 0);
    assert_eq!(table.get_value(&"Z".to_string()), None);
    assert_eq!(SSTable::get_in(&"Z".to_string(), &file).unwrap(), None);
}

fn sized(key: &str, size: usize) -> Record {
    let value = "v".repeat(size - 33 - key.len());
    Record::Value { timestamp: 0, key: key.to_string(), value }
}

#[test]
fn record_that_just_fits_stays_in_the_block() {
    let records = vec![sized("a", 1000), sized("b", BLOCKSIZE - 1000), sized("c", 40)];
    let table = SSTable::from_records(records);
    let file = table.to_bytes();
    let index = SSTable::read_index(&file).unwrap();
    assert_eq!(index.len(), 2);
    assert_eq!(index.get_block_index(&"b".to_string()), 0);
    assert_eq!(index.get_block_index(&"c".to_string()), 1);
    assert_eq!(SSTable::read_block(&file, 0).unwrap().records().len(), 2);
}

#[test]
fn record_one_byte_too_large_starts_a_block() {
    let records = vec![sized("a", 1000), sized("b", BLOCKSIZE - 999), sized("c", 40)];
    let table = SSTable::from_records(records);
    let file = table.to_bytes();
    let index = SSTable::read_index(&file).unwrap();
    assert_eq!(index.len(), 2);
    assert_eq!(index.get_block_index(&"a".to_string()), 0);
    assert_eq!(index.get_block_index(&"b".to_string()), 1);
    assert_eq!(index.get_block_index(&"c".to_string()), 1);
    assert_eq!(SSTable::read_block(&file, 0).unwrap().records().len(), 1);
    assert_eq!(table.get_value(&"c".to_string()), Some("v".repeat(6)));
}

#[test]
fn zero_key_size_ends_a_block() {
    let first = Record::Value { timestamp: 1, key: "a".to_string(), value: "1".to_string() };
    let second = Record::Value { timestamp: 2, key: "b".to_string(), value: "2".to_string() };
    let mut bytes = first.as_bytes();
    bytes.extend([0u8; 9]);
    bytes.extend(second.as_bytes());
    let block = Block::from_bytes(&bytes).unwrap();
    assert_eq!(block.records(), &vec![first]);
}

#[test]
fn block_is_padded_to_its_size() {
    let block = Block::new(vec![Record::Tombstone { timestamp: 3, key: "k".to_string() }]);
    let bytes = block.to_bytes();
    assert_eq!(bytes.len(), BLOCKSIZE);
    assert!(bytes[26..].iter().all(|byte| *byte == 0));
    assert_eq!(block.get_value(&"k".to_string()), None);
    assert!(block.get_record(&"k".to_string()).is_some());
}

#[test]
fn unreadable_files_are_reported() {
    let table = table_of(10);
    let file = table.to_bytes();
    let key = "a1".to_string();
    assert_eq!(SSTable::get_in(&key, &file[..10]), Err(DecodeError::ShortRead));
    assert_eq!(
        SSTable::get_in(&key, &file[BLOCKSIZE..]),
        Err(DecodeError::ShortRead)
    );
    let mut broken = file.clone();
    broken[0] = 9;
    assert_eq!(SSTable::get_in(&key, &broken), Err(DecodeError::InvalidTag));
    let empty = SSTable::from_records(vec![]).to_bytes();
    assert_eq!(empty.len(), 16);
    assert_eq!(SSTable::get_in(&key, &empty), Ok(None));
}

#[test]
fn index_is_read_back() {
    let mut index = IndexBlock::new();
    index.push("a".to_string(), 0, 0);
    index.push("m".to_string(), 32000, 1);
    let bytes = index.to_bytes();
    assert_eq!(bytes.len(), 2 * 25);
    let copy = IndexBlock::from_bytes(&bytes).unwrap();
    assert_eq!(copy.len(), 2);
    assert_eq!(copy.get_block_offset(&"n".to_string()), 32000);
    assert_eq!(copy.get_block_offset(&"b".to_string()), 0);
    assert!(IndexBlock::from_bytes(&bytes[..30]).is_err());
    let footer = Footer { index_offset: 64000, index_size: 50 };
    assert_eq!(Footer::from_bytes(&footer.to_bytes()), Ok(footer));
}
