//! The in-memory table: an ordered map from each key to its latest record,
//! kept as a run in ascending key order.

use crate::storage::record::{Record, RecordView};
use crate::storage::run::{
    ascending, content_of, find, has_key, lemma_apply_push, lemma_record_keys, lemma_run_insert,
    lemma_run_len, lemma_run_map, lemma_run_replace, lemma_split_absent, record_of,
    records_map, text_of, value_of, views, KeyMap, Keyed,
};
use vstd::prelude::*;

verus! {

/// The mutable write buffer of the store. It holds at most one record per
/// key, the latest, and hands its records out in ascending key order.
pub struct MemTable {
    storage: Vec<Record>,
}

impl View for MemTable {
    type V = KeyMap;

    /// The table as a map from each key to the record held under it.
    closed spec fn view(&self) -> KeyMap {
        records_map(views(self.storage@))
    }
}

impl Default for MemTable {
    fn default() -> (table: Self)
        ensures
            table@ == KeyMap::empty(),
    {
        MemTable::new()
    }
}

impl MemTable {
    #[verifier::type_invariant]
    spec fn in_order(&self) -> bool {
        ascending(views(self.storage@))
    }

    /// An empty table.
    pub fn new() -> (table: MemTable)
        ensures
            table@ == KeyMap::empty(),
    {
        MemTable { storage: Vec::new() }
    }

    /// Puts `record` under its key, in place of any record held there.
    pub fn insert(&mut self, record: Record)
        ensures
            final(self)@ == old(self)@.insert(record@.key(), record@),
    {
        proof {
            use_type_invariant(&*self);
        }
        let ghost before = views(self.storage@);
        let mut storage: Vec<Record> = Vec::new();
        core::mem::swap(&mut self.storage, &mut storage);
        proof {
            lemma_record_keys(storage@);
        }
        match find(&storage, record.key_ref()) {
            Ok(at) => {
                proof {
                    lemma_run_replace(before, record@, at as int);
                    assert(views(storage@.update(at as int, record)) =~= before.update(
                        at as int,
                        record@,
                    ));
                }
                storage[at] = record;
            },
            Err(at) => {
                proof {
                    lemma_run_insert(before, record@, at as int);
                    assert(views(storage@.insert(at as int, record)) =~= before.insert(
                        at as int,
                        record@,
                    ));
                }
                storage.insert(at, record);
            },
        }
        core::mem::swap(&mut self.storage, &mut storage);
    }

    /// Writes `value` under `key`, stamped with the current time.
    pub fn set(&mut self, key: String, value: String)
        ensures
            final(self)@ == old(self)@.insert(key@, final(self)@[key@]),
            final(self)@[key@] == (RecordView::Value {
                timestamp: final(self)@[key@].timestamp(),
                key: key@,
                value: value@,
            }),
    {
        let record = Record::new(key, value);
        self.insert(record);
    }

    /// Deletes `key` by putting a tombstone under it, stamped with the
    /// current time.
    pub fn delete(&mut self, key: String)
        ensures
            final(self)@ == old(self)@.insert(key@, final(self)@[key@]),
            final(self)@[key@] == (RecordView::Tombstone {
                timestamp: final(self)@[key@].timestamp(),
                key: key@,
            }),
    {
        let record = Record::new_tombstone(key);
        self.insert(record);
    }

    /// The record held under `key`, if there is one.
    pub fn get_record(&self, key: &String) -> (r: Option<Record>)
        ensures
            content_of(r) == record_of(self@, key@),
    {
        proof {
            use_type_invariant(self);
            lemma_run_map(views(self.storage@));
            lemma_record_keys(self.storage@);
        }
        match find(&self.storage, key) {
            Ok(at) => {
                assert(views(self.storage@)[at as int].key() == key@);
                Some(self.storage[at].clone())
            },
            Err(at) => {
                proof {
                    lemma_split_absent(views(self.storage@), key@, at as int);
                }
                None
            },
        }
    }

    /// The value written under `key`; nothing where the key is absent or deleted.
    pub fn get(&self, key: &String) -> (r: Option<String>)
        ensures
            text_of(r) == value_of(self@, key@),
    {
        match self.get_record(key) {
            Some(Record::Value { value, .. }) => Some(value),
            Some(Record::Tombstone { .. }) => None,
            None => None,
        }
    }

    /// The number of keys held, deleted ones included.
    pub fn len(&self) -> (n: usize)
        ensures
            self@.dom().finite(),
            n == self@.dom().len(),
    {
        proof {
            use_type_invariant(self);
            lemma_run_len(views(self.storage@));
        }
        self.storage.len()
    }

    /// Whether the table holds no key.
    pub fn is_empty(&self) -> (b: bool)
        ensures
            b == (self@ == KeyMap::empty()),
    {
        proof {
            use_type_invariant(self);
            lemma_run_map(views(self.storage@));
            if self.storage@.len() > 0 {
                assert(self@.contains_key(views(self.storage@)[0].key()));
            }
        }
        self.len() == 0
    }

    /// The records in ascending key order.
    pub fn to_records(&self) -> (records: Vec<Record>)
        ensures
            ascending(views(records@)),
            records_map(views(records@)) == self@,
            self@.dom().finite(),
            records@.len() == self@.dom().len(),
    {
        proof {
            use_type_invariant(self);
            lemma_run_len(views(self.storage@));
        }
        let mut records: Vec<Record> = Vec::new();
        let mut i: usize = 0;
        while i < self.storage.len()
            invariant
                i <= self.storage@.len(),
                records@.len() == i,
                forall|j: int| 0 <= j < i ==> records@[j]@ == self.storage@[j]@,
            decreases self.storage@.len() - i,
        {
            let copy = self.storage[i].clone();
            records.push(copy);
            i += 1;
        }
        assert(views(records@) =~= views(self.storage@));
        records
    }

    /// The table that results from applying `records` in order to an empty
    /// one: for each key it holds the last record with that key.
    pub fn from_records(records: Vec<Record>) -> (table: MemTable)
        ensures
            table@ == records_map(views(records@)),
    {
        let mut table = MemTable::new();
        let mut i: usize = 0;
        while i < records.len()
            invariant
                i <= records@.len(),
                table@ == records_map(views(records@).take(i as int)),
            decreases records@.len() - i,
        {
            let copy = records[i].clone();
            table.insert(copy);
            proof {
                let done = views(records@).take(i as int);
                lemma_apply_push(KeyMap::empty(), done, records@[i as int]@);
                assert(views(records@).take(i + 1) =~= done.push(records@[i as int]@));
            }
            i += 1;
        }
        assert(views(records@).take(i as int) =~= views(records@));
        table
    }
}

/// A table built from the records of a run holds the run: each record
/// under its key, and no other key. So a table that is rebuilt from the
/// records of a sorted string table maps each key to the record that the
/// sorted string table holds for it.
pub proof fn lemma_from_run(s: Seq<RecordView>)
    requires
        ascending(s),
    ensures
        forall|i: int|
            0 <= i < s.len() ==> record_of(records_map(s), (#[trigger] s[i]).key()) == Some(s[i]),
        forall|key: Seq<char>|
            record_of(records_map(s), key) is Some ==> exists|i: int|
                0 <= i < s.len() && (#[trigger] s[i]).key() == key,
        records_map(s).dom().finite(),
        records_map(s).dom().len() == s.len(),
{
    lemma_run_map(s);
    lemma_run_len(s);
    assert forall|key: Seq<char>| record_of(records_map(s), key) is Some implies exists|i: int|
        0 <= i < s.len() && (#[trigger] s[i]).key() == key by {
        assert(records_map(s).contains_key(key));
        assert(has_key(s, key));
        let i = choose|i: int| 0 <= i < s.len() && #[trigger] s[i].key() == key;
        assert(s[i].key() == key);
    }
}

} // verus!
