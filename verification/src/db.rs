//! The engine: the in-memory table over a list of table files, newest
//! last. It decides what a lookup reads, when the in-memory table is flushed
//! to a file, and what a compaction merges; reading and writing the files is
//! left to the caller.

use crate::storage::block::{keys_nonempty, BLOCKSIZE};
use crate::storage::clock::now_micros;
use crate::storage::memtable::MemTable;
use crate::storage::names::{
    ascii_text, lemma_level_of_name, level_of, table_file_name, table_level, table_name,
};
use crate::storage::order::key_le;
use crate::storage::record::{DecodeError, Record, RecordView};
use crate::storage::run::{
    apply, lemma_apply_push, lemma_apply_values, lemma_run_map, records_map, text_of, views,
    KeyMap,
};
use crate::storage::sstable::{file_bytes, file_in_order, found_text, SSTable};
use crate::storage::wal::{decode_log, read_log};
use crate::store::{
    all_file_records, files_get, files_search, image_of_data, pick, same_data, table_image,
};
use itertools::Itertools;
use vstd::prelude::*;
use vstd::utf8::*;

verus! {

/// The number of keys at which the in-memory table is flushed, unless
/// configured otherwise.
pub const DEFAULT_MEMTABLE_SIZE: usize = 128_000;

/// The most records that one table file can hold: as many blocks as a
/// 64-bit offset can address.
pub const MAX_TABLE_RECORDS: u64 = 576_460_752_303_423;

/// What can be configured.
#[derive(Debug, Clone, Copy, PartialEq, Eq, Hash, Structural)]
pub enum DBConfig {
    /// The number of keys at which the in-memory table is flushed.
    MemtableSize,
}

/// Why a log could not be restored.
#[derive(Debug, Clone, Copy, PartialEq, Eq, Structural)]
pub enum RestoreError {
    /// The checksum of an entry does not match.
    Corrupted,
    /// The log holds a record that no table file can hold.
    Unstorable,
}

/// Why table files could not be compacted.
#[derive(Debug, Clone, Copy, PartialEq, Eq, Structural)]
pub enum CompactionError {
    /// There is no level above the one to compact.
    LevelTooHigh,
    /// A table file cannot be read.
    Unreadable(DecodeError),
    /// A table file holds a record that no table file can hold.
    Unstorable,
    /// The tables hold more records than one table file can hold.
    TooManyRecords,
}

/// A step of a lookup.
#[derive(Debug, PartialEq, Eq)]
pub enum Step {
    /// The lookup has ended with this result.
    Done(Option<String>),
    /// The key is to be sought in the table file with this number.
    Search(usize),
}

/// A table file to be written.
#[derive(Debug)]
pub struct TableFile {
    /// The name of the file.
    pub file_name: String,
    /// The bytes of the file.
    pub bytes: Vec<u8>,
}

/// The record can be kept in a table file: its key is not empty, and it
/// fits into a block.
pub open spec fn storable(r: RecordView) -> bool {
    r.key_bytes().len() > 0 && r.size() <= BLOCKSIZE
}

/// Every record of the table can be kept in a table file.
pub open spec fn all_storable(m: KeyMap) -> bool {
    forall|key: Seq<char>| #[trigger] m.contains_key(key) ==> storable(m[key])
}

/// Every record of the sequence can be kept in a table file.
pub open spec fn records_storable(s: Seq<RecordView>) -> bool {
    forall|i: int| 0 <= i < s.len() ==> storable(#[trigger] s[i])
}

/// The in-memory table is due for a flush: it holds `limit` keys or more,
/// and no more than a table file can hold.
pub open spec fn due(keys: nat, limit: usize) -> bool {
    limit <= keys <= MAX_TABLE_RECORDS
}

/// The names as texts.
pub open spec fn texts(names: Seq<String>) -> Seq<Seq<char>> {
    Seq::new(names.len(), |i: int| names[i]@)
}

/// The files as byte sequences.
pub open spec fn images(files: Seq<Vec<u8>>) -> Seq<Seq<u8>> {
    Seq::new(files.len(), |i: int| files[i]@)
}

/// No name is after one that follows it.
pub open spec fn names_in_order(names: Seq<Seq<char>>) -> bool {
    forall|i: int, j: int|
        0 <= i < j < names.len() ==> key_le(#[trigger] names[i], #[trigger] names[j])
}

/// The name is that of a table file of level `level`.
pub open spec fn at_level(name: Seq<char>, level: u8) -> bool {
    level_of(encode_utf8(name)) == Some(level)
}

/// For each name, whether it is that of a table file of level `level`.
pub open spec fn level_marks(names: Seq<Seq<char>>, level: u8) -> Seq<bool> {
    Seq::new(names.len(), |i: int| at_level(names[i], level))
}

/// The names that a compaction of `level` leaves in the list.
pub open spec fn kept(names: Seq<Seq<char>>, level: u8) -> Seq<Seq<char>> {
    pick(names, level_marks(names, level), false)
}

/// The names that a compaction of `level` takes as its inputs, in their order.
pub open spec fn taken(names: Seq<Seq<char>>, level: u8) -> Seq<Seq<char>> {
    pick(names, level_marks(names, level), true)
}

/// The name is that of a table file of level `level`, written at some time.
pub open spec fn named_at(name: Seq<char>, level: u8) -> bool {
    exists|micros: u128| name == ascii_text(#[trigger] table_name(micros, level))
}

/// `Itertools::sorted` over the names: the same names, in the ascending
/// order of strings, which is that of their bytes.
#[verifier::external_body]
fn sorted_names(names: Vec<String>) -> (sorted: Vec<String>)
    ensures
        texts(sorted@).to_multiset() == texts(names@).to_multiset(),
        names_in_order(texts(sorted@)),
{
    names.into_iter().sorted().collect()
}

/// The engine's state: the in-memory table, the names of the table files,
/// oldest first, and the number of keys at which the table is flushed.
pub struct DB {
    mem_table: MemTable,
    sstables: Vec<String>,
    memtable_size: usize,
}

impl DB {
    #[verifier::type_invariant]
    spec fn holds_storable(&self) -> bool {
        all_storable(self.mem_table@)
    }

    /// The contents of the in-memory table.
    pub closed spec fn mem(&self) -> KeyMap {
        self.mem_table@
    }

    /// The names of the table files, oldest first.
    pub closed spec fn tables(&self) -> Seq<Seq<char>> {
        texts(self.sstables@)
    }

    /// The number of keys at which the in-memory table is flushed.
    pub closed spec fn limit(&self) -> usize {
        self.memtable_size
    }

    /// An engine over the table files `sstable_files`: they are adopted in
    /// the order of their names, the in-memory table is empty, and the table
    /// is flushed at `DEFAULT_MEMTABLE_SIZE` keys.
    pub fn new(sstable_files: Vec<String>) -> (db: DB)
        ensures
            db.mem() == KeyMap::empty(),
            db.limit() == DEFAULT_MEMTABLE_SIZE,
            db.tables().to_multiset() == texts(sstable_files@).to_multiset(),
            names_in_order(db.tables()),
    {
        DB {
            mem_table: MemTable::new(),
            sstables: sorted_names(sstable_files),
            memtable_size: DEFAULT_MEMTABLE_SIZE,
        }
    }

    /// Sets what `config` names to `value`.
    pub fn set_config(&mut self, config: DBConfig, value: usize)
        ensures
            final(self).limit() == value,
            final(self).mem() == old(self).mem(),
            final(self).tables() == old(self).tables(),
    {
        proof {
            use_type_invariant(&*self);
        }
        match config {
            DBConfig::MemtableSize => {
                self.memtable_size = value;
            },
        }
    }

    /// The names of the table files, oldest first.
    pub fn sstables(&self) -> (names: &Vec<String>)
        ensures
            texts(names@) == self.tables(),
    {
        &self.sstables
    }

    /// The in-memory table.
    pub fn mem_table(&self) -> (table: &MemTable)
        ensures
            table@ == self.mem(),
            all_storable(table@),
    {
        proof {
            use_type_invariant(self);
        }
        &self.mem_table
    }

    /// Whether the record can be kept in a table file.
    pub fn is_storable(record: &Record) -> (b: bool)
        ensures
            b == storable(record@),
    {
        let key_size = record.key_size();
        let value_size = record.value_size();
        if key_size == 0 || key_size > BLOCKSIZE || value_size > BLOCKSIZE {
            return false;
        }
        match record {
            Record::Tombstone { .. } => key_size + 25 <= BLOCKSIZE,
            Record::Value { .. } => key_size + value_size + 33 <= BLOCKSIZE,
        }
    }

    /// Replaces the in-memory table by the one that the log `wal` records.
    /// Fails, and changes nothing, where an entry's checksum does not match
    /// or where the log holds a record that no table file can hold.
    pub fn restore_wal(&mut self, wal: &[u8]) -> (r: Result<(), RestoreError>)
        ensures
            final(self).tables() == old(self).tables(),
            final(self).limit() == old(self).limit(),
            match r {
                Ok(()) => decode_log(wal@, 0) matches Ok(records) && records_storable(records)
                    && final(self).mem() == records_map(records),
                Err(RestoreError::Corrupted) => decode_log(wal@, 0) is Err && final(self).mem()
                    == old(self).mem(),
                Err(RestoreError::Unstorable) => decode_log(wal@, 0) matches Ok(records)
                    && !records_storable(records) && final(self).mem() == old(self).mem(),
            },
    {
        proof {
            use_type_invariant(&*self);
        }
        let records = match read_log(wal) {
            Ok(records) => records,
            Err(_) => {
                return Err(RestoreError::Corrupted);
            },
        };
        if !all_records_storable(&records) {
            return Err(RestoreError::Unstorable);
        }
        let mut table = MemTable::from_records(records);
        proof {
            lemma_storable_map(Map::empty(), views(records@));
        }
        core::mem::swap(&mut self.mem_table, &mut table);
        Ok(())
    }

    /// Starts a lookup of `key`. The in-memory table decides where it has
    /// the key: a value is reported, a tombstone ends the lookup with
    /// nothing. Otherwise the newest table file is to be searched, and
    /// without table files nothing is found.
    pub fn get(&self, key: &String) -> (step: Step)
        ensures
            match step {
                Step::Done(value) => if self.mem().contains_key(key@) {
                    text_of(value) == self.mem()[key@].value()
                } else {
                    self.tables().len() == 0 && value is None
                },
                Step::Search(table) => !self.mem().contains_key(key@) && table + 1
                    == self.tables().len(),
            },
    {
        match self.mem_table.get_record(key) {
            Some(Record::Value { value, .. }) => Step::Done(Some(value)),
            Some(Record::Tombstone { .. }) => Step::Done(None),
            None => {
                let count = self.sstables.len();
                if count == 0 {
                    Step::Done(None)
                } else {
                    Step::Search(count - 1)
                }
            },
        }
    }

    /// Goes on with a lookup after table file number `table` was searched
    /// and `found` was found there. A record ends the lookup: a value is
    /// reported, a tombstone gives nothing. Otherwise the next older table
    /// file is to be searched, and after the oldest nothing is found.
    pub fn resume_get(table: usize, found: Option<Record>) -> (step: Step)
        ensures
            match step {
                Step::Done(value) => match found {
                    Some(record) => text_of(value) == record@.value(),
                    None => table == 0 && value is None,
                },
                Step::Search(next) => found is None && next + 1 == table,
            },
    {
        match found {
            Some(Record::Value { value, .. }) => Step::Done(Some(value)),
            Some(Record::Tombstone { .. }) => Step::Done(None),
            None => {
                if table == 0 {
                    Step::Done(None)
                } else {
                    Step::Search(table - 1)
                }
            },
        }
    }

    /// Looks `key` up in the store, given the bytes of its table files in
    /// the order of the list: first in the in-memory table, then in the
    /// files from the newest to the oldest, up to the first that has the key.
    pub fn get_in(&self, key: &String, files: &Vec<Vec<u8>>) -> (r: Result<
        Option<String>,
        DecodeError,
    >)
        requires
            files@.len() == self.tables().len(),
        ensures
            (forall|i: int| 0 <= i < files@.len() ==> file_in_order(#[trigger] files@[i]@, key@))
                ==> found_text(r) == files_get(self.mem(), images(files@), key@),
    {
        let ghost all = images(files@);
        let ghost in_order = forall|i: int|
            0 <= i < files@.len() ==> file_in_order(#[trigger] files@[i]@, key@);
        let mut step = self.get(key);
        loop
            invariant
                files@.len() == self.tables().len(),
                all == images(files@),
                in_order == (forall|i: int|
                    0 <= i < files@.len() ==> file_in_order(#[trigger] files@[i]@, key@)),
                match step {
                    Step::Done(value) => in_order ==> Ok::<Option<Seq<char>>, DecodeError>(
                        text_of(value),
                    ) == files_get(self.mem(), all, key@),
                    Step::Search(table) => table < files@.len() && !self.mem().contains_key(key@)
                        && (in_order ==> files_search(all, key@, files@.len() - 1)
                        == files_search(all, key@, table as int)),
                },
            decreases
                    match step {
                        Step::Done(_) => 0,
                        Step::Search(table) => table + 1,
                    },
        {
            match step {
                Step::Done(value) => {
                    return Ok(value);
                },
                Step::Search(table) => {
                    proof {
                        assert(all[table as int] == files@[table as int]@);
                        if in_order {
                            assert(file_in_order(files@[table as int]@, key@));
                        }
                        if table == 0 {
                            assert(files_search(all, key@, -1) == Ok::<
                                Option<RecordView>,
                                DecodeError,
                            >(None));
                        }
                    }
                    let found = match SSTable::find_in(key, files[table].as_slice()) {
                        Ok(found) => found,
                        Err(e) => {
                            return Err(e);
                        },
                    };
                    step = DB::resume_get(table, found);
                },
            }
        }
    }

    /// Puts `record` into the in-memory table, in place of any record held
    /// under its key. Where the table is then due for a flush, it is packed
    /// into a table file of level 0, which joins the list as the newest, and
    /// an empty table takes its place; the file is handed out to be written.
    pub fn apply(&mut self, record: Record) -> (flush: Option<TableFile>)
        requires
            storable(record@),
        ensures
            final(self).limit() == old(self).limit(),
            old(self).mem().insert(record@.key(), record@).dom().finite(),
            flush is Some <==> due(
                old(self).mem().insert(record@.key(), record@).dom().len(),
                old(self).limit(),
            ),
            match flush {
                None => final(self).mem() == old(self).mem().insert(record@.key(), record@)
                    && final(self).tables() == old(self).tables(),
                Some(file) => {
                    &&& final(self).mem() == KeyMap::empty()
                    &&& final(self).tables() == old(self).tables().push(file.file_name@)
                    &&& table_image(file.bytes@, old(self).mem().insert(record@.key(), record@))
                    &&& named_at(file.file_name@, 0)
                    &&& at_level(file.file_name@, 0)
                },
            },
    {
        proof {
            use_type_invariant(&*self);
        }
        let mut table = MemTable::new();
        core::mem::swap(&mut self.mem_table, &mut table);
        table.insert(record);
        let keys = table.len();
        if keys >= self.memtable_size && keys as u64 <= MAX_TABLE_RECORDS {
            let file = pack(&table, 0);
            let mut names: Vec<String> = Vec::new();
            core::mem::swap(&mut self.sstables, &mut names);
            let ghost before = texts(names@);
            names.push(file.file_name.clone());
            proof {
                assert(texts(names@) =~= before.push(file.file_name@));
            }
            core::mem::swap(&mut self.sstables, &mut names);
            Some(file)
        } else {
            core::mem::swap(&mut self.mem_table, &mut table);
            None
        }
    }

    /// The names of the table files that a compaction of `level` takes as
    /// its inputs: those whose names carry the level, oldest first.
    pub fn compaction_inputs(&self, level: u8) -> (names: Vec<String>)
        ensures
            texts(names@) == taken(self.tables(), level),
    {
        let mut names: Vec<String> = Vec::new();
        let mut i: usize = 0;
        let ghost marks = level_marks(self.tables(), level);
        proof {
            assert(self.tables().take(0) =~= Seq::<Seq<char>>::empty());
            assert(texts(names@) =~= Seq::<Seq<char>>::empty());
        }
        while i < self.sstables.len()
            invariant
                i <= self.sstables@.len(),
                marks == level_marks(self.tables(), level),
                texts(names@) == pick(self.tables().take(i as int), marks, true),
            decreases self.sstables@.len() - i,
        {
            let name = &self.sstables[i];
            proof {
                let done = self.tables().take(i as int);
                let next = self.tables().take(i + 1);
                assert(next.drop_last() =~= done);
                assert(next.last() == name@);
                assert(marks[i as int] == at_level(name@, level));
            }
            let ghost before = texts(names@);
            if table_level(name) == Some(level) {
                names.push(name.clone());
                proof {
                    assert(texts(names@) =~= before.push(name@));
                }
            }
            i += 1;
        }
        proof {
            assert(self.tables().take(i as int) =~= self.tables());
        }
        names
    }

    /// Merges the table files of `level`, given as their bytes from the
    /// oldest to the newest, into one table file of the next level: the
    /// records are applied in their order, values as writes and tombstones
    /// as deletions, so that for each key the newest record stays. Fails
    /// where there is no next level, where a file cannot be read, where a
    /// record cannot be kept in a table file, and where the records are too
    /// many for one table file.
    pub fn compact(level: u8, files: &Vec<Vec<u8>>) -> (r: Result<TableFile, CompactionError>)
        ensures
            match r {
                Err(CompactionError::LevelTooHigh) => level == 255,
                Err(CompactionError::Unreadable(e)) => level < 255 && all_file_records(
                    images(files@),
                ) == Err::<Seq<RecordView>, DecodeError>(e),
                Err(CompactionError::Unstorable) => level < 255 && (all_file_records(
                    images(files@),
                ) matches Ok(records) && !records_storable(records)),
                Err(CompactionError::TooManyRecords) => level < 255 && (all_file_records(
                    images(files@),
                ) matches Ok(records) && records_storable(records) && records_map(
                    records,
                ).dom().len() > MAX_TABLE_RECORDS),
                Ok(file) => level < 255 && (all_file_records(images(files@)) matches Ok(records)
                    && records_storable(records) && records_map(records).dom().len()
                    <= MAX_TABLE_RECORDS && image_of_data(file.bytes@, records_map(records))
                    && named_at(file.file_name@, (level + 1) as u8) && at_level(
                    file.file_name@,
                    (level + 1) as u8,
                )),
            },
    {
        if level == 255 {
            return Err(CompactionError::LevelTooHigh);
        }
        let records = match read_all(files) {
            Ok(records) => records,
            Err(e) => {
                return Err(CompactionError::Unreadable(e));
            },
        };
        if !all_records_storable(&records) {
            return Err(CompactionError::Unstorable);
        }
        let table = rewrite(&records);
        proof {
            assert(table@.dom() =~= records_map(views(records@)).dom());
        }
        if table.len() as u64 > MAX_TABLE_RECORDS {
            return Err(CompactionError::TooManyRecords);
        }
        let file = pack(&table, level + 1);
        assert(table_image(file.bytes@, table@));
        Ok(file)
    }

    /// Ends a compaction of `level` whose result was written as
    /// `file_name`: the inputs leave the list, the new file joins it as the
    /// newest, and the names of the inputs are handed out, for their files
    /// to be removed.
    pub fn finish_compaction(&mut self, level: u8, file_name: String) -> (removed: Vec<String>)
        ensures
            final(self).tables() == kept(old(self).tables(), level).push(file_name@),
            texts(removed@) == taken(old(self).tables(), level),
            final(self).mem() == old(self).mem(),
            final(self).limit() == old(self).limit(),
    {
        proof {
            use_type_invariant(&*self);
        }
        let mut names: Vec<String> = Vec::new();
        core::mem::swap(&mut self.sstables, &mut names);
        let ghost all = texts(names@);
        let ghost marks = level_marks(all, level);
        let mut left: Vec<String> = Vec::new();
        let mut removed: Vec<String> = Vec::new();
        let mut i: usize = 0;
        proof {
            assert(all.take(0) =~= Seq::<Seq<char>>::empty());
            assert(texts(left@) =~= Seq::<Seq<char>>::empty());
            assert(texts(removed@) =~= Seq::<Seq<char>>::empty());
        }
        while i < names.len()
            invariant
                i <= names@.len(),
                all == texts(names@),
                marks == level_marks(all, level),
                texts(left@) == pick(all.take(i as int), marks, false),
                texts(removed@) == pick(all.take(i as int), marks, true),
            decreases names@.len() - i,
        {
            let name = names[i].clone();
            proof {
                let done = all.take(i as int);
                let next = all.take(i + 1);
                assert(next.drop_last() =~= done);
                assert(next.last() == name@);
                assert(marks[i as int] == at_level(name@, level));
            }
            let ghost left_before = texts(left@);
            let ghost removed_before = texts(removed@);
            if table_level(&name) == Some(level) {
                removed.push(name);
                proof {
                    assert(texts(removed@) =~= removed_before.push(name@));
                }
            } else {
                left.push(name);
                proof {
                    assert(texts(left@) =~= left_before.push(name@));
                }
            }
            i += 1;
        }
        let ghost left_before = texts(left@);
        left.push(file_name);
        proof {
            assert(all.take(i as int) =~= all);
            assert(texts(left@) =~= left_before.push(file_name@));
        }
        core::mem::swap(&mut self.sstables, &mut left);
        removed
    }
}

/// Records that can each be kept in a table file denote a table of such
/// records, and so does what they are applied to, where it holds such records.
proof fn lemma_storable_map(m: KeyMap, s: Seq<RecordView>)
    requires
        all_storable(m),
        records_storable(s),
    ensures
        all_storable(apply(m, s)),
{
    assert forall|key: Seq<char>| #[trigger] apply(m, s).contains_key(key) implies storable(
        apply(m, s)[key],
    ) by {
        lemma_apply_values(m, s, key);
        if s.contains(apply(m, s)[key]) {
            let i = choose|i: int| 0 <= i < s.len() && s[i] == apply(m, s)[key];
            assert(storable(s[i]));
        }
    }
}

/// Whether every record can be kept in a table file.
fn all_records_storable(records: &Vec<Record>) -> (b: bool)
    ensures
        b == records_storable(views(records@)),
{
    let mut i: usize = 0;
    while i < records.len()
        invariant
            i <= records@.len(),
            forall|j: int| 0 <= j < i ==> storable(#[trigger] views(records@)[j]),
        decreases records@.len() - i,
    {
        if !DB::is_storable(&records[i]) {
            assert(!storable(views(records@)[i as int]));
            return false;
        }
        i += 1;
    }
    true
}

/// All records of the table files, file after file.
fn read_all(files: &Vec<Vec<u8>>) -> (r: Result<Vec<Record>, DecodeError>)
    ensures
        match r {
            Ok(records) => all_file_records(images(files@)) == Ok::<Seq<RecordView>, DecodeError>(
                views(records@),
            ),
            Err(e) => all_file_records(images(files@)) == Err::<Seq<RecordView>, DecodeError>(e),
        },
{
    let ghost all = images(files@);
    let mut records: Vec<Record> = Vec::new();
    let mut k: usize = 0;
    proof {
        assert(all.take(0) =~= Seq::<Seq<u8>>::empty());
        assert(views(records@) =~= Seq::<RecordView>::empty());
    }
    while k < files.len()
        invariant
            k <= files@.len(),
            all == images(files@),
            all_file_records(all.take(k as int)) == Ok::<Seq<RecordView>, DecodeError>(
                views(records@),
            ),
        decreases files@.len() - k,
    {
        proof {
            assert(all.take(k + 1).drop_last() =~= all.take(k as int));
            assert(all.take(k + 1).last() == files@[k as int]@);
            lemma_read_failure(all, k + 1);
        }
        let ghost before = views(records@);
        let mut more = match SSTable::records_in(files[k].as_slice()) {
            Ok(more) => more,
            Err(e) => {
                assert(all_file_records(all.take(k + 1)) == Err::<Seq<RecordView>, DecodeError>(
                    e,
                ));
                return Err(e);
            },
        };
        proof {
            assert(views(records@ + more@) =~= before + views(more@));
            assert(all_file_records(all.take(k + 1)) == Ok::<Seq<RecordView>, DecodeError>(
                before + views(more@),
            ));
        }
        records.append(&mut more);
        k += 1;
    }
    proof {
        assert(all.take(k as int) =~= all);
    }
    Ok(records)
}

/// Where the first `n` files cannot all be read, neither can all of them,
/// and the failure is the same.
proof fn lemma_read_failure(files: Seq<Seq<u8>>, n: int)
    requires
        0 <= n <= files.len(),
    ensures
        all_file_records(files.take(n)) matches Err(e) ==> all_file_records(files) == Err::<
            Seq<RecordView>,
            DecodeError,
        >(e),
    decreases files.len() - n,
{
    if n < files.len() {
        assert(files.take(n + 1).drop_last() =~= files.take(n));
        lemma_read_failure(files, n + 1);
    } else {
        assert(files.take(n) =~= files);
    }
}

/// Applies the records in their order to an empty table, values as writes
/// and tombstones as deletions made now.
fn rewrite(records: &Vec<Record>) -> (table: MemTable)
    requires
        records_storable(views(records@)),
    ensures
        same_data(table@, records_map(views(records@))),
        all_storable(table@),
{
    let mut table = MemTable::new();
    let mut i: usize = 0;
    proof {
        assert(views(records@).take(0) =~= Seq::<RecordView>::empty());
    }
    while i < records.len()
        invariant
            i <= records@.len(),
            records_storable(views(records@)),
            same_data(table@, records_map(views(records@).take(i as int))),
            all_storable(table@),
        decreases records@.len() - i,
    {
        let ghost done = views(records@).take(i as int);
        let ghost record = views(records@)[i as int];
        proof {
            lemma_apply_push(Map::empty(), done, record);
            assert(views(records@).take(i + 1) =~= done.push(record));
            assert(storable(record));
        }
        match records[i].clone() {
            Record::Value { key, value, .. } => {
                table.set(key, value);
            },
            Record::Tombstone { key, .. } => {
                table.delete(key);
            },
        }
        i += 1;
    }
    proof {
        assert(views(records@).take(i as int) =~= views(records@));
    }
    table
}

/// Packs the table into a table file of level `level`, named by the
/// current time.
fn pack(table: &MemTable, level: u8) -> (file: TableFile)
    requires
        all_storable(table@),
        table@.dom().finite(),
        table@.dom().len() <= MAX_TABLE_RECORDS,
    ensures
        table_image(file.bytes@, table@),
        named_at(file.file_name@, level),
        at_level(file.file_name@, level),
{
    let records = table.to_records();
    proof {
        let run = views(records@);
        lemma_run_map(run);
        assert forall|i: int| 0 <= i < records@.len() implies (#[trigger] records@[i])@.size()
            <= BLOCKSIZE && run[i].key_bytes().len() > 0 by {
            assert(run[i] == records@[i]@);
            assert(table@.contains_key(run[i].key()));
        }
    }
    let mut sstable = SSTable::from_records(records);
    sstable.set_level(level);
    let bytes = sstable.to_bytes();
    let micros = now_micros();
    let file_name = table_file_name(micros, sstable.level());
    proof {
        lemma_level_of_name(micros, level);
        assert(file_name@ == ascii_text(table_name(micros, level)));
        assert(keys_nonempty(sstable@.flatten()));
        assert(file_bytes(sstable@) == bytes@);
    }
    TableFile { file_name, bytes }
}

} // verus!
