//! The store as a whole: what the in-memory table and the table files hold
//! together, what a lookup reports, and the laws of writing, flushing and
//! compaction.

use crate::storage::block::keys_nonempty;
use crate::storage::record::{DecodeError, RecordView};
use crate::storage::run::{
    apply, ascending, lemma_apply_concat, record_of, records_map, value_of, KeyMap,
};
use crate::storage::sstable::{
    file_bytes, file_find, file_in_order, file_records, lemma_file_get, lemma_file_records,
    shown, well_packed,
};
use vstd::prelude::*;

verus! {

/// A newer table laid over an older one: the newer one's record where it
/// has the key, and else the older one's.
pub open spec fn overlay(older: KeyMap, newer: KeyMap) -> KeyMap {
    older.union_prefer_right(newer)
}

/// The tables of a list as one: each laid over those before it.
pub open spec fn merged(tables: Seq<KeyMap>) -> KeyMap
    decreases tables.len(),
{
    if tables.len() == 0 {
        Map::empty()
    } else {
        overlay(merged(tables.drop_last()), tables.last())
    }
}

/// The contents of the store: the in-memory table laid over the table
/// files, which are listed oldest first.
pub open spec fn store(mem: KeyMap, tables: Seq<KeyMap>) -> KeyMap {
    overlay(merged(tables), mem)
}

/// What a lookup of `key` in the store reports.
pub open spec fn store_get(mem: KeyMap, tables: Seq<KeyMap>, key: Seq<char>) -> Option<Seq<char>> {
    value_of(store(mem, tables), key)
}

/// The record found for `key` by going through the tables from number `i`
/// down to the oldest and stopping at the first that has the key.
pub open spec fn search_from(tables: Seq<KeyMap>, key: Seq<char>, i: int) -> Option<RecordView>
    decreases i + 1,
{
    if i < 0 || i >= tables.len() {
        None
    } else if tables[i].contains_key(key) {
        Some(tables[i][key])
    } else {
        search_from(tables, key, i - 1)
    }
}

/// Two tables hold the same data: the same keys, and under each key records
/// of the same kind with the same value. Timestamps may differ.
pub open spec fn same_data(a: KeyMap, b: KeyMap) -> bool {
    &&& forall|key: Seq<char>| a.contains_key(key) == b.contains_key(key)
    &&& forall|key: Seq<char>| #[trigger]
        a.contains_key(key) ==> a[key].value() == b[key].value() && a[key].key() == b[key].key()
}

/// The bytes are a table file with the contents `content`: a well packed
/// table whose records ascend, have no empty key, and denote `content`.
pub open spec fn table_image(bytes: Seq<u8>, content: KeyMap) -> bool {
    exists|blocks: Seq<Seq<RecordView>>|
        {
            &&& #[trigger] file_bytes(blocks) == bytes
            &&& well_packed(blocks)
            &&& ascending(blocks.flatten())
            &&& keys_nonempty(blocks.flatten())
            &&& records_map(blocks.flatten()) == content
        }
}

/// Going through the tables from the newest finds what the tables hold as one.
pub proof fn lemma_search(tables: Seq<KeyMap>, key: Seq<char>)
    ensures
        search_from(tables, key, tables.len() - 1) == record_of(merged(tables), key),
    decreases tables.len(),
{
    if tables.len() > 0 {
        let front = tables.drop_last();
        lemma_search(front, key);
        lemma_search_prefix(tables, front, key, front.len() - 1);
    }
}

proof fn lemma_search_prefix(tables: Seq<KeyMap>, front: Seq<KeyMap>, key: Seq<char>, i: int)
    requires
        front.len() <= tables.len(),
        forall|j: int| 0 <= j < front.len() ==> front[j] == tables[j],
    ensures
        i < front.len() ==> search_from(tables, key, i) == search_from(front, key, i),
    decreases i + 1,
{
    if 0 <= i < front.len() {
        lemma_search_prefix(tables, front, key, i - 1);
    }
}

/// A write is read back: after a value is put under a key, the lookup of
/// the key reports the value, whatever the table files hold.
pub proof fn lemma_get_after_set(
    mem: KeyMap,
    tables: Seq<KeyMap>,
    timestamp: u128,
    key: Seq<char>,
    value: Seq<char>,
)
    ensures
        store_get(mem.insert(key, RecordView::Value { timestamp, key, value }), tables, key)
            == Some(value),
{
}

/// A deletion is read back: after a tombstone is put under a key, the
/// lookup of the key reports nothing, whatever the table files hold.
pub proof fn lemma_get_after_delete(
    mem: KeyMap,
    tables: Seq<KeyMap>,
    timestamp: u128,
    key: Seq<char>,
)
    ensures
        store_get(mem.insert(key, RecordView::Tombstone { timestamp, key }), tables, key)
            == None::<Seq<char>>,
{
}

/// A write or deletion under one key leaves the lookups of all other keys
/// as they were.
pub proof fn lemma_get_other_key(
    mem: KeyMap,
    tables: Seq<KeyMap>,
    record: RecordView,
    key: Seq<char>,
)
    requires
        record.key() != key,
    ensures
        store_get(mem.insert(record.key(), record), tables, key) == store_get(mem, tables, key),
{
}

/// A key that was never written is not found: where neither the in-memory
/// table nor any table file has the key, the lookup reports nothing.
pub proof fn lemma_get_untouched(mem: KeyMap, tables: Seq<KeyMap>, key: Seq<char>)
    requires
        !mem.contains_key(key),
        forall|i: int| 0 <= i < tables.len() ==> !(#[trigger] tables[i]).contains_key(key),
    ensures
        store_get(mem, tables, key) == None::<Seq<char>>,
    decreases tables.len(),
{
    lemma_merged_keys(tables, key);
}

/// The tables as one have a key exactly where one of them has it.
pub proof fn lemma_merged_keys(tables: Seq<KeyMap>, key: Seq<char>)
    ensures
        merged(tables).contains_key(key) <==> exists|i: int|
            0 <= i < tables.len() && (#[trigger] tables[i]).contains_key(key),
    decreases tables.len(),
{
    if tables.len() > 0 {
        let front = tables.drop_last();
        lemma_merged_keys(front, key);
        if merged(front).contains_key(key) {
            let i = choose|i: int| 0 <= i < front.len() && (#[trigger] front[i]).contains_key(key);
            assert(tables[i].contains_key(key));
        }
        if tables.last().contains_key(key) {
            assert(tables[tables.len() - 1].contains_key(key));
        }
        if exists|i: int| 0 <= i < tables.len() && (#[trigger] tables[i]).contains_key(key) {
            let i = choose|i: int| 0 <= i < tables.len() && (#[trigger] tables[i]).contains_key(key);
            if i < front.len() {
                assert(front[i].contains_key(key));
            }
        }
    }
}

/// The newest table that has a key decides: where the in-memory table and
/// all tables newer than table `i` lack the key, the store holds under it
/// what table `i` holds.
pub proof fn lemma_newest_decides(mem: KeyMap, tables: Seq<KeyMap>, key: Seq<char>, i: int)
    requires
        0 <= i < tables.len(),
        tables[i].contains_key(key),
        !mem.contains_key(key),
        forall|j: int| i < j < tables.len() ==> !(#[trigger] tables[j]).contains_key(key),
    ensures
        store(mem, tables).contains_key(key),
        store(mem, tables)[key] == tables[i][key],
    decreases tables.len(),
{
    if i < tables.len() - 1 {
        let front = tables.drop_last();
        assert(!tables[tables.len() - 1].contains_key(key));
        assert forall|j: int| i < j < front.len() implies !(#[trigger] front[j]).contains_key(
            key,
        ) by {
            assert(!tables[j].contains_key(key));
        }
        lemma_newest_decides(mem, front, key, i);
    }
}

/// A tombstone in a newer table masks the values in older tables: where the
/// newest table that has the key holds a tombstone for it, the lookup
/// reports nothing.
pub proof fn lemma_tombstone_masks(mem: KeyMap, tables: Seq<KeyMap>, key: Seq<char>, i: int)
    requires
        0 <= i < tables.len(),
        tables[i].contains_key(key),
        tables[i][key] is Tombstone,
        !mem.contains_key(key),
        forall|j: int| i < j < tables.len() ==> !(#[trigger] tables[j]).contains_key(key),
    ensures
        store_get(mem, tables, key) == None::<Seq<char>>,
{
    lemma_newest_decides(mem, tables, key, i);
}

/// Flushing changes no lookup: the in-memory table, written out as the
/// newest table file and replaced by an empty one, leaves the store as it was.
pub proof fn lemma_flush_preserves(mem: KeyMap, tables: Seq<KeyMap>)
    ensures
        store(Map::empty(), tables.push(mem)) == store(mem, tables),
{
    assert(tables.push(mem).drop_last() =~= tables);
    assert(store(Map::empty(), tables.push(mem)) =~= store(mem, tables));
}

/// Laying tables over one another is associative.
pub proof fn lemma_merged_concat(a: Seq<KeyMap>, b: Seq<KeyMap>)
    ensures
        merged(a + b) == overlay(merged(a), merged(b)),
    decreases b.len(),
{
    if b.len() == 0 {
        assert(a + b =~= a);
        assert(merged(a) =~= overlay(merged(a), merged(b)));
    } else {
        lemma_merged_concat(a, b.drop_last());
        assert((a + b).drop_last() =~= a + b.drop_last());
        assert((a + b).last() == b.last());
        assert(merged(a + b) =~= overlay(merged(a), merged(b)));
    }
}

/// The items whose mark is `mark`, in their order. The marks go by position.
pub open spec fn pick<T>(items: Seq<T>, marks: Seq<bool>, mark: bool) -> Seq<T>
    decreases items.len(),
{
    if items.len() == 0 {
        Seq::empty()
    } else if items.len() <= marks.len() && marks[items.len() - 1] == mark {
        pick(items.drop_last(), marks, mark).push(items.last())
    } else {
        pick(items.drop_last(), marks, mark)
    }
}

/// No table that stays is newer than an input of the compaction and shares
/// a key with it.
pub open spec fn inputs_unshadowed(tables: Seq<KeyMap>, marks: Seq<bool>) -> bool {
    forall|i: int, j: int, key: Seq<char>|
        0 <= i < j < tables.len() && marks[i] && !marks[j] && #[trigger] tables[i].contains_key(
            key,
        ) ==> !#[trigger] tables[j].contains_key(key)
}

/// The tables that stay, with the inputs of a compaction laid over them,
/// are the tables as they were.
pub proof fn lemma_compaction_merges(tables: Seq<KeyMap>, marks: Seq<bool>)
    requires
        marks.len() == tables.len(),
        inputs_unshadowed(tables, marks),
    ensures
        overlay(merged(pick(tables, marks, false)), merged(pick(tables, marks, true))) == merged(
            tables,
        ),
    decreases tables.len(),
{
    let stay = pick(tables, marks, false);
    let inputs = pick(tables, marks, true);
    if tables.len() == 0 {
        assert(overlay(merged(stay), merged(inputs)) =~= merged(tables));
    } else {
        let front = tables.drop_last();
        let last = tables.len() - 1;
        let front_marks = marks.take(last);
        lemma_pick_prefix(front, marks, front_marks, false);
        lemma_pick_prefix(front, marks, front_marks, true);
        assert forall|i: int, j: int, key: Seq<char>|
            0 <= i < j < front.len() && front_marks[i] && !front_marks[j]
                && #[trigger] front[i].contains_key(key) implies !#[trigger] front[j].contains_key(
            key,
        ) by {
            assert(tables[i].contains_key(key));
            assert(!tables[j].contains_key(key));
        }
        lemma_compaction_merges(front, front_marks);
        let front_stay = pick(front, marks, false);
        let front_inputs = pick(front, marks, true);
        if marks[last] {
            assert(inputs.drop_last() =~= front_inputs);
            assert(overlay(merged(stay), merged(inputs)) =~= merged(tables));
        } else {
            assert(stay.drop_last() =~= front_stay);
            assert forall|key: Seq<char>| merged(front_inputs).contains_key(key) implies !tables[last].contains_key(
                key,
            ) by {
                lemma_merged_keys(front_inputs, key);
                let k = choose|k: int|
                    0 <= k < front_inputs.len() && (#[trigger] front_inputs[k]).contains_key(key);
                let i = lemma_pick_source(front, marks, true, k);
                assert(tables[i].contains_key(key));
            }
            assert(overlay(merged(stay), merged(inputs)) =~= merged(tables));
        }
    }
}

/// Only the marks of the items' positions count.
proof fn lemma_pick_prefix<T>(items: Seq<T>, marks: Seq<bool>, front_marks: Seq<bool>, mark: bool)
    requires
        items.len() <= front_marks.len() <= marks.len(),
        forall|i: int| 0 <= i < front_marks.len() ==> front_marks[i] == marks[i],
    ensures
        pick(items, front_marks, mark) == pick(items, marks, mark),
    decreases items.len(),
{
    if items.len() > 0 {
        lemma_pick_prefix(items.drop_last(), marks, front_marks, mark);
    }
}

/// Every item that was picked is an item with the mark.
proof fn lemma_pick_source<T>(items: Seq<T>, marks: Seq<bool>, mark: bool, k: int) -> (i: int)
    requires
        items.len() <= marks.len(),
        0 <= k < pick(items, marks, mark).len(),
    ensures
        0 <= i < items.len(),
        marks[i] == mark,
        items[i] == pick(items, marks, mark)[k],
    decreases items.len(),
{
    let last = items.len() - 1;
    if marks[last] == mark && k == pick(items, marks, mark).len() - 1 {
        last
    } else {
        lemma_pick_source(items.drop_last(), marks, mark, k)
    }
}

/// Compaction changes no lookup: where the inputs of a compaction are
/// replaced by one table that holds the same data as they do together, and
/// that joins the list as the newest, every lookup reports what it reported
/// before, as long as no table that stays is newer than an input and shares
/// a key with it.
pub proof fn lemma_compaction_preserves(
    mem: KeyMap,
    tables: Seq<KeyMap>,
    marks: Seq<bool>,
    compacted: KeyMap,
    key: Seq<char>,
)
    requires
        marks.len() == tables.len(),
        inputs_unshadowed(tables, marks),
        same_data(compacted, merged(pick(tables, marks, true))),
    ensures
        store_get(mem, pick(tables, marks, false).push(compacted), key) == store_get(
            mem,
            tables,
            key,
        ),
{
    let stay = pick(tables, marks, false);
    let inputs = pick(tables, marks, true);
    lemma_compaction_merges(tables, marks);
    assert(stay.push(compacted).drop_last() =~= stay);
    assert(compacted.contains_key(key) == merged(inputs).contains_key(key));
    if compacted.contains_key(key) {
        assert(compacted[key].value() == merged(inputs)[key].value());
    }
}

/// Records applied one sequence after the other are the later sequence's
/// table laid over the earlier one's.
pub proof fn lemma_apply_overlay(m: KeyMap, s: Seq<RecordView>)
    ensures
        apply(m, s) == overlay(m, records_map(s)),
    decreases s.len(),
{
    if s.len() == 0 {
        assert(m =~= overlay(m, records_map(s)));
    } else {
        lemma_apply_overlay(m, s.drop_last());
        assert(apply(m, s) =~= overlay(m, records_map(s)));
    }
}

/// What the search through the files of a store finds for `key`, from file
/// number `i` down to the oldest: the record of the first file that has the
/// key, or the failure of the first file that cannot be read.
pub open spec fn files_search(files: Seq<Seq<u8>>, key: Seq<char>, i: int) -> Result<
    Option<RecordView>,
    DecodeError,
>
    decreases i + 1,
{
    if i < 0 || i >= files.len() {
        Ok(None)
    } else {
        match file_find(files[i], key) {
            Err(e) => Err(e),
            Ok(Some(record)) => Ok(Some(record)),
            Ok(None) => files_search(files, key, i - 1),
        }
    }
}

/// What a lookup of `key` reports in a store with the in-memory table
/// `mem` over the table files `files`, oldest first.
pub open spec fn files_get(mem: KeyMap, files: Seq<Seq<u8>>, key: Seq<char>) -> Result<
    Option<Seq<char>>,
    DecodeError,
> {
    if mem.contains_key(key) {
        Ok(mem[key].value())
    } else {
        match files_search(files, key, files.len() - 1) {
            Err(e) => Err(e),
            Ok(found) => Ok(shown(found)),
        }
    }
}

/// The search through written table files finds what the search through
/// the tables themselves finds.
pub proof fn lemma_files_search(files: Seq<Seq<u8>>, tables: Seq<KeyMap>, key: Seq<char>, i: int)
    requires
        files.len() == tables.len(),
        forall|j: int| 0 <= j < files.len() ==> table_image(#[trigger] files[j], tables[j]),
    ensures
        files_search(files, key, i) == Ok::<Option<RecordView>, DecodeError>(
            search_from(tables, key, i),
        ),
        forall|j: int| 0 <= j < files.len() ==> file_in_order(#[trigger] files[j], key),
    decreases i + 1,
{
    assert forall|j: int| 0 <= j < files.len() implies file_in_order(#[trigger] files[j], key)
        && file_find(files[j], key) == Ok::<Option<RecordView>, DecodeError>(
        record_of(tables[j], key),
    ) by {
        assert(table_image(files[j], tables[j]));
        let blocks = choose|blocks: Seq<Seq<RecordView>>|
            {
                &&& #[trigger] file_bytes(blocks) == files[j]
                &&& well_packed(blocks)
                &&& ascending(blocks.flatten())
                &&& keys_nonempty(blocks.flatten())
                &&& records_map(blocks.flatten()) == tables[j]
            };
        lemma_file_get(blocks, key);
    }
    if 0 <= i < files.len() {
        lemma_files_search(files, tables, key, i - 1);
    }
}

/// A lookup that reads written table files reports what the store holds.
pub proof fn lemma_files_get(mem: KeyMap, files: Seq<Seq<u8>>, tables: Seq<KeyMap>, key: Seq<char>)
    requires
        files.len() == tables.len(),
        forall|j: int| 0 <= j < files.len() ==> table_image(#[trigger] files[j], tables[j]),
    ensures
        files_get(mem, files, key) == Ok::<Option<Seq<char>>, DecodeError>(
            store_get(mem, tables, key),
        ),
{
    lemma_files_search(files, tables, key, files.len() - 1);
    lemma_search(tables, key);
}

/// All records of the table files `files`, file after file.
pub open spec fn all_file_records(files: Seq<Seq<u8>>) -> Result<Seq<RecordView>, DecodeError>
    decreases files.len(),
{
    if files.len() == 0 {
        Ok(Seq::empty())
    } else {
        match all_file_records(files.drop_last()) {
            Err(e) => Err(e),
            Ok(done) => match file_records(files.last()) {
                Err(e) => Err(e),
                Ok(records) => Ok(done + records),
            },
        }
    }
}

/// The bytes are a table file that holds the same data as `target`.
pub open spec fn image_of_data(bytes: Seq<u8>, target: KeyMap) -> bool {
    exists|content: KeyMap| #[trigger] table_image(bytes, content) && same_data(content, target)
}

/// The records of written table files, applied file after file, denote
/// the files' tables laid over one another: what a compaction merges is what
/// its inputs hold together.
pub proof fn lemma_compacted_data(files: Seq<Seq<u8>>, tables: Seq<KeyMap>)
    requires
        files.len() == tables.len(),
        forall|j: int| 0 <= j < files.len() ==> table_image(#[trigger] files[j], tables[j]),
    ensures
        all_file_records(files) matches Ok(records) && records_map(records) == merged(tables),
    decreases files.len(),
{
    if files.len() > 0 {
        let last = files.len() - 1;
        assert forall|j: int| 0 <= j < last implies table_image(
            #[trigger] files.drop_last()[j],
            tables.drop_last()[j],
        ) by {
            assert(table_image(files[j], tables[j]));
        }
        lemma_compacted_data(files.drop_last(), tables.drop_last());
        let done = all_file_records(files.drop_last())->Ok_0;
        assert(table_image(files[last], tables[last]));
        let blocks = choose|blocks: Seq<Seq<RecordView>>|
            {
                &&& #[trigger] file_bytes(blocks) == files[last]
                &&& well_packed(blocks)
                &&& ascending(blocks.flatten())
                &&& keys_nonempty(blocks.flatten())
                &&& records_map(blocks.flatten()) == tables[last]
            };
        lemma_file_records(blocks);
        lemma_apply_concat(Map::empty(), done, blocks.flatten());
        lemma_apply_overlay(records_map(done), blocks.flatten());
    }
}

/// Compaction of written table files changes no lookup: where the bytes
/// `output` are a table file that holds the same data as the records of the
/// input files, the table that they hold can take the place of the inputs,
/// as the newest of the list, and every lookup reports what it reported
/// before. No table that stays may be newer than an input and share a key
/// with it.
pub proof fn lemma_compaction_of_files(
    mem: KeyMap,
    tables: Seq<KeyMap>,
    marks: Seq<bool>,
    inputs: Seq<Seq<u8>>,
    output: Seq<u8>,
    key: Seq<char>,
) -> (compacted: KeyMap)
    requires
        marks.len() == tables.len(),
        inputs_unshadowed(tables, marks),
        inputs.len() == pick(tables, marks, true).len(),
        forall|j: int|
            0 <= j < inputs.len() ==> table_image(
                #[trigger] inputs[j],
                pick(tables, marks, true)[j],
            ),
        all_file_records(inputs) matches Ok(records) ==> image_of_data(
            output,
            records_map(records),
        ),
    ensures
        table_image(output, compacted),
        store_get(mem, pick(tables, marks, false).push(compacted), key) == store_get(
            mem,
            tables,
            key,
        ),
{
    lemma_compacted_data(inputs, pick(tables, marks, true));
    let records = all_file_records(inputs)->Ok_0;
    let compacted = choose|content: KeyMap| #[trigger]
        table_image(output, content) && same_data(content, records_map(records));
    lemma_compaction_preserves(mem, tables, marks, compacted, key);
    compacted
}

} // verus!
