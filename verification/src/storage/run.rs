//! Sequences of records: the map that a sequence denotes when its records are
//! applied in order, runs in ascending key order, and binary search in a run.

use crate::storage::order::{
    compare_keys, key_lt, lemma_key_lt_asymmetric, lemma_key_lt_transitive, KeyOrder,
};
use crate::storage::record::{Record, RecordView};
use vstd::prelude::*;

verus! {

/// The contents of a table: for each key that it holds, the latest record.
pub type KeyMap = Map<Seq<char>, RecordView>;

/// The records of a vector, each as its content.
pub open spec fn views(records: Seq<Record>) -> Seq<RecordView> {
    Seq::new(records.len(), |i: int| records[i]@)
}

/// The keys stand in strictly ascending order.
pub open spec fn ascending(s: Seq<RecordView>) -> bool {
    forall|i: int, j: int|
        0 <= i < j < s.len() ==> key_lt(#[trigger] s[i].key(), #[trigger] s[j].key())
}

/// Some record of `s` has the key `key`.
pub open spec fn has_key(s: Seq<RecordView>, key: Seq<char>) -> bool {
    exists|i: int| 0 <= i < s.len() && #[trigger] s[i].key() == key
}

/// The map that results from `m` when the records of `s` are applied in
/// order, each replacing what the map held under its key.
pub open spec fn apply(m: KeyMap, s: Seq<RecordView>) -> KeyMap
    decreases s.len(),
{
    if s.len() == 0 {
        m
    } else {
        apply(m, s.drop_last()).insert(s.last().key(), s.last())
    }
}

/// The map that a sequence of records denotes: for each key its last record.
pub open spec fn records_map(s: Seq<RecordView>) -> KeyMap {
    apply(Map::empty(), s)
}

/// What a lookup of `key` in a table with contents `m` reports: the value of
/// a `Value` record, nothing for a tombstone or a key that is not there.
pub open spec fn value_of(m: KeyMap, key: Seq<char>) -> Option<Seq<char>> {
    if m.contains_key(key) {
        m[key].value()
    } else {
        None
    }
}

/// The characters of an optional string.
pub open spec fn text_of(s: Option<String>) -> Option<Seq<char>> {
    match s {
        Some(s) => Some(s@),
        None => None,
    }
}

/// The content of an optional record.
pub open spec fn content_of(r: Option<Record>) -> Option<RecordView> {
    match r {
        Some(r) => Some(r@),
        None => None,
    }
}

/// The record that a table with contents `m` holds under `key`, if any.
pub open spec fn record_of(m: KeyMap, key: Seq<char>) -> Option<RecordView> {
    if m.contains_key(key) {
        Some(m[key])
    } else {
        None
    }
}

/// Applying one more record is an insertion into the map.
pub proof fn lemma_apply_push(m: KeyMap, s: Seq<RecordView>, r: RecordView)
    ensures
        apply(m, s.push(r)) == apply(m, s).insert(r.key(), r),
{
    assert(s.push(r).drop_last() =~= s);
}

/// Applying two sequences one after the other is applying their concatenation.
pub proof fn lemma_apply_concat(m: KeyMap, a: Seq<RecordView>, b: Seq<RecordView>)
    ensures
        apply(m, a + b) == apply(apply(m, a), b),
    decreases b.len(),
{
    if b.len() == 0 {
        assert(a + b =~= a);
    } else {
        lemma_apply_concat(m, a, b.drop_last());
        assert((a + b).drop_last() =~= a + b.drop_last());
    }
}

/// The keys of the result are those of the map and those of the records.
pub proof fn lemma_apply_keys(m: KeyMap, s: Seq<RecordView>, key: Seq<char>)
    ensures
        apply(m, s).contains_key(key) <==> m.contains_key(key) || has_key(s, key),
    decreases s.len(),
{
    if s.len() > 0 {
        let t = s.drop_last();
        lemma_apply_keys(m, t, key);
        if has_key(t, key) {
            let i = choose|i: int| 0 <= i < t.len() && #[trigger] t[i].key() == key;
            assert(s[i].key() == key);
        }
        if s.last().key() == key {
            assert(s[s.len() - 1].key() == key);
        }
        if has_key(s, key) {
            let i = choose|i: int| 0 <= i < s.len() && #[trigger] s[i].key() == key;
            if i < t.len() {
                assert(t[i].key() == key);
            }
        }
    }
}

/// The last record with a key is the one that the result holds under it.
pub proof fn lemma_apply_last_wins(m: KeyMap, s: Seq<RecordView>, i: int)
    requires
        0 <= i < s.len(),
        forall|j: int| i < j < s.len() ==> #[trigger] s[j].key() != s[i].key(),
    ensures
        apply(m, s).contains_key(s[i].key()),
        apply(m, s)[s[i].key()] == s[i],
    decreases s.len(),
{
    if i < s.len() - 1 {
        let t = s.drop_last();
        assert(s[s.len() - 1].key() != s[i].key());
        assert forall|j: int| i < j < t.len() implies #[trigger] t[j].key() != t[i].key() by {
            assert(s[j].key() != s[i].key());
        }
        lemma_apply_last_wins(m, t, i);
    }
}

/// What the result holds under a key is what the map held there, or one of
/// the records.
pub proof fn lemma_apply_values(m: KeyMap, s: Seq<RecordView>, key: Seq<char>)
    requires
        apply(m, s).contains_key(key),
    ensures
        (m.contains_key(key) && apply(m, s)[key] == m[key]) || s.contains(apply(m, s)[key]),
        has_key(s, key) ==> s.contains(apply(m, s)[key]),
    decreases s.len(),
{
    if s.len() > 0 {
        let t = s.drop_last();
        if s.last().key() == key {
            assert(s[s.len() - 1] == s.last());
        } else {
            lemma_apply_values(m, t, key);
            if t.contains(apply(m, t)[key]) {
                let i = choose|i: int| 0 <= i < t.len() && t[i] == apply(m, t)[key];
                assert(s[i] == t[i]);
            }
            if has_key(s, key) {
                let i = choose|i: int| 0 <= i < s.len() && #[trigger] s[i].key() == key;
                assert(t[i].key() == key);
            }
        }
    }
}

/// In an ascending run no two records share a key.
pub proof fn lemma_ascending_distinct(s: Seq<RecordView>, i: int, j: int)
    requires
        ascending(s),
        0 <= i < s.len(),
        0 <= j < s.len(),
        i != j,
    ensures
        s[i].key() != s[j].key(),
{
    lemma_key_lt_asymmetric(s[i].key(), s[j].key());
    if i < j {
        assert(key_lt(s[i].key(), s[j].key()));
    } else {
        assert(key_lt(s[j].key(), s[i].key()));
    }
}

/// An ascending run denotes the map that holds each of its records under
/// the record's key, and nothing else.
pub proof fn lemma_run_map(s: Seq<RecordView>)
    requires
        ascending(s),
    ensures
        forall|i: int|
            0 <= i < s.len() ==> records_map(s).contains_key(#[trigger] s[i].key()) && records_map(
                s,
            )[s[i].key()] == s[i],
        forall|key: Seq<char>| #[trigger] records_map(s).contains_key(key) ==> has_key(s, key),
{
    assert forall|i: int| 0 <= i < s.len() implies records_map(s).contains_key(
        #[trigger] s[i].key(),
    ) && records_map(s)[s[i].key()] == s[i] by {
        assert forall|j: int| i < j < s.len() implies #[trigger] s[j].key() != s[i].key() by {
            lemma_ascending_distinct(s, i, j);
        }
        lemma_apply_last_wins(Map::empty(), s, i);
    }
    assert forall|key: Seq<char>| #[trigger] records_map(s).contains_key(key) implies has_key(
        s,
        key,
    ) by {
        lemma_apply_keys(Map::empty(), s, key);
    }
}

/// An ascending run denotes no other map than the one that holds exactly its
/// records, each under its key.
pub proof fn lemma_run_determined(s: Seq<RecordView>, m: KeyMap)
    requires
        ascending(s),
        forall|i: int|
            0 <= i < s.len() ==> m.contains_key(#[trigger] s[i].key()) && m[s[i].key()] == s[i],
        forall|key: Seq<char>| #[trigger] m.contains_key(key) ==> has_key(s, key),
    ensures
        records_map(s) == m,
{
    lemma_run_map(s);
    assert forall|key: Seq<char>| records_map(s).contains_key(key) == m.contains_key(key) by {
        if has_key(s, key) {
            let i = choose|i: int| 0 <= i < s.len() && #[trigger] s[i].key() == key;
            assert(m.contains_key(s[i].key()));
        }
    }
    assert forall|key: Seq<char>| records_map(s).contains_key(key) implies records_map(s)[key]
        == m[key] by {
        let i = choose|i: int| 0 <= i < s.len() && #[trigger] s[i].key() == key;
        assert(m[s[i].key()] == s[i]);
    }
    assert(records_map(s) =~= m);
}

/// An ascending run holds as many keys as it has records.
pub proof fn lemma_run_len(s: Seq<RecordView>)
    requires
        ascending(s),
    ensures
        records_map(s).dom().finite(),
        records_map(s).dom().len() == s.len(),
    decreases s.len(),
{
    if s.len() > 0 {
        let t = s.drop_last();
        assert(ascending(t)) by {
            assert forall|i: int, j: int| 0 <= i < j < t.len() implies key_lt(
                #[trigger] t[i].key(),
                #[trigger] t[j].key(),
            ) by {
                assert(key_lt(s[i].key(), s[j].key()));
            }
        }
        lemma_run_len(t);
        lemma_apply_keys(Map::empty(), t, s.last().key());
        if has_key(t, s.last().key()) {
            let i = choose|i: int| 0 <= i < t.len() && #[trigger] t[i].key() == s.last().key();
            lemma_ascending_distinct(s, i, s.len() - 1);
        }
    }
}

/// Putting a record where the search places its key keeps the run ascending
/// and inserts the record into the map.
pub proof fn lemma_run_insert(s: Seq<RecordView>, r: RecordView, at: int)
    requires
        ascending(s),
        splits(record_keys(s), r.key(), at),
    ensures
        ascending(s.insert(at, r)),
        records_map(s.insert(at, r)) == records_map(s).insert(r.key(), r),
{
    let t = s.insert(at, r);
    let keys = record_keys(s);
    assert forall|j: int| 0 <= j < at implies key_lt(#[trigger] s[j].key(), r.key()) by {
        assert(key_lt(keys[j], r.key()));
    }
    assert forall|j: int| at <= j < s.len() implies key_lt(r.key(), #[trigger] s[j].key()) by {
        assert(key_lt(r.key(), keys[j]));
    }
    assert forall|i: int, j: int| 0 <= i < j < t.len() implies key_lt(
        #[trigger] t[i].key(),
        #[trigger] t[j].key(),
    ) by {
        if j < at {
            assert(key_lt(s[i].key(), s[j].key()));
        } else if j == at {
            assert(key_lt(s[i].key(), r.key()));
        } else if i < at {
            assert(key_lt(s[i].key(), s[j - 1].key()));
        } else if i == at {
            assert(key_lt(r.key(), s[j - 1].key()));
        } else {
            assert(key_lt(s[i - 1].key(), s[j - 1].key()));
        }
    }
    lemma_run_map(s);
    let m = records_map(s).insert(r.key(), r);
    assert forall|i: int| 0 <= i < t.len() implies m.contains_key(#[trigger] t[i].key()) && m[t[i].key()]
        == t[i] by {
        if i != at {
            lemma_ascending_distinct(t, i, at);
            let k = if i < at { i } else { i - 1 };
            assert(t[i] == s[k]);
            assert(records_map(s).contains_key(s[k].key()));
        }
    }
    assert forall|key: Seq<char>| #[trigger] m.contains_key(key) implies has_key(t, key) by {
        if key == r.key() {
            assert(t[at].key() == key);
        } else {
            let i = choose|i: int| 0 <= i < s.len() && #[trigger] s[i].key() == key;
            let k = if i < at { i } else { i + 1 };
            assert(t[k].key() == key);
        }
    }
    lemma_run_determined(t, m);
}

/// Replacing a record by one with the same key keeps the run ascending and
/// inserts the new record into the map.
pub proof fn lemma_run_replace(s: Seq<RecordView>, r: RecordView, at: int)
    requires
        ascending(s),
        0 <= at < s.len(),
        s[at].key() == r.key(),
    ensures
        ascending(s.update(at, r)),
        records_map(s.update(at, r)) == records_map(s).insert(r.key(), r),
{
    let t = s.update(at, r);
    assert forall|i: int, j: int| 0 <= i < j < t.len() implies key_lt(
        #[trigger] t[i].key(),
        #[trigger] t[j].key(),
    ) by {
        assert(key_lt(s[i].key(), s[j].key()));
    }
    lemma_run_map(s);
    let m = records_map(s).insert(r.key(), r);
    assert forall|i: int| 0 <= i < t.len() implies m.contains_key(#[trigger] t[i].key()) && m[t[i].key()]
        == t[i] by {
        if i != at {
            lemma_ascending_distinct(t, i, at);
            assert(t[i] == s[i]);
            assert(records_map(s).contains_key(s[i].key()));
        }
    }
    assert forall|key: Seq<char>| #[trigger] m.contains_key(key) implies has_key(t, key) by {
        if key == r.key() {
            assert(t[at].key() == key);
        } else {
            let i = choose|i: int| 0 <= i < s.len() && #[trigger] s[i].key() == key;
            assert(t[i].key() == key);
        }
    }
    lemma_run_determined(t, m);
}

/// What is kept in key order and found by its key.
pub trait Keyed {
    /// The key as a sequence of characters.
    spec fn spec_key(&self) -> Seq<char>;

    /// The key.
    fn key_ref(&self) -> (k: &String)
        ensures
            k@ == self.spec_key(),
    ;
}

impl Keyed for Record {
    open spec fn spec_key(&self) -> Seq<char> {
        self@.key()
    }

    fn key_ref(&self) -> (k: &String) {
        match self {
            Record::Tombstone { key, .. } => key,
            Record::Value { key, .. } => key,
        }
    }
}

/// The keys of a sequence of items.
pub open spec fn keys_of<T: Keyed>(items: Seq<T>) -> Seq<Seq<char>> {
    Seq::new(items.len(), |i: int| items[i].spec_key())
}

/// The keys stand in strictly ascending order.
pub open spec fn keys_ascending(keys: Seq<Seq<char>>) -> bool {
    forall|i: int, j: int|
        0 <= i < j < keys.len() ==> key_lt(#[trigger] keys[i], #[trigger] keys[j])
}

/// `at` splits the keys into those before `key` and those after it.
pub open spec fn splits(keys: Seq<Seq<char>>, key: Seq<char>, at: int) -> bool {
    &&& 0 <= at <= keys.len()
    &&& forall|j: int| 0 <= j < at ==> key_lt(#[trigger] keys[j], key)
    &&& forall|j: int| at <= j < keys.len() ==> key_lt(key, #[trigger] keys[j])
}

/// Where `key` stands among `items`: `Ok` with the index of an item that has
/// the key, or `Err` with the index at which an item with the key would be
/// inserted. Where the keys ascend, the first is returned exactly when the
/// key is there, and the second splits the items into the keys before `key`
/// and those after it.
pub fn find<T: Keyed>(items: &Vec<T>, key: &String) -> (r: Result<usize, usize>)
    ensures
        match r {
            Ok(i) => i < items.len() && items[i as int].spec_key() == key@,
            Err(i) => i <= items.len() && (keys_ascending(keys_of(items@)) ==> splits(
                keys_of(items@),
                key@,
                i as int,
            )),
        },
{
    let ghost keys = keys_of(items@);
    let mut lo: usize = 0;
    let mut hi: usize = items.len();
    while lo < hi
        invariant
            lo <= hi <= items.len(),
            keys == keys_of(items@),
            keys_ascending(keys) ==> {
                &&& forall|j: int| 0 <= j < lo ==> key_lt(#[trigger] keys[j], key@)
                &&& forall|j: int| hi <= j < keys.len() ==> key_lt(key@, #[trigger] keys[j])
            },
        decreases hi - lo,
    {
        let mid = lo + (hi - lo) / 2;
        assert(keys[mid as int] == items[mid as int].spec_key());
        match compare_keys(items[mid].key_ref(), key) {
            KeyOrder::Equal => {
                return Ok(mid);
            },
            KeyOrder::Less => {
                proof {
                    if keys_ascending(keys) {
                        assert forall|j: int| 0 <= j < mid + 1 implies key_lt(
                            #[trigger] keys[j],
                            key@,
                        ) by {
                            if j < mid {
                                assert(key_lt(keys[j], keys[mid as int]));
                                lemma_key_lt_transitive(keys[j], keys[mid as int], key@);
                            }
                        }
                    }
                }
                lo = mid + 1;
            },
            KeyOrder::Greater => {
                proof {
                    if keys_ascending(keys) {
                        assert forall|j: int| mid <= j < keys.len() implies key_lt(
                            key@,
                            #[trigger] keys[j],
                        ) by {
                            if j > mid {
                                assert(key_lt(keys[mid as int], keys[j]));
                                lemma_key_lt_transitive(key@, keys[mid as int], keys[j]);
                            }
                        }
                    }
                }
                hi = mid;
            },
        }
    }
    Err(lo)
}

/// Where a sorted vector of records is searched: the keys of the records
/// ascend, and a split of the keys is a split of the run.
pub proof fn lemma_record_keys(records: Seq<Record>)
    ensures
        keys_of(records) == record_keys(views(records)),
        ascending(views(records)) == keys_ascending(keys_of(records)),
{
    assert(keys_of(records) =~= record_keys(views(records)));
    lemma_ascending_keys(views(records));
}

/// The keys of a sequence of records.
pub open spec fn record_keys(s: Seq<RecordView>) -> Seq<Seq<char>> {
    Seq::new(s.len(), |i: int| s[i].key())
}

/// A run ascends exactly when its keys do.
pub proof fn lemma_ascending_keys(s: Seq<RecordView>)
    ensures
        ascending(s) == keys_ascending(record_keys(s)),
{
    let keys = record_keys(s);
    if ascending(s) {
        assert forall|i: int, j: int| 0 <= i < j < keys.len() implies key_lt(
            #[trigger] keys[i],
            #[trigger] keys[j],
        ) by {
            assert(key_lt(s[i].key(), s[j].key()));
        }
    }
    if keys_ascending(keys) {
        assert forall|i: int, j: int| 0 <= i < j < s.len() implies key_lt(
            #[trigger] s[i].key(),
            #[trigger] s[j].key(),
        ) by {
            assert(key_lt(keys[i], keys[j]));
        }
    }
}

/// A key that splits the keys of a run is the key of none of its records.
pub proof fn lemma_split_absent(s: Seq<RecordView>, key: Seq<char>, at: int)
    requires
        splits(record_keys(s), key, at),
    ensures
        !has_key(s, key),
{
    let keys = record_keys(s);
    if has_key(s, key) {
        let i = choose|i: int| 0 <= i < s.len() && #[trigger] s[i].key() == key;
        lemma_key_lt_asymmetric(key, key);
        if i < at {
            assert(key_lt(keys[i], key));
        } else {
            assert(key_lt(key, keys[i]));
        }
    }
}

} // verus!
