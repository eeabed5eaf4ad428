//! Data blocks: the fixed-size stretches of a table file, each holding a run
//! of encoded records and zero bytes up to `BLOCKSIZE`.

use crate::storage::record::{
    decode, lemma_decode_bounds, lemma_decode_encode, lemma_encode_len, lemma_key_len_at,
    len_at, DecodeError, Record, RecordView,
};
use crate::storage::run::{
    ascending, content_of, find, lemma_record_keys, lemma_run_map, lemma_split_absent,
    record_of, records_map, text_of, value_of, views,
};
use vstd::bytes::*;
use vstd::prelude::*;
use vstd::slice::*;

verus! {

/// The size of a data block in a table file.
pub const BLOCKSIZE: usize = 32000;

/// `n` zero bytes.
pub open spec fn zeros(n: int) -> Seq<u8> {
    Seq::new(n as nat, |i: int| 0u8)
}

/// The encodings of the records of `s`, one after the other.
pub open spec fn encode_all(s: Seq<RecordView>) -> Seq<u8>
    decreases s.len(),
{
    if s.len() == 0 {
        Seq::empty()
    } else {
        s.first().encode() + encode_all(s.drop_first())
    }
}

/// The length of `encode_all(s)`.
pub open spec fn total_size(s: Seq<RecordView>) -> nat
    decreases s.len(),
{
    if s.len() == 0 {
        0
    } else {
        s.first().size() + total_size(s.drop_first())
    }
}

/// Every record can be encoded.
pub open spec fn all_fit(s: Seq<RecordView>) -> bool {
    forall|i: int| 0 <= i < s.len() ==> (#[trigger] s[i]).fits()
}

/// No record has the empty key, which a block cannot hold: a key length of
/// zero marks the end of its records.
pub open spec fn keys_nonempty(s: Seq<RecordView>) -> bool {
    forall|i: int| 0 <= i < s.len() ==> (#[trigger] s[i]).key_bytes().len() > 0
}

/// The bytes of a data block that holds the records `s`: their encodings,
/// padded with zero bytes to `BLOCKSIZE`. Encodings that are longer than a
/// block are cut off there.
pub open spec fn block_bytes(s: Seq<RecordView>) -> Seq<u8> {
    if encode_all(s).len() <= BLOCKSIZE {
        encode_all(s) + zeros(BLOCKSIZE - encode_all(s).len())
    } else {
        encode_all(s).take(BLOCKSIZE as int)
    }
}

/// `done`, followed by what `rest` holds where it is a success.
pub open spec fn after<T, E>(done: Seq<T>, rest: Result<Seq<T>, E>) -> Result<Seq<T>, E> {
    match rest {
        Ok(more) => Ok(done + more),
        Err(e) => Err(e),
    }
}

/// The records that a block's bytes hold from position `at` on. Reading
/// stops where fewer than nine bytes are left or where the key length is
/// zero, and fails where a record that has begun cannot be read.
pub open spec fn decode_block(bytes: Seq<u8>, at: int) -> Result<Seq<RecordView>, DecodeError>
    decreases bytes.len() - at,
{
    if at < 0 || at + 9 > bytes.len() {
        Ok(Seq::empty())
    } else if len_at(bytes, at + 1) == 0 {
        Ok(Seq::empty())
    } else {
        match decode(bytes, at) {
            Err(e) => Err(e),
            Ok((record, next)) => if at < next <= bytes.len() {
                after(seq![record], decode_block(bytes, next))
            } else {
                Err(DecodeError::ShortRead)
            },
        }
    }
}

/// Encoding one more record appends its encoding.
pub proof fn lemma_encode_all_push(s: Seq<RecordView>, r: RecordView)
    ensures
        encode_all(s.push(r)) == encode_all(s) + r.encode(),
        total_size(s.push(r)) == total_size(s) + r.size(),
    decreases s.len(),
{
    if s.len() == 0 {
        assert(s.push(r).drop_first() =~= s);
        assert(encode_all(s.push(r)) =~= encode_all(s) + r.encode());
    } else {
        assert(s.push(r).drop_first() =~= s.drop_first().push(r));
        lemma_encode_all_push(s.drop_first(), r);
        assert(encode_all(s.push(r)) =~= encode_all(s) + r.encode());
    }
}

/// The encodings of records are together as long as their sizes say.
pub proof fn lemma_encode_all_len(s: Seq<RecordView>)
    requires
        all_fit(s),
    ensures
        encode_all(s).len() == total_size(s),
    decreases s.len(),
{
    if s.len() > 0 {
        assert(s[0].fits());
        lemma_encode_len(s.first());
        assert(all_fit(s.drop_first())) by {
            assert forall|i: int| 0 <= i < s.drop_first().len() implies (
            #[trigger] s.drop_first()[i]).fits() by {
                assert(s[i + 1].fits());
            }
        }
        lemma_encode_all_len(s.drop_first());
    }
}

/// Eight zero bytes are the length zero.
pub proof fn lemma_zero_length(bytes: Seq<u8>)
    requires
        bytes.len() == 8,
        forall|i: int| 0 <= i < 8 ==> bytes[i] == 0,
    ensures
        spec_u64_from_le_bytes(bytes) == 0,
{
    lemma_auto_spec_u64_to_from_le_bytes();
    spec_u64_to_le_bytes_to_open(0);
    assert(0u64 & 0xff == 0 && (0u64 >> 8) & 0xff == 0 && (0u64 >> 16) & 0xff == 0 && (0u64 >> 24)
        & 0xff == 0 && (0u64 >> 32) & 0xff == 0 && (0u64 >> 40) & 0xff == 0 && (0u64 >> 48) & 0xff
        == 0 && (0u64 >> 56) & 0xff == 0) by (bit_vector);
    assert(bytes =~= spec_u64_to_le_bytes(0));
}

/// A key length of zero ends the records of a block, whatever follows it.
pub proof fn lemma_zero_key_ends(bytes: Seq<u8>, at: int)
    requires
        len_at(bytes, at + 1) == 0,
    ensures
        decode_block(bytes, at) == Ok::<Seq<RecordView>, DecodeError>(Seq::empty()),
{
}

/// Where only zero bytes stand from `at` on, no record is read there.
pub proof fn lemma_decode_block_end(bytes: Seq<u8>, at: int)
    requires
        0 <= at <= bytes.len(),
        forall|i: int| at <= i < bytes.len() ==> bytes[i] == 0,
    ensures
        decode_block(bytes, at) == Ok::<Seq<RecordView>, DecodeError>(Seq::empty()),
{
    if at + 9 <= bytes.len() {
        lemma_zero_length(bytes.subrange(at + 1, at + 9));
    }
}

/// Reading a block gives back the records that were written to it: where
/// the encodings of `s`, none with an empty key, stand at `before.len()` and
/// only zero bytes follow, reading from there gives `s`.
pub proof fn lemma_decode_block(before: Seq<u8>, s: Seq<RecordView>, padding: int)
    requires
        all_fit(s),
        keys_nonempty(s),
        padding >= 0,
    ensures
        decode_block(before + encode_all(s) + zeros(padding), before.len() as int) == Ok::<
            Seq<RecordView>,
            DecodeError,
        >(s),
    decreases s.len(),
{
    let bytes = before + encode_all(s) + zeros(padding);
    let at = before.len() as int;
    if s.len() == 0 {
        assert(bytes =~= before + zeros(padding));
        assert(s =~= Seq::<RecordView>::empty());
        lemma_decode_block_end(bytes, at);
    } else {
        let r = s.first();
        let rest = s.drop_first();
        assert(s[0].fits() && s[0].key_bytes().len() > 0);
        let tail = encode_all(rest) + zeros(padding);
        assert(bytes =~= before + r.encode() + tail);
        lemma_encode_len(r);
        lemma_decode_encode(r, before, tail);
        lemma_decode_bounds(bytes, at);
        lemma_key_len_at(r, before, tail);
        assert(all_fit(rest) && keys_nonempty(rest)) by {
            assert forall|i: int| 0 <= i < rest.len() implies (#[trigger] rest[i]).fits()
                && rest[i].key_bytes().len() > 0 by {
                assert(s[i + 1].fits() && s[i + 1].key_bytes().len() > 0);
            }
        }
        lemma_decode_block(before + r.encode(), rest, padding);
        assert(bytes =~= (before + r.encode()) + encode_all(rest) + zeros(padding));
        assert(seq![r] + rest =~= s);

    }
}

/// A data block: the records that one `BLOCKSIZE` stretch of a table file holds.
pub struct Block {
    records: Vec<Record>,
}

impl View for Block {
    type V = Seq<RecordView>;

    closed spec fn view(&self) -> Seq<RecordView> {
        views(self.records@)
    }
}

impl Block {
    /// A block that holds `records`.
    pub fn new(records: Vec<Record>) -> (block: Block)
        ensures
            block@ == views(records@),
    {
        Block { records }
    }

    /// The block's records, handed over.
    pub fn into_records(self) -> (records: Vec<Record>)
        ensures
            views(records@) == self@,
    {
        self.records
    }

    /// The records of the block.
    pub fn records(&self) -> (records: &Vec<Record>)
        ensures
            views(records@) == self@,
    {
        &self.records
    }

    /// Reads a block from its bytes: the records up to the first key length
    /// of zero, or up to where fewer than nine bytes are left.
    pub fn from_bytes(bytes: &[u8]) -> (r: Result<Block, DecodeError>)
        ensures
            match r {
                Ok(block) => decode_block(bytes@, 0) == Ok::<Seq<RecordView>, DecodeError>(block@),
                Err(e) => decode_block(bytes@, 0) == Err::<Seq<RecordView>, DecodeError>(e),
            },
    {
        let mut records: Vec<Record> = Vec::new();
        let mut offset: usize = 0;
        let len = bytes.len();
        while len - offset >= 9
            invariant
                offset <= len == bytes@.len(),
                decode_block(bytes@, 0) == after(
                    views(records@),
                    decode_block(bytes@, offset as int),
                ),
            decreases len - offset,
        {
            let key_len = u64_from_le_bytes(slice_subrange(bytes, offset + 1, offset + 9));
            if key_len == 0 {
                assert(views(records@) + Seq::<RecordView>::empty() =~= views(records@));
                return Ok(Block { records });
            }
            match Record::from_bytes(bytes, offset) {
                Err(e) => {
                    return Err(e);
                },
                Ok((record, next)) => {
                    proof {
                        let rest = decode_block(bytes@, next as int);
                        if let Ok(more) = rest {
                            assert(views(records@) + (seq![record@] + more) =~= views(
                                records@.push(record),
                            ) + more);
                        }
                    }
                    records.push(record);
                    offset = next;
                },
            }
        }
        assert(views(records@) + Seq::<RecordView>::empty() =~= views(records@));
        Ok(Block { records })
    }

    /// The bytes of the block: the records' encodings, padded with zero
    /// bytes to `BLOCKSIZE`, and cut off there where they are longer.
    pub fn to_bytes(&self) -> (bytes: Vec<u8>)
        ensures
            bytes@ == block_bytes(self@),
            bytes@.len() == BLOCKSIZE,
            all_fit(self@),
    {
        let mut bytes: Vec<u8> = Vec::new();
        let mut i: usize = 0;
        while i < self.records.len()
            invariant
                i <= self.records@.len(),
                bytes@ == encode_all(self@.take(i as int)),
                all_fit(self@.take(i as int)),
            decreases self.records@.len() - i,
        {
            let mut encoded = self.records[i].as_bytes();
            proof {
                let done = self@.take(i as int);
                lemma_encode_all_push(done, self@[i as int]);
                assert(self@.take(i + 1) =~= done.push(self@[i as int]));
            }
            bytes.append(&mut encoded);
            i += 1;
        }
        proof {
            assert(self@.take(i as int) =~= self@);
        }
        if bytes.len() > BLOCKSIZE {
            bytes.truncate(BLOCKSIZE);
            return bytes;
        }
        let ghost payload = bytes@;
        while bytes.len() < BLOCKSIZE
            invariant
                bytes@.len() <= BLOCKSIZE,
                payload.len() <= bytes@.len(),
                bytes@ == payload + zeros(bytes@.len() - payload.len()),
            decreases BLOCKSIZE - bytes@.len(),
        {
            bytes.push(0);
            assert(bytes@ =~= payload + zeros(bytes@.len() - payload.len()));
        }
        bytes
    }

    /// The record with the key `key`, found by binary search. In a block
    /// whose keys ascend this is the record that the block holds under the key.
    pub fn get_record(&self, key: &String) -> (r: Option<Record>)
        ensures
            ascending(self@) ==> content_of(r) == record_of(records_map(self@), key@),
            r matches Some(record) ==> record@.key() == key@ && self@.contains(record@),
    {
        proof {
            lemma_record_keys(self.records@);
            if ascending(self@) {
                lemma_run_map(self@);
            }
        }
        match find(&self.records, key) {
            Ok(at) => {
                assert(self@[at as int].key() == key@);
                Some(self.records[at].clone())
            },
            Err(at) => {
                proof {
                    if ascending(self@) {
                        lemma_split_absent(self@, key@, at as int);
                    }
                }
                None
            },
        }
    }

    /// The value written under `key`; nothing where the block has a
    /// tombstone for the key or does not have the key.
    pub fn get_value(&self, key: &String) -> (r: Option<String>)
        ensures
            ascending(self@) ==> text_of(r) == value_of(records_map(self@), key@),
            r matches Some(value) ==> exists|i: int|
                0 <= i < self@.len() && (#[trigger] self@[i]).key() == key@ && self@[i].value()
                    == Some(value@),
    {
        match self.get_record(key) {
            Some(Record::Value { value, .. }) => Some(value),
            Some(Record::Tombstone { .. }) => None,
            None => None,
        }
    }
}

} // verus!
