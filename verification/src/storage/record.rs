//! Records: the tagged entries that every layer of the store exchanges, and
//! their self-delimiting little-endian byte encoding.

use crate::storage::clock::now_nanos;
use vstd::bytes::*;
use vstd::prelude::*;
use vstd::slice::*;
use vstd::string::*;
use vstd::utf8::*;

verus! {

/// Tag byte of a `Value` record.
pub const TAG_VALUE: u8 = 0;

/// Tag byte of a `Tombstone` record.
pub const TAG_TOMBSTONE: u8 = 1;

/// Width of an encoded length field.
pub const LEN_BYTES: usize = 8;

/// Width of an encoded timestamp.
pub const TIMESTAMP_BYTES: usize = 16;

/// Width of the fixed part that starts every record: tag, key length, timestamp.
pub const HEADER_BYTES: usize = 25;

/// Why a byte sequence could not be read as a record.
#[derive(Debug, Clone, Copy, PartialEq, Eq, Structural)]
pub enum DecodeError {
    /// The bytes end before the record does.
    ShortRead,
    /// The tag byte is neither `TAG_VALUE` nor `TAG_TOMBSTONE`.
    InvalidTag,
}

/// The text that `String::from_utf8_lossy` produces for bytes that are not
/// valid UTF-8.
pub uninterp spec fn utf8_replaced(bytes: Seq<u8>) -> Seq<char>;

/// The text read from stored bytes: the decoded characters where the bytes
/// are valid UTF-8, and the text with replacement characters otherwise.
pub open spec fn lossy_text(bytes: Seq<u8>) -> Seq<char> {
    if valid_utf8(bytes) {
        decode_utf8(bytes)
    } else {
        utf8_replaced(bytes)
    }
}

/// `String::from_utf8_lossy`, made into an owned string. Its documentation
/// says that valid UTF-8 is returned as the string it encodes, and that
/// invalid sequences are replaced; the contract states the first and names the
/// second.
#[verifier::external_body]
pub(crate) fn string_from_utf8_lossy(bytes: &[u8]) -> (s: String)
    ensures
        valid_utf8(bytes@) ==> s@ == decode_utf8(bytes@),
        !valid_utf8(bytes@) ==> s@ == utf8_replaced(bytes@),
{
    String::from_utf8_lossy(bytes).into_owned()
}

/// The length field stored at `at`.
pub open spec fn len_at(bytes: Seq<u8>, at: int) -> u64 {
    spec_u64_from_le_bytes(bytes.subrange(at, at + 8))
}

/// What reading one record at position `at` of `bytes` gives: the record and
/// the position after it, or the reason it cannot be read.
#[verifier::opaque]
pub open spec fn decode(bytes: Seq<u8>, at: int) -> Result<(RecordView, int), DecodeError> {
    if at < 0 || at + 25 > bytes.len() {
        Err(DecodeError::ShortRead)
    } else {
        let tag = bytes[at];
        let timestamp = spec_u128_from_le_bytes(bytes.subrange(at + 9, at + 25));
        let key_end = at + 25 + len_at(bytes, at + 1);
        if key_end > bytes.len() {
            Err(DecodeError::ShortRead)
        } else {
            let key = lossy_text(bytes.subrange(at + 25, key_end));
            if tag == TAG_TOMBSTONE {
                Ok((RecordView::Tombstone { timestamp, key }, key_end))
            } else if tag != TAG_VALUE {
                Err(DecodeError::InvalidTag)
            } else if key_end + 8 > bytes.len() {
                Err(DecodeError::ShortRead)
            } else {
                let end = key_end + 8 + len_at(bytes, key_end);
                if end > bytes.len() {
                    Err(DecodeError::ShortRead)
                } else {
                    let value = lossy_text(bytes.subrange(key_end + 8, end));
                    Ok((RecordView::Value { timestamp, key, value }, end))
                }
            }
        }
    }
}

/// An entry of the store: a value written under a key, or the marker that
/// deletes the key. Timestamps are nanoseconds since the Unix epoch.
#[derive(Debug)]
pub enum Record {
    Tombstone { timestamp: u128, key: String },
    Value { timestamp: u128, key: String, value: String },
}

/// The mathematical content of a [`Record`].
pub enum RecordView {
    Tombstone { timestamp: u128, key: Seq<char> },
    Value { timestamp: u128, key: Seq<char>, value: Seq<char> },
}

impl RecordView {
    pub open spec fn key(self) -> Seq<char> {
        match self {
            RecordView::Tombstone { key, .. } => key,
            RecordView::Value { key, .. } => key,
        }
    }

    pub open spec fn timestamp(self) -> u128 {
        match self {
            RecordView::Tombstone { timestamp, .. } => timestamp,
            RecordView::Value { timestamp, .. } => timestamp,
        }
    }

    /// The value a lookup that ends at this record reports.
    pub open spec fn value(self) -> Option<Seq<char>> {
        match self {
            RecordView::Tombstone { .. } => None,
            RecordView::Value { value, .. } => Some(value),
        }
    }

    /// The key as it is stored and ordered: its UTF-8 bytes.
    pub open spec fn key_bytes(self) -> Seq<u8> {
        encode_utf8(self.key())
    }

    /// The stored bytes of the value; empty for a tombstone.
    pub open spec fn value_bytes(self) -> Seq<u8> {
        match self {
            RecordView::Tombstone { .. } => Seq::empty(),
            RecordView::Value { value, .. } => encode_utf8(value),
        }
    }

    /// Key and value are short enough for their lengths to be held in a
    /// machine word. Every record that exists at run time satisfies this.
    pub open spec fn fits(self) -> bool {
        &&& self.key_bytes().len() <= usize::MAX
        &&& self.value_bytes().len() <= usize::MAX
    }

    /// The exact length of the encoding.
    pub open spec fn size(self) -> nat {
        match self {
            RecordView::Tombstone { .. } => 25 + self.key_bytes().len(),
            RecordView::Value { .. } => 33 + self.key_bytes().len() + self.value_bytes().len(),
        }
    }

    /// The byte encoding: tag, key length, timestamp, key bytes, and for a
    /// value its length and bytes. Integers are little-endian.
    pub open spec fn encode(self) -> Seq<u8> {
        match self {
            RecordView::Tombstone { timestamp, key } => {
                seq![TAG_TOMBSTONE] + spec_u64_to_le_bytes(encode_utf8(key).len() as u64)
                    + spec_u128_to_le_bytes(timestamp) + encode_utf8(key)
            },
            RecordView::Value { timestamp, key, value } => {
                seq![TAG_VALUE] + spec_u64_to_le_bytes(encode_utf8(key).len() as u64)
                    + spec_u128_to_le_bytes(timestamp) + encode_utf8(key) + spec_u64_to_le_bytes(
                    encode_utf8(value).len() as u64,
                ) + encode_utf8(value)
            },
        }
    }
}

impl View for Record {
    type V = RecordView;

    open spec fn view(&self) -> RecordView {
        match self {
            Record::Tombstone { timestamp, key } => RecordView::Tombstone {
                timestamp: *timestamp,
                key: key@,
            },
            Record::Value { timestamp, key, value } => RecordView::Value {
                timestamp: *timestamp,
                key: key@,
                value: value@,
            },
        }
    }
}

impl Clone for Record {
    fn clone(&self) -> (r: Self)
        ensures
            r@ == self@,
    {
        match self {
            Record::Tombstone { timestamp, key } => Record::Tombstone {
                timestamp: *timestamp,
                key: key.clone(),
            },
            Record::Value { timestamp, key, value } => Record::Value {
                timestamp: *timestamp,
                key: key.clone(),
                value: value.clone(),
            },
        }
    }
}

impl PartialEq for Record {
    fn eq(&self, other: &Self) -> (res: bool) {
        match (self, other) {
            (
                Record::Tombstone { timestamp, key },
                Record::Tombstone { timestamp: other_timestamp, key: other_key },
            ) => *timestamp == *other_timestamp && *key == *other_key,
            (
                Record::Value { timestamp, key, value },
                Record::Value { timestamp: other_timestamp, key: other_key, value: other_value },
            ) => *timestamp == *other_timestamp && *key == *other_key && *value == *other_value,
            (_, _) => false,
        }
    }
}

impl vstd::std_specs::cmp::PartialEqSpecImpl for Record {
    open spec fn obeys_eq_spec() -> bool {
        true
    }

    open spec fn eq_spec(&self, other: &Self) -> bool {
        self@ == other@
    }
}

impl Record {
    /// A value written now under `key`.
    pub fn new(key: String, value: String) -> (r: Record)
        ensures
            r@ == (RecordView::Value { timestamp: r@.timestamp(), key: key@, value: value@ }),
    {
        let timestamp = now_nanos();
        Record::Value { timestamp, key, value }
    }

    /// A deletion of `key` made now.
    pub fn new_tombstone(key: String) -> (r: Record)
        ensures
            r@ == (RecordView::Tombstone { timestamp: r@.timestamp(), key: key@ }),
    {
        let timestamp = now_nanos();
        Record::Tombstone { timestamp, key }
    }

    /// A copy of the key.
    pub fn get_key(&self) -> (k: String)
        ensures
            k@ == self@.key(),
    {
        match self {
            Record::Tombstone { key, .. } => key.clone(),
            Record::Value { key, .. } => key.clone(),
        }
    }

    /// The key's length in bytes.
    pub fn key_size(&self) -> (n: usize)
        ensures
            n == self@.key_bytes().len(),
    {
        match self {
            Record::Tombstone { key, .. } => key.as_str().as_bytes().len(),
            Record::Value { key, .. } => key.as_str().as_bytes().len(),
        }
    }

    /// The value's length in bytes; 0 for a tombstone.
    pub fn value_size(&self) -> (n: usize)
        ensures
            n == self@.value_bytes().len(),
    {
        match self {
            Record::Tombstone { .. } => 0,
            Record::Value { value, .. } => value.as_str().as_bytes().len(),
        }
    }

    /// The exact length of [`Record::as_bytes`]; the largest machine word
    /// where the length exceeds it.
    pub fn size(&self) -> (n: usize)
        ensures
            self@.size() <= usize::MAX ==> n == self@.size(),
            self@.size() > usize::MAX ==> n == usize::MAX,
    {
        match self {
            Record::Tombstone { .. } => self.key_size().saturating_add(HEADER_BYTES),
            Record::Value { .. } => self.key_size().saturating_add(
                self.value_size(),
            ).saturating_add(HEADER_BYTES + LEN_BYTES),
        }
    }
}

/// Appends a copy of `src` to `dst`.
pub(crate) fn append_slice(dst: &mut Vec<u8>, src: &[u8])
    ensures
        final(dst)@ == old(dst)@ + src@,
{
    let mut copy = slice_to_vec(src);
    dst.append(&mut copy);
}

impl Record {
    /// The byte encoding of the record.
    pub fn as_bytes(&self) -> (bytes: Vec<u8>)
        ensures
            bytes@ == self@.encode(),
            self@.fits(),
    {
        let mut bytes: Vec<u8> = Vec::new();
        match self {
            Record::Tombstone { timestamp, key } => {
                let key_bytes = key.as_str().as_bytes();
                bytes.push(TAG_TOMBSTONE);
                let mut field = u64_to_le_bytes(key_bytes.len() as u64);
                bytes.append(&mut field);
                let mut field = u128_to_le_bytes(*timestamp);
                bytes.append(&mut field);
                append_slice(&mut bytes, key_bytes);
            },
            Record::Value { timestamp, key, value } => {
                let key_bytes = key.as_str().as_bytes();
                let value_bytes = value.as_str().as_bytes();
                bytes.push(TAG_VALUE);
                let mut field = u64_to_le_bytes(key_bytes.len() as u64);
                bytes.append(&mut field);
                let mut field = u128_to_le_bytes(*timestamp);
                bytes.append(&mut field);
                append_slice(&mut bytes, key_bytes);
                let mut field = u64_to_le_bytes(value_bytes.len() as u64);
                bytes.append(&mut field);
                append_slice(&mut bytes, value_bytes);
            },
        }
        bytes
    }

    /// Reads the record that starts at `offset` in `bytes`, and says where
    /// the next one starts. Fails on a short read at any field and on an
    /// unknown tag byte.
    pub fn from_bytes(bytes: &[u8], offset: usize) -> (r: Result<(Record, usize), DecodeError>)
        ensures
            match r {
                Ok((record, next)) => decode(bytes@, offset as int) == Ok::<
                    (RecordView, int),
                    DecodeError,
                >((record@, next as int)),
                Err(e) => decode(bytes@, offset as int) == Err::<(RecordView, int), DecodeError>(e),
            },
            r matches Ok((_, next)) ==> offset + 25 <= next <= bytes@.len(),
    {
        proof {
            reveal(decode);
        }
        let len = bytes.len();
        if offset > len || len - offset < HEADER_BYTES {
            return Err(DecodeError::ShortRead);
        }
        let tag = bytes[offset];
        let key_len = u64_from_le_bytes(slice_subrange(bytes, offset + 1, offset + 9));
        let timestamp = u128_from_le_bytes(slice_subrange(bytes, offset + 9, offset + 25));
        let key_start = offset + HEADER_BYTES;
        if key_len > (len - key_start) as u64 {
            return Err(DecodeError::ShortRead);
        }
        let key_end = key_start + key_len as usize;
        let key = string_from_utf8_lossy(slice_subrange(bytes, key_start, key_end));
        if tag == TAG_TOMBSTONE {
            return Ok((Record::Tombstone { timestamp, key }, key_end));
        }
        if tag != TAG_VALUE {
            return Err(DecodeError::InvalidTag);
        }
        if len - key_end < LEN_BYTES {
            return Err(DecodeError::ShortRead);
        }
        let value_len = u64_from_le_bytes(slice_subrange(bytes, key_end, key_end + 8));
        let value_start = key_end + LEN_BYTES;
        if value_len > (len - value_start) as u64 {
            return Err(DecodeError::ShortRead);
        }
        let end = value_start + value_len as usize;
        let value = string_from_utf8_lossy(slice_subrange(bytes, value_start, end));
        Ok((Record::Value { timestamp, key, value }, end))
    }
}

/// The encoding of a record is as long as `size` says.
pub proof fn lemma_encode_len(r: RecordView)
    requires
        r.fits(),
    ensures
        r.encode().len() == r.size(),
{
    lemma_auto_spec_u64_to_from_le_bytes();
    lemma_auto_spec_u128_to_from_le_bytes();
}

/// Decoding undoes encoding: wherever the encoding of a record stands in a
/// byte sequence, reading at its start gives the record back and ends right
/// after it.
pub proof fn lemma_decode_encode(r: RecordView, before: Seq<u8>, after: Seq<u8>)
    requires
        r.fits(),
    ensures
        decode(before + r.encode() + after, before.len() as int) == Ok::<
            (RecordView, int),
            DecodeError,
        >((r, (before.len() + r.size()) as int)),
{
    reveal(decode);
    lemma_auto_spec_u64_to_from_le_bytes();
    lemma_auto_spec_u128_to_from_le_bytes();
    lemma_encode_len(r);
    let bytes = before + r.encode() + after;
    let at = before.len() as int;
    let key_bytes = r.key_bytes();
    let key_len = key_bytes.len() as u64;
    let key_end = at + 25 + key_bytes.len();
    assert(bytes.subrange(at + 1, at + 9) =~= spec_u64_to_le_bytes(key_len));
    assert(bytes.subrange(at + 9, at + 25) =~= spec_u128_to_le_bytes(r.timestamp()));
    assert(bytes.subrange(at + 25, key_end) =~= key_bytes);
    encode_utf8_valid_utf8(r.key());
    encode_utf8_decode_utf8(r.key());
    match r {
        RecordView::Tombstone { .. } => {},
        RecordView::Value { value, .. } => {
            let value_bytes = encode_utf8(value);
            let end = key_end + 8 + value_bytes.len();
            assert(bytes.subrange(key_end, key_end + 8) =~= spec_u64_to_le_bytes(
                value_bytes.len() as u64,
            ));
            assert(bytes.subrange(key_end + 8, end) =~= value_bytes);
            encode_utf8_valid_utf8(value);
            encode_utf8_decode_utf8(value);
        },
    }
}

/// A record that was read takes at least its header and ends within the bytes.
pub proof fn lemma_decode_bounds(bytes: Seq<u8>, at: int)
    ensures
        decode(bytes, at) matches Ok((_, next)) ==> 0 <= at && at + 25 <= next <= bytes.len(),
{
    reveal(decode);
}

/// The length field that follows the tag of an encoded record holds the
/// length of the record's key.
pub proof fn lemma_key_len_at(r: RecordView, before: Seq<u8>, after: Seq<u8>)
    requires
        r.fits(),
    ensures
        len_at(before + r.encode() + after, before.len() as int + 1) == r.key_bytes().len(),
        before.len() + 25 <= (before + r.encode() + after).len(),
{
    lemma_auto_spec_u64_to_from_le_bytes();
    lemma_auto_spec_u128_to_from_le_bytes();
    let bytes = before + r.encode() + after;
    let at = before.len() as int;
    assert(bytes.subrange(at + 1, at + 9) =~= spec_u64_to_le_bytes(r.key_bytes().len() as u64));
}

} // verus!
