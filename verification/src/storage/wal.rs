//! The write-ahead log: an append-only sequence of entries, one for each
//! write or deletion, each guarded by a CRC-32 of its value bytes. Replaying
//! the log rebuilds the in-memory table.

use crate::storage::block::after;
use crate::storage::memtable::MemTable;
use crate::storage::record::{
    append_slice, len_at, lossy_text, string_from_utf8_lossy, Record, RecordView,
};
use crate::storage::run::{records_map, views};
use vstd::bytes::*;
use vstd::prelude::*;
use vstd::slice::*;
use vstd::string::*;
use vstd::utf8::*;

verus! {

/// Width of the fixed part that starts every log entry: checksum, key
/// length, value length, timestamp.
pub const ENTRY_HEADER_BYTES: usize = 36;

/// Why a log cannot be replayed.
#[derive(Debug, Clone, Copy, PartialEq, Eq, Structural)]
pub enum WalError {
    /// The checksum of an entry does not match its value bytes.
    Corrupted,
}

/// One step of the bitwise CRC-32: the register moves right by one bit, and
/// takes the reflected polynomial where the bit that left was set.
pub open spec fn crc_shift(crc: u32) -> u32 {
    if crc & 1 == 1 {
        (crc >> 1) ^ 0xEDB8_8320
    } else {
        crc >> 1
    }
}

/// The register after one more byte.
pub open spec fn crc_byte(crc: u32, byte: u8) -> u32 {
    crc_shift(
        crc_shift(
            crc_shift(crc_shift(crc_shift(crc_shift(crc_shift(crc_shift(crc ^ (byte as u32))))))),
        ),
    )
}

/// The register after all of `bytes`, from all ones.
pub open spec fn crc_register(bytes: Seq<u8>) -> u32
    decreases bytes.len(),
{
    if bytes.len() == 0 {
        0xFFFF_FFFF
    } else {
        crc_byte(crc_register(bytes.drop_last()), bytes.last())
    }
}

/// The CRC-32 of `bytes` (reflected polynomial `0xEDB88320`, register and
/// result inverted). The CRC-32 of no bytes is 0.
pub open spec fn crc32(bytes: Seq<u8>) -> u32 {
    crc_register(bytes) ^ 0xFFFF_FFFF
}

fn shift(crc: u32) -> (next: u32)
    ensures
        next == crc_shift(crc),
{
    if crc & 1 == 1 {
        (crc >> 1) ^ 0xEDB8_8320
    } else {
        crc >> 1
    }
}

/// Computes the CRC-32 of `bytes`.
pub fn checksum(bytes: &[u8]) -> (crc: u32)
    ensures
        crc == crc32(bytes@),
{
    let mut register: u32 = 0xFFFF_FFFF;
    let mut i: usize = 0;
    while i < bytes.len()
        invariant
            i <= bytes@.len(),
            register == crc_register(bytes@.take(i as int)),
        decreases bytes@.len() - i,
    {
        proof {
            assert(bytes@.take(i + 1).drop_last() =~= bytes@.take(i as int));
        }
        register =
        shift(
            shift(shift(shift(shift(shift(shift(shift(register ^ (bytes[i] as u32)))))))),
        );
        i += 1;
    }
    assert(bytes@.take(i as int) =~= bytes@);
    register ^ 0xFFFF_FFFF
}

/// The log entry that records `r`: checksum of the value bytes, key length,
/// value length, timestamp, key bytes, value bytes. A deletion is an entry
/// with no value bytes.
pub open spec fn entry_bytes(r: RecordView) -> Seq<u8> {
    spec_u32_to_le_bytes(crc32(r.value_bytes())) + spec_u64_to_le_bytes(
        r.key_bytes().len() as u64,
    ) + spec_u64_to_le_bytes(r.value_bytes().len() as u64) + spec_u128_to_le_bytes(r.timestamp())
        + r.key_bytes() + r.value_bytes()
}

/// The entries of the records of `s`, one after the other.
pub open spec fn log_bytes(s: Seq<RecordView>) -> Seq<u8>
    decreases s.len(),
{
    if s.len() == 0 {
        Seq::empty()
    } else {
        entry_bytes(s.first()) + log_bytes(s.drop_first())
    }
}

/// What reading one entry at position `at` of a log gives: nothing where
/// the log ends before the entry does, a failure where the checksum does not
/// match, and else the record and the position after the entry. An entry
/// without value bytes is a deletion.
#[verifier::opaque]
pub open spec fn decode_entry(bytes: Seq<u8>, at: int) -> Result<
    Option<(RecordView, int)>,
    WalError,
> {
    if at < 0 || at + 36 > bytes.len() {
        Ok(None)
    } else {
        let crc = spec_u32_from_le_bytes(bytes.subrange(at, at + 4));
        let key_end = at + 36 + len_at(bytes, at + 4);
        let end = key_end + len_at(bytes, at + 12);
        let timestamp = spec_u128_from_le_bytes(bytes.subrange(at + 20, at + 36));
        if end > bytes.len() {
            Ok(None)
        } else if crc32(bytes.subrange(key_end, end)) != crc {
            Err(WalError::Corrupted)
        } else {
            let key = lossy_text(bytes.subrange(at + 36, key_end));
            if end == key_end {
                Ok(Some((RecordView::Tombstone { timestamp, key }, end)))
            } else {
                let value = lossy_text(bytes.subrange(key_end, end));
                Ok(Some((RecordView::Value { timestamp, key, value }, end)))
            }
        }
    }
}

/// The records that a log holds from position `at` on: entry after entry, up
/// to the end of the log or to an entry that the log ends in the middle of.
pub open spec fn decode_log(bytes: Seq<u8>, at: int) -> Result<Seq<RecordView>, WalError>
    decreases bytes.len() - at,
{
    match decode_entry(bytes, at) {
        Err(e) => Err(e),
        Ok(None) => Ok(Seq::empty()),
        Ok(Some((record, next))) => if at < next <= bytes.len() {
            after(seq![record], decode_log(bytes, next))
        } else {
            Ok(Seq::empty())
        },
    }
}

/// The record can stand in a log and be read back as it is: its key and
/// value can be encoded, and it is not a value without bytes, which a log
/// cannot tell from a deletion.
pub open spec fn loggable(r: RecordView) -> bool {
    &&& r.fits()
    &&& r is Value ==> r.value_bytes().len() > 0
}

/// Every record of `s` is loggable.
pub open spec fn all_loggable(s: Seq<RecordView>) -> bool {
    forall|i: int| 0 <= i < s.len() ==> loggable(#[trigger] s[i])
}

/// An entry is as long as its header, key and value.
pub proof fn lemma_entry_len(r: RecordView)
    requires
        r.fits(),
    ensures
        entry_bytes(r).len() == 36 + r.key_bytes().len() + r.value_bytes().len(),
{
    lemma_auto_spec_u32_to_from_le_bytes();
    lemma_auto_spec_u64_to_from_le_bytes();
    lemma_auto_spec_u128_to_from_le_bytes();
}

/// Reading undoes writing: wherever the entry of a loggable record stands
/// in a log, reading at its start gives the record back and ends right
/// after the entry.
pub proof fn lemma_decode_entry(r: RecordView, before: Seq<u8>, rest: Seq<u8>)
    requires
        loggable(r),
    ensures
        decode_entry(before + entry_bytes(r) + rest, before.len() as int) == Ok::<
            Option<(RecordView, int)>,
            WalError,
        >(Some((r, (before.len() + entry_bytes(r).len()) as int))),
{
    reveal(decode_entry);
    lemma_entry_len(r);
    lemma_auto_spec_u32_to_from_le_bytes();
    lemma_auto_spec_u64_to_from_le_bytes();
    lemma_auto_spec_u128_to_from_le_bytes();
    let bytes = before + entry_bytes(r) + rest;
    let at = before.len() as int;
    let key_bytes = r.key_bytes();
    let value_bytes = r.value_bytes();
    let key_end = at + 36 + key_bytes.len();
    let end = key_end + value_bytes.len();
    assert(bytes.subrange(at, at + 4) =~= spec_u32_to_le_bytes(crc32(value_bytes)));
    assert(bytes.subrange(at + 4, at + 4 + 8) =~= spec_u64_to_le_bytes(key_bytes.len() as u64));
    assert(bytes.subrange(at + 12, at + 12 + 8) =~= spec_u64_to_le_bytes(
        value_bytes.len() as u64,
    ));
    assert(bytes.subrange(at + 20, at + 36) =~= spec_u128_to_le_bytes(r.timestamp()));
    assert(bytes.subrange(at + 36, key_end) =~= key_bytes);
    assert(bytes.subrange(key_end, end) =~= value_bytes);
    encode_utf8_valid_utf8(r.key());
    encode_utf8_decode_utf8(r.key());
    match r {
        RecordView::Tombstone { .. } => {},
        RecordView::Value { value, .. } => {
            encode_utf8_valid_utf8(value);
            encode_utf8_decode_utf8(value);
        },
    }
}

/// An entry that the log ends in the middle of is not read: of an entry cut
/// short after `n` of its bytes, nothing is read.
pub proof fn lemma_decode_partial(r: RecordView, before: Seq<u8>, n: int)
    requires
        r.fits(),
        0 <= n < entry_bytes(r).len(),
    ensures
        decode_entry(before + entry_bytes(r).take(n), before.len() as int) == Ok::<
            Option<(RecordView, int)>,
            WalError,
        >(None),
{
    reveal(decode_entry);
    lemma_entry_len(r);
    lemma_auto_spec_u32_to_from_le_bytes();
    lemma_auto_spec_u64_to_from_le_bytes();
    lemma_auto_spec_u128_to_from_le_bytes();
    let bytes = before + entry_bytes(r).take(n);
    let at = before.len() as int;
    if n >= 36 {
        assert(bytes.subrange(at + 4, at + 4 + 8) =~= spec_u64_to_le_bytes(
            r.key_bytes().len() as u64,
        ));
        assert(bytes.subrange(at + 12, at + 12 + 8) =~= spec_u64_to_le_bytes(
            r.value_bytes().len() as u64,
        ));
    }
}

/// An entry that was read takes at least its header and ends within the log.
pub proof fn lemma_decode_entry_bounds(bytes: Seq<u8>, at: int)
    ensures
        decode_entry(bytes, at) matches Ok(Some((_, next))) ==> 0 <= at && at + 36 <= next
            <= bytes.len(),
{
    reveal(decode_entry);
}

/// Writing one more entry appends it to the log.
pub proof fn lemma_log_bytes_push(s: Seq<RecordView>, r: RecordView)
    ensures
        log_bytes(s.push(r)) == log_bytes(s) + entry_bytes(r),
    decreases s.len(),
{
    if s.len() == 0 {
        assert(s.push(r).drop_first() =~= s);
        assert(log_bytes(s.push(r)) =~= log_bytes(s) + entry_bytes(r));
    } else {
        assert(s.push(r).drop_first() =~= s.drop_first().push(r));
        lemma_log_bytes_push(s.drop_first(), r);
        assert(log_bytes(s.push(r)) =~= log_bytes(s) + entry_bytes(r));
    }
}

/// Reading a log gives the records whose entries were written to it, and
/// then what the bytes after them hold.
pub proof fn lemma_decode_log(before: Seq<u8>, s: Seq<RecordView>, rest: Seq<u8>)
    requires
        all_loggable(s),
    ensures
        decode_log(before + log_bytes(s) + rest, before.len() as int) == after(
            s,
            decode_log(
                before + log_bytes(s) + rest,
                (before.len() + log_bytes(s).len()) as int,
            ),
        ),
    decreases s.len(),
{
    let bytes = before + log_bytes(s) + rest;
    let at = before.len() as int;
    if s.len() == 0 {
        assert(log_bytes(s) =~= Seq::<u8>::empty());
        match decode_log(bytes, at) {
            Ok(more) => {
                assert(s + more =~= more);
            },
            Err(_) => {},
        }
    } else {
        let r = s.first();
        let tail = s.drop_first();
        assert(loggable(s[0]));
        let remaining = log_bytes(tail) + rest;
        assert(bytes =~= before + entry_bytes(r) + remaining);
        lemma_entry_len(r);
        lemma_decode_entry(r, before, remaining);
        assert(all_loggable(tail)) by {
            assert forall|i: int| 0 <= i < tail.len() implies loggable(#[trigger] tail[i]) by {
                assert(loggable(s[i + 1]));
            }
        }
        lemma_decode_log(before + entry_bytes(r), tail, rest);
        assert(bytes =~= (before + entry_bytes(r)) + log_bytes(tail) + rest);
        let end = (before.len() + log_bytes(s).len()) as int;
        match decode_log(bytes, end) {
            Ok(more) => {
                assert(seq![r] + (tail + more) =~= s + more);
            },
            Err(_) => {},
        }
    }
}

/// Replaying a log gives back the records that were written to it, in
/// their order.
pub proof fn lemma_replay(s: Seq<RecordView>)
    requires
        all_loggable(s),
    ensures
        decode_log(log_bytes(s), 0) == Ok::<Seq<RecordView>, WalError>(s),
{
    reveal(decode_entry);
    lemma_decode_log(Seq::empty(), s, Seq::empty());
    assert(Seq::<u8>::empty() + log_bytes(s) + Seq::<u8>::empty() =~= log_bytes(s));
    assert(s + Seq::<RecordView>::empty() =~= s);
}

/// A log that ends in the middle of an entry gives the records up to the
/// last complete entry.
pub proof fn lemma_replay_partial(s: Seq<RecordView>, r: RecordView, n: int)
    requires
        all_loggable(s),
        r.fits(),
        0 <= n < entry_bytes(r).len(),
    ensures
        decode_log(log_bytes(s) + entry_bytes(r).take(n), 0) == Ok::<Seq<RecordView>, WalError>(s),
{
    let cut = entry_bytes(r).take(n);
    lemma_decode_log(Seq::empty(), s, cut);
    lemma_decode_partial(r, log_bytes(s), n);
    assert(Seq::<u8>::empty() + log_bytes(s) + cut =~= log_bytes(s) + cut);
    assert(s + Seq::<RecordView>::empty() =~= s);
}

/// The log entry that records `record`.
pub fn entry_of(record: &Record) -> (bytes: Vec<u8>)
    ensures
        bytes@ == entry_bytes(record@),
        record@.fits(),
{
    let mut bytes: Vec<u8> = Vec::new();
    match record {
        Record::Tombstone { timestamp, key } => {
            let key_bytes = key.as_str().as_bytes();
            let no_bytes: Vec<u8> = Vec::new();
            assert(no_bytes@ =~= record@.value_bytes());
            let mut field = u32_to_le_bytes(checksum(no_bytes.as_slice()));
            bytes.append(&mut field);
            let mut field = u64_to_le_bytes(key_bytes.len() as u64);
            bytes.append(&mut field);
            let mut field = u64_to_le_bytes(0);
            bytes.append(&mut field);
            let mut field = u128_to_le_bytes(*timestamp);
            bytes.append(&mut field);
            append_slice(&mut bytes, key_bytes);
            assert(bytes@ =~= entry_bytes(record@));
        },
        Record::Value { timestamp, key, value } => {
            let key_bytes = key.as_str().as_bytes();
            let value_bytes = value.as_str().as_bytes();
            let mut field = u32_to_le_bytes(checksum(value_bytes));
            bytes.append(&mut field);
            let mut field = u64_to_le_bytes(key_bytes.len() as u64);
            bytes.append(&mut field);
            let mut field = u64_to_le_bytes(value_bytes.len() as u64);
            bytes.append(&mut field);
            let mut field = u128_to_le_bytes(*timestamp);
            bytes.append(&mut field);
            append_slice(&mut bytes, key_bytes);
            append_slice(&mut bytes, value_bytes);
        },
    }
    bytes
}

/// Reads the entry that starts at `offset` in a log, and says where the
/// next one starts. Gives nothing where the log ends before the entry does,
/// and fails where the entry's checksum does not match its value bytes.
pub fn read_entry(bytes: &[u8], offset: usize) -> (r: Result<Option<(Record, usize)>, WalError>)
    ensures
        match r {
            Ok(Some((record, next))) => decode_entry(bytes@, offset as int) == Ok::<
                Option<(RecordView, int)>,
                WalError,
            >(Some((record@, next as int))) && offset + 36 <= next <= bytes@.len(),
            Ok(None) => decode_entry(bytes@, offset as int) == Ok::<
                Option<(RecordView, int)>,
                WalError,
            >(None),
            Err(e) => decode_entry(bytes@, offset as int) == Err::<
                Option<(RecordView, int)>,
                WalError,
            >(e),
        },
{
    proof {
        reveal(decode_entry);
    }
    let len = bytes.len();
    if offset > len || len - offset < ENTRY_HEADER_BYTES {
        return Ok(None);
    }
    let crc = u32_from_le_bytes(slice_subrange(bytes, offset, offset + 4));
    let key_len = u64_from_le_bytes(slice_subrange(bytes, offset + 4, offset + 12));
    let value_len = u64_from_le_bytes(slice_subrange(bytes, offset + 12, offset + 20));
    let timestamp = u128_from_le_bytes(slice_subrange(bytes, offset + 20, offset + 36));
    let key_start = offset + ENTRY_HEADER_BYTES;
    if key_len > (len - key_start) as u64 {
        return Ok(None);
    }
    let key_end = key_start + key_len as usize;
    if value_len > (len - key_end) as u64 {
        return Ok(None);
    }
    let end = key_end + value_len as usize;
    let value_bytes = slice_subrange(bytes, key_end, end);
    if checksum(value_bytes) != crc {
        return Err(WalError::Corrupted);
    }
    let key = string_from_utf8_lossy(slice_subrange(bytes, key_start, key_end));
    if value_len == 0 {
        Ok(Some((Record::Tombstone { timestamp, key }, end)))
    } else {
        let value = string_from_utf8_lossy(value_bytes);
        Ok(Some((Record::Value { timestamp, key, value }, end)))
    }
}

/// The records of a log in their order: entry after entry, up to the end
/// of the log or to an entry that the log ends in the middle of. Fails on
/// the first entry whose checksum does not match.
pub fn read_log(bytes: &[u8]) -> (r: Result<Vec<Record>, WalError>)
    ensures
        match r {
            Ok(records) => decode_log(bytes@, 0) == Ok::<Seq<RecordView>, WalError>(
                views(records@),
            ),
            Err(e) => decode_log(bytes@, 0) == Err::<Seq<RecordView>, WalError>(e),
        },
{
    let mut records: Vec<Record> = Vec::new();
    let mut offset: usize = 0;
    loop
        invariant
            offset <= bytes@.len(),
            decode_log(bytes@, 0) == after(views(records@), decode_log(bytes@, offset as int)),
        decreases bytes@.len() - offset,
    {
        match read_entry(bytes, offset) {
            Err(e) => {
                return Err(e);
            },
            Ok(None) => {
                assert(views(records@) + Seq::<RecordView>::empty() =~= views(records@));
                return Ok(records);
            },
            Ok(Some((record, next))) => {
                proof {
                    let rest = decode_log(bytes@, next as int);
                    if let Ok(more) = rest {
                        assert(views(records@) + (seq![record@] + more) =~= views(
                            records@.push(record),
                        ) + more);
                    }
                }
                records.push(record);
                offset = next;
            },
        }
    }
}

/// Rebuilds the in-memory table from a log: every entry is applied in
/// order, a later entry for a key replacing an earlier one, an entry without
/// value bytes as a deletion.
pub fn into_memtable(bytes: &[u8]) -> (r: Result<MemTable, WalError>)
    ensures
        match r {
            Ok(table) => decode_log(bytes@, 0) matches Ok(records) && table@ == records_map(
                records,
            ),
            Err(e) => decode_log(bytes@, 0) == Err::<Seq<RecordView>, WalError>(e),
        },
{
    match read_log(bytes) {
        Ok(records) => Ok(MemTable::from_records(records)),
        Err(e) => Err(e),
    }
}

} // verus!
