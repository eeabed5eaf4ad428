//! The index and the footer of a table file: which block holds which keys,
//! and where in the file the index stands.

use crate::storage::block::after;
use crate::storage::order::{
    key_le, key_lt, lemma_key_lt_asymmetric, lemma_key_lt_total, lemma_key_lt_transitive,
};
use crate::storage::record::{
    append_slice, len_at, lossy_text, string_from_utf8_lossy, DecodeError,
};
use crate::storage::run::{find, keys_ascending, keys_of, Keyed};
use vstd::bytes::*;
use vstd::prelude::*;
use vstd::slice::*;
use vstd::string::*;
use vstd::utf8::*;

verus! {

/// One entry of a table's index: the least key of a data block, the byte
/// offset at which the block starts in the file, and the block's number.
pub struct IndexEntry {
    pub key: String,
    pub offset: u64,
    pub block_index: u64,
}

/// The mathematical content of an [`IndexEntry`].
pub struct IndexEntryView {
    pub key: Seq<char>,
    pub offset: u64,
    pub block_index: u64,
}

impl IndexEntryView {
    /// The key's length can be held in a machine word.
    pub open spec fn fits(self) -> bool {
        encode_utf8(self.key).len() <= usize::MAX
    }

    /// The byte encoding: key length, key bytes, offset, block number.
    pub open spec fn encode(self) -> Seq<u8> {
        spec_u64_to_le_bytes(encode_utf8(self.key).len() as u64) + encode_utf8(self.key)
            + spec_u64_to_le_bytes(self.offset) + spec_u64_to_le_bytes(self.block_index)
    }
}

impl View for IndexEntry {
    type V = IndexEntryView;

    open spec fn view(&self) -> IndexEntryView {
        IndexEntryView { key: self.key@, offset: self.offset, block_index: self.block_index }
    }
}

impl Keyed for IndexEntry {
    open spec fn spec_key(&self) -> Seq<char> {
        self@.key
    }

    fn key_ref(&self) -> (k: &String) {
        &self.key
    }
}

/// The entries of a vector, each as its content.
pub open spec fn entry_views(entries: Seq<IndexEntry>) -> Seq<IndexEntryView> {
    Seq::new(entries.len(), |i: int| entries[i]@)
}

/// The keys of a sequence of index entries.
pub open spec fn entry_keys(entries: Seq<IndexEntryView>) -> Seq<Seq<char>> {
    Seq::new(entries.len(), |i: int| entries[i].key)
}

/// The encodings of the entries, one after the other.
pub open spec fn index_bytes(entries: Seq<IndexEntryView>) -> Seq<u8>
    decreases entries.len(),
{
    if entries.len() == 0 {
        Seq::empty()
    } else {
        entries.first().encode() + index_bytes(entries.drop_first())
    }
}

/// What reading one index entry at position `at` gives: the entry and the
/// position after it, or a short read.
#[verifier::opaque]
pub open spec fn decode_entry(bytes: Seq<u8>, at: int) -> Result<
    (IndexEntryView, int),
    DecodeError,
> {
    if at < 0 || at + 8 > bytes.len() {
        Err(DecodeError::ShortRead)
    } else {
        let key_end = at + 8 + len_at(bytes, at);
        if key_end + 16 > bytes.len() {
            Err(DecodeError::ShortRead)
        } else {
            Ok(
                (
                    IndexEntryView {
                        key: lossy_text(bytes.subrange(at + 8, key_end)),
                        offset: len_at(bytes, key_end),
                        block_index: len_at(bytes, key_end + 8),
                    },
                    key_end + 16,
                ),
            )
        }
    }
}

/// The entries that an index's bytes hold from position `at` to their end.
pub open spec fn decode_index(bytes: Seq<u8>, at: int) -> Result<Seq<IndexEntryView>, DecodeError>
    decreases bytes.len() - at,
{
    if at < 0 || at >= bytes.len() {
        Ok(Seq::empty())
    } else {
        match decode_entry(bytes, at) {
            Err(e) => Err(e),
            Ok((entry, next)) => if at < next <= bytes.len() {
                after(seq![entry], decode_index(bytes, next))
            } else {
                Err(DecodeError::ShortRead)
            },
        }
    }
}

/// Encoding one more entry appends its encoding.
pub proof fn lemma_index_bytes_push(entries: Seq<IndexEntryView>, e: IndexEntryView)
    ensures
        index_bytes(entries.push(e)) == index_bytes(entries) + e.encode(),
    decreases entries.len(),
{
    if entries.len() == 0 {
        assert(entries.push(e).drop_first() =~= entries);
        assert(index_bytes(entries.push(e)) =~= index_bytes(entries) + e.encode());
    } else {
        assert(entries.push(e).drop_first() =~= entries.drop_first().push(e));
        lemma_index_bytes_push(entries.drop_first(), e);
        assert(index_bytes(entries.push(e)) =~= index_bytes(entries) + e.encode());
    }
}

/// Reading an index entry undoes its encoding.
pub proof fn lemma_decode_entry(e: IndexEntryView, before: Seq<u8>, after: Seq<u8>)
    requires
        e.fits(),
    ensures
        e.encode().len() == 24 + encode_utf8(e.key).len(),
        decode_entry(before + e.encode() + after, before.len() as int) == Ok::<
            (IndexEntryView, int),
            DecodeError,
        >((e, (before.len() + e.encode().len()) as int)),
{
    reveal(decode_entry);
    lemma_auto_spec_u64_to_from_le_bytes();
    let bytes = before + e.encode() + after;
    let at = before.len() as int;
    let key_bytes = encode_utf8(e.key);
    let key_end = at + 8 + key_bytes.len();
    assert(bytes.subrange(at, at + 8) =~= spec_u64_to_le_bytes(key_bytes.len() as u64));
    assert(bytes.subrange(at + 8, key_end) =~= key_bytes);
    assert(bytes.subrange(key_end, key_end + 8) =~= spec_u64_to_le_bytes(e.offset));
    assert(bytes.subrange(key_end + 8, key_end + 16) =~= spec_u64_to_le_bytes(e.block_index));
    encode_utf8_valid_utf8(e.key);
    encode_utf8_decode_utf8(e.key);
}

/// An entry that was read ends within the bytes.
pub proof fn lemma_decode_entry_bounds(bytes: Seq<u8>, at: int)
    ensures
        decode_entry(bytes, at) matches Ok((_, next)) ==> 0 <= at && at + 24 <= next
            <= bytes.len(),
{
    reveal(decode_entry);
}

/// Every entry can be encoded.
pub open spec fn entries_fit(entries: Seq<IndexEntryView>) -> bool {
    forall|i: int| 0 <= i < entries.len() ==> (#[trigger] entries[i]).fits()
}

/// Reading an index gives back the entries that were written to it.
pub proof fn lemma_decode_index(before: Seq<u8>, entries: Seq<IndexEntryView>)
    requires
        entries_fit(entries),
    ensures
        decode_index(before + index_bytes(entries), before.len() as int) == Ok::<
            Seq<IndexEntryView>,
            DecodeError,
        >(entries),
    decreases entries.len(),
{
    let bytes = before + index_bytes(entries);
    let at = before.len() as int;
    if entries.len() == 0 {
        assert(entries =~= Seq::<IndexEntryView>::empty());
    } else {
        let e = entries.first();
        let rest = entries.drop_first();
        assert(entries[0].fits());
        let tail = index_bytes(rest);
        assert(bytes =~= before + e.encode() + tail);
        lemma_decode_entry(e, before, tail);
        lemma_decode_entry_bounds(bytes, at);
        assert(entries_fit(rest)) by {
            assert forall|i: int| 0 <= i < rest.len() implies (#[trigger] rest[i]).fits() by {
                assert(entries[i + 1].fits());
            }
        }
        lemma_decode_index(before + e.encode(), rest);
        assert(bytes =~= (before + e.encode()) + index_bytes(rest));
        assert(seq![e] + rest =~= entries);
    }
}

/// The block that the index assigns to `key`: the last one whose least key
/// is not after `key`, and the first block where `key` is before them all.
pub open spec fn covers(keys: Seq<Seq<char>>, key: Seq<char>, k: int) -> bool {
    &&& 0 <= k < keys.len()
    &&& k == 0 || key_le(keys[k], key)
    &&& k + 1 < keys.len() ==> key_lt(key, keys[k + 1])
}

/// The number of the block that the index assigns to `key`.
pub open spec fn assigned_block(keys: Seq<Seq<char>>, key: Seq<char>) -> int {
    choose|k: int| covers(keys, key, k)
}

/// Ascending keys assign at most one block to a key.
pub proof fn lemma_covers_unique(keys: Seq<Seq<char>>, key: Seq<char>, j: int, k: int)
    requires
        keys_ascending(keys),
        covers(keys, key, j),
        covers(keys, key, k),
    ensures
        j == k,
{
    lemma_key_lt_asymmetric(key, key);
    if j < k {
        if j + 1 < k {
            assert(key_lt(keys[j + 1], keys[k]));
            lemma_key_lt_transitive(key, keys[j + 1], keys[k]);
        }
        lemma_key_lt_asymmetric(key, keys[k]);
    } else if k < j {
        if k + 1 < j {
            assert(key_lt(keys[k + 1], keys[j]));
            lemma_key_lt_transitive(key, keys[k + 1], keys[j]);
        }
        lemma_key_lt_asymmetric(key, keys[j]);
    }
}

/// Ascending keys, at least one, assign a block to every key.
pub proof fn lemma_covers_some(keys: Seq<Seq<char>>, key: Seq<char>) -> (k: int)
    requires
        keys.len() > 0,
        keys_ascending(keys),
    ensures
        covers(keys, key, k),
        assigned_block(keys, key) == k,
    decreases keys.len(),
{
    let last = keys.len() - 1;
    let k = if keys.len() == 1 || key_le(keys[last], key) {
        last
    } else {
        let front = keys.drop_last();
        assert forall|i: int, j: int| 0 <= i < j < front.len() implies key_lt(
            #[trigger] front[i],
            #[trigger] front[j],
        ) by {
            assert(key_lt(keys[i], keys[j]));
        }
        let k = lemma_covers_some(front, key);
        lemma_key_lt_total(keys[last], key);
        assert(front[k] == keys[k]);
        if k + 1 < front.len() {
            assert(front[k + 1] == keys[k + 1]);
        }
        k
    };
    assert(covers(keys, key, k));
    lemma_covers_unique(keys, key, k, assigned_block(keys, key));
    k
}

/// A key that is before the least key of every block is assigned the first
/// block.
pub proof fn lemma_first_block(keys: Seq<Seq<char>>, key: Seq<char>)
    requires
        keys.len() > 0,
        keys_ascending(keys),
        key_lt(key, keys[0]),
    ensures
        assigned_block(keys, key) == 0,
{
    let k = lemma_covers_some(keys, key);
    if k > 0 {
        lemma_key_lt_asymmetric(key, key);
        assert(key_lt(keys[0], keys[k]));
        lemma_key_lt_transitive(key, keys[0], keys[k]);
        lemma_key_lt_asymmetric(key, keys[k]);
    }
}

/// The index of a table: for each data block its least key and where it is.
pub struct IndexBlock {
    entries: Vec<IndexEntry>,
}

impl View for IndexBlock {
    type V = Seq<IndexEntryView>;

    closed spec fn view(&self) -> Seq<IndexEntryView> {
        entry_views(self.entries@)
    }
}

impl IndexBlock {
    /// An index without entries.
    pub fn new() -> (index: IndexBlock)
        ensures
            index@ == Seq::<IndexEntryView>::empty(),
    {
        let index = IndexBlock { entries: Vec::new() };
        assert(index@ =~= Seq::<IndexEntryView>::empty());
        index
    }

    /// The number of entries.
    pub fn len(&self) -> (n: usize)
        ensures
            n == self@.len(),
    {
        self.entries.len()
    }

    /// The byte offset of the block of entry `k`.
    pub fn offset_at(&self, k: usize) -> (offset: u64)
        requires
            k < self@.len(),
        ensures
            offset == self@[k as int].offset,
    {
        self.entries[k].offset
    }

    /// Adds an entry at the end.
    pub fn push(&mut self, key: String, offset: u64, block_index: u64)
        ensures
            final(self)@ == old(self)@.push(IndexEntryView { key: key@, offset, block_index }),
    {
        self.entries.push(IndexEntry { key, offset, block_index });
        assert(self@ =~= old(self)@.push(IndexEntryView { key: key@, offset, block_index }));
    }

    /// The number of the block in which `key` is to be sought. Needs an
    /// index with at least one entry.
    pub fn get_block_index(&self, key: &String) -> (k: usize)
        requires
            self@.len() > 0,
        ensures
            k < self@.len(),
            keys_ascending(entry_keys(self@)) ==> covers(entry_keys(self@), key@, k as int) && k
                == assigned_block(entry_keys(self@), key@),
    {
        let ghost keys = entry_keys(self@);
        assert(keys_of(self.entries@) =~= keys);
        let k = match find(&self.entries, key) {
            Ok(at) => {
                assert(keys[at as int] == key@);
                at
            },
            Err(at) => {
                if at == 0 {
                    0
                } else {
                    at - 1
                }
            },
        };
        proof {
            if keys_ascending(keys) {
                assert(covers(keys, key@, k as int));
                lemma_covers_unique(keys, key@, k as int, assigned_block(keys, key@));
            }
        }
        k
    }

    /// The byte offset of the block in which `key` is to be sought. Needs
    /// an index with at least one entry.
    pub fn get_block_offset(&self, key: &String) -> (offset: u64)
        requires
            self@.len() > 0,
        ensures
            exists|k: int| 0 <= k < self@.len() && offset == (#[trigger] self@[k]).offset,
            keys_ascending(entry_keys(self@)) ==> offset == self@[assigned_block(
                entry_keys(self@),
                key@,
            )].offset,
    {
        let k = self.get_block_index(key);
        assert(self@[k as int].offset == self.entries[k as int].offset);
        self.entries[k].offset
    }

    /// The bytes of the index: its entries' encodings in order.
    pub fn to_bytes(&self) -> (bytes: Vec<u8>)
        ensures
            bytes@ == index_bytes(self@),
            entries_fit(self@),
    {
        let mut bytes: Vec<u8> = Vec::new();
        let mut i: usize = 0;
        while i < self.entries.len()
            invariant
                i <= self.entries@.len(),
                bytes@ == index_bytes(self@.take(i as int)),
                entries_fit(self@.take(i as int)),
            decreases self.entries@.len() - i,
        {
            let entry = &self.entries[i];
            let key_bytes = entry.key.as_str().as_bytes();
            proof {
                let done = self@.take(i as int);
                lemma_index_bytes_push(done, self@[i as int]);
                assert(self@.take(i + 1) =~= done.push(self@[i as int]));
            }
            let ghost before = bytes@;
            let mut field = u64_to_le_bytes(key_bytes.len() as u64);
            bytes.append(&mut field);
            append_slice(&mut bytes, key_bytes);
            let mut field = u64_to_le_bytes(entry.offset);
            bytes.append(&mut field);
            let mut field = u64_to_le_bytes(entry.block_index);
            bytes.append(&mut field);
            assert(bytes@ =~= before + self@[i as int].encode());
            i += 1;
        }
        assert(self@.take(i as int) =~= self@);
        bytes
    }

    /// Reads an index from its bytes, entry after entry to their end.
    pub fn from_bytes(bytes: &[u8]) -> (r: Result<IndexBlock, DecodeError>)
        ensures
            match r {
                Ok(index) => decode_index(bytes@, 0) == Ok::<Seq<IndexEntryView>, DecodeError>(
                    index@,
                ),
                Err(e) => decode_index(bytes@, 0) == Err::<Seq<IndexEntryView>, DecodeError>(e),
            },
    {
        let mut entries: Vec<IndexEntry> = Vec::new();
        let mut offset: usize = 0;
        let len = bytes.len();
        while offset < len
            invariant
                offset <= len == bytes@.len(),
                decode_index(bytes@, 0) == after(
                    entry_views(entries@),
                    decode_index(bytes@, offset as int),
                ),
            decreases len - offset,
        {
            proof {
                reveal(decode_entry);
            }
            if len - offset < 8 {
                return Err(DecodeError::ShortRead);
            }
            let key_len = u64_from_le_bytes(slice_subrange(bytes, offset, offset + 8));
            let key_start = offset + 8;
            if key_len > (len - key_start) as u64 {
                return Err(DecodeError::ShortRead);
            }
            let key_end = key_start + key_len as usize;
            if len - key_end < 16 {
                return Err(DecodeError::ShortRead);
            }
            let key = string_from_utf8_lossy(slice_subrange(bytes, key_start, key_end));
            let block_offset = u64_from_le_bytes(slice_subrange(bytes, key_end, key_end + 8));
            let block_index = u64_from_le_bytes(slice_subrange(bytes, key_end + 8, key_end + 16));
            let entry = IndexEntry { key, offset: block_offset, block_index };
            proof {
                let rest = decode_index(bytes@, key_end + 16);
                if let Ok(more) = rest {
                    assert(entry_views(entries@) + (seq![entry@] + more) =~= entry_views(
                        entries@.push(entry),
                    ) + more);
                }
            }
            entries.push(entry);
            offset = key_end + 16;
        }
        assert(entry_views(entries@) + Seq::<IndexEntryView>::empty() =~= entry_views(entries@));
        Ok(IndexBlock { entries })
    }
}

/// The trailer of a table file: where its index starts and how long it is.
#[derive(Debug, Clone, Copy, PartialEq, Eq, Structural)]
pub struct Footer {
    pub index_offset: u64,
    pub index_size: u64,
}

/// The width of an encoded footer.
pub const FOOTER_BYTES: usize = 16;

/// The bytes of a footer: index offset, then index size.
pub open spec fn footer_bytes(footer: Footer) -> Seq<u8> {
    spec_u64_to_le_bytes(footer.index_offset) + spec_u64_to_le_bytes(footer.index_size)
}

/// The footer that stands at the end of `bytes`.
pub open spec fn decode_footer(bytes: Seq<u8>) -> Result<Footer, DecodeError> {
    if bytes.len() < 16 {
        Err(DecodeError::ShortRead)
    } else {
        Ok(
            Footer {
                index_offset: len_at(bytes, bytes.len() - 16),
                index_size: len_at(bytes, bytes.len() - 8),
            },
        )
    }
}

/// Reading the end of bytes that end in a footer gives the footer back.
pub proof fn lemma_decode_footer(before: Seq<u8>, footer: Footer)
    ensures
        footer_bytes(footer).len() == 16,
        decode_footer(before + footer_bytes(footer)) == Ok::<Footer, DecodeError>(footer),
{
    lemma_auto_spec_u64_to_from_le_bytes();
    let bytes = before + footer_bytes(footer);
    assert(bytes.subrange(bytes.len() - 16, bytes.len() - 16 + 8) =~= spec_u64_to_le_bytes(
        footer.index_offset,
    ));
    assert(bytes.subrange(bytes.len() - 8, bytes.len() - 8 + 8) =~= spec_u64_to_le_bytes(
        footer.index_size,
    ));
}

impl Footer {
    /// The bytes of the footer.
    pub fn to_bytes(&self) -> (bytes: Vec<u8>)
        ensures
            bytes@ == footer_bytes(*self),
            bytes@.len() == 16,
    {
        let mut bytes = u64_to_le_bytes(self.index_offset);
        let mut field = u64_to_le_bytes(self.index_size);
        bytes.append(&mut field);
        bytes
    }

    /// Reads the footer that stands in the last sixteen bytes of `bytes`.
    pub fn from_bytes(bytes: &[u8]) -> (r: Result<Footer, DecodeError>)
        ensures
            r == decode_footer(bytes@),
    {
        let len = bytes.len();
        if len < FOOTER_BYTES {
            return Err(DecodeError::ShortRead);
        }
        let index_offset = u64_from_le_bytes(slice_subrange(bytes, len - 16, len - 8));
        let index_size = u64_from_le_bytes(slice_subrange(bytes, len - 8, len));
        Ok(Footer { index_offset, index_size })
    }
}

} // verus!
