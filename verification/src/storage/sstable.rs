//! Sorted string tables: immutable files of records in key order. A file is
//! a row of data blocks, each padded to `BLOCKSIZE` bytes, then an index with
//! one entry per block, then a footer that says where the index stands.

use crate::storage::block::{
    all_fit, block_bytes, decode_block, encode_all, keys_nonempty, lemma_decode_block,
    lemma_encode_all_len, lemma_encode_all_push, total_size, zeros, Block, BLOCKSIZE,
};
use crate::storage::index::{
    assigned_block, covers, decode_footer, decode_index, entries_fit, entry_keys, footer_bytes,
    index_bytes, lemma_covers_some, lemma_decode_entry, lemma_decode_footer, lemma_decode_index,
    lemma_index_bytes_push, Footer, IndexBlock, IndexEntryView,
};
use crate::storage::order::{key_lt, lemma_key_lt_asymmetric, lemma_key_lt_transitive};
use crate::storage::record::{DecodeError, Record, RecordView};
use crate::storage::run::{
    ascending, content_of, has_key, keys_ascending, lemma_apply_keys, lemma_run_map, record_of,
    records_map, text_of, value_of, views,
};
use vstd::prelude::*;
use vstd::seq_lib::lemma_flatten_concat;
use vstd::slice::*;

verus! {

/// The blocks of a vector, each as the records that it holds.
pub open spec fn block_views(blocks: Seq<Block>) -> Seq<Seq<RecordView>> {
    Seq::new(blocks.len(), |k: int| blocks[k]@)
}

/// Every block holds at least one record, and its records fit into
/// `BLOCKSIZE` bytes; the blocks together can be addressed by a 64-bit offset.
pub open spec fn well_packed(blocks: Seq<Seq<RecordView>>) -> bool {
    &&& blocks.len() * BLOCKSIZE <= u64::MAX
    &&& forall|k: int|
        0 <= k < blocks.len() ==> (#[trigger] blocks[k]).len() > 0 && all_fit(blocks[k])
            && total_size(blocks[k]) <= BLOCKSIZE
}

/// No block could have taken the first record of the next: a record starts
/// a new block only where it does not fit into what is left of the current one.
pub open spec fn greedy(blocks: Seq<Seq<RecordView>>) -> bool {
    forall|k: int|
        0 <= k < blocks.len() - 1 ==> total_size(#[trigger] blocks[k]) + blocks[k + 1][0].size()
            > BLOCKSIZE
}

/// The index of a table with the data blocks `blocks`: for block `k` its
/// first key, the offset `k * BLOCKSIZE` and the number `k`.
pub open spec fn index_of(blocks: Seq<Seq<RecordView>>) -> Seq<IndexEntryView> {
    Seq::new(
        blocks.len(),
        |k: int|
            IndexEntryView {
                key: blocks[k][0].key(),
                offset: (k * BLOCKSIZE) as u64,
                block_index: k as u64,
            },
    )
}

/// The data part of a table file: the blocks' bytes in order.
pub open spec fn data_bytes(blocks: Seq<Seq<RecordView>>) -> Seq<u8>
    decreases blocks.len(),
{
    if blocks.len() == 0 {
        Seq::empty()
    } else {
        data_bytes(blocks.drop_last()) + block_bytes(blocks.last())
    }
}

/// The footer of a table with the data blocks `blocks`.
pub open spec fn footer_of(blocks: Seq<Seq<RecordView>>) -> Footer {
    Footer {
        index_offset: (blocks.len() * BLOCKSIZE) as u64,
        index_size: index_bytes(index_of(blocks)).len() as u64,
    }
}

/// The bytes of a table file: data blocks, index, footer.
pub open spec fn file_bytes(blocks: Seq<Seq<RecordView>>) -> Seq<u8> {
    data_bytes(blocks) + index_bytes(index_of(blocks)) + footer_bytes(footer_of(blocks))
}

/// The number of records in the blocks before block `k`.
pub open spec fn start_of(blocks: Seq<Seq<RecordView>>, k: int) -> int {
    blocks.take(k).flatten().len() as int
}

/// Record `i` of block `k` is record `start_of(blocks, k) + i` of the whole table.
pub proof fn lemma_position(blocks: Seq<Seq<RecordView>>, k: int, i: int)
    requires
        0 <= k < blocks.len(),
        0 <= i < blocks[k].len(),
    ensures
        start_of(blocks, k) + i < blocks.flatten().len(),
        blocks.flatten()[start_of(blocks, k) + i] == blocks[k][i],
{
    let head = blocks.take(k);
    let tail = blocks.skip(k + 1);
    assert(blocks =~= head + seq![blocks[k]] + tail);
    lemma_flatten_concat(head + seq![blocks[k]], tail);
    lemma_flatten_concat(head, seq![blocks[k]]);
    seq![blocks[k]].lemma_flatten_one_element();
}

/// A later block starts after the end of an earlier one.
pub proof fn lemma_start_monotonic(blocks: Seq<Seq<RecordView>>, j: int, k: int)
    requires
        0 <= j < k <= blocks.len(),
    ensures
        start_of(blocks, j) + blocks[j].len() <= start_of(blocks, k),
{
    let head = blocks.take(j);
    let mid = blocks.subrange(j + 1, k);
    assert(blocks.take(k) =~= head + seq![blocks[j]] + mid);
    lemma_flatten_concat(head + seq![blocks[j]], mid);
    lemma_flatten_concat(head, seq![blocks[j]]);
    seq![blocks[j]].lemma_flatten_one_element();
}

/// Every record of the whole table is a record of one of the blocks.
pub proof fn lemma_locate(blocks: Seq<Seq<RecordView>>, p: int) -> (at: (int, int))
    requires
        0 <= p < blocks.flatten().len(),
    ensures
        0 <= at.0 < blocks.len(),
        0 <= at.1 < blocks[at.0].len(),
        p == start_of(blocks, at.0) + at.1,
    decreases blocks.len(),
{
    blocks.lemma_flatten_and_flatten_alt_are_equivalent();
    if blocks.len() == 0 {
        (0, 0)
    } else {
        let front = blocks.drop_last();
        front.lemma_flatten_and_flatten_alt_are_equivalent();
        assert(blocks.take(blocks.len() - 1) =~= front);
        if p < front.flatten().len() {
            let at = lemma_locate(front, p);
            assert(front.take(at.0) =~= blocks.take(at.0));
            at
        } else {
            (blocks.len() - 1, p - front.flatten().len())
        }
    }
}

/// In a table whose records ascend, a record of an earlier block is before
/// every record of a later block, and the records of each block ascend.
pub proof fn lemma_block_order(blocks: Seq<Seq<RecordView>>, j: int, i: int, k: int, l: int)
    requires
        ascending(blocks.flatten()),
        0 <= j <= k < blocks.len(),
        0 <= i < blocks[j].len(),
        0 <= l < blocks[k].len(),
        j < k || i < l,
    ensures
        key_lt(blocks[j][i].key(), blocks[k][l].key()),
{
    let all = blocks.flatten();
    lemma_position(blocks, j, i);
    lemma_position(blocks, k, l);
    if j < k {
        lemma_start_monotonic(blocks, j, k);
    }
    let p = start_of(blocks, j) + i;
    let q = start_of(blocks, k) + l;
    assert(key_lt(all[p].key(), all[q].key()));
}

/// In a table whose records ascend, the least keys of the blocks ascend.
pub proof fn lemma_index_ascending(blocks: Seq<Seq<RecordView>>)
    requires
        ascending(blocks.flatten()),
        forall|k: int| 0 <= k < blocks.len() ==> (#[trigger] blocks[k]).len() > 0,
    ensures
        keys_ascending(entry_keys(index_of(blocks))),
{
    let keys = entry_keys(index_of(blocks));
    assert forall|j: int, k: int| 0 <= j < k < keys.len() implies key_lt(
        #[trigger] keys[j],
        #[trigger] keys[k],
    ) by {
        assert(blocks[j].len() > 0 && blocks[k].len() > 0);
        lemma_block_order(blocks, j, 0, k, 0);
    }
}

/// In a table whose records ascend, the block that the index assigns to a
/// key holds the key's record, if the table has one.
pub proof fn lemma_block_of_key(blocks: Seq<Seq<RecordView>>, key: Seq<char>, k: int)
    requires
        ascending(blocks.flatten()),
        forall|j: int| 0 <= j < blocks.len() ==> (#[trigger] blocks[j]).len() > 0,
        covers(entry_keys(index_of(blocks)), key, k),
    ensures
        ascending(blocks[k]),
        record_of(records_map(blocks.flatten()), key) == record_of(records_map(blocks[k]), key),
{
    let all = blocks.flatten();
    let block = blocks[k];
    let keys = entry_keys(index_of(blocks));
    assert forall|i: int, l: int| 0 <= i < l < block.len() implies key_lt(
        #[trigger] block[i].key(),
        #[trigger] block[l].key(),
    ) by {
        lemma_block_order(blocks, k, i, k, l);
    }
    lemma_run_map(all);
    lemma_run_map(block);
    if has_key(block, key) {
        let i = choose|i: int| 0 <= i < block.len() && #[trigger] block[i].key() == key;
        lemma_position(blocks, k, i);
        let p = start_of(blocks, k) + i;
        assert(all[p].key() == key);
    } else {
        if has_key(all, key) {
            let p = choose|p: int| 0 <= p < all.len() && #[trigger] all[p].key() == key;
            let (j, i) = lemma_locate(blocks, p);
            lemma_position(blocks, j, i);
            lemma_key_lt_asymmetric(key, key);
            assert(blocks[j].len() > 0 && blocks[k].len() > 0);
            if j < k {
                assert(keys[k] == blocks[k][0].key());
                lemma_block_order(blocks, j, i, k, 0);
                if keys[k] != key {
                    lemma_key_lt_transitive(blocks[j][i].key(), keys[k], key);
                }
            } else if j > k {
                assert(blocks[k + 1].len() > 0);
                assert(keys[k + 1] == blocks[k + 1][0].key());
                if j > k + 1 || i > 0 {
                    lemma_block_order(blocks, k + 1, 0, j, i);
                    lemma_key_lt_transitive(key, keys[k + 1], blocks[j][i].key());
                }
            } else {
                assert(block[i].key() == key);
            }
        }
        lemma_apply_keys(Map::empty(), all, key);
        lemma_apply_keys(Map::empty(), block, key);
    }
}

/// The index of a table is as long as its entries say, and stays below
/// the length of the data part.
pub proof fn lemma_index_size(blocks: Seq<Seq<RecordView>>)
    requires
        forall|k: int|
            0 <= k < blocks.len() ==> (#[trigger] blocks[k]).len() > 0 && all_fit(blocks[k])
                && total_size(blocks[k]) <= BLOCKSIZE,
    ensures
        index_bytes(index_of(blocks)).len() <= blocks.len() * BLOCKSIZE,
    decreases blocks.len(),
{
    if blocks.len() > 0 {
        let front = blocks.drop_last();
        let last = index_of(blocks).last();
        assert forall|k: int| 0 <= k < front.len() implies (#[trigger] front[k]).len() > 0
            && all_fit(front[k]) && total_size(front[k]) <= BLOCKSIZE by {
            assert(front[k] == blocks[k]);
        }
        lemma_index_size(front);
        assert(index_of(blocks) =~= index_of(front).push(last));
        lemma_index_bytes_push(index_of(front), last);
        let block = blocks[blocks.len() - 1];
        assert(block.len() > 0 && all_fit(block) && total_size(block) <= BLOCKSIZE);
        assert(block[0].fits());
        lemma_decode_entry(last, Seq::empty(), Seq::empty());
        assert(block[0].size() <= total_size(block));
    }
}

/// The state of packing records into blocks: the blocks that are closed,
/// with their index, and the block that is being filled.
struct Packer {
    data_blocks: Vec<Block>,
    index_block: IndexBlock,
    index_size: u64,
    block_records: Vec<Record>,
    offset: usize,
}

impl Packer {
    /// The blocks that are closed.
    spec fn closed(&self) -> Seq<Seq<RecordView>> {
        block_views(self.data_blocks@)
    }

    /// The records of the block that is being filled.
    spec fn open(&self) -> Seq<RecordView> {
        views(self.block_records@)
    }

    /// The records packed so far.
    spec fn all(&self) -> Seq<RecordView> {
        self.closed().flatten() + self.open()
    }

    /// The blocks so far, the open one last where it holds a record.
    spec fn blocks(&self) -> Seq<Seq<RecordView>> {
        if self.open().len() > 0 {
            self.closed().push(self.open())
        } else {
            self.closed()
        }
    }

    spec fn inv(&self) -> bool {
        &&& forall|k: int|
            0 <= k < self.closed().len() ==> (#[trigger] self.closed()[k]).len() > 0 && all_fit(
                self.closed()[k],
            ) && total_size(self.closed()[k]) <= BLOCKSIZE
        &&& self.index_block@ == index_of(self.closed())
        &&& self.index_size == index_bytes(self.index_block@).len()
        &&& self.index_size <= self.closed().len() * BLOCKSIZE
        &&& greedy(self.closed())
        &&& self.offset == total_size(self.open())
        &&& self.offset <= BLOCKSIZE
        &&& all_fit(self.open())
        &&& self.blocks().len() <= self.all().len()
        &&& self.closed().len() > 0 ==> self.open().len() > 0 && total_size(self.closed().last())
            + self.open()[0].size() > BLOCKSIZE
    }

    fn new() -> (packer: Packer)
        ensures
            packer.inv(),
            packer.all() == Seq::<RecordView>::empty(),
    {
        let packer = Packer {
            data_blocks: Vec::new(),
            index_block: IndexBlock::new(),
            index_size: 0,
            block_records: Vec::new(),
            offset: 0,
        };
        proof {
            assert(packer.closed() =~= Seq::<Seq<RecordView>>::empty());
            assert(index_of(packer.closed()) =~= Seq::<IndexEntryView>::empty());
            assert(packer.all() =~= Seq::<RecordView>::empty());
        }
        packer
    }

    /// Closes the block that is being filled: it joins the closed blocks
    /// and gets its entry in the index.
    fn close(&mut self)
        requires
            old(self).inv(),
            old(self).open().len() > 0,
            old(self).all().len() * BLOCKSIZE <= u64::MAX,
        ensures
            final(self).closed() == old(self).closed().push(old(self).open()),
            final(self).open() == Seq::<RecordView>::empty(),
            final(self).all() == old(self).all(),
            final(self).offset == 0,
            final(self).index_block@ == index_of(final(self).closed()),
            final(self).index_size == index_bytes(final(self).index_block@).len(),
            final(self).index_size <= final(self).closed().len() * BLOCKSIZE,
            greedy(final(self).closed()),
            forall|k: int|
                0 <= k < final(self).closed().len() ==> (#[trigger] final(self).closed()[k]).len()
                    > 0 && all_fit(final(self).closed()[k]) && total_size(final(self).closed()[k])
                    <= BLOCKSIZE,
            final(self).closed().len() <= final(self).all().len(),
    {
        let ghost closed = self.closed();
        let ghost open = self.open();
        let min_key = self.block_records[0].get_key();
        let key_len = min_key.as_str().as_bytes().len();
        let current = self.data_blocks.len() as u64;
        proof {
            assert(open[0].fits());
            assert(open[0].size() <= total_size(open));
            let entry = IndexEntryView {
                key: open[0].key(),
                offset: (current * BLOCKSIZE) as u64,
                block_index: current,
            };
            lemma_index_bytes_push(index_of(closed), entry);
            lemma_decode_entry(entry, Seq::empty(), Seq::empty());
            assert(index_of(closed.push(open)) =~= index_of(closed).push(entry));
            closed.lemma_flatten_push(open);
            lemma_greedy_push(closed, open);
        }
        self.index_block.push(min_key, current * (BLOCKSIZE as u64), current);
        self.index_size = self.index_size + key_len as u64 + 24;
        let mut block_records: Vec<Record> = Vec::new();
        core::mem::swap(&mut self.block_records, &mut block_records);
        let block = Block::new(block_records);
        self.data_blocks.push(block);
        self.offset = 0;
        proof {
            assert(self.closed() =~= closed.push(open));
            assert(self.open() =~= Seq::<RecordView>::empty());
            assert(self.all() =~= closed.flatten() + open);
            assert forall|k: int| 0 <= k < self.closed().len() implies (
            #[trigger] self.closed()[k]).len() > 0 && all_fit(self.closed()[k]) && total_size(
                self.closed()[k],
            ) <= BLOCKSIZE by {
                if k < closed.len() {
                    assert(self.closed()[k] == closed[k]);
                }
            }
        }
    }

    /// Packs one more record: into the block that is being filled where it
    /// fits there, and else into a new block.
    fn add(&mut self, record: Record)
        requires
            old(self).inv(),
            record@.size() <= BLOCKSIZE,
            (old(self).all().len() + 1) * BLOCKSIZE <= u64::MAX,
        ensures
            final(self).inv(),
            final(self).all() == old(self).all().push(record@),
    {
        let size = record.size();
        if self.offset + size > BLOCKSIZE {
            self.close();
        }
        let ghost closed = self.closed();
        let ghost open = self.open();
        proof {
            lemma_encode_all_push(open, record@);
            assert(views(self.block_records@.push(record)) =~= open.push(record@));
            assert(closed.flatten() + open.push(record@) =~= (closed.flatten() + open).push(
                record@,
            ));
            assert forall|i: int| 0 <= i < open.push(record@).len() implies (
            #[trigger] open.push(record@)[i]).fits() by {
                if i < open.len() {
                    assert(open[i].fits());
                }
            }
        }
        self.offset = self.offset + size;
        self.block_records.push(record);
    }

    /// Closes the last block and hands out the table.
    fn finish(self) -> (table: SSTable)
        requires
            self.inv(),
            self.all().len() * BLOCKSIZE <= u64::MAX,
        ensures
            table@.flatten() == self.all(),
            well_packed(table@),
            greedy(table@),
            table.spec_level() == 0,
    {
        let mut packer = self;
        if packer.block_records.len() > 0 {
            packer.close();
        }
        proof {
            let closed = packer.closed().flatten();
            assert(closed + Seq::<RecordView>::empty() =~= closed);
        }
        let footer = Footer {
            index_offset: (packer.data_blocks.len() as u64) * (BLOCKSIZE as u64),
            index_size: packer.index_size,
        };
        SSTable {
            data_blocks: packer.data_blocks,
            index_block: packer.index_block,
            footer,
            level: 0,
        }
    }
}

/// Closing a block keeps the packing greedy where the block's first record
/// did not fit into the block before it.
proof fn lemma_greedy_push(closed: Seq<Seq<RecordView>>, open: Seq<RecordView>)
    requires
        greedy(closed),
        closed.len() > 0 ==> total_size(closed.last()) + open[0].size() > BLOCKSIZE,
    ensures
        greedy(closed.push(open)),
{
    let blocks = closed.push(open);
    assert forall|k: int| 0 <= k < blocks.len() - 1 implies total_size(#[trigger] blocks[k])
        + blocks[k + 1][0].size() > BLOCKSIZE by {
        if k < closed.len() - 1 {
            assert(total_size(closed[k]) + closed[k + 1][0].size() > BLOCKSIZE);
        }
    }
}

/// A sorted string table in memory: the data blocks, the index over them
/// and the footer, as they will stand in the file, and the level that the
/// file's name will carry.
pub struct SSTable {
    data_blocks: Vec<Block>,
    index_block: IndexBlock,
    footer: Footer,
    level: u8,
}

impl View for SSTable {
    type V = Seq<Seq<RecordView>>;

    /// The table as its data blocks, each the run of records that it holds.
    closed spec fn view(&self) -> Seq<Seq<RecordView>> {
        block_views(self.data_blocks@)
    }
}

impl SSTable {
    #[verifier::type_invariant]
    spec fn consistent(&self) -> bool {
        &&& well_packed(self@)
        &&& self.index_block@ == index_of(self@)
        &&& self.footer == footer_of(self@)
    }

    /// The level that the table belongs to.
    pub closed spec fn spec_level(&self) -> u8 {
        self.level
    }

    /// The level that the table belongs to: 0 for a table flushed from
    /// memory, one more than that of its inputs for a compacted one.
    pub fn level(&self) -> (level: u8)
        ensures
            level == self.spec_level(),
    {
        self.level
    }

    /// Moves the table to `level`.
    pub fn set_level(&mut self, level: u8)
        ensures
            final(self)@ == old(self)@,
            final(self).spec_level() == level,
    {
        proof {
            use_type_invariant(&*self);
        }
        self.level = level;
    }

    /// Packs `records` into a table of level 0. The records go into blocks
    /// in their order; a record starts a new block exactly where it does not
    /// fit into what is left of the current one. Needs records that each fit
    /// into a block, and no more of them than a file can address.
    pub fn from_records(records: Vec<Record>) -> (table: SSTable)
        requires
            forall|i: int|
                0 <= i < records@.len() ==> (#[trigger] records@[i])@.size() <= BLOCKSIZE,
            records@.len() * BLOCKSIZE <= u64::MAX,
        ensures
            table@.flatten() == views(records@),
            well_packed(table@),
            greedy(table@),
            table.spec_level() == 0,
    {
        let mut packer = Packer::new();
        let mut i: usize = 0;
        proof {
            assert(views(records@).take(0) =~= Seq::<RecordView>::empty());
        }
        while i < records.len()
            invariant
                i <= records@.len(),
                records@.len() * BLOCKSIZE <= u64::MAX,
                forall|j: int|
                    0 <= j < records@.len() ==> (#[trigger] records@[j])@.size() <= BLOCKSIZE,
                packer.inv(),
                packer.all() == views(records@).take(i as int),
            decreases records@.len() - i,
        {
            let record = records[i].clone();
            proof {
                assert(views(records@).take(i + 1) =~= views(records@).take(i as int).push(
                    record@,
                ));
            }
            packer.add(record);
            i = i + 1;
        }
        proof {
            assert(views(records@).take(i as int) =~= views(records@));
        }
        packer.finish()
    }

    /// The records of the table in their order.
    pub fn to_records(&self) -> (records: Vec<Record>)
        ensures
            views(records@) == self@.flatten(),
    {
        let mut records: Vec<Record> = Vec::new();
        let mut k: usize = 0;
        proof {
            assert(self@.take(0) =~= Seq::<Seq<RecordView>>::empty());
        }
        while k < self.data_blocks.len()
            invariant
                k <= self.data_blocks@.len(),
                views(records@) == self@.take(k as int).flatten(),
            decreases self.data_blocks@.len() - k,
        {
            let block = self.data_blocks[k].records();
            let ghost before = views(records@);
            let mut i: usize = 0;
            while i < block.len()
                invariant
                    i <= block@.len(),
                    records@.len() == before.len() + i,
                    forall|j: int| 0 <= j < before.len() ==> (#[trigger] records@[j])@ == before[j],
                    forall|j: int|
                        0 <= j < i ==> (#[trigger] records@[before.len() + j])@ == block@[j]@,
                decreases block@.len() - i,
            {
                let copy = block[i].clone();
                records.push(copy);
                i += 1;
            }
            proof {
                assert forall|j: int| 0 <= j < records@.len() implies views(records@)[j] == (before
                    + views(block@))[j] by {
                    if j >= before.len() {
                        assert(records@[before.len() + (j - before.len())]@ == block@[j
                            - before.len()]@);
                    }
                }
                assert(views(records@) =~= before + views(block@));
                assert(self@.take(k + 1) =~= self@.take(k as int).push(self@[k as int]));
                self@.take(k as int).lemma_flatten_push(self@[k as int]);
            }
            k += 1;
        }
        assert(self@.take(k as int) =~= self@);
        records
    }

    /// The bytes of the table file: every data block padded to `BLOCKSIZE`,
    /// then the index, then the footer.
    pub fn to_bytes(&self) -> (bytes: Vec<u8>)
        ensures
            bytes@ == file_bytes(self@),
    {
        proof {
            use_type_invariant(self);
        }
        let mut bytes: Vec<u8> = Vec::new();
        let mut k: usize = 0;
        while k < self.data_blocks.len()
            invariant
                k <= self.data_blocks@.len(),
                well_packed(self@),
                bytes@ == data_bytes(self@.take(k as int)),
            decreases self.data_blocks@.len() - k,
        {
            let mut block = self.data_blocks[k].to_bytes();
            proof {
                assert(self@.take(k + 1).drop_last() =~= self@.take(k as int));
            }
            bytes.append(&mut block);
            k += 1;
        }
        assert(self@.take(k as int) =~= self@);
        let mut index = self.index_block.to_bytes();
        bytes.append(&mut index);
        let mut footer = self.footer.to_bytes();
        bytes.append(&mut footer);
        bytes
    }

    /// The value written under `key`, sought in the block that the index
    /// assigns to the key; nothing where that block has a tombstone for the
    /// key or does not have the key. In a table whose records ascend, this
    /// is what the table as a whole holds under the key.
    pub fn get_value(&self, key: &String) -> (r: Option<String>)
        ensures
            ascending(self@.flatten()) ==> text_of(r) == value_of(
                records_map(self@.flatten()),
                key@,
            ),
            r matches Some(value) ==> exists|i: int|
                0 <= i < self@.flatten().len() && (#[trigger] self@.flatten()[i]).key() == key@
                    && self@.flatten()[i].value() == Some(value@),
    {
        match self.get_record(key) {
            Some(Record::Value { value, .. }) => Some(value),
            Some(Record::Tombstone { .. }) => None,
            None => None,
        }
    }

    /// The record with the key `key`, sought in the block that the index
    /// assigns to the key. In a table whose records ascend, this is the
    /// record that the table as a whole holds under the key.
    pub fn get_record(&self, key: &String) -> (r: Option<Record>)
        ensures
            ascending(self@.flatten()) ==> content_of(r) == record_of(
                records_map(self@.flatten()),
                key@,
            ),
            r matches Some(record) ==> record@.key() == key@ && self@.flatten().contains(
                record@,
            ),
    {
        proof {
            use_type_invariant(self);
        }
        if self.data_blocks.len() == 0 {
            proof {
                assert(self@ =~= Seq::<Seq<RecordView>>::empty());
            }
            return None;
        }
        proof {
            if ascending(self@.flatten()) {
                lemma_index_ascending(self@);
            }
        }
        let k = self.index_block.get_block_index(key);
        proof {
            if ascending(self@.flatten()) {
                lemma_block_of_key(self@, key@, k as int);
            }
        }
        let found = self.data_blocks[k].get_record(key);
        proof {
            if found is Some {
                let block = self@[k as int];
                let i = choose|i: int| 0 <= i < block.len() && block[i] == found->Some_0@;
                lemma_position(self@, k as int, i);
            }
        }
        found
    }
}

/// The index of the table file `bytes`, read from where the footer says.
pub open spec fn file_index(bytes: Seq<u8>) -> Result<Seq<IndexEntryView>, DecodeError> {
    match decode_footer(bytes) {
        Err(e) => Err(e),
        Ok(footer) => {
            let end = footer.index_offset + footer.index_size;
            if end > bytes.len() {
                Err(DecodeError::ShortRead)
            } else {
                decode_index(bytes.subrange(footer.index_offset as int, end), 0)
            }
        },
    }
}

/// The records of the data block that starts at `offset` in the table file `bytes`.
pub open spec fn file_block(bytes: Seq<u8>, offset: u64) -> Result<Seq<RecordView>, DecodeError> {
    if offset + BLOCKSIZE > bytes.len() {
        Err(DecodeError::ShortRead)
    } else {
        decode_block(bytes.subrange(offset as int, offset + BLOCKSIZE), 0)
    }
}

/// The record that a lookup of `key` finds in the table file `bytes`: the
/// one that the block which the index assigns to the key holds under it, or
/// the reason the file cannot be read. A file without blocks holds nothing.
pub open spec fn file_find(bytes: Seq<u8>, key: Seq<char>) -> Result<
    Option<RecordView>,
    DecodeError,
> {
    match file_index(bytes) {
        Err(e) => Err(e),
        Ok(index) => if index.len() == 0 {
            Ok(None)
        } else {
            match file_block(bytes, index[assigned_block(entry_keys(index), key)].offset) {
                Err(e) => Err(e),
                Ok(records) => Ok(record_of(records_map(records), key)),
            }
        },
    }
}

/// The value of a record that was found; nothing for a tombstone or where
/// no record was found.
pub open spec fn shown(found: Option<RecordView>) -> Option<Seq<char>> {
    match found {
        Some(record) => record.value(),
        None => None,
    }
}

/// What a lookup of `key` in the table file `bytes` reports: the value of
/// the record found, or the reason the file cannot be read.
pub open spec fn file_get(bytes: Seq<u8>, key: Seq<char>) -> Result<
    Option<Seq<char>>,
    DecodeError,
> {
    match file_find(bytes, key) {
        Err(e) => Err(e),
        Ok(found) => Ok(shown(found)),
    }
}

/// The content of what a search returned.
pub open spec fn found_content(r: Result<Option<Record>, DecodeError>) -> Result<
    Option<RecordView>,
    DecodeError,
> {
    match r {
        Ok(found) => Ok(content_of(found)),
        Err(e) => Err(e),
    }
}

/// What a lookup of `key` relies on in a table file: the keys of the index
/// ascend, and so do those of the block that it assigns to the key.
pub open spec fn file_in_order(bytes: Seq<u8>, key: Seq<char>) -> bool {
    file_index(bytes) matches Ok(index) ==> {
        &&& keys_ascending(entry_keys(index))
        &&& index.len() > 0 ==> (file_block(
            bytes,
            index[assigned_block(entry_keys(index), key)].offset,
        ) matches Ok(records) ==> ascending(records))
    }
}

/// The text of what a lookup returned.
pub open spec fn found_text(r: Result<Option<String>, DecodeError>) -> Result<
    Option<Seq<char>>,
    DecodeError,
> {
    match r {
        Ok(value) => Ok(text_of(value)),
        Err(e) => Err(e),
    }
}

/// The records of the blocks that the entries of `index` point to in the
/// table file `bytes`, in the order of the entries.
pub open spec fn indexed_records(bytes: Seq<u8>, index: Seq<IndexEntryView>) -> Result<
    Seq<RecordView>,
    DecodeError,
>
    decreases index.len(),
{
    if index.len() == 0 {
        Ok(Seq::empty())
    } else {
        match indexed_records(bytes, index.drop_last()) {
            Err(e) => Err(e),
            Ok(done) => match file_block(bytes, index.last().offset) {
                Err(e) => Err(e),
                Ok(records) => Ok(done + records),
            },
        }
    }
}

/// All records of the table file `bytes`, block after block as the index
/// lists them.
pub open spec fn file_records(bytes: Seq<u8>) -> Result<Seq<RecordView>, DecodeError> {
    match file_index(bytes) {
        Err(e) => Err(e),
        Ok(index) => indexed_records(bytes, index),
    }
}

/// The data part of a table is `BLOCKSIZE` bytes for each block, and block
/// `k` stands at offset `k * BLOCKSIZE`.
pub proof fn lemma_data_layout(blocks: Seq<Seq<RecordView>>, k: int)
    requires
        well_packed(blocks),
        0 <= k < blocks.len(),
    ensures
        data_bytes(blocks).len() == blocks.len() * BLOCKSIZE,
        data_bytes(blocks).subrange(k * BLOCKSIZE, k * BLOCKSIZE + BLOCKSIZE) == block_bytes(
            blocks[k],
        ),
    decreases blocks.len(),
{
    let front = blocks.drop_last();
    let last = blocks.last();
    assert(all_fit(last) && total_size(last) <= BLOCKSIZE);
    lemma_encode_all_len(last);
    assert(block_bytes(last).len() == BLOCKSIZE);
    assert(well_packed(front)) by {
        assert forall|j: int| 0 <= j < front.len() implies (#[trigger] front[j]).len() > 0
            && all_fit(front[j]) && total_size(front[j]) <= BLOCKSIZE by {
            assert(front[j] == blocks[j]);
        }
    }
    if front.len() > 0 {
        lemma_data_layout(front, 0);
    } else {
        assert(data_bytes(front) =~= Seq::<u8>::empty());
    }
    assert(data_bytes(blocks) == data_bytes(front) + block_bytes(last));
    if k < front.len() {
        lemma_data_layout(front, k);
        assert(data_bytes(blocks).subrange(k * BLOCKSIZE, k * BLOCKSIZE + BLOCKSIZE)
            =~= data_bytes(front).subrange(k * BLOCKSIZE, k * BLOCKSIZE + BLOCKSIZE));
    } else {
        assert(data_bytes(blocks).subrange(k * BLOCKSIZE, k * BLOCKSIZE + BLOCKSIZE)
            =~= block_bytes(last));
    }
}

/// The parts of a table file can be read back: the index is the table's
/// index, and each entry of it points to the block that it stands for.
pub proof fn lemma_file_parts(blocks: Seq<Seq<RecordView>>)
    requires
        well_packed(blocks),
        keys_nonempty(blocks.flatten()),
    ensures
        file_index(file_bytes(blocks)) == Ok::<Seq<IndexEntryView>, DecodeError>(index_of(blocks)),
        forall|k: int|
            0 <= k < blocks.len() ==> file_block(
                file_bytes(blocks),
                (#[trigger] index_of(blocks)[k]).offset,
            ) == Ok::<Seq<RecordView>, DecodeError>(blocks[k]),
{
    let data = data_bytes(blocks);
    let index = index_of(blocks);
    let footer = footer_of(blocks);
    let bytes = file_bytes(blocks);
    lemma_index_size(blocks);
    lemma_decode_footer(data + index_bytes(index), footer);
    if blocks.len() > 0 {
        lemma_data_layout(blocks, 0);
    }
    assert(data.len() == blocks.len() * BLOCKSIZE);
    assert(entries_fit(index)) by {
        assert forall|k: int| 0 <= k < index.len() implies (#[trigger] index[k]).fits() by {
            assert(blocks[k].len() > 0 && all_fit(blocks[k]));
            assert(blocks[k][0].fits());
        }
    }
    lemma_decode_index(Seq::empty(), index);
    let end = footer.index_offset + footer.index_size;
    assert(bytes.subrange(footer.index_offset as int, end) =~= Seq::<u8>::empty() + index_bytes(
        index,
    ));
    assert forall|k: int| 0 <= k < blocks.len() implies file_block(
        bytes,
        (#[trigger] index[k]).offset,
    ) == Ok::<Seq<RecordView>, DecodeError>(blocks[k]) by {
        let block = blocks[k];
        lemma_data_layout(blocks, k);
        assert(all_fit(block) && total_size(block) <= BLOCKSIZE);
        lemma_encode_all_len(block);
        assert(keys_nonempty(block)) by {
            assert forall|i: int| 0 <= i < block.len() implies (#[trigger] block[i]).key_bytes().len()
                > 0 by {
                lemma_position(blocks, k, i);
                assert(blocks.flatten()[start_of(blocks, k) + i].key_bytes().len() > 0);
            }
        }
        let padding = BLOCKSIZE - encode_all(block).len();
        lemma_decode_block(Seq::empty(), block, padding);
        let offset = k * BLOCKSIZE;
        assert(index[k].offset == offset);
        assert(bytes.subrange(offset, offset + BLOCKSIZE) =~= Seq::<u8>::empty() + encode_all(
            block,
        ) + zeros(padding)) by {
            assert(bytes.subrange(offset, offset + BLOCKSIZE) =~= data.subrange(
                offset,
                offset + BLOCKSIZE,
            ));
        }
    }
}

/// A table that is written to a file and looked up there gives what it
/// gives in memory: for a table whose records ascend and have no empty key,
/// the lookup in the file's bytes reports the value that the table holds
/// under the key, and the file is in the order that the lookup relies on.
pub proof fn lemma_file_get(blocks: Seq<Seq<RecordView>>, key: Seq<char>)
    requires
        well_packed(blocks),
        ascending(blocks.flatten()),
        keys_nonempty(blocks.flatten()),
    ensures
        file_find(file_bytes(blocks), key) == Ok::<Option<RecordView>, DecodeError>(
            record_of(records_map(blocks.flatten()), key),
        ),
        file_get(file_bytes(blocks), key) == Ok::<Option<Seq<char>>, DecodeError>(
            value_of(records_map(blocks.flatten()), key),
        ),
        file_in_order(file_bytes(blocks), key),
{
    lemma_file_parts(blocks);
    if blocks.len() > 0 {
        lemma_index_ascending(blocks);
        let k = lemma_covers_some(entry_keys(index_of(blocks)), key);
        assert(index_of(blocks)[k].offset == index_of(blocks)[k].offset);
        lemma_block_of_key(blocks, key, k);
    } else {
        assert(blocks =~= Seq::<Seq<RecordView>>::empty());
        assert(entry_keys(index_of(blocks)) =~= Seq::<Seq<char>>::empty());
    }
}

/// Reading all records of a written table gives the table's records.
pub proof fn lemma_file_records(blocks: Seq<Seq<RecordView>>)
    requires
        well_packed(blocks),
        keys_nonempty(blocks.flatten()),
    ensures
        file_records(file_bytes(blocks)) == Ok::<Seq<RecordView>, DecodeError>(blocks.flatten()),
{
    lemma_file_parts(blocks);
    lemma_indexed_prefix(blocks, blocks.len() as int);
    assert(index_of(blocks).take(blocks.len() as int) =~= index_of(blocks));
    assert(blocks.take(blocks.len() as int) =~= blocks);
}

proof fn lemma_indexed_prefix(blocks: Seq<Seq<RecordView>>, n: int)
    requires
        0 <= n <= blocks.len(),
        forall|k: int|
            0 <= k < blocks.len() ==> file_block(
                file_bytes(blocks),
                (#[trigger] index_of(blocks)[k]).offset,
            ) == Ok::<Seq<RecordView>, DecodeError>(blocks[k]),
    ensures
        indexed_records(file_bytes(blocks), index_of(blocks).take(n)) == Ok::<
            Seq<RecordView>,
            DecodeError,
        >(blocks.take(n).flatten()),
    decreases n,
{
    let index = index_of(blocks);
    if n == 0 {
        assert(blocks.take(0) =~= Seq::<Seq<RecordView>>::empty());
    } else {
        lemma_indexed_prefix(blocks, n - 1);
        assert(index.take(n).drop_last() =~= index.take(n - 1));
        assert(index.take(n).last() == index[n - 1]);
        assert(blocks.take(n) =~= blocks.take(n - 1).push(blocks[n - 1]));
        blocks.take(n - 1).lemma_flatten_push(blocks[n - 1]);
    }
}

impl SSTable {
    /// Reads the index of a table file: the footer at the end of `file`
    /// says where the index stands.
    pub fn read_index(file: &[u8]) -> (r: Result<IndexBlock, DecodeError>)
        ensures
            match r {
                Ok(index) => file_index(file@) == Ok::<Seq<IndexEntryView>, DecodeError>(index@),
                Err(e) => file_index(file@) == Err::<Seq<IndexEntryView>, DecodeError>(e),
            },
    {
        let footer = match Footer::from_bytes(file) {
            Ok(footer) => footer,
            Err(e) => {
                return Err(e);
            },
        };
        let len = file.len() as u64;
        if footer.index_offset > len || footer.index_size > len - footer.index_offset {
            return Err(DecodeError::ShortRead);
        }
        let start = footer.index_offset as usize;
        let end = (footer.index_offset + footer.index_size) as usize;
        IndexBlock::from_bytes(slice_subrange(file, start, end))
    }

    /// Reads the data block that starts at `offset` in a table file.
    pub fn read_block(file: &[u8], offset: u64) -> (r: Result<Block, DecodeError>)
        ensures
            match r {
                Ok(block) => file_block(file@, offset) == Ok::<Seq<RecordView>, DecodeError>(
                    block@,
                ),
                Err(e) => file_block(file@, offset) == Err::<Seq<RecordView>, DecodeError>(e),
            },
    {
        let len = file.len() as u64;
        if offset > len || len - offset < BLOCKSIZE as u64 {
            return Err(DecodeError::ShortRead);
        }
        let start = offset as usize;
        Block::from_bytes(slice_subrange(file, start, start + BLOCKSIZE))
    }

    /// Seeks the record with `input_key` in the bytes of a table file:
    /// reads the footer and the index, and searches the block that the index
    /// assigns to the key. Fails where the file cannot be read.
    pub fn find_in(input_key: &String, file: &[u8]) -> (r: Result<Option<Record>, DecodeError>)
        ensures
            file_index(file@) matches Err(e) ==> r == Err::<Option<Record>, DecodeError>(e),
            file_in_order(file@, input_key@) ==> found_content(r) == file_find(file@, input_key@),
    {
        let index = match SSTable::read_index(file) {
            Ok(index) => index,
            Err(e) => {
                return Err(e);
            },
        };
        if index.len() == 0 {
            return Ok(None);
        }
        let k = index.get_block_index(input_key);
        let offset = index.offset_at(k);
        match SSTable::read_block(file, offset) {
            Err(e) => Err(e),
            Ok(block) => Ok(block.get_record(input_key)),
        }
    }

    /// Looks `input_key` up in the bytes of a table file, as `find_in` does,
    /// and reports the value found: nothing for a tombstone or a key that
    /// the file does not have.
    pub fn get_in(input_key: &String, file: &[u8]) -> (r: Result<Option<String>, DecodeError>)
        ensures
            file_index(file@) matches Err(e) ==> r == Err::<Option<String>, DecodeError>(e),
            file_in_order(file@, input_key@) ==> found_text(r) == file_get(file@, input_key@),
    {
        match SSTable::find_in(input_key, file) {
            Err(e) => Err(e),
            Ok(Some(Record::Value { value, .. })) => Ok(Some(value)),
            Ok(Some(Record::Tombstone { .. })) => Ok(None),
            Ok(None) => Ok(None),
        }
    }

    /// All records of a table file, block after block as the index lists them.
    pub fn records_in(file: &[u8]) -> (r: Result<Vec<Record>, DecodeError>)
        ensures
            match r {
                Ok(records) => file_records(file@) == Ok::<Seq<RecordView>, DecodeError>(
                    views(records@),
                ),
                Err(e) => file_records(file@) == Err::<Seq<RecordView>, DecodeError>(e),
            },
    {
        let index = match SSTable::read_index(file) {
            Ok(index) => index,
            Err(e) => {
                return Err(e);
            },
        };
        let mut records: Vec<Record> = Vec::new();
        let mut k: usize = 0;
        proof {
            assert(index@.take(0) =~= Seq::<IndexEntryView>::empty());
            assert(views(records@) =~= Seq::<RecordView>::empty());
        }
        while k < index.len()
            invariant
                k <= index@.len(),
                file_index(file@) == Ok::<Seq<IndexEntryView>, DecodeError>(index@),
                indexed_records(file@, index@.take(k as int)) == Ok::<Seq<RecordView>, DecodeError>(
                    views(records@),
                ),
            decreases index@.len() - k,
        {
            let offset = index.offset_at(k);
            proof {
                assert(index@.take(k + 1).drop_last() =~= index@.take(k as int));
                assert(index@.take(k + 1).last() == index@[k as int]);
                lemma_indexed_failure(file@, index@, k + 1);
            }
            let ghost before = views(records@);
            let block = match SSTable::read_block(file, offset) {
                Ok(block) => block,
                Err(e) => {
                    assert(indexed_records(file@, index@.take(k + 1)) == Err::<
                        Seq<RecordView>,
                        DecodeError,
                    >(e));
                    return Err(e);
                },
            };
            let mut taken = block.into_records();
            proof {
                assert(views(records@ + taken@) =~= before + views(taken@));
                assert(indexed_records(file@, index@.take(k + 1)) == Ok::<
                    Seq<RecordView>,
                    DecodeError,
                >(before + views(taken@)));
            }
            records.append(&mut taken);
            k += 1;
        }
        assert(index@.take(k as int) =~= index@);
        Ok(records)
    }
}

/// Where the blocks of the first `n` index entries cannot all be read,
/// neither can those of the whole index, and the failure is the same.
proof fn lemma_indexed_failure(bytes: Seq<u8>, index: Seq<IndexEntryView>, n: int)
    requires
        0 <= n <= index.len(),
    ensures
        indexed_records(bytes, index.take(n)) matches Err(e) ==> indexed_records(bytes, index)
            == Err::<Seq<RecordView>, DecodeError>(e),
    decreases index.len() - n,
{
    if n < index.len() {
        assert(index.take(n + 1).drop_last() =~= index.take(n));
        lemma_indexed_failure(bytes, index, n + 1);
    } else {
        assert(index.take(n) =~= index);
    }
}

} // verus!
