//! Reading table files: the footer, the index and the filter, which stay in memory, and the
//! choice of the blocks that a lookup or a scan has to read.
use crate::codec::{
    as_slice, be_bytes, be_value, bytes_of, copy_bytes, eight_bytes, four_bytes, get_u16, get_u32,
    get_u64, law_be_bytes, law_be_value, lemma_be_len, lemma_be_ranges, lemma_be_round_trip,
    two_bytes,
};
use crate::entry::{bound_of, lemma_lookup_witness, lookup, strictly_sorted, Entry};
use crate::error::{LsmError, Result};
use crate::filter::bloom::{
    filter_fits, law_bloom_round_trip, law_no_false_negatives, lemma_built_unique,
    lemma_filter_exists, BloomFilter, BloomModel,
};
use crate::key::{
    compare_keys, key_le, key_lt, lemma_key_irreflexive, lemma_key_total, lemma_key_transitive,
    KeyOrder,
};
use crate::sstable::block::{
    block_fault, block_image, block_of, entry_encodable, law_block_lookup, law_block_read_all,
    law_block_round_trip, Block, Probe,
};
use crate::sstable::builder::{
    blocks_image, chunks, filter_of, footer_image, index_image, keys, meta_image, meta_of, metas,
    metas_image, metas_of, table_image, BlockMeta, MetaModel, FOOTER_SIZE, SSTABLE_MAGIC,
};
use crate::sstable::chunks::{
    is_candidate, joined, lemma_before_first, lemma_candidate_lookup, lemma_chunk_encodable,
    lemma_chunks_joined, lemma_joined_at, lemma_run_sorted, lemma_runs_ordered, no_empty,
};
use crate::text::{hexadecimal, push_hexadecimal};
use bytes::Bytes;
use vstd::prelude::*;
use vstd::slice::slice_subrange;
use vstd::string::*;

verus! {

/// Where the index and the filter stand in a table file.
#[derive(Clone, Copy, Debug, PartialEq, Eq, Structural)]
pub struct Footer {
    pub index_offset: u64,
    pub index_len: u64,
    pub filter_offset: u64,
    pub filter_len: u64,
}

/// The footer that the last forty bytes of a file spell.
pub open spec fn footer_of(s: Seq<u8>) -> Footer {
    Footer {
        index_offset: be_value(s.subrange(0, 8)) as u64,
        index_len: be_value(s.subrange(8, 16)) as u64,
        filter_offset: be_value(s.subrange(16, 24)) as u64,
        filter_len: be_value(s.subrange(24, 32)) as u64,
    }
}

/// The magic number that stands behind a footer's other fields.
pub open spec fn magic_of(s: Seq<u8>) -> nat {
    be_value(s.subrange(32, 40))
}

/// The text that goes with a wrong magic number.
pub open spec fn magic_text(found: nat) -> Seq<char> {
    "Invalid SSTable magic bytes: expected 0x"@ + hexadecimal(SSTABLE_MAGIC as nat, 16)
        + ", got 0x"@ + hexadecimal(found, 16)
}

impl Footer {
    /// Where the footer of a file of the given length starts.
    pub fn locate(file_len: u64) -> (r: Result<u64>)
        ensures
            match r {
                Ok(offset) => offset + FOOTER_SIZE == file_len,
                Err(e) => file_len < FOOTER_SIZE && (e matches LsmError::CorruptedSSTable(s) && s@
                    == "File too small to contain SSTable footer"@),
            },
    {
        if file_len < FOOTER_SIZE as u64 {
            return Err(
                LsmError::CorruptedSSTable("File too small to contain SSTable footer".to_owned()),
            );
        }
        Ok(file_len - FOOTER_SIZE as u64)
    }

    /// Decodes the trailing 40-byte footer.
    pub fn decode(bytes: &[u8]) -> (r: Result<Footer>)
        requires
            bytes@.len() == FOOTER_SIZE,
        ensures
            match r {
                Ok(f) => magic_of(bytes@) == SSTABLE_MAGIC && f == footer_of(bytes@),
                Err(e) => magic_of(bytes@) != SSTABLE_MAGIC && (e matches
                    LsmError::CorruptedSSTable(s) && s@ == magic_text(magic_of(bytes@))),
            },
    {
        let index_offset: u64 = get_u64(bytes, 0);
        let index_len: u64 = get_u64(bytes, 8);
        let filter_offset: u64 = get_u64(bytes, 16);
        let filter_len: u64 = get_u64(bytes, 24);
        let magic: u64 = get_u64(bytes, 32);
        if magic != SSTABLE_MAGIC {
            let mut text: String = "Invalid SSTable magic bytes: expected 0x".to_owned();
            push_hexadecimal(&mut text, SSTABLE_MAGIC, 16);
            text.append(", got 0x");
            push_hexadecimal(&mut text, magic, 16);
            assert(text@ =~= magic_text(magic as nat));
            return Err(LsmError::CorruptedSSTable(text));
        }
        Ok(Footer { index_offset, index_len, filter_offset, filter_len })
    }
}

/// A file of the given length whose last bytes are `tail` was written to its end: it has room
/// for a footer, the footer holds the magic number, and the index and the filter lie in the
/// file.
pub open spec fn complete(file_len: u64, tail: Seq<u8>) -> bool {
    let f = footer_of(tail);
    &&& file_len >= FOOTER_SIZE
    &&& tail.len() == FOOTER_SIZE
    &&& magic_of(tail) == SSTABLE_MAGIC
    &&& f.index_offset + f.index_len <= file_len
    &&& f.filter_offset + f.filter_len <= file_len
}

/// Whether a table file was written to its end, going by its length and its last forty bytes.
/// A file that was not is what a crash has left of an unfinished table, and is ignored.
pub fn is_complete(file_len: u64, tail: &[u8]) -> (b: bool)
    ensures
        b == complete(file_len, tail@),
{
    if file_len < FOOTER_SIZE as u64 || tail.len() != FOOTER_SIZE {
        return false;
    }
    match Footer::decode(tail) {
        Ok(f) => {
            f.index_offset <= file_len && f.index_len <= file_len - f.index_offset
                && f.filter_offset <= file_len && f.filter_len <= file_len - f.filter_offset
        },
        Err(_) => false,
    }
}

/// The `n` index entries at the start of `s`, unless it is too short for them.
pub open spec fn metas_from(s: Seq<u8>, n: nat) -> Option<Seq<MetaModel>>
    decreases n,
{
    if n == 0 {
        Some(Seq::empty())
    } else if s.len() < 2 {
        None
    } else {
        let kl = be_value(s.subrange(0, 2)) as int;
        if s.len() < 18 + kl {
            None
        } else {
            let m = MetaModel {
                first_key: s.subrange(2, 2 + kl),
                offset: be_value(s.subrange(2 + kl, 10 + kl)),
                len: be_value(s.subrange(10 + kl, 18 + kl)),
            };
            match metas_from(s.skip(18 + kl), (n - 1) as nat) {
                Some(rest) => Some(seq![m] + rest),
                None => None,
            }
        }
    }
}

/// The block index that a byte string spells, unless it is too short for what it announces.
pub open spec fn index_of(s: Seq<u8>) -> Option<Seq<MetaModel>> {
    if s.len() < 4 {
        None
    } else {
        metas_from(s.skip(4), be_value(s.subrange(0, 4)))
    }
}

/// Decodes a block index; `None` when the bytes end before the entries do.
pub fn decode_index(data: &[u8]) -> (r: Option<Vec<BlockMeta>>)
    ensures
        match index_of(data@) {
            Some(ms) => r matches Some(v) && metas_of(v@) == ms,
            None => r is None,
        },
{
    let len: usize = data.len();
    if len < 4 {
        return None;
    }
    let num_blocks: u32 = get_u32(data, 0);
    let mut block_metas: Vec<BlockMeta> = Vec::new();
    let mut pos: usize = 4;
    let mut left: u32 = num_blocks;
    let ghost all = index_of(data@);
    proof {
        if let Some(ms) = all {
            assert(metas_of(block_metas@) + ms =~= ms);
        }
    }
    while left > 0
        invariant
            pos <= len,
            len == data@.len(),
            all == index_of(data@),
            match metas_from(data@.skip(pos as int), left as nat) {
                Some(rest) => all == Some(metas_of(block_metas@) + rest),
                None => all is None,
            },
        decreases left,
    {
        let ghost s = data@.skip(pos as int);
        if len - pos < 2 {
            return None;
        }
        let key_len: usize = get_u16(data, pos) as usize;
        assert(data@.subrange(pos as int, pos + 2) =~= s.subrange(0, 2));
        if len - pos - 2 < key_len || len - pos - 2 - key_len < 16 {
            return None;
        }
        let key_at: usize = pos + 2;
        let first_key: Bytes = copy_bytes(slice_subrange(data, key_at, key_at + key_len));
        let offset: u64 = get_u64(data, key_at + key_len);
        let block_len: u64 = get_u64(data, key_at + key_len + 8);
        let ghost before = metas_of(block_metas@);
        let meta: BlockMeta = BlockMeta { first_key, offset, len: block_len };
        let ghost m = meta@;
        block_metas.push(meta);
        proof {
            let kl = key_len as int;
            assert(data@.subrange(key_at as int, key_at + kl) =~= s.subrange(2, 2 + kl));
            assert(data@.subrange(key_at + kl, key_at + kl + 8) =~= s.subrange(2 + kl, 10 + kl));
            assert(data@.subrange(key_at + kl + 8, key_at + kl + 16) =~= s.subrange(
                10 + kl,
                18 + kl,
            ));
            assert(s.skip(18 + kl) =~= data@.skip(pos + 18 + kl));
            assert(metas_of(block_metas@) =~= before.push(m));
            if let Some(rest) = metas_from(s.skip(18 + kl), (left - 1) as nat) {
                assert(before + (seq![m] + rest) =~= before.push(m) + rest);
            }
        }
        pos = key_at + key_len + 16;
        left = left - 1;
    }
    assert(metas_of(block_metas@) + Seq::<MetaModel>::empty() =~= metas_of(block_metas@));
    Some(block_metas)
}

/// A table as its index and its filter.
#[verifier::ext_equal]
pub struct TableModel {
    pub metas: Seq<MetaModel>,
    pub filter: BloomModel,
}

/// What a lookup in a table comes to before any block is read.
#[derive(Clone, Copy, Debug, PartialEq, Eq, Structural)]
pub enum TableStep {
    /// The key is not in the table.
    Absent,
    /// The key is in the given block or not in the table.
    Read(usize),
    /// The filter's size leaves its hashes no bits to range over.
    Unaddressable,
}

impl TableModel {
    /// Binary search for a key among the blocks from `low` up to, not including, `high`: a
    /// block that starts with the key, or the place where such a block would stand.
    pub open spec fn search(self, key: Seq<u8>, low: int, high: int) -> (bool, int)
        decreases high - low,
    {
        if low >= high {
            (false, low)
        } else {
            let mid = low + (high - low) / 2;
            if self.metas[mid].first_key == key {
                (true, mid)
            } else if key_lt(self.metas[mid].first_key, key) {
                self.search(key, mid + 1, high)
            } else {
                self.search(key, low, mid)
            }
        }
    }

    /// The block that a key belongs to: the last one whose first key is not after it.
    pub open spec fn candidate(self, key: Seq<u8>) -> int {
        let (exact, at) = self.search(key, 0, self.metas.len() as int);
        if exact || at == 0 {
            at
        } else {
            at - 1
        }
    }

    /// What a lookup comes to before any block is read.
    pub open spec fn get(self, key: Seq<u8>) -> TableStep {
        if !self.filter.addressable() {
            TableStep::Unaddressable
        } else if !self.filter.may_contain(key) || self.metas.len() == 0 || key_lt(
            key,
            self.metas[0].first_key,
        ) {
            TableStep::Absent
        } else {
            TableStep::Read(self.candidate(key) as usize)
        }
    }

    /// The first block that may hold a key at or after `start`.
    pub open spec fn first_block(self, start: Option<Seq<u8>>) -> int {
        match start {
            None => 0,
            Some(key) => if self.metas.len() == 0 {
                0
            } else {
                self.candidate(key)
            },
        }
    }

    /// One past the last block that may hold a key before `end`, counted from block `i`.
    pub open spec fn last_block(self, i: int, end: Option<Seq<u8>>) -> int
        decreases self.metas.len() - i,
    {
        if i >= self.metas.len() {
            i
        } else {
            match end {
                Some(key) => if key_lt(self.metas[i].first_key, key) {
                    self.last_block(i + 1, end)
                } else {
                    i
                },
                None => self.last_block(i + 1, end),
            }
        }
    }

    /// The blocks that may hold keys from `start` up to, not including, `end`.
    pub open spec fn iter_range(self, start: Option<Seq<u8>>, end: Option<Seq<u8>>) -> (int, int) {
        let first = self.first_block(start);
        (first, self.last_block(first, end))
    }
}

/// What is held in memory of an open table.
pub struct SsTableReader {
    sst_id: u64,
    block_metas: Vec<BlockMeta>,
    bloom_filter: BloomFilter,
}

impl View for SsTableReader {
    type V = TableModel;

    closed spec fn view(&self) -> TableModel {
        TableModel { metas: metas_of(self.block_metas@), filter: self.bloom_filter@ }
    }
}

impl SsTableReader {
    /// The number that names the table.
    pub closed spec fn spec_id(&self) -> u64 {
        self.sst_id
    }

    /// Opens a table from the filter's and the index's bytes, which stand where the footer
    /// says. `None` when the index ends before its entries do.
    pub fn open(sst_id: u64, filter_bytes: Bytes, index_bytes: &[u8]) -> (r: Option<Self>)
        ensures
            match index_of(index_bytes@) {
                Some(ms) => r matches Some(t) && t.spec_id() == sst_id && t@ == (TableModel {
                    metas: ms,
                    filter: BloomModel::of_image(bytes_of(filter_bytes)),
                }),
                None => r is None,
            },
    {
        // Decode Bloom Filter
        let bloom_filter: BloomFilter = BloomFilter::decode(filter_bytes);
        // Decode Block Index
        match decode_index(index_bytes) {
            Some(block_metas) => Some(SsTableReader { sst_id, block_metas, bloom_filter }),
            None => None,
        }
    }

    pub fn id(&self) -> (id: u64)
        ensures
            id == self.spec_id(),
    {
        self.sst_id
    }

    /// Where block `idx` stands in the file: its offset and its length.
    pub fn block_place(&self, idx: usize) -> (r: (u64, u64))
        requires
            idx < self@.metas.len(),
        ensures
            r.0 as nat == self@.metas[idx as int].offset,
            r.1 as nat == self@.metas[idx as int].len,
    {
        let meta: &BlockMeta = &self.block_metas[idx];
        assert(meta@ == self@.metas[idx as int]);
        (meta.offset, meta.len)
    }

    /// The block that a key belongs to, by binary search.
    fn candidate(&self, key: &[u8]) -> (idx: usize)
        requires
            self@.metas.len() > 0,
        ensures
            idx as int == self@.candidate(key@),
            idx < self@.metas.len(),
    {
        let mut low: usize = 0;
        let mut high: usize = self.block_metas.len();
        while low < high
            invariant
                low <= high <= self@.metas.len(),
                self@.metas == metas_of(self.block_metas@),
                self@.metas.len() > 0,
                self@.search(key@, low as int, high as int) == self@.search(
                    key@,
                    0,
                    self@.metas.len() as int,
                ),
            decreases high - low,
        {
            let mid: usize = low + (high - low) / 2;
            let meta: &BlockMeta = &self.block_metas[mid];
            assert(meta@ == self@.metas[mid as int]);
            match compare_keys(as_slice(&meta.first_key), key) {
                KeyOrder::Equal => {
                    return mid;
                },
                KeyOrder::Less => {
                    low = mid + 1;
                },
                KeyOrder::Greater => {
                    proof {
                        let first = bytes_of(meta.first_key);
                        lemma_key_irreflexive(key@);
                        if key_lt(first, key@) {
                            lemma_key_transitive(key@, first, key@);
                        }
                    }
                    high = mid;
                },
            }
        }
        if low == 0 {
            0
        } else {
            low - 1
        }
    }

    /// Point lookup for a key in this SSTable, up to the one block that has to be read.
    pub fn get(&self, key: &[u8]) -> (r: TableStep)
        ensures
            r == self@.get(key@),
            r matches TableStep::Read(i) ==> i < self@.metas.len(),
    {
        // Step 1: Probabilistic check with Bloom Filter
        // If false, the key is GUARANTEED not to exist. Zero disk I/O!
        if !self.bloom_filter.is_addressable() {
            return TableStep::Unaddressable;
        }
        if !self.bloom_filter.may_contain(key) {
            return TableStep::Absent;
        }
        if self.block_metas.len() == 0 {
            return TableStep::Absent;
        }
        // Step 2: If key is smaller than the first block's first key, it's not here
        let first: &BlockMeta = &self.block_metas[0];
        assert(first@ == self@.metas[0]);
        if let KeyOrder::Less = compare_keys(key, as_slice(&first.first_key)) {
            return TableStep::Absent;
        }
        // Step 3: Binary search Block Index to locate candidate block
        TableStep::Read(self.candidate(key))
    }

    /// The blocks that intersect the range [start, end): the first of them, and one past the
    /// last.
    pub fn iter_range(&self, start: Option<&[u8]>, end: Option<&[u8]>) -> (r: (usize, usize))
        ensures
            (r.0 as int, r.1 as int) == self@.iter_range(bound_of(start), bound_of(end)),
            r.0 <= r.1 <= self@.metas.len(),
    {
        let n: usize = self.block_metas.len();
        let first: usize = match start {
            Some(key) => {
                if n == 0 {
                    0
                } else {
                    self.candidate(key)
                }
            },
            None => 0,
        };
        let mut last: usize = first;
        while last < n
            invariant
                first <= last <= n,
                first as int == self@.first_block(bound_of(start)),
                n == self@.metas.len(),
                self@.metas == metas_of(self.block_metas@),
                self@.last_block(first as int, bound_of(end)) == self@.last_block(
                    last as int,
                    bound_of(end),
                ),
            decreases n - last,
        {
            if let Some(key) = end {
                let meta: &BlockMeta = &self.block_metas[last];
                assert(meta@ == self@.metas[last as int]);
                match compare_keys(as_slice(&meta.first_key), key) {
                    KeyOrder::Less => {},
                    _ => {
                        return (first, last);
                    },
                }
            }
            last = last + 1;
        }
        (first, last)
    }

    pub fn num_blocks(&self) -> (n: usize)
        ensures
            n as nat == self@.metas.len(),
    {
        self.block_metas.len()
    }
}

/// The machine can hold a table of the given entries: its filter can be addressed, four bytes
/// can count its blocks, and eight bytes can spell the offsets in its file.
pub open spec fn table_sized(es: Seq<Entry>, block_size: nat) -> bool {
    &&& filter_fits(es.len())
    &&& chunks(es, block_size).len() < 0x1_0000_0000
    &&& table_image(es, block_size).len() < 0x1_0000_0000_0000_0000
}

/// The machine and the format can hold a table of the given entries, in whatever order: the
/// fields can spell their lengths, and the blocks are at most 64 KB.
pub open spec fn table_encodable(es: Seq<Entry>, block_size: nat) -> bool {
    &&& forall|i: int| 0 <= i < es.len() ==> #[trigger] entry_encodable(es[i])
    &&& block_size <= 0x1_0000
    &&& table_sized(es, block_size)
}

/// The machine and the format can hold a table of the given entries, and their keys are in
/// order and different, so that each can be looked up.
pub open spec fn table_fits(es: Seq<Entry>, block_size: nat) -> bool {
    strictly_sorted(es) && table_encodable(es, block_size)
}

/// The index and the filter of a table of the given entries.
pub open spec fn table_model(es: Seq<Entry>, block_size: nat) -> TableModel {
    TableModel { metas: metas(chunks(es, block_size)), filter: filter_of(es) }
}

/// The bytes of the block that an index entry speaks of.
pub open spec fn block_bytes(file: Seq<u8>, m: MetaModel) -> Seq<u8> {
    file.subrange(m.offset as int, (m.offset + m.len) as int)
}

/// The length fields can spell what the index entry holds.
spec fn meta_encodable(m: MetaModel) -> bool {
    &&& m.first_key.len() < 0x1_0000
    &&& m.offset < 0x1_0000_0000_0000_0000
    &&& m.len < 0x1_0000_0000_0000_0000
}

proof fn lemma_metas_image_front(ms: Seq<MetaModel>)
    requires
        ms.len() > 0,
    ensures
        metas_image(ms) == meta_image(ms[0]) + metas_image(ms.skip(1)),
    decreases ms.len(),
{
    let rest = ms.skip(1);
    if ms.len() == 1 {
        assert(ms.drop_last() =~= Seq::<MetaModel>::empty());
        assert(rest =~= Seq::<MetaModel>::empty());
        assert(metas_image(ms) =~= meta_image(ms[0]) + metas_image(rest));
    } else {
        lemma_metas_image_front(ms.drop_last());
        assert(ms.drop_last().skip(1) =~= rest.drop_last());
        assert(ms.drop_last()[0] == ms[0]);
        assert(rest.last() == ms.last());
        assert(metas_image(ms) =~= meta_image(ms[0]) + metas_image(rest));
    }
}

/// Reading an index entry's own bytes gives the entry back and goes on behind it.
proof fn lemma_meta_front(m: MetaModel, tail: Seq<u8>, n: nat)
    requires
        meta_encodable(m),
        n > 0,
    ensures
        metas_from(meta_image(m) + tail, n) == match metas_from(tail, (n - 1) as nat) {
            Some(rest) => Some(seq![m] + rest),
            None => None,
        },
{
    let s = meta_image(m) + tail;
    let kl = m.first_key.len() as int;
    lemma_be_len(m.first_key.len(), 2);
    lemma_be_len(m.offset, 8);
    lemma_be_len(m.len, 8);
    lemma_be_ranges();
    lemma_be_round_trip(m.first_key.len(), 2);
    lemma_be_round_trip(m.offset, 8);
    lemma_be_round_trip(m.len, 8);
    assert(s.subrange(0, 2) =~= be_bytes(m.first_key.len(), 2));
    assert(s.subrange(2, 2 + kl) =~= m.first_key);
    assert(s.subrange(2 + kl, 10 + kl) =~= be_bytes(m.offset, 8));
    assert(s.subrange(10 + kl, 18 + kl) =~= be_bytes(m.len, 8));
    assert(s.skip(18 + kl) =~= tail);
}

proof fn lemma_metas_round_trip(ms: Seq<MetaModel>)
    requires
        forall|i: int| 0 <= i < ms.len() ==> #[trigger] meta_encodable(ms[i]),
    ensures
        metas_from(metas_image(ms), ms.len()) == Some(ms),
    decreases ms.len(),
{
    if ms.len() == 0 {
        assert(ms =~= Seq::<MetaModel>::empty());
    } else {
        let rest = ms.skip(1);
        assert forall|i: int| 0 <= i < rest.len() implies #[trigger] meta_encodable(rest[i]) by {
            assert(meta_encodable(ms[i + 1]));
        }
        lemma_metas_round_trip(rest);
        lemma_metas_image_front(ms);
        assert(meta_encodable(ms[0]));
        lemma_meta_front(ms[0], metas_image(rest), ms.len());
        assert(seq![ms[0]] + rest =~= ms);
    }
}

/// A block index reads back as the entries that were written.
proof fn lemma_index_round_trip(ms: Seq<MetaModel>)
    requires
        forall|i: int| 0 <= i < ms.len() ==> #[trigger] meta_encodable(ms[i]),
        ms.len() < 0x1_0000_0000,
    ensures
        index_of(index_image(ms)) == Some(ms),
{
    let s = index_image(ms);
    lemma_be_len(ms.len(), 4);
    lemma_be_ranges();
    lemma_be_round_trip(ms.len(), 4);
    assert(s.subrange(0, 4) =~= be_bytes(ms.len(), 4));
    assert(s.skip(4) =~= metas_image(ms));
    lemma_metas_round_trip(ms);
}

/// A footer reads back as the numbers that were written.
proof fn lemma_footer_round_trip(io: nat, il: nat, fo: nat, fl: nat)
    requires
        io < 0x1_0000_0000_0000_0000,
        il < 0x1_0000_0000_0000_0000,
        fo < 0x1_0000_0000_0000_0000,
        fl < 0x1_0000_0000_0000_0000,
    ensures
        footer_image(io, il, fo, fl).len() == 40,
        magic_of(footer_image(io, il, fo, fl)) == SSTABLE_MAGIC,
        footer_of(footer_image(io, il, fo, fl)) == (Footer {
            index_offset: io as u64,
            index_len: il as u64,
            filter_offset: fo as u64,
            filter_len: fl as u64,
        }),
{
    let s = footer_image(io, il, fo, fl);
    lemma_be_len(io, 8);
    lemma_be_len(il, 8);
    lemma_be_len(fo, 8);
    lemma_be_len(fl, 8);
    lemma_be_len(SSTABLE_MAGIC as nat, 8);
    lemma_be_ranges();
    lemma_be_round_trip(io, 8);
    lemma_be_round_trip(il, 8);
    lemma_be_round_trip(fo, 8);
    lemma_be_round_trip(fl, 8);
    lemma_be_round_trip(SSTABLE_MAGIC as nat, 8);
    assert(s.subrange(0, 8) =~= be_bytes(io, 8));
    assert(s.subrange(8, 16) =~= be_bytes(il, 8));
    assert(s.subrange(16, 24) =~= be_bytes(fo, 8));
    assert(s.subrange(24, 32) =~= be_bytes(fl, 8));
    assert(s.subrange(32, 40) =~= be_bytes(SSTABLE_MAGIC as nat, 8));
}

/// Block `i` stands where its index entry says.
proof fn lemma_block_at(cs: Seq<Seq<Entry>>, i: int)
    requires
        0 <= i < cs.len(),
    ensures
        meta_of(cs, i).offset + meta_of(cs, i).len <= blocks_image(cs).len(),
        block_bytes(blocks_image(cs), meta_of(cs, i)) == block_image(cs[i]),
    decreases cs.len(),
{
    let front = cs.drop_last();
    let m = meta_of(cs, i);
    if i == cs.len() - 1 {
        assert(cs.take(i) =~= front);
        assert(block_bytes(blocks_image(cs), m) =~= block_image(cs[i]));
    } else {
        lemma_block_at(front, i);
        assert(front.take(i) =~= cs.take(i));
        assert(block_bytes(blocks_image(cs), m) =~= block_bytes(blocks_image(front), m));
    }
}

/// The parts of a table file.
proof fn lemma_table_parts(es: Seq<Entry>, block_size: nat)
    ensures
        ({
            let file = table_image(es, block_size);
            let cs = chunks(es, block_size);
            let b = blocks_image(cs).len() as int;
            let i = index_image(metas(cs)).len() as int;
            let f = filter_of(es).image().len() as int;
            &&& file.len() == b + i + f + footer_image(
                b as nat,
                i as nat,
                (b + i) as nat,
                f as nat,
            ).len()
            &&& file.subrange(0, b) == blocks_image(cs)
            &&& file.subrange(b, b + i) == index_image(metas(cs))
            &&& file.subrange(b + i, b + i + f) == filter_of(es).image()
            &&& file.skip(b + i + f) == footer_image(b as nat, i as nat, (b + i) as nat, f as nat)
        }),
{
    let file = table_image(es, block_size);
    let cs = chunks(es, block_size);
    let b = blocks_image(cs).len() as int;
    let i = index_image(metas(cs)).len() as int;
    let f = filter_of(es).image().len() as int;
    assert(file.subrange(0, b) =~= blocks_image(cs));
    assert(file.subrange(b, b + i) =~= index_image(metas(cs)));
    assert(file.subrange(b + i, b + i + f) =~= filter_of(es).image());
    assert(file.skip(b + i + f) =~= footer_image(b as nat, i as nat, (b + i) as nat, f as nat));
}

/// The bytes of a block, as the index finds them in the file.
proof fn lemma_table_block(es: Seq<Entry>, block_size: nat, i: int)
    requires
        0 <= i < chunks(es, block_size).len(),
    ensures
        ({
            let file = table_image(es, block_size);
            let m = table_model(es, block_size).metas[i];
            &&& m.offset + m.len <= file.len()
            &&& block_bytes(file, m) == block_image(chunks(es, block_size)[i])
        }),
{
    let file = table_image(es, block_size);
    let cs = chunks(es, block_size);
    let m = meta_of(cs, i);
    lemma_table_parts(es, block_size);
    lemma_block_at(cs, i);
    assert(block_bytes(file, m) =~= block_bytes(
        file.subrange(0, blocks_image(cs).len() as int),
        m,
    ));
}

/// The filter of a table knows its keys.
proof fn lemma_table_filter(es: Seq<Entry>)
    requires
        filter_fits(es.len()),
    ensures
        filter_of(es).built_from(keys(es)),
        filter_of(es).addressable(),
        filter_of(es).k <= u8::MAX,
{
    let f = lemma_filter_exists(keys(es));
    lemma_built_unique(f, filter_of(es), keys(es));
}

/// A finished table is complete and opens: the footer at its end has the right magic number,
/// and the index and the filter, read from where the footer says, are those of the entries.
pub proof fn law_table_open(es: Seq<Entry>, block_size: nat)
    requires
        table_encodable(es, block_size),
    ensures
        ({
            let file = table_image(es, block_size);
            let tail = file.skip(file.len() - FOOTER_SIZE);
            let f = footer_of(tail);
            &&& complete(file.len() as u64, tail)
            &&& index_of(file.subrange(f.index_offset as int, f.index_offset + f.index_len))
                == Some(table_model(es, block_size).metas)
            &&& BloomModel::of_image(
                file.subrange(f.filter_offset as int, f.filter_offset + f.filter_len),
            ) == table_model(es, block_size).filter
        }),
{
    let file = table_image(es, block_size);
    let cs = chunks(es, block_size);
    let ms = metas(cs);
    let b = blocks_image(cs).len() as int;
    let i = index_image(ms).len() as int;
    let f = filter_of(es).image().len() as int;
    lemma_table_parts(es, block_size);
    lemma_footer_round_trip(b as nat, i as nat, (b + i) as nat, f as nat);
    assert forall|j: int| 0 <= j < ms.len() implies #[trigger] meta_encodable(ms[j]) by {
        lemma_table_block(es, block_size, j);
        lemma_chunks_joined(es, block_size);
        lemma_chunk_encodable(es, block_size, j);
        assert(cs[j].len() > 0);
        assert(entry_encodable(cs[j][0]));
    }
    lemma_index_round_trip(ms);
    lemma_table_filter(es);
    law_bloom_round_trip(filter_of(es));
}

/// The first keys of the blocks are sorted.
pub proof fn lemma_first_keys(es: Seq<Entry>, block_size: nat, i: int, j: int)
    requires
        strictly_sorted(es),
        0 <= i < j < chunks(es, block_size).len(),
    ensures
        key_lt(
            table_model(es, block_size).metas[i].first_key,
            table_model(es, block_size).metas[j].first_key,
        ),
{
    let cs = chunks(es, block_size);
    lemma_chunks_joined(es, block_size);
    assert(cs[i].len() > 0 && cs[j].len() > 0);
    lemma_runs_ordered(cs, i, 0, j, 0);
}

/// The binary search over the index ends where the keys say.
proof fn lemma_index_search(es: Seq<Entry>, block_size: nat, key: Seq<u8>, low: int, high: int)
    requires
        strictly_sorted(es),
        0 <= low <= high <= chunks(es, block_size).len(),
        ({
            let t = table_model(es, block_size);
            &&& low > 0 ==> key_lt(t.metas[low - 1].first_key, key)
            &&& high < t.metas.len() ==> key_lt(key, t.metas[high].first_key)
        }),
    ensures
        ({
            let t = table_model(es, block_size);
            let (exact, at) = t.search(key, low, high);
            &&& low <= at <= high
            &&& exact ==> at < t.metas.len() && t.metas[at].first_key == key
            &&& !exact && at > 0 ==> key_lt(t.metas[at - 1].first_key, key)
            &&& !exact && at < t.metas.len() ==> key_lt(key, t.metas[at].first_key)
        }),
    decreases high - low,
{
    let t = table_model(es, block_size);
    if low < high {
        let mid = low + (high - low) / 2;
        let first = t.metas[mid].first_key;
        lemma_key_total(first, key);
        if first != key {
            if key_lt(first, key) {
                lemma_index_search(es, block_size, key, mid + 1, high);
            } else {
                lemma_index_search(es, block_size, key, low, mid);
            }
        }
    }
}

/// The block that the index names for a key is the one whose keys surround it.
pub proof fn lemma_candidate(es: Seq<Entry>, block_size: nat, key: Seq<u8>)
    requires
        strictly_sorted(es),
        chunks(es, block_size).len() > 0,
    ensures
        ({
            let t = table_model(es, block_size);
            let i = t.candidate(key);
            &&& 0 <= i < t.metas.len()
            &&& i > 0 ==> key_le(t.metas[i].first_key, key)
            &&& !key_lt(key, t.metas[0].first_key) ==> key_le(t.metas[i].first_key, key)
            &&& i + 1 < t.metas.len() ==> key_lt(key, t.metas[i + 1].first_key)
        }),
{
    let t = table_model(es, block_size);
    let n = t.metas.len() as int;
    lemma_index_search(es, block_size, key, 0, n);
    let (exact, at) = t.search(key, 0, n);
    lemma_key_total(key, t.metas[0].first_key);
    if exact && at + 1 < n {
        lemma_first_keys(es, block_size, at, at + 1);
    }
    if !exact && at == 0 && n > 1 {
        lemma_first_keys(es, block_size, 0, 1);
        lemma_key_transitive(key, t.metas[0].first_key, t.metas[1].first_key);
    }
}

/// Each block of a table decodes to the entries that were put into it, and reading it gives
/// them back in their order.
pub proof fn law_table_blocks(es: Seq<Entry>, block_size: nat, i: int)
    requires
        table_encodable(es, block_size),
        0 <= i < chunks(es, block_size).len(),
    ensures
        ({
            let m = table_model(es, block_size).metas[i];
            let bytes = block_bytes(table_image(es, block_size), m);
            let c = chunks(es, block_size)[i];
            &&& m.offset + m.len <= table_image(es, block_size).len()
            &&& block_fault(bytes) is None
            &&& block_of(bytes).readable()
            &&& block_of(bytes).entries() == c
            &&& block_of(bytes).read_from(0) == Some(c)
        }),
{
    let c = chunks(es, block_size)[i];
    lemma_table_block(es, block_size, i);
    lemma_chunk_encodable(es, block_size, i);
    law_block_round_trip(c);
    law_block_read_all(block_of(block_image(c)));
}

/// A lookup in a finished table finds what was put into it: a key that was added is found
/// with its value or tombstone in the one block that the index names, and any other key is
/// ruled out by the filter or the index, or is missing from that block.
pub proof fn law_table_lookup(es: Seq<Entry>, block_size: nat, key: Seq<u8>)
    requires
        table_fits(es, block_size),
    ensures
        match table_model(es, block_size).get(key) {
            TableStep::Unaddressable => false,
            TableStep::Absent => lookup(es, key) is None,
            TableStep::Read(i) => {
                let m = table_model(es, block_size).metas[i as int];
                let bytes = block_bytes(table_image(es, block_size), m);
                &&& i < table_model(es, block_size).metas.len()
                &&& block_fault(bytes) is None
                &&& match lookup(es, key) {
                    Some(v) => block_of(bytes).probe(key) == Probe::Found(v),
                    None => block_of(bytes).probe(key) == Probe::Missing,
                }
            },
        },
{
    let t = table_model(es, block_size);
    let cs = chunks(es, block_size);
    lemma_chunks_joined(es, block_size);
    lemma_table_filter(es);
    if !t.filter.may_contain(key) {
        if lookup(es, key) is Some {
            let i = lemma_lookup_witness(es, key);
            assert(keys(es)[i] == key);
            law_no_false_negatives(t.filter, keys(es), key);
        }
    } else if cs.len() == 0 || key_lt(key, t.metas[0].first_key) {
        lemma_before_first(cs, key);
    } else {
        lemma_candidate(es, block_size, key);
        let i = t.candidate(key);
        assert(is_candidate(cs, key, i));
        lemma_candidate_lookup(cs, key, i);
        law_table_blocks(es, block_size, i);
        lemma_run_sorted(cs, i);
        law_block_lookup(block_of(block_bytes(table_image(es, block_size), t.metas[i])), key);
    }
}

/// The numbers of a footer are those that its bytes spell, eight bytes each.
pub proof fn law_footer_fields(s: Seq<u8>)
    requires
        s.len() == 40,
    ensures
        footer_of(s).index_offset == eight_bytes(s, 0),
        footer_of(s).index_len == eight_bytes(s, 8),
        footer_of(s).filter_offset == eight_bytes(s, 16),
        footer_of(s).filter_len == eight_bytes(s, 24),
        magic_of(s) == eight_bytes(s, 32),
{
    law_be_value(s, 0);
    law_be_value(s, 8);
    law_be_value(s, 16);
    law_be_value(s, 24);
    law_be_value(s, 32);
}

/// A file counts as a finished table exactly when it is forty bytes long or more, its last eight
/// bytes are the magic number, and the index and the filter lie within it.
pub proof fn law_complete(file_len: u64, tail: Seq<u8>)
    requires
        tail.len() == 40,
    ensures
        complete(file_len, tail) <==> {
            &&& file_len >= 40
            &&& eight_bytes(tail, 32) == 0x4C53_4D54_5245_4531
            &&& eight_bytes(tail, 0) + eight_bytes(tail, 8) <= file_len
            &&& eight_bytes(tail, 16) + eight_bytes(tail, 24) <= file_len
        },
{
    law_footer_fields(tail);
}

/// Bytes that do not end in a whole footer are no finished table.
pub proof fn law_incomplete(file_len: u64, tail: Seq<u8>)
    requires
        tail.len() != 40 || file_len < 40,
    ensures
        !complete(file_len, tail),
{
}

/// Where each part of an index entry stands in its bytes.
pub proof fn law_meta_layout(m: MetaModel)
    requires
        m.first_key.len() < 0x1_0000,
        m.offset < 0x1_0000_0000_0000_0000,
        m.len < 0x1_0000_0000_0000_0000,
    ensures
        ({
            let s = meta_image(m);
            let kl = m.first_key.len() as int;
            &&& s.len() == 18 + kl
            &&& two_bytes(s, 0) == kl
            &&& s.subrange(2, 2 + kl) == m.first_key
            &&& eight_bytes(s, 2 + kl) == m.offset
            &&& eight_bytes(s, 10 + kl) == m.len
        }),
{
    let s = meta_image(m);
    let kl = m.first_key.len() as int;
    lemma_be_len(m.first_key.len(), 2);
    lemma_be_len(m.offset, 8);
    lemma_be_len(m.len, 8);
    lemma_be_ranges();
    lemma_be_round_trip(m.first_key.len(), 2);
    lemma_be_round_trip(m.offset, 8);
    lemma_be_round_trip(m.len, 8);
    assert(s.subrange(0, 2) =~= be_bytes(m.first_key.len(), 2));
    assert(s.subrange(2, 2 + kl) =~= m.first_key);
    assert(s.subrange(2 + kl, 10 + kl) =~= be_bytes(m.offset, 8));
    assert(s.subrange(10 + kl, 18 + kl) =~= be_bytes(m.len, 8));
    law_be_value(s, 0);
    law_be_value(s, 2 + kl);
    law_be_value(s, 10 + kl);
}

/// An index is the number of its entries in four bytes, and then the entries one behind the
/// other.
pub proof fn law_index_layout(ms: Seq<MetaModel>, m: MetaModel)
    requires
        ms.len() + 1 < 0x1_0000_0000,
    ensures
        index_image(Seq::empty()).len() == 4,
        four_bytes(index_image(ms), 0) == ms.len(),
        index_image(ms.push(m)).skip(4) == index_image(ms).skip(4) + meta_image(m),
{
    law_be_bytes(ms.len());
    lemma_be_len(0, 4);
    lemma_be_len(ms.len(), 4);
    lemma_be_len(ms.push(m).len(), 4);
    assert(ms.push(m).drop_last() =~= ms);
    assert(index_image(ms).skip(4) =~= metas_image(ms));
    assert(index_image(ms.push(m)).skip(4) =~= metas_image(ms.push(m)));
}

/// Reading an index entry from any bytes: it is the key that the first two bytes announce, and
/// the two numbers behind it; where the bytes end before that, there is no index.
pub proof fn law_index_read(s: Seq<u8>, n: nat)
    requires
        n > 0,
    ensures
        ({
            let end = 18 + two_bytes(s, 0);
            metas_from(s, n) == if s.len() < 2 || s.len() < end {
                None
            } else {
                match metas_from(s.skip(end), (n - 1) as nat) {
                    Some(rest) => Some(
                        seq![
                            MetaModel {
                                first_key: s.subrange(2, end - 16),
                                offset: eight_bytes(s, end - 16) as nat,
                                len: eight_bytes(s, end - 8) as nat,
                            },
                        ] + rest,
                    ),
                    None => None,
                }
            }
        }),
{
    if s.len() >= 2 {
        law_be_value(s, 0);
        let kl = two_bytes(s, 0);
        if s.len() >= 18 + kl {
            law_be_value(s, 2 + kl);
            law_be_value(s, 10 + kl);
        }
    }
}

/// Where everything stands in a table file: the blocks from its first byte on, one behind the
/// other, then the index, then the filter, then the places and lengths of the two and the magic
/// number, eight bytes each.
pub proof fn law_table_layout(es: Seq<Entry>, block_size: nat)
    requires
        table_encodable(es, block_size),
    ensures
        ({
            let file = table_image(es, block_size);
            let n = file.len() as int;
            let ms = table_model(es, block_size).metas;
            let index_at = eight_bytes(file, n - 40);
            let filter_at = eight_bytes(file, n - 24);
            &&& n >= 40
            &&& eight_bytes(file, n - 8) == 0x4C53_4D54_5245_4531
            &&& ms.len() == chunks(es, block_size).len()
            &&& index_at == if ms.len() == 0 {
                0
            } else {
                (ms.last().offset + ms.last().len) as int
            }
            &&& filter_at == index_at + eight_bytes(file, n - 32)
            &&& filter_at + eight_bytes(file, n - 16) == n - 40
            &&& file.subrange(index_at, filter_at) == index_image(ms)
            &&& file.subrange(filter_at, n - 40) == table_model(es, block_size).filter.image()
        }),
{
    let file = table_image(es, block_size);
    let cs = chunks(es, block_size);
    let ms = metas(cs);
    let b = blocks_image(cs).len() as int;
    let i = index_image(ms).len() as int;
    let f = filter_of(es).image().len() as int;
    lemma_table_parts(es, block_size);
    lemma_footer_round_trip(b as nat, i as nat, (b + i) as nat, f as nat);
    let footer = footer_image(b as nat, i as nat, (b + i) as nat, f as nat);
    let n = file.len() as int;
    law_footer_fields(footer);
    assert(b + i + f == n - 40);
    lemma_footer_in_file(file, footer);
    if cs.len() > 0 {
        assert(cs.take(cs.len() - 1) =~= cs.drop_last());
    }
}

/// A footer's numbers, read at the end of its file.
proof fn lemma_footer_in_file(file: Seq<u8>, footer: Seq<u8>)
    requires
        footer.len() == 40,
        file.len() >= 40,
        file.skip(file.len() - 40) == footer,
    ensures
        eight_bytes(file, file.len() - 40) == eight_bytes(footer, 0),
        eight_bytes(file, file.len() - 32) == eight_bytes(footer, 8),
        eight_bytes(file, file.len() - 24) == eight_bytes(footer, 16),
        eight_bytes(file, file.len() - 16) == eight_bytes(footer, 24),
        eight_bytes(file, file.len() - 8) == eight_bytes(footer, 32),
{
    let n = file.len() as int;
    assert forall|j: int| 0 <= j < 40 implies #[trigger] footer[j] == file[n - 40 + j] by {
        assert(file.skip(n - 40)[j] == file[n - 40 + j]);
    }
}

/// The index names each block by its first key and says where it stands: the first one at the
/// start of the file, each other one behind the one before it.
pub proof fn law_table_places(es: Seq<Entry>, block_size: nat, i: int)
    requires
        0 <= i < chunks(es, block_size).len(),
    ensures
        ({
            let ms = table_model(es, block_size).metas;
            let c = chunks(es, block_size)[i];
            &&& ms[i].first_key == c[0].0
            &&& ms[i].offset == if i == 0 {
                0
            } else {
                ms[i - 1].offset + ms[i - 1].len
            }
            &&& table_image(es, block_size).subrange(
                ms[i].offset as int,
                (ms[i].offset + ms[i].len) as int,
            ) == block_image(c)
        }),
{
    let cs = chunks(es, block_size);
    lemma_table_block(es, block_size, i);
    if i > 0 {
        assert(cs.take(i).drop_last() =~= cs.take(i - 1));
    } else {
        assert(cs.take(0) =~= Seq::<Seq<Entry>>::empty());
    }
}

/// A table's filter is built from the keys of its entries, tombstones included.
pub proof fn law_table_filter(es: Seq<Entry>, block_size: nat)
    requires
        filter_fits(es.len()),
    ensures
        table_model(es, block_size).filter.built_from(Seq::new(es.len(), |i: int| es[i].0)),
{
    lemma_table_filter(es);
    assert(keys(es) =~= Seq::new(es.len(), |i: int| es[i].0));
}

/// A lookup reads no block when the filter rules the key out, when the key comes before the
/// first one, and when the table is empty. Otherwise it reads the one block whose first key is
/// not after the key while that of the next block is.
pub proof fn law_table_skips(es: Seq<Entry>, block_size: nat, key: Seq<u8>)
    requires
        table_fits(es, block_size),
    ensures
        ({
            let t = table_model(es, block_size);
            match t.get(key) {
                TableStep::Absent => !t.filter.may_contain(key) || es.len() == 0 || key_lt(
                    key,
                    es[0].0,
                ),
                TableStep::Read(i) => {
                    let cs = chunks(es, block_size);
                    &&& t.filter.may_contain(key)
                    &&& i < cs.len()
                    &&& cs[i as int][0].0 == key || key_lt(cs[i as int][0].0, key)
                    &&& i + 1 < cs.len() ==> key_lt(key, cs[i + 1][0].0)
                },
                TableStep::Unaddressable => false,
            }
        }),
{
    let t = table_model(es, block_size);
    let cs = chunks(es, block_size);
    lemma_chunks_joined(es, block_size);
    lemma_table_filter(es);
    if cs.len() > 0 {
        lemma_joined_at(cs, 0, 0);
        assert(cs.take(0) =~= Seq::<Seq<Entry>>::empty());
        lemma_candidate(es, block_size, key);
        assert(cs.len() <= es.len()) by {
            lemma_chunk_count(cs);
        }
    }
}

/// There are no more runs than entries in them, if none is empty.
proof fn lemma_chunk_count(cs: Seq<Seq<Entry>>)
    requires
        no_empty(cs),
    ensures
        cs.len() <= joined(cs).len(),
    decreases cs.len(),
{
    if cs.len() > 0 {
        let front = cs.drop_last();
        assert forall|j: int| 0 <= j < front.len() implies (#[trigger] front[j]).len() > 0 by {
            assert(front[j] == cs[j]);
        }
        lemma_chunk_count(front);
        assert(cs[cs.len() - 1].len() > 0);
    }
}

/// An index is read from any bytes as the number of entries that its first four bytes spell.
pub proof fn law_index_of(s: Seq<u8>)
    ensures
        index_of(s) == if s.len() < 4 {
            None
        } else {
            metas_from(s.skip(4), four_bytes(s, 0) as nat)
        },
        metas_from(s, 0) == Some(Seq::<MetaModel>::empty()),
{
    if s.len() >= 4 {
        law_be_value(s, 0);
    }
}

/// The text that goes with a wrong magic number names both numbers in sixteen hexadecimal digits.
pub proof fn law_magic_text(found: nat)
    ensures
        magic_text(found) == "Invalid SSTable magic bytes: expected 0x"@ + (hexadecimal(
            0x4C53_4D54_5245_4531,
            16,
        ) + (", got 0x"@ + hexadecimal(found, 16))),
{
    assert(magic_text(found) =~= "Invalid SSTable magic bytes: expected 0x"@ + (hexadecimal(
        0x4C53_4D54_5245_4531,
        16,
    ) + (", got 0x"@ + hexadecimal(found, 16))));
}

} // verus!
