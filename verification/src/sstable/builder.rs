//! Building table files.
//!
//! A table file holds its data blocks, then the block index, then the Bloom filter, then a
//! footer of fixed size that says where the index and the filter are.
use crate::codec::{
    as_slice, be_bytes, bytes_of, copy_bytes, freeze, lemma_low_u16, lemma_low_u32, put_slice,
    put_u16, put_u32, put_u64,
};
use crate::entry::{entries_of, entry_of, Entry};
use crate::error::{LsmError, Result};
use crate::filter::bloom::{
    check_filter_fits, filter_fits, keys_of, law_filter_fits, lemma_built_unique, BloomFilter,
    BloomModel,
};
use crate::sstable::block::{block_image, entry_fits, slice_entry, BlockBuilder};
use bytes::Bytes;
use vstd::prelude::*;
use vstd::slice::slice_to_vec;

verus! {

pub const SSTABLE_MAGIC: u64 = 0x4C534D5452454531;  // "LSMTREE1" in hex

// 8 (index_offset) + 8 (index_len) + 8 (filter_offset) + 8 (filter_len) + 8 (magic)
pub const FOOTER_SIZE: usize = 40;

pub const DEFAULT_BLOCK_SIZE: usize = 4096;  // 4KB

/// Where a data block stands in its file, and the first key in it.
#[derive(Clone, Debug)]
pub struct BlockMeta {
    pub first_key: Bytes,
    pub offset: u64,
    pub len: u64,
}

/// An index entry as mathematical values.
#[verifier::ext_equal]
pub struct MetaModel {
    pub first_key: Seq<u8>,
    pub offset: nat,
    pub len: nat,
}

impl View for BlockMeta {
    type V = MetaModel;

    open spec fn view(&self) -> MetaModel {
        MetaModel {
            first_key: bytes_of(self.first_key),
            offset: self.offset as nat,
            len: self.len as nat,
        }
    }
}

/// The views of a list of index entries.
pub open spec fn metas_of(metas: Seq<BlockMeta>) -> Seq<MetaModel> {
    Seq::new(metas.len(), |i: int| metas[i]@)
}

/// Entries cut into blocks: those that are complete, and the one that is still being filled.
pub struct Split {
    pub done: Seq<Seq<Entry>>,
    pub current: Seq<Entry>,
}

/// How entries are cut into blocks: a block takes entries as long as they fit, and the first
/// one that does not fit starts the next block.
pub open spec fn split(es: Seq<Entry>, block_size: nat) -> Split
    decreases es.len(),
{
    if es.len() == 0 {
        Split { done: Seq::empty(), current: Seq::empty() }
    } else {
        let s = split(es.drop_last(), block_size);
        if entry_fits(s.current, es.last(), block_size) {
            Split { done: s.done, current: s.current.push(es.last()) }
        } else {
            Split { done: s.done.push(s.current), current: seq![es.last()] }
        }
    }
}

/// The blocks of a finished table.
pub open spec fn chunks(es: Seq<Entry>, block_size: nat) -> Seq<Seq<Entry>> {
    let s = split(es, block_size);
    if s.current.len() == 0 {
        s.done
    } else {
        s.done.push(s.current)
    }
}

/// Data blocks one behind the other.
pub open spec fn blocks_image(cs: Seq<Seq<Entry>>) -> Seq<u8>
    decreases cs.len(),
{
    if cs.len() == 0 {
        Seq::empty()
    } else {
        blocks_image(cs.drop_last()) + block_image(cs.last())
    }
}

/// The index entry of block `i`.
pub open spec fn meta_of(cs: Seq<Seq<Entry>>, i: int) -> MetaModel {
    MetaModel {
        first_key: cs[i][0].0,
        offset: blocks_image(cs.take(i)).len(),
        len: block_image(cs[i]).len(),
    }
}

/// The index of the given blocks.
pub open spec fn metas(cs: Seq<Seq<Entry>>) -> Seq<MetaModel> {
    Seq::new(cs.len(), |i: int| meta_of(cs, i))
}

/// An index entry as it stands in the file.
pub open spec fn meta_image(m: MetaModel) -> Seq<u8> {
    be_bytes(m.first_key.len(), 2) + m.first_key + be_bytes(m.offset, 8) + be_bytes(m.len, 8)
}

/// Index entries one behind the other.
pub open spec fn metas_image(ms: Seq<MetaModel>) -> Seq<u8>
    decreases ms.len(),
{
    if ms.len() == 0 {
        Seq::empty()
    } else {
        metas_image(ms.drop_last()) + meta_image(ms.last())
    }
}

/// The block index as it stands in the file: the number of blocks, then each of them.
pub open spec fn index_image(ms: Seq<MetaModel>) -> Seq<u8> {
    be_bytes(ms.len(), 4) + metas_image(ms)
}

/// The keys of a run of entries.
pub open spec fn keys(es: Seq<Entry>) -> Seq<Seq<u8>> {
    Seq::new(es.len(), |i: int| es[i].0)
}

/// The filter of a run of entries.
pub open spec fn filter_of(es: Seq<Entry>) -> BloomModel {
    choose|f: BloomModel| #[trigger] f.built_from(keys(es))
}

/// The footer: where the index and the filter stand, and the magic number.
pub open spec fn footer_image(
    index_offset: nat,
    index_len: nat,
    filter_offset: nat,
    filter_len: nat,
) -> Seq<u8> {
    be_bytes(index_offset, 8) + be_bytes(index_len, 8) + be_bytes(filter_offset, 8) + be_bytes(
        filter_len,
        8,
    ) + be_bytes(SSTABLE_MAGIC as nat, 8)
}

/// A table file that holds the given entries in blocks of the given size.
pub open spec fn table_image(es: Seq<Entry>, block_size: nat) -> Seq<u8> {
    let cs = chunks(es, block_size);
    let blocks = blocks_image(cs);
    let index = index_image(metas(cs));
    let filter = filter_of(es).image();
    blocks + index + filter + footer_image(
        blocks.len(),
        index.len(),
        blocks.len() + index.len(),
        filter.len(),
    )
}

/// Puts a table file together, entry by entry.
pub struct SsTableBuilder {
    out: Vec<u8>,
    current_block: BlockBuilder,
    first_key_in_current_block: Option<Bytes>,
    block_metas: Vec<BlockMeta>,
    keys_for_bloom: Vec<Vec<u8>>,
    block_size: usize,
    entries: Ghost<Seq<Entry>>,
}

impl View for SsTableBuilder {
    type V = Seq<Entry>;

    /// The entries added so far.
    closed spec fn view(&self) -> Seq<Entry> {
        self.entries@
    }
}

impl SsTableBuilder {
    /// What has been written, the index and the open block are those of the entries.
    pub closed spec fn wf(&self) -> bool {
        let s = split(self.entries@, self.block_size as nat);
        &&& self.holds(s)
        &&& self.keys_for_bloom@.len() == self.entries@.len()
        &&& forall|i: int|
            0 <= i < self.entries@.len() ==> (#[trigger] self.keys_for_bloom@[i])@
                == self.entries@[i].0
    }

    /// The blocks are the ones of a given split.
    spec fn holds(&self, s: Split) -> bool {
        &&& self.out@ == blocks_image(s.done)
        &&& metas_of(self.block_metas@) == metas(s.done)
        &&& self.current_block.wf()
        &&& self.current_block.spec_block_size() == self.block_size
        &&& self.current_block@ == s.current
        &&& match self.first_key_in_current_block {
            Some(k) => s.current.len() > 0 && bytes_of(k) == s.current[0].0,
            None => s.current.len() == 0,
        }
    }

    pub closed spec fn spec_block_size(&self) -> usize {
        self.block_size
    }

    pub fn create() -> (b: Self)
        ensures
            b.wf(),
            b@ == Seq::<Entry>::empty(),
            b.spec_block_size() == DEFAULT_BLOCK_SIZE,
            b.spec_block_size() == 4096,
    {
        Self::create_with_block_size(DEFAULT_BLOCK_SIZE)
    }

    pub fn create_with_block_size(block_size: usize) -> (b: Self)
        ensures
            b.wf(),
            b@ == Seq::<Entry>::empty(),
            b.spec_block_size() == block_size,
    {
        let b: SsTableBuilder = SsTableBuilder {
            out: Vec::new(),
            current_block: BlockBuilder::new(block_size),
            first_key_in_current_block: None,
            block_metas: Vec::new(),
            keys_for_bloom: Vec::new(),
            block_size,
            entries: Ghost(Seq::empty()),
        };
        proof {
            assert(metas_of(b.block_metas@) =~= metas(Seq::<Seq<Entry>>::empty()));
        }
        b
    }

    /// Appends a sorted key-value pair (or tombstone).
    /// Keys must be added in strictly non-decreasing sorted order.
    pub fn add(&mut self, key: &[u8], value: Option<&[u8]>) -> (r: Result<()>)
        requires
            old(self).wf(),
        ensures
            r is Ok,
            final(self).wf(),
            final(self)@ == old(self)@.push(slice_entry(key, value)),
            final(self).spec_block_size() == old(self).spec_block_size(),
    {
        let ghost es = self.entries@;
        let ghost e = slice_entry(key, value);
        let ghost s = split(es, self.block_size as nat);
        proof {
            assert(es.push(e).drop_last() =~= es);
        }
        if self.first_key_in_current_block.is_none() {
            self.first_key_in_current_block = Some(copy_bytes(key));
        }
        // Record key for bloom filter
        self.keys_for_bloom.push(slice_to_vec(key));
        if !self.current_block.add(key, value) {
            // Block is full. Close it and start a new block.
            self.flush_current_block(Ghost(s));
            self.first_key_in_current_block = Some(copy_bytes(key));
            let added: bool = self.current_block.add(key, value);
            if !added {
                return Err(
                    LsmError::CorruptedSSTable("Single entry exceeds block size limit".to_owned()),
                );
            }
            assert(self.current_block@ =~= seq![e]);
        }
        self.entries = Ghost(es.push(e));
        Ok(())
    }

    /// Closes the open block, if it holds anything, and starts a new one.
    fn flush_current_block(&mut self, Ghost(s): Ghost<Split>)
        requires
            old(self).holds(s),
        ensures
            final(self).holds(
                (Split {
                    done: if s.current.len() == 0 {
                        s.done
                    } else {
                        s.done.push(s.current)
                    },
                    current: Seq::empty(),
                }),
            ),
            final(self).block_size == old(self).block_size,
            final(self).keys_for_bloom == old(self).keys_for_bloom,
            final(self).entries == old(self).entries,
    {
        if self.current_block.is_empty() {
            assert(s.current =~= Seq::<Entry>::empty());
            return;
        }
        let mut first_key: Option<Bytes> = None;
        std::mem::swap(&mut first_key, &mut self.first_key_in_current_block);
        let mut block: BlockBuilder = BlockBuilder::new(self.block_size);
        std::mem::swap(&mut block, &mut self.current_block);
        let block_bytes: Bytes = block.build();
        let len: usize = as_slice(&block_bytes).len();
        let offset: usize = self.out.len();
        put_slice(&mut self.out, as_slice(&block_bytes));
        if let Some(first_key) = first_key {
            self.block_metas.push(
                BlockMeta { first_key, offset: offset as u64, len: len as u64 },
            );
        }
        proof {
            let cs = s.done.push(s.current);
            assert(cs.drop_last() =~= s.done);
            assert(metas_of(self.block_metas@) =~= metas_of(old(self).block_metas@).push(
                meta_of(cs, s.done.len() as int),
            )) by {
                assert(cs.take(s.done.len() as int) =~= s.done);
            }
            lemma_metas_push(s.done, s.current);
        }
    }

    /// Finalizes the SSTable by writing any remaining block, the Block Index, the Bloom
    /// Filter, and the Footer. Returns the file's bytes.
    pub fn finish(self) -> (file: Bytes)
        requires
            self.wf(),
            filter_fits(self@.len()),
        ensures
            bytes_of(file) == table_image(self@, self.spec_block_size() as nat),
    {
        let mut this: SsTableBuilder = self;
        let ghost es = this.entries@;
        let ghost bs = this.block_size as nat;
        let ghost cs = chunks(es, bs);
        // 1. Flush any pending block
        this.flush_current_block(Ghost(split(es, bs)));
        // 2. Encode and write Block Index
        let index_offset: usize = this.out.len();
        let index_bytes: Vec<u8> = encode_index(&this.block_metas);
        put_slice(&mut this.out, index_bytes.as_slice());
        // 3. Build, encode and write Bloom Filter
        let filter_offset: usize = this.out.len();
        let mut key_slices: Vec<&[u8]> = Vec::new();
        let mut i: usize = 0;
        while i < this.keys_for_bloom.len()
            invariant
                i <= this.keys_for_bloom@.len(),
                key_slices@.len() == i,
                forall|j: int|
                    0 <= j < i ==> (#[trigger] key_slices@[j])@ == this.keys_for_bloom@[j]@,
            decreases this.keys_for_bloom@.len() - i,
        {
            key_slices.push(this.keys_for_bloom[i].as_slice());
            i = i + 1;
        }
        proof {
            assert(keys_of(key_slices@) =~= keys(es));
        }
        let bloom_filter: BloomFilter = BloomFilter::build(key_slices.as_slice());
        proof {
            assert(filter_of(es).built_from(keys(es)));
            lemma_built_unique(bloom_filter@, filter_of(es), keys(es));
        }
        let filter_bytes: Bytes = bloom_filter.encode();
        let filter_len: usize = as_slice(&filter_bytes).len();
        put_slice(&mut this.out, as_slice(&filter_bytes));
        // 4. Write Footer: [index_offset: 8B] [index_len: 8B] [filter_offset: 8B]
        // [filter_len: 8B] [magic: 8B]
        let ghost body = this.out@;
        put_u64(&mut this.out, index_offset as u64);
        put_u64(&mut this.out, index_bytes.len() as u64);
        put_u64(&mut this.out, filter_offset as u64);
        put_u64(&mut this.out, filter_len as u64);
        put_u64(&mut this.out, SSTABLE_MAGIC);
        proof {
            let footer = footer_image(
                index_offset as nat,
                index_bytes@.len(),
                filter_offset as nat,
                filter_len as nat,
            );
            assert(this.out@ =~= body + footer);
            assert(this.out@ =~= table_image(es, bs));
        }
        freeze(this.out)
    }
}

/// A table file that holds the given entries; `None` when no filter can be made for so many.
pub fn build_table(entries: &Vec<(Bytes, Option<Bytes>)>, block_size: usize) -> (r: Option<Bytes>)
    ensures
        match r {
            Some(file) => filter_fits(entries@.len()) && bytes_of(file) == table_image(
                entries_of(entries@),
                block_size as nat,
            ),
            None => !filter_fits(entries@.len()),
        },
        10 * entries@.len() + 7 < 0x1_0000_0000 - 64 ==> r is Some,
{
    proof {
        if 10 * entries@.len() + 7 < 0x1_0000_0000 - 64 {
            law_filter_fits(entries@.len());
        }
    }
    if !check_filter_fits(entries.len()) {
        return None;
    }
    let ghost es = entries_of(entries@);
    let mut builder: SsTableBuilder = SsTableBuilder::create_with_block_size(block_size);
    let mut i: usize = 0;
    assert(es.take(0) =~= Seq::<Entry>::empty());
    while i < entries.len()
        invariant
            i <= entries@.len(),
            es == entries_of(entries@),
            builder.wf(),
            builder@ == es.take(i as int),
            builder.spec_block_size() == block_size,
        decreases entries@.len() - i,
    {
        let entry: &(Bytes, Option<Bytes>) = &entries[i];
        let value: Option<&[u8]> = match &entry.1 {
            Some(v) => Some(as_slice(v)),
            None => None,
        };
        let added: Result<()> = builder.add(as_slice(&entry.0), value);
        proof {
            assert(entry_of(*entry) == es[i as int]);
            assert(es.take(i + 1) =~= es.take(i as int).push(es[i as int]));
        }
        i = i + 1;
    }
    assert(es.take(entries@.len() as int) =~= es);
    Some(builder.finish())
}

/// The bytes of a block index.
fn encode_index(block_metas: &Vec<BlockMeta>) -> (buf: Vec<u8>)
    ensures
        buf@ == index_image(metas_of(block_metas@)),
{
    let mut buf: Vec<u8> = Vec::new();
    put_u32(&mut buf, block_metas.len() as u32);
    let ghost ms = metas_of(block_metas@);
    proof {
        lemma_low_u32(block_metas@.len() as usize);
        assert(ms.take(0) =~= Seq::<MetaModel>::empty());
        assert(buf@ =~= be_bytes(ms.len(), 4) + metas_image(ms.take(0)));
    }
    let mut i: usize = 0;
    while i < block_metas.len()
        invariant
            i <= block_metas@.len(),
            ms == metas_of(block_metas@),
            buf@ == be_bytes(ms.len(), 4) + metas_image(ms.take(i as int)),
        decreases block_metas@.len() - i,
    {
        let meta: &BlockMeta = &block_metas[i];
        let first_key: &[u8] = as_slice(&meta.first_key);
        let ghost before = buf@;
        proof {
            lemma_low_u16(first_key@.len() as usize);
        }
        put_u16(&mut buf, first_key.len() as u16);
        put_slice(&mut buf, first_key);
        put_u64(&mut buf, meta.offset);
        put_u64(&mut buf, meta.len);
        proof {
            assert(buf@ =~= before + meta_image(ms[i as int]));
            assert(ms.take(i + 1).drop_last() =~= ms.take(i as int));
            assert(buf@ =~= be_bytes(ms.len(), 4) + metas_image(ms.take(i + 1)));
        }
        i = i + 1;
    }
    assert(ms.take(block_metas@.len() as int) =~= ms);
    buf
}

proof fn lemma_metas_push(cs: Seq<Seq<Entry>>, c: Seq<Entry>)
    ensures
        metas(cs.push(c)) == metas(cs).push(meta_of(cs.push(c), cs.len() as int)),
{
    let all = cs.push(c);
    assert forall|i: int| 0 <= i < cs.len() implies meta_of(all, i) == meta_of(cs, i) by {
        assert(all.take(i) =~= cs.take(i));
    }
    assert(metas(all) =~= metas(cs).push(meta_of(all, cs.len() as int)));
}

/// Index entries in memory stand for as many in the same order, with the same key and numbers.
pub proof fn law_metas_of(ms: Seq<BlockMeta>, i: int)
    ensures
        metas_of(ms).len() == ms.len(),
        0 <= i < ms.len() ==> metas_of(ms)[i].first_key == bytes_of(ms[i].first_key) && metas_of(
            ms,
        )[i].offset == ms[i].offset && metas_of(ms)[i].len == ms[i].len,
{
}

} // verus!
