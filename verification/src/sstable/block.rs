//! Data blocks: sorted entries, packed one behind the other, with a trailing table of their
//! offsets.
//!
//! An entry is laid out as `[KeyLen: 2B][ValLen: 4B][Tombstone: 1B][Key][Val]`. Behind the
//! last entry stand the two-byte offset of each entry and the two-byte number of entries.
use crate::codec::{
    as_slice, be_bytes, be_value, bytes_of, four_bytes, freeze, get_u16, get_u32, get_u8,
    law_be_value, lemma_be_len, lemma_be_ranges, lemma_be_round_trip, lemma_low_u16, lemma_low_u32,
    put_slice, put_u16, put_u32, put_u8, slice_bytes, two_bytes,
};
use crate::entry::{
    entries_of, found_of, lemma_lookup_absent, lemma_lookup_finds, lookup, strictly_sorted,
    value_of, Entry,
};
use crate::error::{LsmError, Result};
use crate::key::{
    compare_keys, key_lt, lemma_key_irreflexive, lemma_key_total, lemma_key_transitive, KeyOrder,
};
use bytes::Bytes;
use vstd::prelude::*;

verus! {

/// Bytes before an entry's key: 2 (key length) + 4 (value length) + 1 (tombstone mark).
pub const ENTRY_HEADER_SIZE: usize = 7;

/// A Data Block containing sorted key-value pairs with a trailing offset array
/// to allow O(log N) binary search within the block.
#[derive(Clone)]
pub struct Block {
    data: Bytes,
    offsets: Vec<u16>,
}

/// A block as its bytes and the places where its entries start.
#[verifier::ext_equal]
pub struct BlockModel {
    pub data: Seq<u8>,
    pub offsets: Seq<u16>,
}

impl View for Block {
    type V = BlockModel;

    closed spec fn view(&self) -> BlockModel {
        BlockModel { data: bytes_of(self.data), offsets: self.offsets@ }
    }
}

/// What looking for a key in a block comes to.
pub enum Probe {
    /// The key is there, with a value or a tombstone.
    Found(Option<Seq<u8>>),
    /// The key is not there.
    Missing,
    /// The block points outside its own bytes.
    OutOfBounds,
}

impl BlockModel {
    pub open spec fn start(self, i: int) -> int {
        self.offsets[i] as int
    }

    pub open spec fn key_len(self, i: int) -> int {
        be_value(self.data.subrange(self.start(i), self.start(i) + 2)) as int
    }

    pub open spec fn val_len(self, i: int) -> int {
        be_value(self.data.subrange(self.start(i) + 2, self.start(i) + 6)) as int
    }

    pub open spec fn val_start(self, i: int) -> int {
        self.start(i) + 7 + self.key_len(i)
    }

    /// Entry `i` starts within the block.
    pub open spec fn starts_inside(self, i: int) -> bool {
        self.start(i) <= self.data.len()
    }

    /// The key of entry `i`, unless the block ends before it does.
    pub open spec fn key_at(self, i: int) -> Option<Seq<u8>> {
        if self.data.len() < self.start(i) + 7 {
            None
        } else if self.data.len() < self.val_start(i) {
            None
        } else {
            Some(self.data.subrange(self.start(i) + 7, self.val_start(i)))
        }
    }

    pub open spec fn is_tombstone(self, i: int) -> bool {
        self.data[self.start(i) + 6] == 1
    }

    /// The value of entry `i`, if it has one, ends within the block.
    pub open spec fn value_inside(self, i: int) -> bool {
        self.is_tombstone(i) || self.val_start(i) + self.val_len(i) <= self.data.len()
    }

    /// The value of entry `i`, or `None` for a tombstone.
    pub open spec fn value_at(self, i: int) -> Option<Seq<u8>> {
        if self.is_tombstone(i) {
            None
        } else {
            Some(self.data.subrange(self.val_start(i), self.val_start(i) + self.val_len(i)))
        }
    }

    /// Binary search for a key among the entries from `low` to `high`.
    pub open spec fn search(self, key: Seq<u8>, low: int, high: int) -> Probe
        decreases high - low + 1,
    {
        if low > high {
            Probe::Missing
        } else {
            let mid = low + (high - low) / 2;
            if !self.starts_inside(mid) {
                Probe::OutOfBounds
            } else {
                match self.key_at(mid) {
                    None => Probe::Missing,
                    Some(k) => if k == key {
                        if self.value_inside(mid) {
                            Probe::Found(self.value_at(mid))
                        } else {
                            Probe::OutOfBounds
                        }
                    } else if key_lt(k, key) {
                        self.search(key, mid + 1, high)
                    } else {
                        self.search(key, low, mid - 1)
                    },
                }
            }
        }
    }

    /// What looking for a key in the whole block comes to.
    pub open spec fn probe(self, key: Seq<u8>) -> Probe {
        self.search(key, 0, self.offsets.len() - 1)
    }

    /// What reading the block from entry `i` on gives: each entry whose key can be read, with
    /// its own value. `None` when the block points outside its own bytes.
    pub open spec fn read_from(self, i: int) -> Option<Seq<Entry>>
        decreases self.offsets.len() - i,
    {
        if i < 0 || i >= self.offsets.len() {
            Some(Seq::empty())
        } else if !self.starts_inside(i) {
            None
        } else {
            match self.key_at(i) {
                None => self.read_from(i + 1),
                Some(k) => if !self.value_inside(i) {
                    None
                } else {
                    match self.read_from(i + 1) {
                        None => None,
                        Some(rest) => Some(seq![(k, self.value_at(i))] + rest),
                    }
                },
            }
        }
    }

    /// Every entry lies within the block.
    pub open spec fn readable(self) -> bool {
        forall|i: int|
            #![trigger self.offsets[i]]
            0 <= i < self.offsets.len() ==> self.starts_inside(i) && self.key_at(i) is Some
                && self.value_inside(i)
    }

    /// The entries of the block, by their place.
    pub open spec fn entries(self) -> Seq<Entry> {
        Seq::new(self.offsets.len(), |i: int| (self.key_at(i)->0, self.value_at(i)))
    }
}

/// The first thing that decoding a byte string as a block finds wrong with it, if anything.
pub open spec fn block_fault(data: Seq<u8>) -> Option<Seq<char>> {
    if data.len() < 2 {
        Some("Block data too short"@)
    } else if data.len() - 2 < 2 * be_value(data.subrange(data.len() - 2, data.len() as int)) {
        Some("Block offset table out of bounds"@)
    } else {
        None
    }
}

/// The block that a byte string without such a fault spells.
pub open spec fn block_of(data: Seq<u8>) -> BlockModel {
    let n = be_value(data.subrange(data.len() - 2, data.len() as int));
    let table = data.len() - 2 - 2 * n;
    BlockModel {
        data,
        offsets: Seq::new(
            n,
            |i: int| be_value(data.subrange(table + 2 * i, table + 2 * i + 2)) as u16,
        ),
    }
}

/// What a search of a block found, with the value as a handle on the block's bytes.
pub enum BlockSearch {
    Found(Option<Bytes>),
    Missing,
    OutOfBounds,
}

impl View for BlockSearch {
    type V = Probe;

    open spec fn view(&self) -> Probe {
        match self {
            BlockSearch::Found(v) => Probe::Found(value_of(*v)),
            BlockSearch::Missing => Probe::Missing,
            BlockSearch::OutOfBounds => Probe::OutOfBounds,
        }
    }
}

impl Block {
    /// Decodes a raw byte buffer into an in-memory Block.
    /// Format:
    /// [Entry 0] [Entry 1] ... [Entry N-1]
    /// [Offset 0: u16] [Offset 1: u16] ... [Offset N-1: u16]
    /// [Num Entries: u16]
    pub fn decode(data: Bytes) -> (r: Result<Self>)
        ensures
            match block_fault(bytes_of(data)) {
                Some(text) => r matches Err(LsmError::CorruptedSSTable(s)) && s@ == text,
                None => r matches Ok(b) && b@ == block_of(bytes_of(data)),
            },
    {
        let raw: &[u8] = as_slice(&data);
        if raw.len() < 2 {
            return Err(LsmError::CorruptedSSTable("Block data too short".to_owned()));
        }
        let count_at: usize = raw.len() - 2;
        let num_entries: usize = get_u16(raw, count_at) as usize;
        if count_at < num_entries * 2 {
            return Err(LsmError::CorruptedSSTable("Block offset table out of bounds".to_owned()));
        }
        let table: usize = count_at - num_entries * 2;
        let ghost model = block_of(bytes_of(data));
        let mut offsets: Vec<u16> = Vec::new();
        let mut i: usize = 0;
        while i < num_entries
            invariant
                i <= num_entries,
                raw@ == bytes_of(data),
                model == block_of(raw@),
                num_entries == model.offsets.len(),
                num_entries <= 0xffff,
                table + 2 * num_entries + 2 == raw@.len(),
                raw@.len() <= usize::MAX,
                offsets@ == model.offsets.take(i as int),
            decreases num_entries - i,
        {
            let o: u16 = get_u16(raw, table + 2 * i);
            assert(model.offsets[i as int] == o);
            offsets.push(o);
            assert(offsets@ =~= model.offsets.take(i + 1));
            i = i + 1;
        }
        assert(model.offsets.take(num_entries as int) =~= model.offsets);
        Ok(Block { data, offsets })
    }

    /// Number of key-value entries in this block.
    pub fn len(&self) -> (n: usize)
        ensures
            n as nat == self@.offsets.len(),
    {
        self.offsets.len()
    }

    pub fn is_empty(&self) -> (b: bool)
        ensures
            b == (self@.offsets.len() == 0),
    {
        self.offsets.len() == 0
    }

    /// Retrieves the key at index `idx`.
    pub fn get_key(&self, idx: usize) -> (k: Option<Bytes>)
        requires
            idx < self@.offsets.len() ==> self@.starts_inside(idx as int),
        ensures
            value_of(k) == if idx < self@.offsets.len() {
                self@.key_at(idx as int)
            } else {
                None
            },
    {
        if idx >= self.offsets.len() {
            return None;
        }
        let offset: usize = self.offsets[idx] as usize;
        let raw: &[u8] = as_slice(&self.data);
        if raw.len() - offset < ENTRY_HEADER_SIZE {
            return None;
        }
        let key_len: usize = get_u16(raw, offset) as usize;
        if raw.len() - offset - ENTRY_HEADER_SIZE < key_len {
            return None;
        }
        let key_start: usize = offset + ENTRY_HEADER_SIZE;
        Some(slice_bytes(&self.data, key_start, key_start + key_len))
    }

    /// Returns the first key in this block, if present.
    pub fn first_key(&self) -> (k: Option<Bytes>)
        requires
            self@.offsets.len() > 0 ==> self@.starts_inside(0),
        ensures
            value_of(k) == if self@.offsets.len() > 0 {
                self@.key_at(0)
            } else {
                None
            },
    {
        self.get_key(0)
    }

    /// The value of an entry whose key could be read.
    fn read_value(&self, idx: usize) -> (r: BlockSearch)
        requires
            idx < self@.offsets.len(),
            self@.key_at(idx as int) is Some,
        ensures
            r@ == if self@.value_inside(idx as int) {
                Probe::Found(self@.value_at(idx as int))
            } else {
                Probe::OutOfBounds
            },
    {
        let offset: usize = self.offsets[idx] as usize;
        let raw: &[u8] = as_slice(&self.data);
        let len: usize = raw.len();
        let key_len: usize = get_u16(raw, offset) as usize;
        let val_len: u64 = get_u32(raw, offset + 2) as u64;
        if get_u8(raw, offset + 6) == 1 {
            return BlockSearch::Found(None);  // Tombstone
        }
        let val_start: usize = offset + ENTRY_HEADER_SIZE + key_len;
        if val_len > (len - val_start) as u64 {
            return BlockSearch::OutOfBounds;
        }
        BlockSearch::Found(Some(slice_bytes(&self.data, val_start, val_start + val_len as usize)))
    }

    /// Looks for a key by binary search over the offset table, and reports a block that
    /// points outside its own bytes.
    pub fn search(&self, target_key: &[u8]) -> (r: BlockSearch)
        ensures
            r@ == self@.probe(target_key@),
    {
        let mut low: usize = 0;
        // One past the last candidate.
        let mut high: usize = self.offsets.len();
        while low < high
            invariant
                low <= high <= self@.offsets.len(),
                self@.search(target_key@, low as int, high - 1) == self@.probe(target_key@),
            decreases high - low,
        {
            let mid: usize = low + (high - 1 - low) / 2;
            if self.offsets[mid] as usize > as_slice(&self.data).len() {
                return BlockSearch::OutOfBounds;
            }
            let mid_key: Bytes = match self.get_key(mid) {
                Some(k) => k,
                None => {
                    return BlockSearch::Missing;
                },
            };
            match compare_keys(as_slice(&mid_key), target_key) {
                KeyOrder::Equal => {
                    return self.read_value(mid);
                },
                KeyOrder::Less => {
                    low = mid + 1;
                },
                KeyOrder::Greater => {
                    proof {
                        lemma_key_irreflexive(target_key@);
                        if key_lt(bytes_of(mid_key), target_key@) {
                            lemma_key_transitive(target_key@, bytes_of(mid_key), target_key@);
                        }
                    }
                    high = mid;
                },
            }
        }
        BlockSearch::Missing
    }

    /// Looks up a key within the block using binary search over the offset index.
    /// Returns:
    /// - `Some(Some(value))` if found with active value
    /// - `Some(None)` if found with tombstone (deleted)
    /// - `None` if not found in this block
    pub fn get(&self, target_key: &[u8]) -> (r: Option<Option<Bytes>>)
        requires
            self@.probe(target_key@) !is OutOfBounds,
        ensures
            match self@.probe(target_key@) {
                Probe::Found(v) => found_of(r) == Some(v),
                _ => r is None,
            },
    {
        match self.search(target_key) {
            BlockSearch::Found(v) => Some(v),
            _ => None,
        }
    }

    /// Reads all entries of the block in sequential order; `None` when the block points
    /// outside its own bytes.
    pub fn read_entries(&self) -> (r: Option<Vec<(Bytes, Option<Bytes>)>>)
        ensures
            match self@.read_from(0) {
                Some(es) => r matches Some(v) && entries_of(v@) == es,
                None => r is None,
            },
    {
        let mut entries: Vec<(Bytes, Option<Bytes>)> = Vec::new();
        let mut i: usize = 0;
        proof {
            assert(entries_of(entries@) =~= Seq::<Entry>::empty());
            if let Some(es) = self@.read_from(0) {
                assert(Seq::<Entry>::empty() + es =~= es);
            }
        }
        while i < self.offsets.len()
            invariant
                i <= self@.offsets.len(),
                self@.offsets == self.offsets@,
                match self@.read_from(0) {
                    Some(es) => self@.read_from(i as int) matches Some(rest) && es == entries_of(
                        entries@,
                    ) + rest,
                    None => self@.read_from(i as int) is None,
                },
            decreases self@.offsets.len() - i,
        {
            if self.offsets[i] as usize > as_slice(&self.data).len() {
                return None;
            }
            if let Some(k) = self.get_key(i) {
                match self.read_value(i) {
                    BlockSearch::OutOfBounds => {
                        return None;
                    },
                    BlockSearch::Missing => {},
                    BlockSearch::Found(v) => {
                        let ghost before = entries_of(entries@);
                        let ghost e = (bytes_of(k), value_of(v));
                        entries.push((k, v));
                        proof {
                            assert(entries_of(entries@) =~= before.push(e));
                            if let Some(rest) = self@.read_from(i + 1) {
                                assert(before + (seq![e] + rest) =~= before.push(e) + rest);
                            }
                        }
                    },
                }
            }
            i = i + 1;
        }
        assert(entries_of(entries@) + Seq::<Entry>::empty() =~= entries_of(entries@));
        Some(entries)
    }
}

/// The value's bytes; none for a tombstone.
pub open spec fn value_bytes(e: Entry) -> Seq<u8> {
    match e.1 {
        Some(v) => v,
        None => Seq::empty(),
    }
}

/// An entry as it stands in a block.
pub open spec fn entry_image(e: Entry) -> Seq<u8> {
    be_bytes(e.0.len(), 2) + be_bytes(value_bytes(e).len(), 4) + seq![
        if e.1 is None {
            1u8
        } else {
            0u8
        },
    ] + e.0 + value_bytes(e)
}

/// Entries packed one behind the other.
pub open spec fn packed(es: Seq<Entry>) -> Seq<u8>
    decreases es.len(),
{
    if es.len() == 0 {
        Seq::empty()
    } else {
        packed(es.drop_last()) + entry_image(es.last())
    }
}

/// Where entry `i` starts.
pub open spec fn packed_start(es: Seq<Entry>, i: int) -> nat {
    packed(es.take(i)).len()
}

/// The offset table's numbers: as much of each start as two bytes can hold.
pub open spec fn packed_offsets(es: Seq<Entry>) -> Seq<u16> {
    Seq::new(es.len(), |i: int| (packed_start(es, i) % 0x1_0000) as u16)
}

/// The offset table's bytes.
pub open spec fn offset_table(offsets: Seq<u16>) -> Seq<u8>
    decreases offsets.len(),
{
    if offsets.len() == 0 {
        Seq::empty()
    } else {
        offset_table(offsets.drop_last()) + be_bytes(offsets.last() as nat, 2)
    }
}

/// A block that holds the given entries.
pub open spec fn block_image(es: Seq<Entry>) -> Seq<u8> {
    packed(es) + offset_table(packed_offsets(es)) + be_bytes(es.len(), 2)
}

/// The size of such a block.
pub open spec fn block_size_of(es: Seq<Entry>) -> nat {
    packed(es).len() + 2 * es.len() + 2
}

/// An entry goes into a block that holds `es`: it is the first one, or the block with it
/// stays within the given size.
pub open spec fn entry_fits(es: Seq<Entry>, e: Entry, block_size: nat) -> bool {
    es.len() == 0 || block_size_of(es) + (7 + e.0.len() + value_bytes(e).len()) + 2 <= block_size
}

/// The length fields can spell the lengths of the entry's parts.
pub open spec fn entry_encodable(e: Entry) -> bool {
    e.0.len() < 0x1_0000 && value_bytes(e).len() < 0x1_0000_0000
}

/// The fields of a block can spell all of its numbers: lengths, offsets and count.
pub open spec fn block_encodable(es: Seq<Entry>) -> bool {
    &&& es.len() < 0x1_0000
    &&& forall|i: int| 0 <= i < es.len() ==> #[trigger] entry_encodable(es[i])
    &&& forall|i: int| 0 <= i < es.len() ==> #[trigger] packed_start(es, i) < 0x1_0000
}

/// Helper to build a 4KB Data Block.
pub struct BlockBuilder {
    data: Vec<u8>,
    offsets: Vec<u16>,
    block_size: usize,
    entries: Ghost<Seq<Entry>>,
}

impl View for BlockBuilder {
    type V = Seq<Entry>;

    /// The entries added so far.
    closed spec fn view(&self) -> Seq<Entry> {
        self.entries@
    }
}

impl BlockBuilder {
    /// The bytes and offsets are those of the entries.
    pub closed spec fn wf(&self) -> bool {
        &&& self.data@ == packed(self.entries@)
        &&& self.offsets@ == packed_offsets(self.entries@)
    }

    /// The size that the block stays within, unless its first entry alone exceeds it.
    pub closed spec fn spec_block_size(&self) -> usize {
        self.block_size
    }

    pub fn new(block_size: usize) -> (b: Self)
        ensures
            b.wf(),
            b@ == Seq::<Entry>::empty(),
            b.spec_block_size() == block_size,
    {
        proof {
            assert(packed_offsets(Seq::<Entry>::empty()) =~= Seq::<u16>::empty());
        }
        BlockBuilder {
            data: Vec::new(),
            offsets: Vec::new(),
            block_size,
            entries: Ghost(Seq::empty()),
        }
    }

    /// Appends a key-value entry (or tombstone) to the block. Returns `false`, and adds
    /// nothing, when the entry does not fit.
    pub fn add(&mut self, key: &[u8], value: Option<&[u8]>) -> (added: bool)
        requires
            old(self).wf(),
        ensures
            final(self).wf(),
            final(self).spec_block_size() == old(self).spec_block_size(),
            ({
                let e = slice_entry(key, value);
                &&& added == entry_fits(old(self)@, e, old(self).spec_block_size() as nat)
                &&& final(self)@ == if added {
                    old(self)@.push(e)
                } else {
                    old(self)@
                }
            }),
    {
        let ghost es = self.entries@;
        let ghost e = slice_entry(key, value);
        let val_len: usize = match value {
            Some(v) => v.len(),
            None => 0,
        };
        let entry_size: u128 = 7 + key.len() as u128 + val_len as u128;
        let current_size: u128 = self.data.len() as u128 + self.offsets.len() as u128 * 2 + 2;
        // Check if adding this entry exceeds block capacity (leaving space for offset table)
        if !self.is_empty() && current_size + entry_size + 2 > self.block_size as u128 {
            return false;
        }
        proof {
            lemma_low_u16(key@.len() as usize);
            lemma_low_u32(val_len);
            lemma_low_u16(self.data@.len() as usize);
        }
        let offset: u16 = self.data.len() as u16;
        self.offsets.push(offset);
        // Header: [key_len: u16][val_len: u32][is_tombstone: u8]
        put_u16(&mut self.data, key.len() as u16);
        put_u32(&mut self.data, val_len as u32);
        put_u8(
            &mut self.data,
            if value.is_none() {
                1
            } else {
                0
            },
        );
        // Payload
        put_slice(&mut self.data, key);
        if let Some(val) = value {
            put_slice(&mut self.data, val);
        }
        self.entries = Ghost(es.push(e));
        proof {
            assert(es.push(e).drop_last() =~= es);
            assert(self.data@ =~= packed(es) + entry_image(e));
            lemma_packed_offsets_push(es, e);
        }
        true
    }

    /// Estimated total size including offsets and count trailer.
    pub fn current_size(&self) -> (n: usize)
        requires
            self.wf(),
            block_size_of(self@) <= usize::MAX,
        ensures
            n as nat == block_size_of(self@),
    {
        self.data.len() + (self.offsets.len() * 2) + 2
    }

    pub fn is_empty(&self) -> (b: bool)
        requires
            self.wf(),
        ensures
            b == (self@.len() == 0),
    {
        self.offsets.len() == 0
    }

    /// Finalizes the block and serializes the trailing offset table.
    pub fn build(self) -> (b: Bytes)
        requires
            self.wf(),
        ensures
            bytes_of(b) == block_image(self@),
    {
        let ghost es = self.entries@;
        let offsets: Vec<u16> = self.offsets;
        let mut data: Vec<u8> = self.data;
        let mut i: usize = 0;
        assert(offsets@.take(0) =~= Seq::<u16>::empty());
        assert(data@ =~= packed(es) + offset_table(offsets@.take(0)));
        while i < offsets.len()
            invariant
                i <= offsets@.len(),
                data@ == packed(es) + offset_table(offsets@.take(i as int)),
            decreases offsets@.len() - i,
        {
            put_u16(&mut data, offsets[i]);
            proof {
                assert(offsets@.take(i + 1).drop_last() =~= offsets@.take(i as int));
                assert(data@ =~= packed(es) + offset_table(offsets@.take(i + 1)));
            }
            i = i + 1;
        }
        proof {
            assert(offsets@.take(offsets@.len() as int) =~= offsets@);
            lemma_low_u16(offsets@.len() as usize);
        }
        put_u16(&mut data, offsets.len() as u16);
        assert(data@ =~= block_image(es));
        freeze(data)
    }
}

/// The entry that a key and an optional value make.
pub open spec fn slice_entry(key: &[u8], value: Option<&[u8]>) -> Entry {
    (
        key@,
        match value {
            Some(v) => Some(v@),
            None => None,
        },
    )
}

/// The bytes of one entry more.
pub proof fn lemma_packed_push(es: Seq<Entry>, e: Entry)
    ensures
        packed(es.push(e)) == packed(es) + entry_image(e),
        packed(es.push(e)).len() == packed(es).len() + 7 + e.0.len() + value_bytes(e).len(),
{
    assert(es.push(e).drop_last() =~= es);
    lemma_entry_image_len(e);
}

proof fn lemma_packed_offsets_push(es: Seq<Entry>, e: Entry)
    ensures
        packed_offsets(es.push(e)) == packed_offsets(es).push((packed(es).len() % 0x1_0000) as u16),
{
    let all = es.push(e);
    assert(all.take(es.len() as int) =~= es);
    assert forall|i: int| 0 <= i < es.len() implies packed_start(all, i) == packed_start(es, i) by {
        assert(all.take(i) =~= es.take(i));
    }
    assert(packed_offsets(all) =~= packed_offsets(es).push((packed(es).len() % 0x1_0000) as u16));
}

proof fn lemma_offset_table(offsets: Seq<u16>, i: int)
    ensures
        offset_table(offsets).len() == 2 * offsets.len(),
        0 <= i < offsets.len() ==> offset_table(offsets).subrange(2 * i, 2 * i + 2) == be_bytes(
            offsets[i] as nat,
            2,
        ),
    decreases offsets.len(),
{
    if offsets.len() > 0 {
        let rest = offset_table(offsets.drop_last());
        let last = be_bytes(offsets.last() as nat, 2);
        lemma_offset_table(offsets.drop_last(), i);
        lemma_be_len(offsets.last() as nat, 2);
        if i == offsets.len() - 1 {
            assert((rest + last).subrange(2 * i, 2 * i + 2) =~= last);
        } else if 0 <= i < offsets.len() {
            assert((rest + last).subrange(2 * i, 2 * i + 2) =~= rest.subrange(2 * i, 2 * i + 2));
        }
    }
}

proof fn lemma_entry_image_len(e: Entry)
    ensures
        entry_image(e).len() == 7 + e.0.len() + value_bytes(e).len(),
        be_bytes(e.0.len(), 2).len() == 2,
        be_bytes(value_bytes(e).len(), 4).len() == 4,
{
    lemma_be_len(e.0.len(), 2);
    lemma_be_len(value_bytes(e).len(), 4);
}

/// An entry's bytes stand in the block where its offset says.
proof fn lemma_packed_entry(es: Seq<Entry>, i: int)
    requires
        0 <= i < es.len(),
    ensures
        packed_start(es, i) + entry_image(es[i]).len() <= packed(es).len(),
        packed(es).subrange(
            packed_start(es, i) as int,
            (packed_start(es, i) + entry_image(es[i]).len()) as int,
        ) == entry_image(es[i]),
    decreases es.len(),
{
    let front = es.drop_last();
    let start = packed_start(es, i) as int;
    if i == es.len() - 1 {
        assert(es.take(i) =~= front);
        assert(packed(es).subrange(start, start + entry_image(es[i]).len()) =~= entry_image(es[i]));
    } else {
        lemma_packed_entry(front, i);
        assert(front.take(i) =~= es.take(i));
        assert(packed(es).subrange(start, start + entry_image(es[i]).len()) =~= packed(
            front,
        ).subrange(start, start + entry_image(es[i]).len()));
    }
}

/// A built block decodes, and its entries are the ones that were added, in their order and
/// with their values and tombstones.
pub proof fn law_block_round_trip(es: Seq<Entry>)
    requires
        block_encodable(es),
    ensures
        block_fault(block_image(es)) is None,
        block_of(block_image(es)).readable(),
        block_of(block_image(es)).entries() == es,
{
    let data = block_image(es);
    let table = offset_table(packed_offsets(es));
    lemma_offset_table(packed_offsets(es), 0);
    lemma_be_len(es.len(), 2);
    lemma_be_ranges();
    lemma_be_round_trip(es.len(), 2);
    assert(data.subrange(data.len() - 2, data.len() as int) =~= be_bytes(es.len(), 2));
    let b = block_of(data);
    assert forall|i: int| #![trigger b.offsets[i]] 0 <= i < b.offsets.len() implies b.starts_inside(
        i,
    ) && b.key_at(i) == Some(es[i].0) && b.value_inside(i) && b.value_at(i) == es[i].1 by {
        lemma_decoded_entry(es, i);
    }
    assert(b.entries() =~= es);
}

/// The parts of an entry's bytes.
proof fn lemma_entry_image_fields(e: Entry)
    ensures
        entry_image(e).len() == 7 + e.0.len() + value_bytes(e).len(),
        entry_image(e).subrange(0, 2) == be_bytes(e.0.len(), 2),
        entry_image(e).subrange(2, 6) == be_bytes(value_bytes(e).len(), 4),
        entry_image(e)[6] == if e.1 is None {
            1u8
        } else {
            0u8
        },
        entry_image(e).subrange(7, 7 + e.0.len() as int) == e.0,
        entry_image(e).subrange(7 + e.0.len() as int, entry_image(e).len() as int) == value_bytes(
            e,
        ),
{
    lemma_entry_image_len(e);
    let image = entry_image(e);
    assert(image.subrange(0, 2) =~= be_bytes(e.0.len(), 2));
    assert(image.subrange(2, 6) =~= be_bytes(value_bytes(e).len(), 4));
    assert(image.subrange(7, 7 + e.0.len() as int) =~= e.0);
    assert(image.subrange(7 + e.0.len() as int, image.len() as int) =~= value_bytes(e));
}

/// A part of a part is a part.
proof fn lemma_subrange_of(data: Seq<u8>, start: int, part: Seq<u8>, i: int, j: int)
    requires
        0 <= start,
        start + part.len() <= data.len(),
        data.subrange(start, start + part.len()) == part,
        0 <= i <= j <= part.len(),
    ensures
        data.subrange(start + i, start + j) == part.subrange(i, j),
{
    assert(data.subrange(start + i, start + j) =~= data.subrange(
        start,
        start + part.len(),
    ).subrange(i, j));
}

/// Where an entry's bytes stand at an offset of a block, that offset reads as the entry.
proof fn lemma_entry_at(b: BlockModel, i: int, e: Entry)
    requires
        0 <= i < b.offsets.len(),
        entry_encodable(e),
        b.start(i) + entry_image(e).len() <= b.data.len(),
        b.data.subrange(b.start(i), b.start(i) + entry_image(e).len()) == entry_image(e),
    ensures
        b.starts_inside(i),
        b.key_at(i) == Some(e.0),
        b.value_inside(i),
        b.value_at(i) == e.1,
{
    let image = entry_image(e);
    let start = b.start(i);
    let kl = e.0.len() as int;
    lemma_entry_image_fields(e);
    lemma_be_ranges();
    lemma_be_round_trip(e.0.len(), 2);
    lemma_be_round_trip(value_bytes(e).len(), 4);
    lemma_subrange_of(b.data, start, image, 0, 2);
    lemma_subrange_of(b.data, start, image, 2, 6);
    lemma_subrange_of(b.data, start, image, 7, 7 + kl);
    lemma_subrange_of(b.data, start, image, 7 + kl, image.len() as int);
    assert(b.data.subrange(start, start + image.len())[6] == b.data[start + 6]);
}

/// Entry `i` of a decoded block is the one that was added as the `i`th.
proof fn lemma_decoded_entry(es: Seq<Entry>, i: int)
    requires
        block_encodable(es),
        0 <= i < es.len(),
    ensures
        ({
            let b = block_of(block_image(es));
            &&& b.offsets.len() == es.len()
            &&& b.starts_inside(i)
            &&& b.key_at(i) == Some(es[i].0)
            &&& b.value_inside(i)
            &&& b.value_at(i) == es[i].1
        }),
{
    let b = block_of(block_image(es));
    let start = packed_start(es, i) as int;
    lemma_decoded_offset(es, i);
    lemma_packed_entry(es, i);
    lemma_three_parts(packed(es), offset_table(packed_offsets(es)), be_bytes(es.len(), 2));
    lemma_subrange_of(b.data, 0, packed(es), start, start + entry_image(es[i]).len());
    assert(entry_encodable(es[i]));
    lemma_entry_at(b, i, es[i]);
}

/// The offset of entry `i` in a decoded block is where the entry starts.
proof fn lemma_decoded_offset(es: Seq<Entry>, i: int)
    requires
        es.len() < 0x1_0000,
        0 <= i < es.len(),
        packed_start(es, i) < 0x1_0000,
    ensures
        block_of(block_image(es)).offsets.len() == es.len(),
        block_of(block_image(es)).start(i) == packed_start(es, i),
{
    let a = packed(es);
    let t = offset_table(packed_offsets(es));
    let c = be_bytes(es.len(), 2);
    lemma_offset_table(packed_offsets(es), i);
    lemma_be_len(es.len(), 2);
    lemma_three_parts(a, t, c);
    lemma_be_ranges();
    lemma_be_round_trip(es.len(), 2);
    lemma_be_round_trip(packed_offsets(es)[i] as nat, 2);
    lemma_subrange_of(a + t + c, a.len() as int, t, 2 * i, 2 * i + 2);
}

/// Each of three sequences is a part of their concatenation.
proof fn lemma_three_parts(a: Seq<u8>, t: Seq<u8>, c: Seq<u8>)
    ensures
        (a + t + c).len() == a.len() + t.len() + c.len(),
        (a + t + c).subrange(0, a.len() as int) == a,
        (a + t + c).subrange(a.len() as int, a.len() as int + t.len()) == t,
        (a + t + c).subrange(a.len() + t.len() as int, (a + t + c).len() as int) == c,
{
    assert((a + t + c).subrange(0, a.len() as int) =~= a);
    assert((a + t + c).subrange(a.len() as int, a.len() as int + t.len()) =~= t);
    assert((a + t + c).subrange(a.len() + t.len() as int, (a + t + c).len() as int) =~= c);
}

/// Binary search in a readable block with sorted entries finds what is there and nothing
/// else.
proof fn lemma_search_sorted(b: BlockModel, key: Seq<u8>, low: int, high: int)
    requires
        b.readable(),
        strictly_sorted(b.entries()),
        0 <= low <= high + 1 <= b.offsets.len(),
        forall|i: int| 0 <= i < low ==> (#[trigger] b.entries()[i]).0 != key,
        forall|i: int| high < i < b.offsets.len() ==> (#[trigger] b.entries()[i]).0 != key,
    ensures
        match lookup(b.entries(), key) {
            Some(v) => b.search(key, low, high) == Probe::Found(v),
            None => b.search(key, low, high) == Probe::Missing,
        },
    decreases high - low + 1,
{
    let es = b.entries();
    if low > high {
        lemma_lookup_absent(es, key);
    } else {
        let mid = low + (high - low) / 2;
        assert(b.starts_inside(mid) && b.key_at(mid) is Some && b.value_inside(mid)) by {
            let o = b.offsets[mid];
        }
        let k = es[mid].0;
        lemma_key_total(k, key);
        lemma_key_irreflexive(key);
        if k == key {
            lemma_lookup_finds(es, mid);
        } else if key_lt(k, key) {
            assert forall|i: int| 0 <= i < mid + 1 implies (#[trigger] es[i]).0 != key by {
                if i < mid {
                    assert(key_lt(es[i].0, es[mid].0));
                    if es[i].0 == key {
                        lemma_key_transitive(key, k, key);
                    }
                }
            }
            lemma_search_sorted(b, key, mid + 1, high);
        } else {
            assert forall|i: int| mid - 1 < i < b.offsets.len() implies (#[trigger] es[i]).0
                != key by {
                if i > mid {
                    assert(key_lt(es[mid].0, es[i].0));
                    if es[i].0 == key {
                        lemma_key_transitive(key, k, key);
                    }
                }
            }
            lemma_search_sorted(b, key, low, mid - 1);
        }
    }
}

/// A lookup in a readable block with sorted entries agrees with the entries: a key of one
/// of them is found with its value or tombstone, any other key is missing.
pub proof fn law_block_lookup(b: BlockModel, key: Seq<u8>)
    requires
        b.readable(),
        strictly_sorted(b.entries()),
    ensures
        match lookup(b.entries(), key) {
            Some(v) => b.probe(key) == Probe::Found(v),
            None => b.probe(key) == Probe::Missing,
        },
{
    lemma_search_sorted(b, key, 0, b.offsets.len() - 1);
}

/// Reading a readable block from entry `i` on gives its entries from there on.
proof fn lemma_read_from(b: BlockModel, i: int)
    requires
        b.readable(),
        0 <= i <= b.offsets.len(),
    ensures
        b.read_from(i) == Some(b.entries().skip(i)),
    decreases b.offsets.len() - i,
{
    let es = b.entries();
    if i < b.offsets.len() {
        assert(b.starts_inside(i) && b.key_at(i) is Some && b.value_inside(i)) by {
            let o = b.offsets[i];
        }
        lemma_read_from(b, i + 1);
        assert(seq![es[i]] + es.skip(i + 1) =~= es.skip(i));
    } else {
        assert(es.skip(i) =~= Seq::<Entry>::empty());
    }
}

/// Reading a readable block gives all of its entries in their order, also those that share a
/// key.
pub proof fn law_block_read_all(b: BlockModel)
    requires
        b.readable(),
    ensures
        b.read_from(0) == Some(b.entries()),
{
    lemma_read_from(b, 0);
    assert(b.entries().skip(0) =~= b.entries());
}

/// An entry can be spelled when its key is shorter than 64 KB and its value than four gigabytes.
pub proof fn law_entry_encodable(key: Seq<u8>, value: Seq<u8>)
    ensures
        entry_encodable((key, Some(value))) <==> key.len() <= 65535 && value.len() < 0x1_0000_0000,
        entry_encodable((key, None)) <==> key.len() <= 65535,
{
}

/// Where each part of an entry stands in its bytes: two for the length of the key, four for the
/// length of the value, one that tells a tombstone, then the key and the value.
pub proof fn law_entry_layout(key: Seq<u8>, value: Option<Seq<u8>>)
    requires
        key.len() <= 65535,
        value is Some ==> value->0.len() < 0x1_0000_0000,
    ensures
        ({
            let s = entry_image((key, value));
            let n = if value is Some {
                value->0.len() as int
            } else {
                0
            };
            &&& s.len() == 7 + key.len() + n
            &&& two_bytes(s, 0) == key.len()
            &&& four_bytes(s, 2) == n
            &&& s[6] == if value is None {
                1u8
            } else {
                0u8
            }
            &&& s.subrange(7, 7 + key.len() as int) == key
            &&& value is Some ==> s.skip(7 + key.len() as int) == value->0
        }),
{
    let e = (key, value);
    let s = entry_image(e);
    lemma_entry_image_len(e);
    lemma_be_ranges();
    law_be_value(s, 0);
    law_be_value(s, 2);
    lemma_be_round_trip(key.len(), 2);
    lemma_be_round_trip(value_bytes(e).len(), 4);
    assert(s.subrange(0, 2) =~= be_bytes(key.len(), 2));
    assert(s.subrange(2, 6) =~= be_bytes(value_bytes(e).len(), 4));
    assert(s.subrange(7, 7 + key.len() as int) =~= key);
    assert(s.skip(7 + key.len() as int) =~= value_bytes(e));
}

/// How many bytes the first `n` entries take.
pub open spec fn bytes_taken(es: Seq<Entry>, n: int) -> int
    decreases n,
{
    if n <= 0 {
        0
    } else {
        bytes_taken(es, n - 1) + 7 + es[n - 1].0.len() + if es[n - 1].1 is Some {
            es[n - 1].1->0.len()
        } else {
            0
        }
    }
}

proof fn lemma_bytes_taken(es: Seq<Entry>, n: int)
    requires
        0 <= n <= es.len(),
    ensures
        packed(es.take(n)).len() == bytes_taken(es, n),
    decreases n,
{
    if n > 0 {
        lemma_bytes_taken(es, n - 1);
        assert(es.take(n) =~= es.take(n - 1).push(es[n - 1]));
        lemma_packed_push(es.take(n - 1), es[n - 1]);
    } else {
        assert(es.take(0) =~= Seq::<Entry>::empty());
    }
}

/// Where everything stands in a block: the entries one behind the other, then two bytes for the
/// place of each of them, then two bytes for their number.
pub proof fn law_block_layout(es: Seq<Entry>, i: int)
    requires
        es.len() < 0x1_0000,
        0 <= i < es.len(),
        bytes_taken(es, i) < 0x1_0000,
    ensures
        ({
            let b = block_image(es);
            let n = es.len() as int;
            let at = bytes_taken(es, i);
            &&& b.len() == bytes_taken(es, n) + 2 * n + 2
            &&& two_bytes(b, b.len() - 2) == n
            &&& two_bytes(b, bytes_taken(es, n) + 2 * i) == at
            &&& b.subrange(at, at + entry_image(es[i]).len()) == entry_image(es[i])
        }),
{
    let b = block_image(es);
    let n = es.len() as int;
    let offsets = packed_offsets(es);
    let table = offset_table(offsets);
    lemma_bytes_taken(es, i);
    lemma_bytes_taken(es, n);
    assert(es.take(n) =~= es);
    lemma_offset_table(offsets, i);
    lemma_be_len(es.len(), 2);
    lemma_be_ranges();
    lemma_be_round_trip(es.len(), 2);
    lemma_be_round_trip(offsets[i] as nat, 2);
    law_be_value(b, b.len() - 2);
    assert(b.subrange(b.len() - 2, b.len() as int) =~= be_bytes(es.len(), 2));
    let p = packed(es).len() as int;
    law_be_value(b, p + 2 * i);
    assert(b.subrange(p + 2 * i, p + 2 * i + 2) =~= table.subrange(2 * i, 2 * i + 2));
    lemma_packed_entry(es, i);
    let at = packed_start(es, i) as int;
    assert(b.subrange(at, at + entry_image(es[i]).len()) =~= packed(es).subrange(
        at,
        at + entry_image(es[i]).len(),
    ));
}

/// A block takes a further entry exactly when it is empty or its bytes with the entry are no
/// more than its size.
pub proof fn law_block_add(es: Seq<Entry>, e: Entry, block_size: nat)
    ensures
        entry_fits(es, e, block_size) <==> es.len() == 0 || block_image(es.push(e)).len()
            <= block_size,
        block_size_of(es) == block_image(es).len(),
{
    lemma_packed_push(es, e);
    lemma_offset_table(packed_offsets(es), 0);
    lemma_offset_table(packed_offsets(es.push(e)), 0);
    lemma_be_len(es.len(), 2);
    lemma_be_len(es.push(e).len(), 2);
}

/// A byte string can be decoded as a block exactly when it has room for the number of entries
/// in its last two bytes, and for that many places in front of them.
pub proof fn law_block_fault(data: Seq<u8>)
    ensures
        block_fault(data) is None <==> data.len() >= 2 && data.len() >= 2 + 2 * two_bytes(
            data,
            data.len() - 2,
        ),
        data.len() < 2 ==> block_fault(data) == Some("Block data too short"@),
        data.len() >= 2 && block_fault(data) is Some ==> block_fault(data) == Some(
            "Block offset table out of bounds"@,
        ),
{
    if data.len() >= 2 {
        law_be_value(data, data.len() - 2);
    }
}

/// What a decoded block holds: entry `i` starts where the `i`th place says.
pub proof fn law_block_decode(data: Seq<u8>, i: int)
    requires
        block_fault(data) is None,
        0 <= i < two_bytes(data, data.len() - 2),
    ensures
        ({
            let b = block_of(data);
            let n = two_bytes(data, data.len() - 2);
            &&& b.data == data
            &&& b.offsets.len() == n
            &&& b.offsets[i] == two_bytes(data, data.len() - 2 - 2 * n + 2 * i)
        }),
{
    let n = two_bytes(data, data.len() - 2);
    law_block_fault(data);
    law_be_value(data, data.len() - 2);
    law_be_value(data, data.len() - 2 - 2 * n + 2 * i);
}

/// What an entry of a block says, wherever it starts: its key and its value are the bytes that
/// its lengths announce, if the block has as many.
pub proof fn law_block_entry(b: BlockModel, i: int)
    requires
        0 <= i < b.offsets.len(),
    ensures
        ({
            let at = b.offsets[i] as int;
            let key_end = at + 7 + two_bytes(b.data, at);
            let end = key_end + four_bytes(b.data, at + 2);
            &&& b.key_at(i) is Some <==> at + 7 <= b.data.len() && key_end <= b.data.len()
            &&& b.key_at(i) is Some ==> {
                &&& b.key_at(i) == Some(b.data.subrange(at + 7, key_end))
                &&& b.value_at(i) == if b.data[at + 6] == 1 {
                    None
                } else {
                    Some(b.data.subrange(key_end, end))
                }
                &&& b.value_inside(i) <==> b.data[at + 6] == 1 || end <= b.data.len()
            }
        }),
{
    let at = b.offsets[i] as int;
    if at + 7 <= b.data.len() {
        law_be_value(b.data, at);
        law_be_value(b.data, at + 2);
    }
}

/// What a search finds stands in the block, under the key that was searched for.
pub proof fn law_block_found(b: BlockModel, key: Seq<u8>)
    ensures
        b.probe(key) matches Probe::Found(v) ==> exists|i: int|
            0 <= i < b.offsets.len() && #[trigger] b.key_at(i) == Some(key) && b.value_at(i) == v,
{
    lemma_search_found(b, key, 0, b.offsets.len() - 1);
}

proof fn lemma_search_found(b: BlockModel, key: Seq<u8>, low: int, high: int)
    requires
        0 <= low,
        high < b.offsets.len(),
    ensures
        b.search(key, low, high) matches Probe::Found(v) ==> exists|i: int|
            0 <= i < b.offsets.len() && #[trigger] b.key_at(i) == Some(key) && b.value_at(i) == v,
    decreases high - low + 1,
{
    if low <= high {
        let mid = low + (high - low) / 2;
        if b.starts_inside(mid) && b.key_at(mid) is Some {
            let k = b.key_at(mid)->0;
            if k != key {
                if key_lt(k, key) {
                    lemma_search_found(b, key, mid + 1, high);
                } else {
                    lemma_search_found(b, key, low, mid - 1);
                }
            }
        }
    }
}

/// A block can be written of, and read back as, entries with keys of up to 65,535 bytes and
/// values of less than four gigabytes, if it is fewer than 64 K of them and each starts within
/// the first 64 KB.
pub proof fn law_block_encodable(es: Seq<Entry>)
    requires
        es.len() < 0x1_0000,
        forall|i: int|
            0 <= i < es.len() ==> (#[trigger] es[i]).0.len() <= 65535 && (es[i].1 is Some
                ==> es[i].1->0.len() < 0x1_0000_0000),
        forall|i: int| 0 <= i < es.len() ==> #[trigger] bytes_taken(es, i) < 0x1_0000,
    ensures
        block_encodable(es),
{
    assert forall|i: int| 0 <= i < es.len() implies #[trigger] entry_encodable(es[i]) by {
        assert(es[i].0.len() <= 65535);
    }
    assert forall|i: int| 0 <= i < es.len() implies #[trigger] packed_start(es, i) < 0x1_0000 by {
        lemma_bytes_taken(es, i);
        assert(bytes_taken(es, i) < 0x1_0000);
    }
}

/// A key and a value make the entry of the two, a key without a value its tombstone; and what a
/// search hands out stands for what it found.
pub proof fn law_block_views(key: &[u8], value: &[u8], found: Bytes)
    ensures
        slice_entry(key, Some(value)) == (key@, Some(value@)),
        slice_entry(key, None) == (key@, None::<Seq<u8>>),
        BlockSearch::Found(Some(found))@ == Probe::Found(Some(bytes_of(found))),
        BlockSearch::Found(None)@ == Probe::Found(None),
        BlockSearch::Missing@ == Probe::Missing,
        BlockSearch::OutOfBounds@ == Probe::OutOfBounds,
{
}

} // verus!
