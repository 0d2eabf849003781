//! The storage engine: a write buffer over a log, frozen buffers, and tables, searched from
//! the newest to the oldest.
//!
//! The engine decides and computes; it does not read or write files. Where an operation
//! needs a file, it says what to read or write, and goes on when it is handed the outcome.
use crate::codec::{bytes_of, copy_bytes};
use crate::compaction::lemma_single;
use crate::entry::{
    bound_of, is_run_of, lemma_resolve_add, resolve, restrict, run_of, share_value, value_of, Table,
};
use crate::error::{LsmError, Result};
use crate::filter::bloom::filter_fits;
use crate::iterator::{ok_items, pairs_of, streams_of, Item, MergeIterator, MergeState};
use crate::memtable::{MemTable, ESTIMATED_NODE_OVERHEAD};
use crate::sstable::block::{block_fault, block_of, Block, BlockModel, BlockSearch, Probe};
use crate::sstable::builder::{build_table, table_image, DEFAULT_BLOCK_SIZE};
use crate::sstable::cache::{
    after_get, after_insert, is_cached, place, share_block, BlockCache, BlockKey, Cached,
};
use crate::sstable::reader::{SsTableReader, TableModel, TableStep};
use crate::sstable::stream::entries_stream;
use crate::wal::{
    records_of, wal_recover, WalEnd, WalEntry, WalOp, WalReader, WalRecord, WalRecovery, WalWriter,
    MAX_KEY_SIZE,
};
use bytes::Bytes;
use std::collections::VecDeque;
use std::sync::Arc;
use vstd::arithmetic::div_mod::lemma_small_mod;
use vstd::prelude::*;

verus! {

pub const DEFAULT_MAX_MEMTABLE_SIZE: usize = 4 * 1024 * 1024;  // 4MB

pub const DEFAULT_BLOCK_CACHE_CAPACITY: usize = 1024;  // 1,024 blocks = ~4MB

/// A write buffer after a logged write.
pub open spec fn apply(t: Table, r: WalRecord) -> Table {
    match (r.op, r.value) {
        (WalOp::Put, Some(v)) => t.insert(r.key, Some(v)),
        (WalOp::Put, None) => t,
        (WalOp::Delete, _) => t.insert(r.key, None),
    }
}

/// The size that a write buffer reports after a logged write.
pub open spec fn apply_size(size: int, r: WalRecord) -> int {
    match (r.op, r.value) {
        (WalOp::Put, Some(v)) => (size + r.key.len() + v.len() + ESTIMATED_NODE_OVERHEAD) % (
        usize::MAX + 1),
        (WalOp::Put, None) => size,
        (WalOp::Delete, _) => (size + r.key.len() + ESTIMATED_NODE_OVERHEAD) % (usize::MAX + 1),
    }
}

/// The write buffer that a log spells: its writes, one after the other.
pub open spec fn replay(log: Seq<WalRecord>) -> Table
    decreases log.len(),
{
    if log.len() == 0 {
        Table::empty()
    } else {
        apply(replay(log.drop_last()), log.last())
    }
}

/// The size of the write buffer that a log spells.
pub open spec fn replay_size(log: Seq<WalRecord>) -> int
    decreases log.len(),
{
    if log.len() == 0 {
        0
    } else {
        apply_size(replay_size(log.drop_last()), log.last())
    }
}

/// An open table: its number, and its index and filter.
pub type OpenTable = (u64, TableModel);

/// The views of a list of open tables.
pub open spec fn tables_view(readers: Seq<SsTableReader>) -> Seq<OpenTable> {
    Seq::new(readers.len(), |i: int| (readers[i].spec_id(), readers[i]@))
}

/// The views of a list of write buffers.
pub open spec fn buffers_view(buffers: Seq<MemTable>) -> Seq<Table> {
    Seq::new(buffers.len(), |i: int| buffers[i]@)
}

/// A table put in front of the first one that is not newer.
pub open spec fn insert_newest_first(s: Seq<OpenTable>, t: OpenTable) -> Seq<OpenTable>
    decreases s.len(),
{
    if s.len() == 0 || s[0].0 <= t.0 {
        seq![t] + s
    } else {
        seq![s[0]] + insert_newest_first(s.skip(1), t)
    }
}

/// Tables sorted by their numbers, the largest first.
pub open spec fn newest_first(s: Seq<OpenTable>) -> Seq<OpenTable>
    decreases s.len(),
{
    if s.len() == 0 {
        s
    } else {
        insert_newest_first(newest_first(s.skip(1)), s[0])
    }
}

/// The largest number of a table; 0 without tables.
pub open spec fn max_id(s: Seq<OpenTable>) -> u64
    decreases s.len(),
{
    if s.len() == 0 {
        0
    } else {
        let rest = max_id(s.skip(1));
        if s[0].0 > rest {
            s[0].0
        } else {
            rest
        }
    }
}

/// The engine's state as mathematical values.
#[verifier::ext_equal]
pub struct EngineModel {
    /// The active write buffer.
    pub memtable: Table,
    /// The size that the active write buffer reports.
    pub memtable_size: int,
    /// Write buffers that are being flushed, from the oldest to the newest.
    pub frozen: Seq<Table>,
    /// The tables, from the newest to the oldest.
    pub tables: Seq<OpenTable>,
    /// The block cache, and the most blocks that it holds.
    pub cache: Cached,
    pub cache_capacity: usize,
    /// The number of the next table.
    pub next_sst_id: u64,
    /// The size at which the active write buffer is flushed.
    pub max_memtable_size: usize,
}

/// How far a lookup has come.
pub enum LookupModel {
    /// It is done: the key's value, or nothing.
    Done(Option<Seq<u8>>),
    /// It needs a block of a table.
    Fetch { table: int, block: int },
    /// It has met a table or block that cannot be searched.
    Corrupt,
}

impl EngineModel {
    /// Searches the tables from place `from` on, as far as that goes without reading.
    pub open spec fn search(self, key: Seq<u8>, from: int) -> LookupModel
        decreases self.tables.len() - from,
    {
        if from >= self.tables.len() {
            LookupModel::Done(None)
        } else {
            match self.tables[from].1.get(key) {
                TableStep::Absent => self.search(key, from + 1),
                TableStep::Read(block) => LookupModel::Fetch { table: from, block: block as int },
                TableStep::Unaddressable => LookupModel::Corrupt,
            }
        }
    }

    /// Starts a lookup: the active write buffer, then the frozen ones, then the tables.
    pub open spec fn get(self, key: Seq<u8>) -> LookupModel {
        match resolve(self.buffers(), key) {
            Some(v) => LookupModel::Done(v),
            None => self.search(key, 0),
        }
    }

    /// Goes on with a lookup that needed a block of the given table.
    pub open spec fn resume(self, key: Seq<u8>, table: int, block: BlockModel) -> LookupModel {
        match block.probe(key) {
            Probe::Found(v) => LookupModel::Done(v),
            Probe::Missing => self.search(key, table + 1),
            Probe::OutOfBounds => LookupModel::Corrupt,
        }
    }

    /// The write buffers, from the newest to the oldest.
    pub open spec fn buffers(self) -> Seq<Table> {
        seq![self.memtable] + self.frozen.reverse()
    }

    /// What the cache calls a block.
    pub open spec fn block_key(self, table: int, block: int) -> BlockKey {
        BlockKey {
            sst_id: self.tables[table].0,
            offset: self.tables[table].1.metas[block].offset as u64,
        }
    }

    /// There is such a block.
    pub open spec fn has_block(self, table: int, block: int) -> bool {
        0 <= table < self.tables.len() && 0 <= block < self.tables[table].1.metas.len()
    }
}

/// A write that has been framed for the log and waits to be committed.
pub struct PendingWrite {
    op: WalOp,
    key: Bytes,
    value: Option<Bytes>,
    frame: Vec<u8>,
}

impl View for PendingWrite {
    type V = WalRecord;

    closed spec fn view(&self) -> WalRecord {
        WalRecord { op: self.op, key: bytes_of(self.key), value: value_of(self.value) }
    }
}

impl PendingWrite {
    /// The frame is that of the write.
    pub closed spec fn wf(&self) -> bool {
        self.frame@ == self@.frame()
    }

    /// What has to be appended to the log, and synced, before the write is committed.
    pub fn frame(&self) -> (f: &[u8])
        requires
            self.wf(),
        ensures
            f@ == self@.frame(),
    {
        self.frame.as_slice()
    }
}

/// How far a lookup has come.
pub enum Lookup {
    /// It is done: the key's value, or nothing.
    Done(Option<Bytes>),
    /// It needs a block of a table.
    Fetch { table: usize, block: usize },
    /// It has met a table or block that cannot be searched.
    Corrupt,
}

impl View for Lookup {
    type V = LookupModel;

    open spec fn view(&self) -> LookupModel {
        match self {
            Lookup::Done(v) => LookupModel::Done(value_of(*v)),
            Lookup::Fetch { table, block } => LookupModel::Fetch {
                table: *table as int,
                block: *block as int,
            },
            Lookup::Corrupt => LookupModel::Corrupt,
        }
    }
}

/// Where a block comes from.
pub enum BlockSource {
    /// The cache has it.
    Cached(Arc<Block>),
    /// It has to be read from its table's file.
    File { sst_id: u64, offset: u64, len: u64 },
}

/// A write buffer on its way to a table file.
pub struct PendingFlush {
    /// The number of the new table.
    pub sst_id: u64,
    /// The bytes of the new table's file; `None` when no filter can be made for so many keys.
    pub file: Option<Bytes>,
}

pub struct LsmEngine {
    memtable: MemTable,
    imm_memtables: Vec<MemTable>,
    sstables: Vec<SsTableReader>,  // Ordered from newest (idx 0) to oldest
    block_cache: BlockCache,
    next_sst_id: u64,
    max_memtable_size: usize,
}

impl View for LsmEngine {
    type V = EngineModel;

    closed spec fn view(&self) -> EngineModel {
        EngineModel {
            memtable: self.memtable@,
            memtable_size: self.memtable.spec_size() as int,
            frozen: buffers_view(self.imm_memtables@),
            tables: tables_view(self.sstables@),
            cache: self.block_cache@,
            cache_capacity: self.block_cache.spec_capacity(),
            next_sst_id: self.next_sst_id,
            max_memtable_size: self.max_memtable_size,
        }
    }
}

/// Applies a logged write to a write buffer.
fn apply_write(memtable: &mut MemTable, op: WalOp, key: Bytes, value: Option<Bytes>)
    ensures
        ({
            let r = WalRecord { op, key: bytes_of(key), value: value_of(value) };
            &&& final(memtable)@ == apply(old(memtable)@, r)
            &&& final(memtable).spec_size() == apply_size(old(memtable).spec_size() as int, r)
        }),
{
    match op {
        WalOp::Put => {
            if let Some(val) = value {
                memtable.put(key, val);
            }
        },
        WalOp::Delete => {
            memtable.delete(key);
        },
    }
}

/// Sorts tables descending so index 0 is the newest SSTable.
fn sort_tables(readers: Vec<SsTableReader>) -> (r: (Vec<SsTableReader>, u64))
    ensures
        tables_view(r.0@) == newest_first(tables_view(readers@)),
        r.1 == max_id(tables_view(readers@)),
{
    let ghost all = tables_view(readers@);
    let ghost n = all.len() as int;
    let mut left: Vec<SsTableReader> = readers;
    let mut out: Vec<SsTableReader> = Vec::new();
    let mut max: u64 = 0;
    proof {
        assert(all.skip(n) =~= Seq::<OpenTable>::empty());
        assert(tables_view(out@) =~= Seq::<OpenTable>::empty());
        assert(all.take(n) =~= all);
    }
    loop
        invariant
            left@.len() <= n,
            n == all.len(),
            tables_view(left@) == all.take(left@.len() as int),
            tables_view(out@) == newest_first(all.skip(left@.len() as int)),
            max == max_id(all.skip(left@.len() as int)),
            all == tables_view(readers@),
        decreases left@.len(),
    {
        let ghost m = left@.len() as int;
        let ghost before = left@;
        let reader: SsTableReader = match left.pop() {
            Some(r) => r,
            None => {
                assert(all.skip(0) =~= all);
                return (out, max);
            },
        };
        let id: u64 = reader.id();
        let ghost t = (reader.spec_id(), reader@);
        let ghost sorted = tables_view(out@);
        proof {
            assert(tables_view(before)[m - 1] == t);
            assert(all[m - 1] == t);
            assert(tables_view(left@) =~= all.take(m - 1));
            assert(all.skip(m - 1).skip(1) =~= all.skip(m));
            assert(all.skip(m - 1)[0] == t);
        }
        if id > max {
            max = id;
        }
        let mut p: usize = 0;
        while p < out.len() && out[p].id() > id
            invariant
                p <= out@.len(),
                sorted == tables_view(out@),
                id == t.0,
                forall|i: int| 0 <= i < p ==> (#[trigger] sorted[i]).0 > t.0,
            decreases out@.len() - p,
        {
            assert(sorted[p as int].0 == out@[p as int].spec_id());
            p = p + 1;
        }
        proof {
            if p < out@.len() {
                assert(sorted[p as int].0 == out@[p as int].spec_id());
            }
            lemma_insert_at(sorted, t, p as int);
        }
        out.insert(p, reader);
        assert(tables_view(out@) =~= sorted.insert(p as int, t));
    }
}

/// Where a table is put among sorted ones.
proof fn lemma_insert_at(s: Seq<OpenTable>, t: OpenTable, p: int)
    requires
        0 <= p <= s.len(),
        forall|i: int| 0 <= i < p ==> (#[trigger] s[i]).0 > t.0,
        p < s.len() ==> s[p].0 <= t.0,
    ensures
        insert_newest_first(s, t) == s.insert(p, t),
    decreases s.len(),
{
    if p == 0 {
        assert(s.insert(0, t) =~= seq![t] + s);
    } else {
        assert(s[0].0 > t.0);
        assert forall|i: int| 0 <= i < p - 1 implies (#[trigger] s.skip(1)[i]).0 > t.0 by {
            assert(s.skip(1)[i] == s[i + 1]);
        }
        lemma_insert_at(s.skip(1), t, p - 1);
        assert(s.insert(p, t) =~= seq![s[0]] + s.skip(1).insert(p - 1, t));
    }
}

impl LsmEngine {
    pub closed spec fn wf(&self) -> bool {
        self.block_cache.wf()
    }

    /// Opens an engine over existing tables and the bytes of its log, with the default sizes.
    pub fn open(sstables: Vec<SsTableReader>, wal: &[u8]) -> (r: Result<(Self, usize)>)
        requires
            max_id(tables_view(sstables@)) < u64::MAX,
        ensures
            opened(
                r,
                tables_view(sstables@),
                wal@,
                DEFAULT_MAX_MEMTABLE_SIZE,
                DEFAULT_BLOCK_CACHE_CAPACITY,
            ),
    {
        Self::open_with_cache_options(
            sstables,
            wal,
            DEFAULT_MAX_MEMTABLE_SIZE,
            DEFAULT_BLOCK_CACHE_CAPACITY,
        )
    }

    /// Opens an engine with custom memtable size threshold.
    pub fn open_with_options(
        sstables: Vec<SsTableReader>,
        wal: &[u8],
        max_memtable_size: usize,
    ) -> (r: Result<(Self, usize)>)
        requires
            max_id(tables_view(sstables@)) < u64::MAX,
        ensures
            opened(
                r,
                tables_view(sstables@),
                wal@,
                max_memtable_size,
                DEFAULT_BLOCK_CACHE_CAPACITY,
            ),
    {
        Self::open_with_cache_options(
            sstables,
            wal,
            max_memtable_size,
            DEFAULT_BLOCK_CACHE_CAPACITY,
        )
    }

    /// Opens an engine with custom memtable and block cache capacities. Beside the engine it
    /// returns the length to which the log has to be cut before it is written to again.
    pub fn open_with_cache_options(
        sstables: Vec<SsTableReader>,
        wal: &[u8],
        max_memtable_size: usize,
        block_cache_capacity: usize,
    ) -> (r: Result<(Self, usize)>)
        requires
            max_id(tables_view(sstables@)) < u64::MAX,
        ensures
            opened(
                r,
                tables_view(sstables@),
                wal@,
                max_memtable_size,
                block_cache_capacity,
            ),
    {
        let block_cache: BlockCache = BlockCache::new(block_cache_capacity);
        // 1. Order existing SSTables
        let (sorted, max) = sort_tables(sstables);
        // 2. Recover active MemTable from WAL
        let recovery: WalRecovery = WalReader::recover(wal)?;
        let ghost log = records_of(recovery.entries@);
        let mut memtable: MemTable = MemTable::new();
        let mut i: usize = 0;
        assert(log.take(0) =~= Seq::<WalRecord>::empty());
        while i < recovery.entries.len()
            invariant
                i <= recovery.entries@.len(),
                log == records_of(recovery.entries@),
                memtable@ == replay(log.take(i as int)),
                memtable.spec_size() == replay_size(log.take(i as int)),
            decreases recovery.entries@.len() - i,
        {
            let entry: &WalEntry = &recovery.entries[i];
            proof {
                assert(log.take(i + 1).drop_last() =~= log.take(i as int));
                assert(log.take(i + 1).last() == entry@);
            }
            let value: Option<Bytes> = share_value(&entry.value);
            apply_write(&mut memtable, entry.op, entry.key.clone(), value);
            i = i + 1;
        }
        let engine: LsmEngine = LsmEngine {
            memtable,
            imm_memtables: Vec::new(),
            sstables: sorted,
            block_cache,
            next_sst_id: max + 1,
            max_memtable_size,
        };
        proof {
            assert(log.take(recovery.entries@.len() as int) =~= log);
            assert(engine@.frozen =~= Seq::<Table>::empty());
        }
        Ok((engine, recovery.valid_len))
    }

    /// Starts to store a key-value pair: the write is to be appended to the log, synced, and
    /// then committed.
    pub fn put(&self, key: &[u8], value: &[u8]) -> (r: Result<PendingWrite>)
        ensures
            match r {
                Ok(w) => key@.len() <= MAX_KEY_SIZE && w.wf() && w@ == (WalRecord {
                    op: WalOp::Put,
                    key: key@,
                    value: Some(value@),
                }),
                Err(e) => key@.len() > MAX_KEY_SIZE && e == (LsmError::KeyTooLarge {
                    actual: key@.len() as usize,
                    max: MAX_KEY_SIZE,
                }),
            },
    {
        let mut writer: WalWriter = WalWriter::new();
        writer.append_put(key, value)?;
        let frame: Vec<u8> = writer.take();
        let w: PendingWrite = PendingWrite {
            op: WalOp::Put,
            key: copy_bytes(key),
            value: Some(copy_bytes(value)),
            frame,
        };
        assert(w.frame@ =~= w@.frame());
        Ok(w)
    }

    /// Starts to delete a key by a tombstone, which is to be appended to the log, synced, and
    /// then committed.
    pub fn delete(&self, key: &[u8]) -> (r: Result<PendingWrite>)
        ensures
            match r {
                Ok(w) => key@.len() <= MAX_KEY_SIZE && w.wf() && w@ == (WalRecord {
                    op: WalOp::Delete,
                    key: key@,
                    value: None,
                }),
                Err(e) => key@.len() > MAX_KEY_SIZE && e == (LsmError::KeyTooLarge {
                    actual: key@.len() as usize,
                    max: MAX_KEY_SIZE,
                }),
            },
    {
        let mut writer: WalWriter = WalWriter::new();
        writer.append_delete(key)?;
        let frame: Vec<u8> = writer.take();
        let w: PendingWrite = PendingWrite {
            op: WalOp::Delete,
            key: copy_bytes(key),
            value: None,
            frame,
        };
        assert(w.frame@ =~= w@.frame());
        Ok(w)
    }

    /// Makes a logged write visible. Returns whether the write buffer has reached its
    /// threshold and is to be flushed.
    pub fn commit(&mut self, write: PendingWrite) -> (flush: bool)
        requires
            old(self).wf(),
        ensures
            final(self).wf(),
            final(self)@ == (EngineModel {
                memtable: apply(old(self)@.memtable, write@),
                memtable_size: apply_size(old(self)@.memtable_size, write@),
                ..old(self)@
            }),
            flush == (final(self)@.memtable_size >= final(self)@.max_memtable_size),
    {
        apply_write(&mut self.memtable, write.op, write.key, write.value);
        self.memtable.size_bytes() >= self.max_memtable_size
    }

    /// Searches SSTables from newest to oldest, as far as that goes without reading.
    fn search_tables(&self, key: &[u8], from: usize) -> (r: Lookup)
        requires
            from <= self@.tables.len(),
        ensures
            r@ == self@.search(key@, from as int),
            r matches Lookup::Fetch { table, block } ==> self@.has_block(
                table as int,
                block as int,
            ),
    {
        let mut t: usize = from;
        while t < self.sstables.len()
            invariant
                from <= t <= self.sstables@.len(),
                self@.tables == tables_view(self.sstables@),
                self@.search(key@, from as int) == self@.search(key@, t as int),
            decreases self.sstables@.len() - t,
        {
            assert(self@.tables[t as int].1 == self.sstables@[t as int]@);
            match self.sstables[t].get(key) {
                TableStep::Absent => {},  // Bypassed via Bloom Filter or Block Index
                TableStep::Read(block) => {
                    return Lookup::Fetch { table: t, block };
                },
                TableStep::Unaddressable => {
                    return Lookup::Corrupt;
                },
            }
            t = t + 1;
        }
        Lookup::Done(None)
    }

    /// Retrieves a value by key.
    /// Traverses the storage hierarchy: MemTable -> Immutable MemTables -> SSTables (Newest to
    /// Oldest).
    /// Where a block is needed, the lookup is resumed with it.
    pub fn get(&self, key: &[u8]) -> (r: Lookup)
        ensures
            r@ == self@.get(key@),
            r matches Lookup::Fetch { table, block } ==> self@.has_block(
                table as int,
                block as int,
            ),
    {
        let ghost frozen = self@.frozen;
        let ghost newest = frozen.reverse();
        proof {
            lemma_resolve_add(seq![self@.memtable], newest, key@);
            lemma_single(self@.memtable, key@);
        }
        // Tier 1: Check active mutable MemTable
        match self.memtable.get(key) {
            Some(found) => {
                return Lookup::Done(found);
            },
            None => {},
        }
        // Tier 2: Check immutable MemTables being flushed
        let n: usize = self.imm_memtables.len();
        let mut left: usize = n;
        assert(newest.skip(0) =~= newest);
        while left > 0
            invariant
                left <= n,
                n == self.imm_memtables@.len(),
                frozen == buffers_view(self.imm_memtables@),
                newest == frozen.reverse(),
                self@.get(key@) == match resolve(newest.skip(n - left), key@) {
                    Some(v) => LookupModel::Done(v),
                    None => self@.search(key@, 0),
                },
            decreases left,
        {
            proof {
                let rest = newest.skip(n - left);
                assert(rest[0] == frozen[left - 1]);
                assert(frozen[left - 1] == self.imm_memtables@[left - 1]@);
                assert(rest.skip(1) =~= newest.skip(n - left + 1));
            }
            match self.imm_memtables[left - 1].get(key) {
                Some(found) => {
                    return Lookup::Done(found);
                },
                None => {},
            }
            left = left - 1;
        }
        proof {
            assert(newest.skip(n as int) =~= Seq::<Table>::empty());
            assert(resolve(newest.skip(n as int), key@) is None);
        }
        // Tier 3: Search SSTables from newest to oldest
        self.search_tables(key, 0)
    }

    /// Goes on with a lookup that needed a block of the given table.
    pub fn resume(&self, key: &[u8], table: usize, block: &Block) -> (r: Lookup)
        requires
            table < self@.tables.len(),
        ensures
            r@ == self@.resume(key@, table as int, block@),
            r matches Lookup::Fetch { table: t, block: b } ==> self@.has_block(t as int, b as int),
    {
        let n: usize = self.sstables.len();
        assert(table < n);
        match block.search(key) {
            BlockSearch::Found(v) => Lookup::Done(v),
            BlockSearch::Missing => self.search_tables(key, table + 1),
            BlockSearch::OutOfBounds => Lookup::Corrupt,
        }
    }

    /// Where a block comes from: the cache, which then counts it as used, or its file.
    pub fn fetch(&mut self, table: usize, block: usize) -> (r: BlockSource)
        requires
            old(self).wf(),
            old(self)@.has_block(table as int, block as int),
        ensures
            final(self).wf(),
            ({
                let key = old(self)@.block_key(table as int, block as int);
                &&& final(self)@ == (EngineModel {
                    cache: after_get(old(self)@.cache, key),
                    ..old(self)@
                })
                &&& match r {
                    BlockSource::Cached(b) => {
                        &&& is_cached(old(self)@.cache, key)
                        &&& b@ == old(self)@.cache[place(old(self)@.cache, key)].1
                    },
                    BlockSource::File { sst_id, offset, len } => {
                        &&& !is_cached(old(self)@.cache, key)
                        &&& sst_id == key.sst_id
                        &&& offset == key.offset
                        &&& len == old(self)@.tables[table as int].1.metas[block as int].len
                    },
                }
            }),
    {
        let sst_id: u64 = self.sstables[table].id();
        assert(self@.tables[table as int] == (
            self.sstables@[table as int].spec_id(),
            self.sstables@[table as int]@,
        ));
        let (offset, len) = self.sstables[table].block_place(block);
        let key: BlockKey = BlockKey { sst_id, offset };
        match self.block_cache.get(&key) {
            Some(b) => BlockSource::Cached(b),
            None => BlockSource::File { sst_id, offset, len },
        }
    }

    /// Decodes a block that was read from its file and caches it.
    pub fn supply(&mut self, table: usize, block: usize, bytes: Bytes) -> (r: Result<Arc<Block>>)
        requires
            old(self).wf(),
            old(self)@.has_block(table as int, block as int),
        ensures
            final(self).wf(),
            match block_fault(bytes_of(bytes)) {
                Some(text) => {
                    &&& r matches Err(LsmError::CorruptedSSTable(s)) && s@ == text
                    &&& final(self)@ == old(self)@
                },
                None => {
                    &&& r matches Ok(b) && b@ == block_of(bytes_of(bytes))
                    &&& final(self)@ == (EngineModel {
                        cache: after_insert(
                            old(self)@.cache,
                            old(self)@.cache_capacity as nat,
                            old(self)@.block_key(table as int, block as int),
                            block_of(bytes_of(bytes)),
                        ),
                        ..old(self)@
                    })
                },
            },
    {
        let decoded: Block = Block::decode(bytes)?;
        let b: Arc<Block> = Arc::new(decoded);
        let sst_id: u64 = self.sstables[table].id();
        assert(self@.tables[table as int] == (
            self.sstables@[table as int].spec_id(),
            self.sstables@[table as int]@,
        ));
        let (offset, _) = self.sstables[table].block_place(block);
        self.block_cache.insert(BlockKey { sst_id, offset }, share_block(&b));
        Ok(b)
    }

    /// Starts to flush the active MemTable to a new SSTable: freezes it, puts a fresh one in
    /// its place, and makes the bytes of the new table's file. `None` when there is nothing
    /// to flush.
    pub fn flush_memtable(&mut self) -> (r: Option<PendingFlush>)
        requires
            old(self).wf(),
        ensures
            final(self).wf(),
            match r {
                None => old(self)@.memtable == Table::empty() && final(self)@ == (EngineModel {
                    memtable_size: 0,
                    ..old(self)@
                }),
                Some(f) => {
                    let es = run_of(old(self)@.memtable);
                    &&& old(self)@.memtable != Table::empty()
                    &&& is_run_of(es, old(self)@.memtable)
                    &&& f.sst_id == old(self)@.next_sst_id
                    &&& match f.file {
                        Some(file) => filter_fits(es.len()) && bytes_of(file) == table_image(
                            es,
                            DEFAULT_BLOCK_SIZE as nat,
                        ),
                        None => !filter_fits(es.len()),
                    }
                    &&& 10 * es.len() + 7 < 0x1_0000_0000 - 64 ==> f.file is Some
                    &&& final(self)@ == (EngineModel {
                        memtable: Table::empty(),
                        memtable_size: 0,
                        frozen: old(self)@.frozen.push(old(self)@.memtable),
                        next_sst_id: next_id(old(self)@.next_sst_id),
                        ..old(self)@
                    })
                },
            },
    {
        // 1. Freeze active MemTable and swap with a fresh one
        let mut frozen: MemTable = MemTable::new();
        std::mem::swap(&mut frozen, &mut self.memtable);
        if frozen.is_empty() {
            return None;
        }
        // 2. Assign unique SSTable number
        let sst_id: u64 = self.next_sst_id;
        self.next_sst_id = sst_id.wrapping_add(1);
        // 3. Lay out sorted entries as a new SSTable
        let entries: Vec<(Bytes, Option<Bytes>)> = frozen.iter();
        let file: Option<Bytes> = build_table(&entries, DEFAULT_BLOCK_SIZE);
        let ghost before = self.imm_memtables@;
        let ghost t = frozen@;
        self.imm_memtables.push(frozen);
        assert(buffers_view(self.imm_memtables@) =~= buffers_view(before).push(t));
        Some(PendingFlush { sst_id, file })
    }

    /// Ends a flush whose file is written and synced: registers the new table as the newest
    /// one, and lets go of the frozen write buffer. Returns whether the log may be emptied:
    /// no write is left that stands in the log alone.
    pub fn finish_flush(&mut self, reader: SsTableReader) -> (empty_log: bool)
        requires
            old(self).wf(),
            old(self)@.frozen.len() > 0,
        ensures
            final(self).wf(),
            final(self)@ == (EngineModel {
                frozen: old(self)@.frozen.drop_last(),
                tables: seq![(reader.spec_id(), reader@)] + old(self)@.tables,
                ..old(self)@
            }),
            empty_log == (final(self)@.memtable == Table::empty() && final(self)@.frozen.len()
                == 0),
    {
        let ghost tables = self.sstables@;
        let ghost frozen = self.imm_memtables@;
        self.sstables.insert(0, reader);
        self.imm_memtables.pop();
        proof {
            assert(tables_view(self.sstables@) =~= seq![(reader.spec_id(), reader@)] + tables_view(
                tables,
            ));
            assert(buffers_view(self.imm_memtables@) =~= buffers_view(frozen).drop_last());
        }
        self.memtable.is_empty() && self.imm_memtables.len() == 0
    }

    /// Starts to compact all SSTables into one: assigns the new table's number. `None` when
    /// there are not two tables to compact.
    pub fn compact(&mut self) -> (r: Option<u64>)
        requires
            old(self).wf(),
        ensures
            final(self).wf(),
            match r {
                None => old(self)@.tables.len() <= 1 && final(self)@ == old(self)@,
                Some(id) => {
                    &&& old(self)@.tables.len() > 1
                    &&& id == old(self)@.next_sst_id
                    &&& final(self)@ == (EngineModel {
                        next_sst_id: next_id(old(self)@.next_sst_id),
                        ..old(self)@
                    })
                },
            },
    {
        if self.sstables.len() <= 1 {
            return None;
        }
        let new_id: u64 = self.next_sst_id;
        self.next_sst_id = new_id.wrapping_add(1);
        Some(new_id)
    }

    /// Ends a compaction whose file is written and synced: the new table takes the place of
    /// all others.
    pub fn finish_compact(&mut self, reader: SsTableReader)
        requires
            old(self).wf(),
        ensures
            final(self).wf(),
            final(self)@ == (EngineModel {
                tables: seq![(reader.spec_id(), reader@)],
                ..old(self)@
            }),
    {
        let mut sstables: Vec<SsTableReader> = Vec::new();
        sstables.push(reader);
        self.sstables = sstables;
        assert(tables_view(self.sstables@) =~= seq![(reader.spec_id(), reader@)]);
    }

    /// The number of the table at a place, counted from the newest.
    pub fn table_id(&self, table: usize) -> (id: u64)
        requires
            table < self@.tables.len(),
        ensures
            id == self@.tables[table as int].0,
    {
        self.sstables[table].id()
    }

    /// How many blocks the table at a place has.
    pub fn table_blocks(&self, table: usize) -> (n: usize)
        requires
            table < self@.tables.len(),
        ensures
            n as nat == self@.tables[table as int].1.metas.len(),
    {
        assert(self@.tables[table as int].1 == self.sstables@[table as int]@);
        self.sstables[table].num_blocks()
    }

    /// Where a block stands in its table's file: its offset and its length.
    pub fn block_place(&self, table: usize, block: usize) -> (r: (u64, u64))
        requires
            self@.has_block(table as int, block as int),
        ensures
            r.0 as nat == self@.tables[table as int].1.metas[block as int].offset,
            r.1 as nat == self@.tables[table as int].1.metas[block as int].len,
    {
        assert(self@.tables[table as int].1 == self.sstables@[table as int]@);
        self.sstables[table].block_place(block)
    }

    /// The blocks of a table that intersect the range [start, end): the first of them, and
    /// one past the last.
    pub fn table_range(&self, table: usize, start: Option<&[u8]>, end: Option<&[u8]>) -> (r: (
        usize,
        usize,
    ))
        requires
            table < self@.tables.len(),
        ensures
            (r.0 as int, r.1 as int) == self@.tables[table as int].1.iter_range(
                bound_of(start),
                bound_of(end),
            ),
            r.0 <= r.1 <= self@.tables[table as int].1.metas.len(),
    {
        assert(self@.tables[table as int].1 == self.sstables@[table as int]@);
        self.sstables[table].iter_range(start, end)
    }

    /// Performs a range scan over [start, end) or unbounded bounds, given the entries of the
    /// range in each SSTable from newest to oldest.
    /// Merges entries from MemTable, frozen MemTables, and on-disk SSTables in sorted order.
    /// Deduplicates keys, keeps newest revisions, and automatically prunes deleted keys.
    pub fn scan(
        &self,
        start: Option<&[u8]>,
        end: Option<&[u8]>,
        tables: Vec<VecDeque<Result<(Bytes, Option<Bytes>)>>>,
    ) -> (r: Result<Vec<(Bytes, Bytes)>>)
        ensures
            match scan_of(self@, bound_of(start), bound_of(end), streams_of(tables@)).collect() {
                Ok(ps) => r matches Ok(v) && pairs_of(v@) == ps,
                Err(e) => r matches Err(x) && x == e,
            },
            spelled(self@.buffers()),
    {
        let ghost frozen = self@.frozen;
        let ghost newest = frozen.reverse();
        let ghost (s, e) = (bound_of(start), bound_of(end));
        let mut iterators: Vec<VecDeque<Result<(Bytes, Option<Bytes>)>>> = Vec::new();
        // 1. Active mutable MemTable (Priority 0 - Freshest)
        iterators.push(entries_stream(self.memtable.iter(), start, end));
        // 2. Immutable MemTables (Priority 1..K)
        let n: usize = self.imm_memtables.len();
        let mut left: usize = n;
        let ghost buffers = self@.buffers();
        proof {
            assert(streams_of(iterators@) =~= buffer_streams(buffers, s, e).take(1));
            assert(spelled(buffers.take(1)));
        }
        while left > 0
            invariant
                left <= n,
                n == self.imm_memtables@.len(),
                frozen == buffers_view(self.imm_memtables@),
                newest == frozen.reverse(),
                buffers == self@.buffers(),
                buffers == seq![self@.memtable] + newest,
                spelled(buffers.take(1 + n - left)),
                s == bound_of(start),
                e == bound_of(end),
                streams_of(iterators@) == buffer_streams(buffers, s, e).take(1 + n - left),
            decreases left,
        {
            let ghost before = iterators@;
            proof {
                assert(buffers[1 + n - left] == frozen[left - 1]);
                assert(frozen[left - 1] == self.imm_memtables@[left - 1]@);
            }
            iterators.push(entries_stream(self.imm_memtables[left - 1].iter(), start, end));
            proof {
                assert(streams_of(iterators@) =~= streams_of(before).push(
                    ok_items(restrict(run_of(buffers[1 + n - left]), s, e)),
                ));
                assert(streams_of(iterators@) =~= buffer_streams(buffers, s, e).take(
                    1 + n - left + 1,
                ));
                assert(buffers.take(1 + n - left + 1) =~= buffers.take(1 + n - left).push(
                    buffers[1 + n - left],
                ));
            }
            left = left - 1;
        }
        // 3. SSTables from newest to oldest
        let ghost mem = iterators@;
        let ghost disk = tables@;
        let mut more: Vec<VecDeque<Result<(Bytes, Option<Bytes>)>>> = tables;
        iterators.append(&mut more);
        proof {
            assert(buffer_streams(buffers, s, e).take(1 + n) =~= buffer_streams(buffers, s, e));
            assert(buffers.take(1 + n) =~= buffers);
            assert(streams_of(iterators@) =~= streams_of(mem) + streams_of(disk));
        }
        let merge_iter: MergeIterator = MergeIterator::new(iterators);
        merge_iter.collect()
    }

    /// Convenience method to scan all active key-value pairs across the entire engine.
    pub fn scan_all(
        &self,
        tables: Vec<VecDeque<Result<(Bytes, Option<Bytes>)>>>,
    ) -> (r: Result<Vec<(Bytes, Bytes)>>)
        ensures
            match scan_of(self@, None, None, streams_of(tables@)).collect() {
                Ok(ps) => r matches Ok(v) && pairs_of(v@) == ps,
                Err(e) => r matches Err(x) && x == e,
            },
            spelled(self@.buffers()),
    {
        self.scan(None, None, tables)
    }

    /// Number of active SSTables on disk.
    pub fn sstable_count(&self) -> (n: usize)
        ensures
            n as nat == self@.tables.len(),
    {
        self.sstables.len()
    }

    /// Total memory consumption of active MemTable in bytes.
    pub fn memtable_size(&self) -> (n: usize)
        ensures
            n as int == self@.memtable_size,
    {
        self.memtable.size_bytes()
    }

    /// Number of 4KB data blocks currently resident in the LRU block cache.
    pub fn block_cache_len(&self) -> (n: usize)
        requires
            self.wf(),
        ensures
            n as nat == self@.cache.len(),
    {
        self.block_cache.len()
    }

    /// Maximum number of blocks the LRU block cache can hold.
    pub fn block_cache_capacity(&self) -> (n: usize)
        ensures
            n == self@.cache_capacity,
    {
        self.block_cache.capacity()
    }
}

/// The number after a table's number; after the largest one counting starts over.
pub open spec fn next_id(id: u64) -> u64 {
    if id == u64::MAX {
        0
    } else {
        (id + 1) as u64
    }
}

/// The engine that is opened over the given tables and a log of the given writes.
pub open spec fn opened_model(
    log: Seq<WalRecord>,
    tables: Seq<OpenTable>,
    max_memtable_size: usize,
    block_cache_capacity: usize,
) -> EngineModel {
    EngineModel {
        memtable: replay(log),
        memtable_size: replay_size(log),
        frozen: Seq::empty(),
        tables: newest_first(tables),
        cache: Cached::empty(),
        cache_capacity: if block_cache_capacity == 0 {
            1
        } else {
            block_cache_capacity
        },
        next_sst_id: (max_id(tables) + 1) as u64,
        max_memtable_size,
    }
}

/// What opening an engine comes to.
pub open spec fn opened(
    r: Result<(LsmEngine, usize)>,
    tables: Seq<OpenTable>,
    wal: Seq<u8>,
    max_memtable_size: usize,
    block_cache_capacity: usize,
) -> bool {
    match wal_recover(wal) {
        Ok((log, valid)) => r matches Ok((engine, valid_len)) && engine.wf() && valid_len == valid
            && engine@ == opened_model(log, tables, max_memtable_size, block_cache_capacity),
        Err(WalEnd::InvalidOp { code }) => r matches Err(LsmError::InvalidOpCode(c)) && c == code,
        Err(WalEnd::CrcMismatch { expected, actual }) => r matches Err(
            LsmError::CrcMismatch { expected: e, actual: a },
        ) && e == expected && a == actual,
        Err(_) => false,
    }
}

/// Each of the write buffers has a sorted run that spells it.
pub open spec fn spelled(buffers: Seq<Table>) -> bool {
    forall|i: int| 0 <= i < buffers.len() ==> is_run_of(run_of(#[trigger] buffers[i]), buffers[i])
}

/// The entries of a range in each write buffer, as streams.
pub open spec fn buffer_streams(
    buffers: Seq<Table>,
    start: Option<Seq<u8>>,
    end: Option<Seq<u8>>,
) -> Seq<Seq<Item>> {
    Seq::new(buffers.len(), |i: int| ok_items(restrict(run_of(buffers[i]), start, end)))
}

/// The merge that a scan makes of the write buffers and the tables' streams.
pub open spec fn scan_of(
    m: EngineModel,
    start: Option<Seq<u8>>,
    end: Option<Seq<u8>>,
    tables: Seq<Seq<Item>>,
) -> MergeState {
    MergeState {
        heads: Map::empty(),
        rests: buffer_streams(m.buffers(), start, end) + tables,
        initialized: false,
    }
}

/// Open tables stand for as many in the same order, and so do write buffers; and what a lookup
/// hands out stands for how far it has come.
pub proof fn law_engine_views(
    readers: Seq<SsTableReader>,
    buffers: Seq<MemTable>,
    found: Bytes,
    table: usize,
    block: usize,
    i: int,
)
    ensures
        tables_view(readers).len() == readers.len(),
        0 <= i < readers.len() ==> tables_view(readers)[i] == (readers[i].spec_id(), readers[i]@),
        buffers_view(buffers).len() == buffers.len(),
        0 <= i < buffers.len() ==> buffers_view(buffers)[i] == buffers[i]@,
        Lookup::Done(Some(found))@ == LookupModel::Done(Some(bytes_of(found))),
        Lookup::Done(None)@ == LookupModel::Done(None),
        (Lookup::Fetch { table, block })@ == (LookupModel::Fetch {
            table: table as int,
            block: block as int,
        }),
        Lookup::Corrupt@ == LookupModel::Corrupt,
{
}

/// The next number is one more, up to the largest one.
pub proof fn law_next_id(id: u64)
    requires
        id < u64::MAX,
    ensures
        next_id(id) == id + 1,
{
}

/// What a logged write does to a write buffer: a put binds its key to its value, a delete binds
/// its key to nothing, and no other key is touched.
pub proof fn law_apply(t: Table, key: Seq<u8>, value: Seq<u8>, other: Seq<u8>)
    ensures
        ({
            let put = apply(t, (WalRecord { op: WalOp::Put, key, value: Some(value) }));
            let deleted = apply(t, (WalRecord { op: WalOp::Delete, key, value: None }));
            &&& put.contains_key(key) && put[key] == Some(value)
            &&& deleted.contains_key(key) && deleted[key] is None
            &&& other != key ==> (put.contains_key(other) <==> t.contains_key(other)) && (
            deleted.contains_key(other) <==> t.contains_key(other))
            &&& other != key && t.contains_key(other) ==> put[other] == t[other] && deleted[other]
                == t[other]
        }),
{
}

/// What a logged write does to the size of a write buffer, as far as the machine can count.
pub proof fn law_apply_size(size: int, key: Seq<u8>, value: Seq<u8>)
    requires
        0 <= size,
        size + key.len() + value.len() + 64 <= usize::MAX,
    ensures
        apply_size(size, (WalRecord { op: WalOp::Put, key, value: Some(value) })) == size
            + key.len() + value.len() + 64,
        apply_size(size, (WalRecord { op: WalOp::Delete, key, value: None })) == size + key.len()
            + 64,
{
    lemma_small_mod((size + key.len() + value.len() + 64) as nat, (usize::MAX + 1) as nat);
    lemma_small_mod((size + key.len() + 64) as nat, (usize::MAX + 1) as nat);
}

/// A log is played back from its first write to its last.
pub proof fn law_replay(log: Seq<WalRecord>, r: WalRecord)
    ensures
        replay(Seq::empty()) == Table::empty(),
        replay_size(Seq::empty()) == 0,
        replay(log.push(r)) == apply(replay(log), r),
        replay_size(log.push(r)) == apply_size(replay_size(log), r),
{
    assert(log.push(r).drop_last() =~= log);
}

/// A lookup ends with what a block says of the key, goes on to the older tables when the block
/// says nothing, and reports a block that points outside its own bytes.
pub proof fn law_resume(m: EngineModel, key: Seq<u8>, table: int, block: BlockModel)
    ensures
        block.probe(key) matches Probe::Found(v) ==> m.resume(key, table, block)
            == LookupModel::Done(v),
        block.probe(key) == Probe::Missing && table + 1 >= m.tables.len() ==> m.resume(
            key,
            table,
            block,
        ) == LookupModel::Done(None),
        block.probe(key) == Probe::Missing ==> m.resume(key, table, block) == m.search(
            key,
            table + 1,
        ),
        block.probe(key) == Probe::OutOfBounds ==> m.resume(key, table, block)
            == LookupModel::Corrupt,
{
}

/// A lookup in the tables passes over those that cannot hold the key, asks for the block of the
/// first one that may, and reports one whose filter cannot be asked.
pub proof fn law_search(m: EngineModel, key: Seq<u8>, from: int)
    requires
        0 <= from < m.tables.len(),
    ensures
        match m.tables[from].1.get(key) {
            TableStep::Absent => m.search(key, from) == m.search(key, from + 1),
            TableStep::Read(b) => m.search(key, from) == (LookupModel::Fetch {
                table: from,
                block: b as int,
            }),
            TableStep::Unaddressable => m.search(key, from) == LookupModel::Corrupt,
        },
{
}

} // verus!
