//! Histories: what holds of an engine after any sequence of operations on it, from the day it
//! was created in an empty directory.
use crate::compaction::compacted;
use crate::engine::{
    apply_size, max_id, next_id, opened_model, replay, replay_size, scan_of, spelled, EngineModel,
    LookupModel, OpenTable,
};
use crate::entry::{
    in_range, is_run_of, law_in_range, lemma_lookup_finds, lemma_lookup_witness,
    lemma_merged_finite, lemma_resolve_add, lemma_resolve_witness, lemma_run_exists, live, lookup,
    pair_lookup, pairs_sorted, resolve, restrict, run_of, strictly_sorted, table_get, table_of,
    tables_of, Entry, Pairs, Table,
};
use crate::error::LsmError;
use crate::guarantees::{
    after_commit, after_compact, after_flush, after_freeze, backed, bs, descending, healthy,
    law_compact, law_fetch, law_flush, law_freeze, law_log_encodable, law_open_healthy, law_reopen,
    law_scan, law_supply, law_write_then_read, lemma_max_attained, lemma_resolve_next,
    lemma_search_forward, lemma_table_step, lemma_value_split, logged, newest, same_tables,
    tables_left, tiers, true_block, value,
};
use crate::iterator::{ok_items, Item};
use crate::key::{key_lt, lemma_key_irreflexive, lemma_key_transitive};
use crate::sstable::block::{block_of, entry_encodable, BlockModel, Probe};
use crate::sstable::builder::table_image;
use crate::sstable::cache::{after_get, after_insert, is_cached, place};
use crate::sstable::reader::{block_bytes, table_fits, table_model, table_sized, TableStep};
use crate::sstable::stream::{
    decoded_blocks, law_table_range, lemma_range_bounds, range_blocks, stream_of, Fetched,
};
use crate::wal::{unfinished, wal_image, wal_recover, wal_scan, WalOp, WalRecord};
use crate::weight::{
    law_compaction_weight, law_table_sized, lemma_weight_insert, total_weight, weight,
};
use vstd::arithmetic::div_mod::lemma_small_mod;
use vstd::prelude::*;

verus! {

/// An engine with what stands in its files: the entries of each table, from the newest to the
/// oldest, and the writes in the log.
#[verifier::ext_equal]
pub struct World {
    pub m: EngineModel,
    pub runs: Seq<Seq<Entry>>,
    pub log: Seq<WalRecord>,
}

/// What can be done with an engine.
pub enum Op {
    Put { key: Seq<u8>, value: Seq<u8> },
    Delete { key: Seq<u8> },
    Get { key: Seq<u8> },
    Scan { start: Option<Seq<u8>>, end: Option<Seq<u8>> },
    Flush,
    Compact,
    /// The engine is opened anew, with any sizes, after a clean end or a crash. Its table files
    /// are found in any order, and in the log stands what a crash has left of one more write.
    Reopen {
        found: Seq<OpenTable>,
        tail: Seq<u8>,
        max_memtable_size: usize,
        block_cache_capacity: usize,
    },
}

/// An engine in an empty directory.
pub open spec fn created(max_memtable_size: usize, block_cache_capacity: usize) -> World {
    World {
        m: opened_model(Seq::empty(), Seq::empty(), max_memtable_size, block_cache_capacity),
        runs: Seq::empty(),
        log: Seq::empty(),
    }
}

/// The log record of a put.
pub open spec fn put_record(key: Seq<u8>, value: Seq<u8>) -> WalRecord {
    WalRecord { op: WalOp::Put, key, value: Some(value) }
}

/// The log record of a delete.
pub open spec fn delete_record(key: Seq<u8>) -> WalRecord {
    WalRecord { op: WalOp::Delete, key, value: None }
}

/// The size of a write buffer after one more write, if the machine can count so far.
pub open spec fn grown(size: int, r: WalRecord) -> int {
    size + r.key.len() + r.value_bytes().len() + 64
}

/// The write buffer becomes the newest table, and the log is emptied. Where there is nothing
/// to flush, nothing happens.
pub open spec fn flushed(w: World) -> World {
    if w.m.memtable == Table::empty() {
        World { m: EngineModel { memtable_size: 0, ..w.m }, ..w }
    } else {
        World {
            m: after_flush(after_freeze(w.m), w.m.next_sst_id),
            runs: seq![run_of(w.m.memtable)] + w.runs,
            log: Seq::empty(),
        }
    }
}

/// A write is logged and committed.
pub open spec fn committed(w: World, r: WalRecord) -> World {
    World {
        m: after_commit(w.m, r, apply_size(w.m.memtable_size, r)),
        log: w.log.push(r),
        ..w
    }
}

/// A write is logged and committed, and the write buffer is flushed when it has reached its
/// threshold.
pub open spec fn written(w: World, r: WalRecord) -> World {
    let c = committed(w, r);
    if c.m.memtable_size >= c.m.max_memtable_size {
        flushed(c)
    } else {
        c
    }
}

/// All tables become one. Where there are not two of them, nothing happens.
pub open spec fn merged(w: World) -> World {
    if w.m.tables.len() <= 1 {
        w
    } else {
        let id = w.m.next_sst_id;
        World {
            m: after_compact(EngineModel { next_sst_id: next_id(id), ..w.m }, w.runs, id),
            runs: seq![run_of(compacted(w.runs, true))],
            ..w
        }
    }
}

/// The block that reading gives: from the cache, or else from the table's file.
pub open spec fn block_read(
    m: EngineModel,
    runs: Seq<Seq<Entry>>,
    table: int,
    block: int,
) -> BlockModel {
    let key = m.block_key(table, block);
    if is_cached(m.cache, key) {
        m.cache[place(m.cache, key)].1
    } else {
        block_of(block_bytes(table_image(runs[table], bs()), m.tables[table].1.metas[block]))
    }
}

/// The engine after a block was read: the cache counts it as used, or has it now.
pub open spec fn after_read(
    m: EngineModel,
    runs: Seq<Seq<Entry>>,
    table: int,
    block: int,
) -> EngineModel {
    let key = m.block_key(table, block);
    let asked = EngineModel { cache: after_get(m.cache, key), ..m };
    if is_cached(m.cache, key) {
        asked
    } else {
        EngineModel {
            cache: after_insert(
                asked.cache,
                m.cache_capacity as nat,
                key,
                block_read(m, runs, table, block),
            ),
            ..asked
        }
    }
}

/// A lookup that has come to the given step is run to its end: the engine after it, and what
/// it returns. `None` when it meets something that cannot be searched.
pub open spec fn looked_up(
    m: EngineModel,
    runs: Seq<Seq<Entry>>,
    key: Seq<u8>,
    step: LookupModel,
) -> (EngineModel, Option<Option<Seq<u8>>>)
    decreases tables_left(m, step),
{
    match step {
        LookupModel::Done(v) => (m, Some(v)),
        LookupModel::Corrupt => (m, None),
        LookupModel::Fetch { table, block } => if table < 0 || table >= m.tables.len() {
            (m, None)
        } else {
            let after = after_read(m, runs, table, block);
            let next = after.resume(key, table, block_read(m, runs, table, block));
            proof {
                lemma_search_forward(after, key, table + 1);
            }
            looked_up(after, runs, key, next)
        },
    }
}

/// The engine after some blocks of a table were read, one after the other.
pub open spec fn after_blocks(
    m: EngineModel,
    runs: Seq<Seq<Entry>>,
    table: int,
    first: int,
    last: int,
) -> EngineModel
    decreases last - first,
{
    if first >= last {
        m
    } else {
        after_blocks(after_read(m, runs, table, first), runs, table, first + 1, last)
    }
}

/// The blocks that are read then.
pub open spec fn blocks_read(
    m: EngineModel,
    runs: Seq<Seq<Entry>>,
    table: int,
    first: int,
    last: int,
) -> Seq<Fetched>
    decreases last - first,
{
    if first >= last {
        Seq::empty()
    } else {
        seq![Ok::<BlockModel, LsmError>(block_read(m, runs, table, first))] + blocks_read(
            after_read(m, runs, table, first),
            runs,
            table,
            first + 1,
            last,
        )
    }
}

/// The engine after a scan has read what it needs of the tables from place `from` on.
pub open spec fn after_scan(
    m: EngineModel,
    runs: Seq<Seq<Entry>>,
    from: int,
    start: Option<Seq<u8>>,
    end: Option<Seq<u8>>,
) -> EngineModel
    decreases runs.len() - from,
{
    if from >= runs.len() {
        m
    } else {
        let (first, last) = m.tables[from].1.iter_range(start, end);
        after_scan(after_blocks(m, runs, from, first, last), runs, from + 1, start, end)
    }
}

/// The entries of the range in each table from place `from` on, as a scan reads them. `None`
/// when a block points outside its own bytes.
pub open spec fn streams_read(
    m: EngineModel,
    runs: Seq<Seq<Entry>>,
    from: int,
    start: Option<Seq<u8>>,
    end: Option<Seq<u8>>,
) -> Option<Seq<Seq<Item>>>
    decreases runs.len() - from,
{
    if from >= runs.len() {
        Some(Seq::empty())
    } else {
        let (first, last) = m.tables[from].1.iter_range(start, end);
        let after = after_blocks(m, runs, from, first, last);
        match (
            stream_of(blocks_read(m, runs, from, first, last), start, end),
            streams_read(after, runs, from + 1, start, end),
        ) {
            (Some(stream), Some(rest)) => Some(seq![stream] + rest),
            _ => None,
        }
    }
}

/// The engine and its files after an operation.
pub open spec fn step(w: World, op: Op) -> World {
    match op {
        Op::Put { key, value } => written(w, put_record(key, value)),
        Op::Delete { key } => written(w, delete_record(key)),
        Op::Get { key } => World { m: looked_up(w.m, w.runs, key, w.m.get(key)).0, ..w },
        Op::Scan { start, end } => World { m: after_scan(w.m, w.runs, 0, start, end), ..w },
        Op::Flush => flushed(w),
        Op::Compact => merged(w),
        Op::Reopen { found, tail, max_memtable_size, block_cache_capacity } => match (
        wal_recover(wal_image(w.log) + tail)) {
            Ok((log, _)) => World {
                m: opened_model(log, found, max_memtable_size, block_cache_capacity),
                log,
                ..w
            },
            Err(_) => w,
        },
    }
}

/// The machine can hold the table that a flush makes, and can number it.
pub open spec fn flush_allowed(w: World) -> bool {
    w.m.memtable != Table::empty() ==> table_sized(run_of(w.m.memtable), bs()) && w.m.next_sst_id
        < u64::MAX
}

/// A write fits into a log record, the machine can count the write buffer's size, and can hold
/// the table that the write may lead to.
pub open spec fn write_allowed(w: World, r: WalRecord) -> bool {
    let c = committed(w, r);
    &&& r.fits()
    &&& grown(w.m.memtable_size, r) <= usize::MAX
    &&& c.m.memtable_size >= c.m.max_memtable_size ==> flush_allowed(c)
}

/// The machine can hold the table that a compaction makes, and can number it.
pub open spec fn compact_allowed(w: World) -> bool {
    w.m.tables.len() > 1 ==> table_sized(run_of(compacted(w.runs, true)), bs()) && w.m.next_sst_id
        < u64::MAX
}

/// No two tables have the same number.
pub open spec fn distinct(found: Seq<OpenTable>) -> bool {
    forall|i: int, j: int|
        0 <= i < j < found.len() ==> (#[trigger] found[i]).0 != (#[trigger] found[j]).0
}

/// The operation is within the machine's limits. Reopening finds the engine's own tables, each
/// once, and behind the log's records only what a crash has left of another.
pub open spec fn allowed(w: World, op: Op) -> bool {
    match op {
        Op::Put { key, value } => write_allowed(w, put_record(key, value)),
        Op::Delete { key } => write_allowed(w, delete_record(key)),
        Op::Get { key } => true,
        Op::Scan { start, end } => true,
        Op::Flush => flush_allowed(w),
        Op::Compact => compact_allowed(w),
        Op::Reopen { found, tail, max_memtable_size, block_cache_capacity } => {
            &&& distinct(found)
            &&& same_tables(found, w.m.tables)
            &&& unfinished(tail)
        },
    }
}

/// The sizes of some writes, all together.
pub open spec fn logged_size(log: Seq<WalRecord>) -> int
    decreases log.len(),
{
    if log.len() == 0 {
        0
    } else {
        grown(logged_size(log.drop_last()), log.last())
    }
}

/// What holds of an engine at any time: it is healthy, its write buffer is what its log spells
/// and holds a size exactly when it holds a write, and nothing is frozen.
pub open spec fn sound(w: World) -> bool {
    &&& healthy(w.m, w.runs)
    &&& w.m.frozen == Seq::<Table>::empty()
    &&& w.m.memtable == replay(w.log)
    &&& w.m.memtable_size == replay_size(w.log)
    &&& forall|i: int| 0 <= i < w.log.len() ==> (#[trigger] w.log[i]).fits()
    &&& 0 <= w.m.memtable_size <= usize::MAX
    &&& w.log.len() > 0 ==> w.m.memtable_size > 0
}

/// The size of the write buffer is the one of its writes, all together.
pub open spec fn measured(w: World) -> bool {
    w.m.memtable_size == logged_size(w.log)
}

/// Every key has the same value.
pub open spec fn same_values(a: World, b: World) -> bool {
    forall|k: Seq<u8>|
        #![trigger value(a.m, a.runs, k)]
        #![trigger value(b.m, b.runs, k)]
        value(a.m, a.runs, k) == value(b.m, b.runs, k)
}

/// The write buffer that a log spells knows finitely many keys, and none only when the log is
/// empty.
proof fn lemma_replay_finite(log: Seq<WalRecord>)
    requires
        forall|i: int| 0 <= i < log.len() ==> (#[trigger] log[i]).fits(),
    ensures
        replay(log).dom().finite(),
        log.len() == 0 <==> replay(log) == Table::empty(),
        is_run_of(run_of(replay(log)), replay(log)),
    decreases log.len(),
{
    if log.len() > 0 {
        let front = log.drop_last();
        assert forall|i: int| 0 <= i < front.len() implies (#[trigger] front[i]).fits() by {
            assert(log[i].fits());
        }
        lemma_replay_finite(front);
        assert(log[log.len() - 1].fits());
        assert(replay(log).contains_key(log.last().key));
        assert(!Table::empty().contains_key(log.last().key));
    }
    lemma_run_exists(replay(log));
}

/// The size that the write buffer reports is 0 exactly when it holds nothing.
pub proof fn law_buffer_size(w: World)
    requires
        sound(w),
    ensures
        w.m.memtable_size == 0 <==> w.m.memtable == Table::empty(),
{
    lemma_replay_finite(w.log);
}

/// The engine is in step with its log.
proof fn lemma_sound_logged(w: World)
    requires
        sound(w),
    ensures
        logged(w.m, w.runs, w.log),
{
    assert(w.m.frozen.reverse() =~= Seq::<Table>::empty());
    assert forall|k: Seq<u8>| #[trigger] replay(w.log).contains_key(k) implies value(
        w.m,
        w.runs,
        k,
    ) == replay(w.log)[k] by {
        lemma_value_split(w.m, w.runs, k);
    }
    assert forall|k: Seq<u8>| #[trigger] resolve(w.m.buffers(), k) is Some implies replay(
        w.log,
    ).contains_key(k) by {
        assert(w.m.buffers() =~= seq![w.m.memtable]);
        assert(seq![w.m.memtable].skip(1) =~= Seq::<Table>::empty());
        assert(resolve(seq![w.m.memtable].skip(1), k) is None);
    }
}

/// A table that is made of entries that can be spelled fits, if the machine can hold it.
proof fn lemma_fits(t: Table)
    requires
        is_run_of(run_of(t), t),
        forall|k: Seq<u8>| #[trigger] t.contains_key(k) ==> entry_encodable((k, t[k])),
        table_sized(run_of(t), bs()),
    ensures
        table_fits(run_of(t), bs()),
{
    let es = run_of(t);
    assert forall|i: int| 0 <= i < es.len() implies #[trigger] entry_encodable(es[i]) by {
        lemma_lookup_finds(es, i);
        assert(lookup(es, es[i].0) == table_get(t, es[i].0));
        assert(t.contains_key(es[i].0));
        assert(es[i] == (es[i].0, t[es[i].0]));
    }
}

/// Flushing keeps every value and leaves the engine sound.
proof fn lemma_flushed(w: World)
    requires
        sound(w),
        flush_allowed(w),
    ensures
        sound(flushed(w)),
        same_values(flushed(w), w),
{
    lemma_replay_finite(w.log);
    let after = flushed(w);
    if w.m.memtable == Table::empty() {
        assert(after.m =~= w.m);
    } else {
        let t = w.m.memtable;
        let frozen = after_freeze(w.m);
        let id = w.m.next_sst_id;
        assert forall|k: Seq<u8>| #[trigger] t.contains_key(k) implies entry_encodable(
            (k, t[k]),
        ) by {
            law_log_encodable(w.log, k);
        }
        lemma_fits(t);
        assert(frozen.frozen =~= seq![t]);
        law_freeze(w.m, w.runs, Seq::empty());
        assert(newest(frozen, id));
        law_flush(frozen, w.runs, id, Seq::empty());
        assert(after.m.frozen =~= Seq::<Table>::empty());
        assert forall|k: Seq<u8>|
            #![trigger value(after.m, after.runs, k)]
            #![trigger value(w.m, w.runs, k)]
            value(after.m, after.runs, k) == value(w.m, w.runs, k) by {
            law_freeze(w.m, w.runs, k);
            law_flush(frozen, w.runs, id, k);
        }
    }
}

/// Where the machine can count so far, a write buffer grows by the size of the write.
proof fn lemma_grown(size: int, r: WalRecord)
    requires
        r.fits(),
        0 <= size,
        grown(size, r) <= usize::MAX,
    ensures
        apply_size(size, r) == grown(size, r),
        grown(size, r) > size,
{
    lemma_small_mod(grown(size, r) as nat, (usize::MAX + 1) as nat);
}

/// A logged and committed write leaves the engine sound, and touches its own key only.
proof fn lemma_committed(w: World, r: WalRecord)
    requires
        sound(w),
        r.fits(),
        grown(w.m.memtable_size, r) <= usize::MAX,
    ensures
        sound(committed(w, r)),
        committed(w, r).m.memtable_size == grown(w.m.memtable_size, r),
        forall|k: Seq<u8>| #[trigger]
            value(committed(w, r).m, w.runs, k) == if k == r.key {
                r.value
            } else {
                value(w.m, w.runs, k)
            },
{
    let c = committed(w, r);
    lemma_grown(w.m.memtable_size, r);
    assert(c.log.drop_last() =~= w.log);
    law_write_then_read(w.m, w.runs, r, c.m.memtable_size, Seq::empty());
    assert forall|k: Seq<u8>| #[trigger] value(c.m, w.runs, k) == if k == r.key {
        r.value
    } else {
        value(w.m, w.runs, k)
    } by {
        law_write_then_read(w.m, w.runs, r, c.m.memtable_size, k);
    }
}

/// A write leaves the engine sound, and touches its own key only.
proof fn lemma_written(w: World, r: WalRecord)
    requires
        sound(w),
        write_allowed(w, r),
    ensures
        sound(written(w, r)),
        forall|k: Seq<u8>| #[trigger]
            value(written(w, r).m, written(w, r).runs, k) == if k == r.key {
                r.value
            } else {
                value(w.m, w.runs, k)
            },
{
    let c = committed(w, r);
    lemma_committed(w, r);
    if c.m.memtable_size >= c.m.max_memtable_size {
        lemma_flushed(c);
    }
}

/// Every entry of a compaction is an entry of one of the tables that it merges.
proof fn lemma_compacted_encodable(runs: Seq<Seq<Entry>>, k: Seq<u8>)
    requires
        forall|i: int| 0 <= i < runs.len() ==> table_fits(#[trigger] runs[i], bs()),
        compacted(runs, true).contains_key(k),
    ensures
        entry_encodable((k, compacted(runs, true)[k])),
{
    let ts = tables_of(runs);
    let i = lemma_resolve_witness(ts, k);
    assert(ts[i] == table_of(runs[i]));
    assert(table_fits(runs[i], bs()));
    let j = lemma_lookup_witness(runs[i], k);
    assert(entry_encodable(runs[i][j]));
    assert(runs[i][j] == (k, compacted(runs, true)[k]));
}

/// Using up a number leaves the engine healthy, and the number is the newest one.
proof fn lemma_next_id(m: EngineModel, runs: Seq<Seq<Entry>>)
    requires
        healthy(m, runs),
        m.next_sst_id < u64::MAX,
    ensures
        ({
            let after = EngineModel { next_sst_id: next_id(m.next_sst_id), ..m };
            &&& healthy(after, runs)
            &&& newest(after, m.next_sst_id)
            &&& forall|k: Seq<u8>| #[trigger] value(after, runs, k) == value(m, runs, k)
        }),
{
    let after = EngineModel { next_sst_id: next_id(m.next_sst_id), ..m };
    assert forall|i: int| 0 <= i < after.tables.len() implies (#[trigger] after.tables[i]).0
        < after.next_sst_id by {
        assert(m.tables[i].0 < m.next_sst_id);
    }
    assert forall|i: int| 0 <= i < after.cache.len() implies (#[trigger] after.cache[i]).0.sst_id
        < after.next_sst_id && true_block(after, runs, after.cache[i]) by {
        assert(m.cache[i].0.sst_id < m.next_sst_id);
        assert(true_block(m, runs, m.cache[i]));
        let c = m.cache[i];
        assert forall|t: int, b: int|
            after.has_block(t, b) && #[trigger] after.block_key(t, b) == c.0 implies c.1
            == decoded_blocks(runs[t], bs())[b] by {
            assert(m.block_key(t, b) == c.0);
        }
    }
    assert forall|k: Seq<u8>| #[trigger] value(after, runs, k) == value(m, runs, k) by {
        assert(tiers(after, runs) == tiers(m, runs));
    }
}

/// Compacting keeps every value and leaves the engine sound.
proof fn lemma_merged(w: World)
    requires
        sound(w),
        compact_allowed(w),
    ensures
        sound(merged(w)),
        same_values(merged(w), w),
        is_run_of(run_of(compacted(w.runs, true)), compacted(w.runs, true)),
{
    let t = compacted(w.runs, true);
    lemma_merged_finite(w.runs);
    lemma_run_exists(t);
    if w.m.tables.len() > 1 {
        let id = w.m.next_sst_id;
        let m = EngineModel { next_sst_id: next_id(id), ..w.m };
        let after = merged(w);
        assert forall|k: Seq<u8>| #[trigger] t.contains_key(k) implies entry_encodable(
            (k, t[k]),
        ) by {
            lemma_compacted_encodable(w.runs, k);
        }
        lemma_fits(t);
        lemma_next_id(w.m, w.runs);
        law_compact(m, w.runs, id, Seq::empty());
        assert forall|k: Seq<u8>|
            #![trigger value(after.m, after.runs, k)]
            #![trigger value(w.m, w.runs, k)]
            value(after.m, after.runs, k) == value(w.m, w.runs, k) by {
            law_compact(m, w.runs, id, k);
            assert(value(m, w.runs, k) == value(w.m, w.runs, k));
        }
    }
}

/// Reading changes nothing but the cache.
pub open spec fn same_but_cache(a: EngineModel, b: EngineModel) -> bool {
    a == (EngineModel { cache: a.cache, ..b })
}

/// Reading a block gives what the block's file holds, whether or not the cache has it, and
/// leaves the engine healthy.
proof fn lemma_read(m: EngineModel, runs: Seq<Seq<Entry>>, table: int, block: int)
    requires
        healthy(m, runs),
        m.has_block(table, block),
    ensures
        block_read(m, runs, table, block) == decoded_blocks(runs[table], bs())[block],
        healthy(after_read(m, runs, table, block), runs),
        same_but_cache(after_read(m, runs, table, block), m),
{
    law_fetch(m, runs, table, block);
    law_supply(m, runs, table, block);
}

/// A lookup that needs a block goes on with what the block's table says of the key.
proof fn lemma_looked_up_fetch(
    m: EngineModel,
    runs: Seq<Seq<Entry>>,
    key: Seq<u8>,
    table: int,
    block: int,
    said: Option<Option<Seq<u8>>>,
)
    requires
        0 <= table < m.tables.len(),
        block_read(m, runs, table, block).probe(key) == match said {
            Some(v) => Probe::Found(v),
            None => Probe::Missing,
        },
    ensures
        ({
            let after = after_read(m, runs, table, block);
            looked_up(m, runs, key, LookupModel::Fetch { table, block }) == match said {
                Some(v) => (after, Some(v)),
                None => looked_up(after, runs, key, after.search(key, table + 1)),
            }
        }),
{
    let after = after_read(m, runs, table, block);
    let model = block_read(m, runs, table, block);
    let next = after.resume(key, table, model);
    lemma_search_forward(after, key, table + 1);
    assert(looked_up(m, runs, key, LookupModel::Fetch { table, block }) == looked_up(
        after,
        runs,
        key,
        next,
    ));
    if let Some(v) = said {
        assert(next == LookupModel::Done(v));
        assert(looked_up(after, runs, key, next) == (after, Some(v)));
    }
}

/// A lookup in the tables from place `from` on, with each block read through the cache, finds
/// what the newest of them that knows the key says, and leaves the engine healthy.
proof fn lemma_looked_up_from(m: EngineModel, runs: Seq<Seq<Entry>>, key: Seq<u8>, from: int)
    requires
        healthy(m, runs),
        0 <= from <= runs.len(),
    ensures
        ({
            let (after, found) = looked_up(m, runs, key, m.search(key, from));
            &&& found == Some(live(resolve(tables_of(runs).skip(from), key)))
            &&& healthy(after, runs)
            &&& same_but_cache(after, m)
        }),
    decreases runs.len() - from,
{
    let ts = tables_of(runs);
    if from == runs.len() {
        assert(ts.skip(from) =~= Seq::<Table>::empty());
        assert(resolve(ts.skip(from), key) is None);
    } else {
        let es = runs[from];
        assert(table_fits(es, bs()) && m.tables[from].1 == table_model(es, bs()));
        lemma_table_step(es, key);
        lemma_resolve_next(runs, key, from);
        match m.tables[from].1.get(key) {
            TableStep::Absent => {
                assert(m.search(key, from) == m.search(key, from + 1));
                lemma_looked_up_from(m, runs, key, from + 1);
            },
            TableStep::Read(i) => {
                let block = i as int;
                assert(m.search(key, from) == LookupModel::Fetch { table: from, block });
                assert(m.has_block(from, block));
                lemma_read(m, runs, from, block);
                lemma_looked_up_fetch(m, runs, key, from, block, lookup(es, key));
                lemma_looked_up_from(after_read(m, runs, from, block), runs, key, from + 1);
            },
            TableStep::Unaddressable => {},
        }
    }
}

/// A lookup returns the value that the engine holds for the key and leaves the engine healthy.
proof fn lemma_looked_up(m: EngineModel, runs: Seq<Seq<Entry>>, key: Seq<u8>)
    requires
        healthy(m, runs),
    ensures
        ({
            let (after, found) = looked_up(m, runs, key, m.get(key));
            &&& found == Some(value(m, runs, key))
            &&& healthy(after, runs)
            &&& same_but_cache(after, m)
        }),
{
    lemma_resolve_add(m.buffers(), tables_of(runs), key);
    lemma_looked_up_from(m, runs, key, 0);
    assert(tables_of(runs).skip(0) =~= tables_of(runs));
}

/// Reading some blocks of a table gives what the table's file holds, and leaves the engine
/// healthy.
proof fn lemma_after_blocks(
    m: EngineModel,
    runs: Seq<Seq<Entry>>,
    table: int,
    first: int,
    last: int,
)
    requires
        healthy(m, runs),
        0 <= table < runs.len(),
        0 <= first,
        last <= m.tables[table].1.metas.len(),
    ensures
        healthy(after_blocks(m, runs, table, first, last), runs),
        same_but_cache(after_blocks(m, runs, table, first, last), m),
        blocks_read(m, runs, table, first, last) == decoded_range(runs[table], first, last),
    decreases last - first,
{
    let all = decoded_range(runs[table], first, last);
    if first < last {
        let after = after_read(m, runs, table, first);
        lemma_read(m, runs, table, first);
        lemma_after_blocks(after, runs, table, first + 1, last);
        assert(seq![all[0]] + decoded_range(runs[table], first + 1, last) =~= all);
    } else {
        assert(all =~= Seq::<Fetched>::empty());
    }
}

/// Some blocks of a table, as they stand in its file.
spec fn decoded_range(es: Seq<Entry>, first: int, last: int) -> Seq<Fetched> {
    Seq::new(
        if first < last {
            (last - first) as nat
        } else {
            0
        },
        |i: int| Ok::<BlockModel, LsmError>(decoded_blocks(es, bs())[first + i]),
    )
}

/// The entries of the range in each table from place `from` on.
spec fn ranges(
    runs: Seq<Seq<Entry>>,
    from: int,
    start: Option<Seq<u8>>,
    end: Option<Seq<u8>>,
) -> Seq<Seq<Item>> {
    Seq::new(runs.len(), |i: int| ok_items(restrict(runs[i], start, end))).skip(from)
}

/// A scan of one table reads the entries of its range, and leaves the engine healthy.
proof fn lemma_table_scan(
    m: EngineModel,
    runs: Seq<Seq<Entry>>,
    table: int,
    start: Option<Seq<u8>>,
    end: Option<Seq<u8>>,
)
    requires
        healthy(m, runs),
        0 <= table < runs.len(),
    ensures
        ({
            let (first, last) = m.tables[table].1.iter_range(start, end);
            let after = after_blocks(m, runs, table, first, last);
            &&& healthy(after, runs)
            &&& same_but_cache(after, m)
            &&& stream_of(blocks_read(m, runs, table, first, last), start, end) == Some(
                ok_items(restrict(runs[table], start, end)),
            )
        }),
{
    let es = runs[table];
    assert(table_fits(es, bs()) && m.tables[table].1 == table_model(es, bs()));
    lemma_range_bounds(es, bs(), start, end);
    let (first, last) = m.tables[table].1.iter_range(start, end);
    lemma_after_blocks(m, runs, table, first, last);
    law_table_range(es, bs(), start, end);
    assert(decoded_range(es, first, last) =~= range_blocks(es, bs(), start, end));
}

/// The entries of the range in a table, and in those behind it.
proof fn lemma_ranges_front(
    runs: Seq<Seq<Entry>>,
    from: int,
    start: Option<Seq<u8>>,
    end: Option<Seq<u8>>,
)
    requires
        0 <= from <= runs.len(),
    ensures
        from < runs.len() ==> ranges(runs, from, start, end) == seq![
            ok_items(restrict(runs[from], start, end)),
        ] + ranges(runs, from + 1, start, end),
        from == runs.len() ==> ranges(runs, from, start, end) == Seq::<Seq<Item>>::empty(),
{
    let all = ranges(runs, from, start, end);
    if from < runs.len() {
        assert(all =~= seq![ok_items(restrict(runs[from], start, end))] + ranges(
            runs,
            from + 1,
            start,
            end,
        ));
    } else {
        assert(all =~= Seq::<Seq<Item>>::empty());
    }
}

/// A scan reads the entries of its range in each table.
proof fn lemma_streams_read(
    m: EngineModel,
    runs: Seq<Seq<Entry>>,
    from: int,
    start: Option<Seq<u8>>,
    end: Option<Seq<u8>>,
)
    requires
        healthy(m, runs),
        0 <= from <= runs.len(),
    ensures
        streams_read(m, runs, from, start, end) == Some(ranges(runs, from, start, end)),
    decreases runs.len() - from,
{
    lemma_ranges_front(runs, from, start, end);
    if from < runs.len() {
        let (first, last) = m.tables[from].1.iter_range(start, end);
        let after = after_blocks(m, runs, from, first, last);
        lemma_table_scan(m, runs, from, start, end);
        lemma_streams_read(after, runs, from + 1, start, end);
    }
}

/// A scan reads the entries of its range in each table, and leaves the engine healthy.
proof fn lemma_after_scan(
    m: EngineModel,
    runs: Seq<Seq<Entry>>,
    from: int,
    start: Option<Seq<u8>>,
    end: Option<Seq<u8>>,
)
    requires
        healthy(m, runs),
        0 <= from <= runs.len(),
    ensures
        streams_read(m, runs, from, start, end) == Some(ranges(runs, from, start, end)),
        healthy(after_scan(m, runs, from, start, end), runs),
        same_but_cache(after_scan(m, runs, from, start, end), m),
    decreases runs.len() - from,
{
    lemma_streams_read(m, runs, from, start, end);
    if from < runs.len() {
        let (first, last) = m.tables[from].1.iter_range(start, end);
        let after = after_blocks(m, runs, from, first, last);
        lemma_table_scan(m, runs, from, start, end);
        lemma_after_scan(after, runs, from + 1, start, end);
    }
}

/// A change of the cache alone keeps every value.
proof fn lemma_cache_values(w: World, m: EngineModel)
    requires
        same_but_cache(m, w.m),
    ensures
        same_values(World { m, ..w }, w),
{
    assert(m.buffers() == w.m.buffers());
    assert forall|k: Seq<u8>|
        #![trigger value(m, w.runs, k)]
        #![trigger value(w.m, w.runs, k)]
        value(m, w.runs, k) == value(w.m, w.runs, k) by {
        assert(tiers(m, w.runs) == tiers(w.m, w.runs));
    }
}

/// Reopening gives back the same tables, the same log and the same write buffer.
proof fn lemma_reopened(
    w: World,
    found: Seq<OpenTable>,
    tail: Seq<u8>,
    max_memtable_size: usize,
    block_cache_capacity: usize,
)
    requires
        sound(w),
        distinct(found),
        same_tables(found, w.m.tables),
        unfinished(tail),
    ensures
        ({
            let op = Op::Reopen { found, tail, max_memtable_size, block_cache_capacity };
            let after = step(w, op);
            &&& sound(after)
            &&& same_values(after, w)
            &&& after.log == w.log
            &&& after.m.tables == w.m.tables
            &&& after.m == opened_model(w.log, found, max_memtable_size, block_cache_capacity)
        }),
{
    let m = opened_model(w.log, found, max_memtable_size, block_cache_capacity);
    lemma_sound_logged(w);
    law_reopen(w.m, w.runs, w.log, tail, found, m);
    assert(max_id(found) < u64::MAX) by {
        if found.len() > 0 {
            lemma_max_attained(found);
            let i = choose|i: int| 0 <= i < found.len() && (#[trigger] found[i]).0 == max_id(found);
            assert(found.contains(found[i]));
            assert(w.m.tables.contains(found[i]));
            let j = choose|j: int| 0 <= j < w.m.tables.len() && w.m.tables[j] == found[i];
            assert(w.m.tables[j].0 < w.m.next_sst_id);
        }
    }
    assert(backed(m, w.runs)) by {
        assert forall|i: int| 0 <= i < w.runs.len() implies table_fits(#[trigger] w.runs[i], bs())
            && m.tables[i].1 == table_model(w.runs[i], bs()) by {
            assert(w.m.tables[i].1 == table_model(w.runs[i], bs()));
        }
    }
    law_open_healthy(m, w.runs, found);
}

/// The value that an operation leaves for a key, given the one before it.
pub open spec fn value_after(op: Op, key: Seq<u8>, before: Option<Seq<u8>>) -> Option<Seq<u8>> {
    match op {
        Op::Put { key: k, value } => if k == key {
            Some(value)
        } else {
            before
        },
        Op::Delete { key: k } => if k == key {
            None
        } else {
            before
        },
        _ => before,
    }
}

/// What the last write of a key says, if there is one: the value that was put, and nothing
/// after a delete.
pub open spec fn last_write(ops: Seq<Op>, key: Seq<u8>) -> Option<Seq<u8>>
    decreases ops.len(),
{
    if ops.len() == 0 {
        None
    } else {
        value_after(ops.last(), key, last_write(ops.drop_last(), key))
    }
}

/// The engine and its files after a sequence of operations.
pub open spec fn reached(w: World, ops: Seq<Op>) -> World
    decreases ops.len(),
{
    if ops.len() == 0 {
        w
    } else {
        step(reached(w, ops.drop_last()), ops.last())
    }
}

/// Each operation is allowed where it comes.
pub open spec fn all_allowed(w: World, ops: Seq<Op>) -> bool
    decreases ops.len(),
{
    ops.len() == 0 || all_allowed(w, ops.drop_last()) && allowed(
        reached(w, ops.drop_last()),
        ops.last(),
    )
}

/// Any operation leaves the engine sound. A put and a delete change the value of their own
/// key; a flush, a compaction, a lookup, a scan and a restart change none. A lookup and a scan
/// change nothing but the cache.
pub proof fn law_step(w: World, op: Op)
    requires
        sound(w),
        allowed(w, op),
    ensures
        sound(step(w, op)),
        forall|k: Seq<u8>| #[trigger]
            value(step(w, op).m, step(w, op).runs, k) == value_after(
                op,
                k,
                value(w.m, w.runs, k),
            ),
        op is Get || op is Scan ==> step(w, op) == (World { m: step(w, op).m, ..w })
            && same_but_cache(step(w, op).m, w.m),
{
    match op {
        Op::Put { key, value } => {
            lemma_written(w, put_record(key, value));
        },
        Op::Delete { key } => {
            lemma_written(w, delete_record(key));
        },
        Op::Get { key } => {
            lemma_looked_up(w.m, w.runs, key);
            lemma_cache_values(w, step(w, op).m);
        },
        Op::Scan { start, end } => {
            lemma_after_scan(w.m, w.runs, 0, start, end);
            lemma_cache_values(w, step(w, op).m);
        },
        Op::Flush => {
            lemma_flushed(w);
        },
        Op::Compact => {
            lemma_merged(w);
        },
        Op::Reopen { found, tail, max_memtable_size, block_cache_capacity } => {
            lemma_reopened(w, found, tail, max_memtable_size, block_cache_capacity);
        },
    }
}

/// An engine in an empty directory is sound and holds nothing.
pub proof fn law_created(max_memtable_size: usize, block_cache_capacity: usize)
    ensures
        ({
            let w = created(max_memtable_size, block_cache_capacity);
            &&& sound(w)
            &&& forall|k: Seq<u8>| #[trigger] value(w.m, w.runs, k) is None
            &&& w.m.memtable_size == 0
            &&& w.m.tables.len() == 0
            &&& w.m.next_sst_id == 1
            &&& w.m.cache.len() == 0
            &&& w.m.max_memtable_size == max_memtable_size
        }),
{
    let w = created(max_memtable_size, block_cache_capacity);
    assert forall|k: Seq<u8>| #[trigger] value(w.m, w.runs, k) is None by {
        lemma_value_split(w.m, w.runs, k);
        assert(w.m.frozen.reverse() =~= Seq::<Table>::empty());
        assert(tables_of(w.runs) =~= Seq::<Table>::empty());
        assert(resolve(Seq::<Table>::empty(), k) is None);
    }
}

/// After any sequence of operations on an engine that began in an empty directory, the engine
/// is sound and in step with its log, and the value of every key is the one of its last
/// write, whatever flushes, compactions, reads and restarts came in between.
pub proof fn law_history(max_memtable_size: usize, block_cache_capacity: usize, ops: Seq<Op>)
    requires
        all_allowed(created(max_memtable_size, block_cache_capacity), ops),
    ensures
        ({
            let w = reached(created(max_memtable_size, block_cache_capacity), ops);
            &&& sound(w)
            &&& healthy(w.m, w.runs)
            &&& logged(w.m, w.runs, w.log)
            &&& forall|k: Seq<u8>| #[trigger] value(w.m, w.runs, k) == last_write(ops, k)
        }),
    decreases ops.len(),
{
    let start = created(max_memtable_size, block_cache_capacity);
    let w = reached(start, ops);
    if ops.len() == 0 {
        law_created(max_memtable_size, block_cache_capacity);
    } else {
        let before = reached(start, ops.drop_last());
        law_history(max_memtable_size, block_cache_capacity, ops.drop_last());
        law_step(before, ops.last());
        assert forall|k: Seq<u8>| #[trigger] value(w.m, w.runs, k) == last_write(ops, k) by {
            assert(value(before.m, before.runs, k) == last_write(ops.drop_last(), k));
        }
    }
    lemma_sound_logged(w);
}

/// After any sequence of operations, a lookup returns what the last write of the key says.
pub proof fn law_history_get(
    max_memtable_size: usize,
    block_cache_capacity: usize,
    ops: Seq<Op>,
    key: Seq<u8>,
)
    requires
        all_allowed(created(max_memtable_size, block_cache_capacity), ops),
    ensures
        ({
            let w = reached(created(max_memtable_size, block_cache_capacity), ops);
            looked_up(w.m, w.runs, key, w.m.get(key)).1 == Some(last_write(ops, key))
        }),
{
    let w = reached(created(max_memtable_size, block_cache_capacity), ops);
    law_history(max_memtable_size, block_cache_capacity, ops);
    lemma_looked_up(w.m, w.runs, key);
    assert(value(w.m, w.runs, key) == last_write(ops, key));
}

/// A pair is in a sorted list exactly when its key is looked up there with its value.
proof fn lemma_pair_contained(ps: Pairs, k: Seq<u8>, v: Seq<u8>)
    requires
        pairs_sorted(ps),
    ensures
        ps.contains((k, v)) <==> pair_lookup(ps, k) == Some(v),
    decreases ps.len(),
{
    if ps.len() > 0 {
        let rest = ps.skip(1);
        assert forall|i: int, j: int|
            #![trigger rest[i], rest[j]]
            0 <= i < j < rest.len() implies key_lt(rest[i].0, rest[j].0) by {
            assert(key_lt(ps[i + 1].0, ps[j + 1].0));
        }
        lemma_pair_contained(rest, k, v);
        lemma_key_irreflexive(k);
        if ps.contains((k, v)) {
            let i = choose|i: int| 0 <= i < ps.len() && ps[i] == (k, v);
            if i > 0 {
                assert(key_lt(ps[0].0, ps[i].0));
                assert(rest[i - 1] == (k, v));
            }
        }
        if rest.contains((k, v)) {
            let i = choose|i: int| 0 <= i < rest.len() && rest[i] == (k, v);
            assert(ps[i + 1] == (k, v));
            assert(key_lt(ps[0].0, ps[i + 1].0));
        }
        if ps[0] == (k, v) {
            assert(ps.contains((k, v)));
        }
    }
}

/// What a scan returns, with each block read through the cache. `None` when a block points
/// outside its own bytes.
pub open spec fn scanned(
    w: World,
    start: Option<Seq<u8>>,
    end: Option<Seq<u8>>,
) -> Option<std::result::Result<Pairs, LsmError>> {
    match streams_read(w.m, w.runs, 0, start, end) {
        Some(streams) => Some(scan_of(w.m, start, end, streams).collect()),
        None => None,
    }
}

/// A scan of a sound engine returns the keys of its range that have a value.
proof fn lemma_scanned(w: World, start: Option<Seq<u8>>, end: Option<Seq<u8>>)
    requires
        sound(w),
    ensures
        spelled(w.m.buffers()),
        scanned(w, start, end) matches Some(Ok(ps)) && pairs_sorted(ps) && forall|k: Seq<u8>|
            #[trigger]
            pair_lookup(ps, k) == if in_range(k, start, end) {
                value(w.m, w.runs, k)
            } else {
                None
            },
{
    lemma_replay_finite(w.log);
    assert(w.m.buffers() =~= seq![w.m.memtable]);
    assert forall|i: int| 0 <= i < w.runs.len() implies strictly_sorted(#[trigger] w.runs[i]) by {
        assert(table_fits(w.runs[i], bs()));
    }
    law_scan(w.m, w.runs, start, end);
    lemma_streams_read(w.m, w.runs, 0, start, end);
    assert(ranges(w.runs, 0, start, end) =~= Seq::new(
        w.runs.len(),
        |i: int| ok_items(restrict(w.runs[i], start, end)),
    ));
}

/// After any sequence of operations, a scan returns exactly the keys that are at or after its
/// start, if it has one, are before its end, if it has one, and have a value: each once, with
/// the value that its last write gave it, in ascending order of the keys.
pub proof fn law_history_scan(
    max_memtable_size: usize,
    block_cache_capacity: usize,
    ops: Seq<Op>,
    start: Option<Seq<u8>>,
    end: Option<Seq<u8>>,
)
    requires
        all_allowed(created(max_memtable_size, block_cache_capacity), ops),
    ensures
        ({
            let w = reached(created(max_memtable_size, block_cache_capacity), ops);
            &&& spelled(w.m.buffers())
            &&& scanned(w, start, end) matches Some(Ok(ps)) && pairs_sorted(ps) && (forall|
                k: Seq<u8>,
                v: Seq<u8>,
            | #[trigger]
                ps.contains((k, v)) <==> in_range(k, start, end) && last_write(ops, k) == Some(v))
                && (forall|i: int, j: int|
                0 <= i < j < ps.len() ==> key_lt((#[trigger] ps[i]).0, (#[trigger] ps[j]).0)) && (
            forall|k: Seq<u8>, v: Seq<u8>| #[trigger]
                ps.contains((k, v)) <==> {
                    &&& last_write(ops, k) == Some(v)
                    &&& start is None || start == Some(k) || key_lt(start->0, k)
                    &&& end is None || key_lt(k, end->0)
                })
        }),
{
    let w = reached(created(max_memtable_size, block_cache_capacity), ops);
    law_history(max_memtable_size, block_cache_capacity, ops);
    lemma_scanned(w, start, end);
    let ps = scanned(w, start, end)->0->Ok_0;
    assert forall|k: Seq<u8>, v: Seq<u8>| #[trigger] ps.contains((k, v)) <==> in_range(
        k,
        start,
        end,
    ) && last_write(ops, k) == Some(v) by {
        lemma_pair_contained(ps, k, v);
        assert(pair_lookup(ps, k) == if in_range(k, start, end) {
            value(w.m, w.runs, k)
        } else {
            None
        });
        assert(value(w.m, w.runs, k) == last_write(ops, k));
    }
    assert forall|k: Seq<u8>, v: Seq<u8>| #[trigger] ps.contains((k, v)) <==> {
        &&& last_write(ops, k) == Some(v)
        &&& start is None || start == Some(k) || key_lt(start->0, k)
        &&& end is None || key_lt(k, end->0)
    } by {
        law_in_range(k, start, end);
    }
}

/// Without its first pair a sorted list is sorted, and knows all but that pair's key.
proof fn lemma_pairs_skip(ps: Pairs)
    requires
        pairs_sorted(ps),
        ps.len() > 0,
    ensures
        pairs_sorted(ps.skip(1)),
        forall|k: Seq<u8>| #[trigger]
            pair_lookup(ps.skip(1), k) == if k == ps[0].0 {
                None
            } else {
                pair_lookup(ps, k)
            },
{
    let rest = ps.skip(1);
    assert forall|i: int, j: int|
        #![trigger rest[i], rest[j]]
        0 <= i < j < rest.len() implies key_lt(rest[i].0, rest[j].0) by {
        assert(key_lt(ps[i + 1].0, ps[j + 1].0));
    }
    assert forall|k: Seq<u8>| #[trigger] pair_lookup(rest, k) == if k == ps[0].0 {
        None
    } else {
        pair_lookup(ps, k)
    } by {
        if k == ps[0].0 && pair_lookup(rest, k) is Some {
            let v = pair_lookup(rest, k)->0;
            lemma_pair_contained(rest, k, v);
            let i = choose|i: int| 0 <= i < rest.len() && rest[i] == (k, v);
            assert(key_lt(ps[0].0, ps[i + 1].0));
            lemma_key_irreflexive(k);
        }
    }
}

/// Two sorted lists in which every key is looked up alike are the same list.
proof fn lemma_pairs_unique(a: Pairs, b: Pairs)
    requires
        pairs_sorted(a),
        pairs_sorted(b),
        forall|k: Seq<u8>| #[trigger] pair_lookup(a, k) == pair_lookup(b, k),
    ensures
        a == b,
    decreases a.len(),
{
    if a.len() == 0 {
        if b.len() > 0 {
            assert(pair_lookup(a, b[0].0) == pair_lookup(b, b[0].0));
        }
        assert(a =~= b);
    } else {
        let (k, v) = a[0];
        assert(pair_lookup(a, k) == pair_lookup(b, k));
        lemma_pair_contained(b, k, v);
        let j = choose|j: int| 0 <= j < b.len() && b[j] == (k, v);
        let (m, u) = b[0];
        assert(pair_lookup(a, m) == pair_lookup(b, m));
        lemma_pair_contained(a, m, u);
        let i = choose|i: int| 0 <= i < a.len() && a[i] == (m, u);
        if j > 0 {
            assert(key_lt(b[0].0, b[j].0));
            if i > 0 {
                assert(key_lt(a[0].0, a[i].0));
                lemma_key_transitive(k, m, k);
            }
            lemma_key_irreflexive(k);
        }
        lemma_pairs_skip(a);
        lemma_pairs_skip(b);
        assert forall|q: Seq<u8>| #[trigger]
            pair_lookup(a.skip(1), q) == pair_lookup(b.skip(1), q) by {
            assert(pair_lookup(a, q) == pair_lookup(b, q));
        }
        lemma_pairs_unique(a.skip(1), b.skip(1));
        assert(a =~= seq![a[0]] + a.skip(1));
        assert(b =~= seq![b[0]] + b.skip(1));
    }
}

/// What a scan returns is not changed by a flush, a compaction, a lookup, a scan or a restart.
pub proof fn law_scan_kept(w: World, op: Op, start: Option<Seq<u8>>, end: Option<Seq<u8>>)
    requires
        sound(w),
        allowed(w, op),
        op !is Put,
        op !is Delete,
    ensures
        scanned(w, start, end) matches Some(Ok(_)),
        scanned(step(w, op), start, end) == scanned(w, start, end),
{
    let after = step(w, op);
    law_step(w, op);
    lemma_scanned(w, start, end);
    lemma_scanned(after, start, end);
    let a = scanned(w, start, end)->0->Ok_0;
    let b = scanned(after, start, end)->0->Ok_0;
    assert forall|k: Seq<u8>| #[trigger] pair_lookup(a, k) == pair_lookup(b, k) by {
        assert(value(after.m, after.runs, k) == value(w.m, w.runs, k));
    }
    lemma_pairs_unique(a, b);
}

/// A write makes the write buffer grow by the key, the value and the overhead of a node. When
/// the threshold is reached, the buffer becomes one more table and is empty; otherwise the
/// tables stay. So after each write the buffer is below its threshold.
pub proof fn law_write_threshold(w: World, r: WalRecord)
    requires
        sound(w),
        write_allowed(w, r),
        w.m.max_memtable_size >= 1,
    ensures
        ({
            let z = grown(w.m.memtable_size, r);
            let after = written(w, r).m;
            &&& value(after, written(w, r).runs, r.key) == r.value
            &&& z >= w.m.max_memtable_size ==> after.memtable_size == 0 && after.tables.len()
                == w.m.tables.len() + 1
            &&& z < w.m.max_memtable_size ==> after.memtable_size == z && after.tables
                == w.m.tables
            &&& after.memtable_size < after.max_memtable_size
        }),
{
    lemma_written(w, r);
    lemma_committed(w, r);
    law_buffer_size(committed(w, r));
}

/// A flush empties the write buffer and the log. Where the buffer held anything, there is one
/// table more, whose number is larger than that of every other.
pub proof fn law_flush_count(w: World)
    requires
        sound(w),
        flush_allowed(w),
    ensures
        ({
            let after = flushed(w);
            &&& same_values(after, w)
            &&& after.m.memtable_size == 0
            &&& after.log == Seq::<WalRecord>::empty()
            &&& w.m.memtable_size == 0 ==> after.m.tables == w.m.tables
            &&& w.m.memtable_size > 0 ==> after.m.tables.len() == w.m.tables.len() + 1
            &&& w.m.memtable_size > 0 ==> after.m.tables[0].0 == w.m.next_sst_id
                && after.m.next_sst_id == w.m.next_sst_id + 1
            &&& w.m.memtable_size > 0 ==> after.m.tables.skip(1) == w.m.tables
            &&& w.m.memtable_size > 0 ==> forall|i: int|
                0 < i < after.m.tables.len() ==> (#[trigger] after.m.tables[i]).0
                    < after.m.tables[0].0
        }),
{
    law_buffer_size(w);
    lemma_replay_finite(w.log);
    lemma_flushed(w);
    if w.m.memtable_size == 0 {
        assert(w.log =~= Seq::<WalRecord>::empty());
    } else {
        let after = flushed(w);
        assert(descending(after.m.tables));
        assert(after.m.tables.skip(1) =~= w.m.tables);
    }
}

/// A compaction leaves the write buffer alone and at most one table. Where there were two or
/// more, the one that is left has each key once and no tombstone.
pub proof fn law_compact_count(w: World)
    requires
        sound(w),
        compact_allowed(w),
    ensures
        ({
            let after = merged(w);
            &&& same_values(after, w)
            &&& after.m.memtable == w.m.memtable
            &&& after.m.memtable_size == w.m.memtable_size
            &&& after.m.tables.len() == if w.m.tables.len() < 1 {
                0nat
            } else {
                1nat
            }
            &&& w.m.tables.len() > 1 ==> strictly_sorted(after.runs[0]) && forall|i: int|
                0 <= i < after.runs[0].len() ==> (#[trigger] after.runs[0][i]).1 is Some
        }),
{
    lemma_merged(w);
    let t = compacted(w.runs, true);
    let es = run_of(t);
    assert forall|i: int| 0 <= i < es.len() implies (#[trigger] es[i]).1 is Some by {
        lemma_lookup_finds(es, i);
        assert(lookup(es, es[i].0) == table_get(t, es[i].0));
    }
}

/// Reopening an engine with any sizes gives back its tables, its write buffer and its log. The
/// cache starts empty, with room for at least one block.
pub proof fn law_reopen_sizes(
    w: World,
    found: Seq<OpenTable>,
    tail: Seq<u8>,
    max_memtable_size: usize,
    block_cache_capacity: usize,
)
    requires
        sound(w),
        distinct(found),
        same_tables(found, w.m.tables),
        unfinished(tail),
    ensures
        ({
            let op = Op::Reopen { found, tail, max_memtable_size, block_cache_capacity };
            let after = step(w, op);
            &&& same_values(after, w)
            &&& after.log == w.log
            &&& after.runs == w.runs
            &&& after.m.tables == w.m.tables
            &&& after.m.memtable == w.m.memtable
            &&& after.m.memtable_size == w.m.memtable_size
            &&& after.m.max_memtable_size == max_memtable_size
            &&& after.m.cache.len() == 0
            &&& after.m.cache_capacity == if block_cache_capacity < 1 {
                1
            } else {
                block_cache_capacity
            }
        }),
{
    lemma_reopened(w, found, tail, max_memtable_size, block_cache_capacity);
}

/// The entries of the write buffer take no more room than the writes that made them.
proof fn lemma_buffer_weight(log: Seq<WalRecord>)
    requires
        forall|i: int| 0 <= i < log.len() ==> (#[trigger] log[i]).fits(),
    ensures
        weight(run_of(replay(log))) <= logged_size(log),
    decreases log.len(),
{
    lemma_replay_finite(log);
    if log.len() == 0 {
        let es = run_of(replay(log));
        if es.len() > 0 {
            lemma_lookup_finds(es, 0);
            assert(lookup(es, es[0].0) == table_get(replay(log), es[0].0));
        }
    } else {
        let front = log.drop_last();
        let r = log.last();
        assert forall|i: int| 0 <= i < front.len() implies (#[trigger] front[i]).fits() by {
            assert(log[i].fits());
        }
        assert(log[log.len() - 1].fits());
        lemma_buffer_weight(front);
        lemma_replay_finite(front);
        lemma_weight_insert(replay(front), r.key, r.value);
    }
}

/// A flush leaves a write buffer that is as large as its writes.
proof fn lemma_measured_flush(w: World)
    requires
        sound(w),
        measured(w),
    ensures
        measured(flushed(w)),
{
    lemma_replay_finite(w.log);
}

/// A write leaves a write buffer that is as large as its writes.
proof fn lemma_measured_write(w: World, r: WalRecord)
    requires
        sound(w),
        measured(w),
        write_allowed(w, r),
    ensures
        measured(committed(w, r)),
        measured(written(w, r)),
{
    let c = committed(w, r);
    lemma_committed(w, r);
    assert(c.log.drop_last() =~= w.log);
    lemma_measured_flush(c);
}

/// Whatever an engine does, the size of its write buffer stays the one of the writes that it
/// has logged since the last flush: for each the lengths of its key and of its value, and 64.
pub proof fn law_measured_step(w: World, op: Op)
    requires
        sound(w),
        measured(w),
        allowed(w, op),
    ensures
        measured(step(w, op)),
{
    match op {
        Op::Put { key, value } => {
            lemma_measured_write(w, put_record(key, value));
        },
        Op::Delete { key } => {
            lemma_measured_write(w, delete_record(key));
        },
        Op::Flush => {
            lemma_measured_flush(w);
        },
        Op::Reopen { found, tail, max_memtable_size, block_cache_capacity } => {
            lemma_reopened(w, found, tail, max_memtable_size, block_cache_capacity);
        },
        _ => {
            law_step(w, op);
        },
    }
}

/// After any sequence of operations on an engine that began in an empty directory, the size of
/// its write buffer is the one of the writes that it has logged since the last flush.
pub proof fn law_measured(max_memtable_size: usize, block_cache_capacity: usize, ops: Seq<Op>)
    requires
        all_allowed(created(max_memtable_size, block_cache_capacity), ops),
    ensures
        measured(reached(created(max_memtable_size, block_cache_capacity), ops)),
    decreases ops.len(),
{
    let start = created(max_memtable_size, block_cache_capacity);
    if ops.len() > 0 {
        law_measured(max_memtable_size, block_cache_capacity, ops.drop_last());
        law_history(max_memtable_size, block_cache_capacity, ops.drop_last());
        law_measured_step(reached(start, ops.drop_last()), ops.last());
    }
}

/// A write buffer of up to two gigabytes can be flushed, as long as a number is left for its
/// table.
pub proof fn law_flush_possible(w: World)
    requires
        sound(w),
        measured(w),
        w.m.memtable_size <= 0x8000_0000,
        w.m.next_sst_id < u64::MAX,
    ensures
        flush_allowed(w),
        allowed(w, Op::Flush),
{
    lemma_buffer_weight(w.log);
    law_table_sized(run_of(w.m.memtable), bs());
}

/// A key of up to 65,535 bytes can be put with any value, and can be deleted, as long as the
/// write buffer stays within two gigabytes and a number is left for its table.
pub proof fn law_write_possible(w: World, key: Seq<u8>, value: Seq<u8>)
    requires
        sound(w),
        measured(w),
        key.len() <= 65535,
        w.m.memtable_size + key.len() + value.len() + 64 <= 0x8000_0000,
        w.m.next_sst_id < u64::MAX,
    ensures
        allowed(w, (Op::Put { key, value })),
        allowed(w, (Op::Delete { key })),
{
    assert(usize::MAX >= 0xffff_ffff);
    let (put, delete) = (put_record(key, value), delete_record(key));
    lemma_committed(w, put);
    lemma_committed(w, delete);
    assert(committed(w, put).log.drop_last() =~= w.log);
    assert(committed(w, delete).log.drop_last() =~= w.log);
    law_flush_possible(committed(w, put));
    law_flush_possible(committed(w, delete));
}

/// Tables of up to two gigabytes together can be compacted, as long as a number is left for the
/// table that is made of them.
pub proof fn law_compact_possible(w: World)
    requires
        sound(w),
        total_weight(w.runs) <= 0x8000_0000,
        w.m.next_sst_id < u64::MAX,
    ensures
        allowed(w, Op::Compact),
{
    law_compaction_weight(w.runs);
    law_table_sized(run_of(compacted(w.runs, true)), bs());
}

/// A lookup and a scan are always possible, and so is reopening with the engine's own tables in
/// any order, behind whose log nothing, a part of a record or a damaged one was left.
pub proof fn law_reads_possible(
    w: World,
    key: Seq<u8>,
    start: Option<Seq<u8>>,
    end: Option<Seq<u8>>,
    max_memtable_size: usize,
    block_cache_capacity: usize,
)
    requires
        sound(w),
    ensures
        allowed(w, (Op::Get { key })),
        allowed(w, (Op::Scan { start, end })),
        allowed(
            w,
            (Op::Reopen {
                found: w.m.tables,
                tail: Seq::empty(),
                max_memtable_size,
                block_cache_capacity,
            }),
        ),
{
    assert(descending(w.m.tables));
    assert forall|i: int, j: int| 0 <= i < j < w.m.tables.len() implies (
    #[trigger] w.m.tables[i]).0 != (#[trigger] w.m.tables[j]).0 by {
        assert(w.m.tables[i].0 > w.m.tables[j].0);
    }
    assert(wal_scan(Seq::<u8>::empty()).records =~= Seq::<WalRecord>::empty());
}

} // verus!
