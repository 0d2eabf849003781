//! What the engine guarantees: what a read gives back of a write, whatever happens to the
//! data in between.
use crate::codec::lemma_be_len;
use crate::compaction::{compacted, law_compaction_bottom, lemma_single};
use crate::engine::{
    apply, insert_newest_first, max_id, newest_first, next_id, opened, opened_model, replay,
    replay_size, scan_of, spelled, EngineModel, LookupModel, LsmEngine, OpenTable,
};
use crate::entry::{
    in_range, is_run_of, law_in_range, lemma_resolve_add, lemma_resolve_first, lemma_resolve_none,
    lemma_resolve_same, lemma_restrict_sorted, lemma_table_get, live, lookup, pair_lookup,
    pairs_sorted, resolve, restrict, run_of, strictly_sorted, table_get, table_of, tables_of, Entry,
    Table,
};
use crate::error::{LsmError, Result};
use crate::iterator::{law_merge, merge_of, ok_items, MergeState};
use crate::key::key_lt;
use crate::sstable::block::{block_fault, block_image, block_of, entry_encodable, BlockModel, Probe};
use crate::sstable::builder::{chunks, table_image, DEFAULT_BLOCK_SIZE};
use crate::sstable::cache::{after_get, after_insert, is_cached, place, BlockKey, Cached};
use crate::sstable::chunks::{law_block_bytes, law_blocks_filled};
use crate::sstable::reader::{
    block_bytes, law_table_blocks, law_table_lookup, law_table_places, table_fits, table_model,
    TableStep,
};
use crate::sstable::stream::decoded_blocks;
use crate::wal::{law_wal_recovers, unfinished, wal_image, wal_recover, WalEnd, WalOp, WalRecord};
use vstd::prelude::*;

verus! {

/// The size of the blocks that the engine writes.
pub open spec fn bs() -> nat {
    DEFAULT_BLOCK_SIZE as nat
}

/// The engine's tables are those of the given runs of entries.
pub open spec fn backed(m: EngineModel, runs: Seq<Seq<Entry>>) -> bool {
    &&& m.tables.len() == runs.len()
    &&& forall|i: int|
        0 <= i < runs.len() ==> table_fits(#[trigger] runs[i], bs()) && m.tables[i].1
            == table_model(runs[i], bs())
}

/// Everything that the engine holds, from the newest to the oldest.
pub open spec fn tiers(m: EngineModel, runs: Seq<Seq<Entry>>) -> Seq<Table> {
    m.buffers() + tables_of(runs)
}

/// The value that the engine holds for a key: what the newest tier that knows the key says.
pub open spec fn value(m: EngineModel, runs: Seq<Seq<Entry>>, key: Seq<u8>) -> Option<Seq<u8>> {
    live(resolve(tiers(m, runs), key))
}

/// How much of the tables is left for a lookup to search.
pub open spec fn tables_left(m: EngineModel, step: LookupModel) -> nat {
    match step {
        LookupModel::Fetch { table, block } => if table < m.tables.len() {
            (m.tables.len() - table) as nat
        } else {
            0
        },
        _ => 0,
    }
}

/// What a lookup comes to in the end, when each block that it needs is read from the table
/// that holds the given entries. `None` when it meets something that cannot be searched.
pub open spec fn answer(
    m: EngineModel,
    runs: Seq<Seq<Entry>>,
    key: Seq<u8>,
    step: LookupModel,
) -> Option<Option<Seq<u8>>>
    decreases tables_left(m, step),
{
    match step {
        LookupModel::Done(v) => Some(v),
        LookupModel::Corrupt => None,
        LookupModel::Fetch { table, block } => if table < 0 || table >= m.tables.len() {
            None
        } else {
            let next = m.resume(key, table, decoded_blocks(runs[table], bs())[block]);
            proof {
                lemma_search_forward(m, key, table + 1);
            }
            answer(m, runs, key, next)
        },
    }
}

/// A search goes on to tables at or behind its start.
pub proof fn lemma_search_forward(m: EngineModel, key: Seq<u8>, from: int)
    ensures
        m.search(key, from) matches LookupModel::Fetch { table, block } ==> from <= table
            < m.tables.len(),
    decreases m.tables.len() - from,
{
    if from < m.tables.len() {
        lemma_search_forward(m, key, from + 1);
    }
}

/// A lookup in one table, with the block that it needs read from the table's file.
pub proof fn lemma_table_step(es: Seq<Entry>, key: Seq<u8>)
    requires
        table_fits(es, bs()),
    ensures
        match table_model(es, bs()).get(key) {
            TableStep::Unaddressable => false,
            TableStep::Absent => lookup(es, key) is None,
            TableStep::Read(i) => i < table_model(es, bs()).metas.len() && decoded_blocks(
                es,
                bs(),
            )[i as int].probe(key) == match lookup(es, key) {
                Some(v) => Probe::Found(v),
                None => Probe::Missing,
            },
        },
{
    law_table_lookup(es, bs(), key);
}

/// A lookup in the tables from place `from` on finds what the newest of them that knows the
/// key says.
proof fn lemma_answer_from(m: EngineModel, runs: Seq<Seq<Entry>>, key: Seq<u8>, from: int)
    requires
        backed(m, runs),
        0 <= from <= runs.len(),
    ensures
        answer(m, runs, key, m.search(key, from)) == Some(
            live(resolve(tables_of(runs).skip(from), key)),
        ),
    decreases runs.len() - from,
{
    let ts = tables_of(runs);
    if from == runs.len() {
        assert(ts.skip(from) =~= Seq::<Table>::empty());
        assert(resolve(ts.skip(from), key) is None);
    } else {
        let es = runs[from];
        assert(table_fits(es, bs()) && m.tables[from].1 == table_model(es, bs()));
        lemma_table_step(es, key);
        lemma_answer_from(m, runs, key, from + 1);
        lemma_resolve_next(runs, key, from);
        lemma_answer_step(m, runs, key, from, lookup(es, key));
    }
}

/// What the tables from place `from` on say of a key: what the first of them says, or else
/// what the others say.
pub proof fn lemma_resolve_next(runs: Seq<Seq<Entry>>, key: Seq<u8>, from: int)
    requires
        0 <= from < runs.len(),
    ensures
        resolve(tables_of(runs).skip(from), key) == match lookup(runs[from], key) {
            Some(v) => Some(v),
            None => resolve(tables_of(runs).skip(from + 1), key),
        },
{
    let ts = tables_of(runs);
    lemma_table_get(runs[from], key);
    assert(ts.skip(from)[0] == table_of(runs[from]));
    assert(ts.skip(from).skip(1) =~= ts.skip(from + 1));
}

/// One table more: what it says, or else what the tables behind it say.
proof fn lemma_answer_step(
    m: EngineModel,
    runs: Seq<Seq<Entry>>,
    key: Seq<u8>,
    from: int,
    said: Option<Option<Seq<u8>>>,
)
    requires
        0 <= from < m.tables.len(),
        match m.tables[from].1.get(key) {
            TableStep::Unaddressable => false,
            TableStep::Absent => said is None,
            TableStep::Read(i) => decoded_blocks(runs[from], bs())[i as int].probe(key)
                == match said {
                Some(v) => Probe::Found(v),
                None => Probe::Missing,
            },
        },
    ensures
        answer(m, runs, key, m.search(key, from)) == match said {
            Some(v) => Some(v),
            None => answer(m, runs, key, m.search(key, from + 1)),
        },
{
    if let TableStep::Read(i) = m.tables[from].1.get(key) {
        let block = decoded_blocks(runs[from], bs())[i as int];
        let step = LookupModel::Fetch { table: from, block: i as int };
        assert(m.search(key, from) == step);
        lemma_answer_fetch(m, runs, key, from, i as int, block, block.probe(key));
    }
}

/// A lookup that needs a block goes on with what is found in it.
proof fn lemma_answer_fetch(
    m: EngineModel,
    runs: Seq<Seq<Entry>>,
    key: Seq<u8>,
    table: int,
    block: int,
    model: BlockModel,
    found: Probe,
)
    requires
        0 <= table < m.tables.len(),
        model == decoded_blocks(runs[table], bs())[block],
        model.probe(key) == found,
    ensures
        answer(m, runs, key, LookupModel::Fetch { table, block }) == match found {
            Probe::Found(v) => Some(v),
            Probe::Missing => answer(m, runs, key, m.search(key, table + 1)),
            Probe::OutOfBounds => None,
        },
{
    lemma_search_forward(m, key, table + 1);
    let next = m.resume(key, table, model);
    assert(answer(m, runs, key, LookupModel::Fetch { table, block }) == answer(
        m,
        runs,
        key,
        next,
    ));
}

/// A lookup returns the value that the engine holds for the key: in the newest tier that
/// knows the key, be it a write buffer or a table, through the filter, the index and the
/// block that it reads.
pub proof fn law_get(m: EngineModel, runs: Seq<Seq<Entry>>, key: Seq<u8>)
    requires
        backed(m, runs),
    ensures
        answer(m, runs, key, m.get(key)) == Some(value(m, runs, key)),
{
    lemma_resolve_add(m.buffers(), tables_of(runs), key);
    lemma_answer_from(m, runs, key, 0);
    assert(tables_of(runs).skip(0) =~= tables_of(runs));
}

/// The tables are those of the given runs and are ordered by their numbers, all of them used
/// up, and the cache speaks of used-up numbers only and holds the blocks that the files hold.
pub open spec fn healthy(m: EngineModel, runs: Seq<Seq<Entry>>) -> bool {
    &&& backed(m, runs)
    &&& 1 <= m.cache_capacity
    &&& descending(m.tables)
    &&& forall|i: int| 0 <= i < m.tables.len() ==> (#[trigger] m.tables[i]).0 < m.next_sst_id
    &&& forall|i: int|
        0 <= i < m.cache.len() ==> (#[trigger] m.cache[i]).0.sst_id < m.next_sst_id
    &&& forall|i: int| 0 <= i < m.cache.len() ==> true_block(m, runs, #[trigger] m.cache[i])
}

/// What is cached for a block is what the block's file holds.
pub open spec fn true_block(
    m: EngineModel,
    runs: Seq<Seq<Entry>>,
    c: (BlockKey, BlockModel),
) -> bool {
    forall|t: int, b: int|
        m.has_block(t, b) && #[trigger] m.block_key(t, b) == c.0 ==> c.1 == decoded_blocks(
            runs[t],
            bs(),
        )[b]
}

/// Blocks stand one behind the other, so no two of a table start at the same place.
proof fn lemma_offsets(es: Seq<Entry>, a: int, b: int)
    requires
        table_fits(es, bs()),
        0 <= a < b < chunks(es, bs()).len(),
    ensures
        table_model(es, bs()).metas[a].offset < table_model(es, bs()).metas[b].offset,
    decreases b - a,
{
    let cs = chunks(es, bs());
    assert(cs.take(b).drop_last() =~= cs.take(b - 1));
    assert(cs.take(b).last() == cs[b - 1]);
    lemma_be_len(cs[b - 1].len(), 2);
    if a < b - 1 {
        lemma_offsets(es, a, b - 1);
    }
}

/// Two blocks with the same name in the cache are the same block.
proof fn lemma_block_keys(m: EngineModel, runs: Seq<Seq<Entry>>, t: int, b: int, u: int, c: int)
    requires
        healthy(m, runs),
        m.has_block(t, b),
        m.has_block(u, c),
        m.block_key(t, b) == m.block_key(u, c),
    ensures
        t == u,
        b == c,
{
    if t < u {
        assert(m.tables[t].0 > m.tables[u].0);
    } else if u < t {
        assert(m.tables[u].0 > m.tables[t].0);
    }
    let es = runs[t];
    assert(table_fits(es, bs()));
    law_table_blocks(es, bs(), b);
    law_table_blocks(es, bs(), c);
    if b < c {
        lemma_offsets(es, b, c);
    } else if c < b {
        lemma_offsets(es, c, b);
    }
}

/// A block that the cache hands out is the one that stands in the file, and handing it out
/// leaves the engine healthy.
pub proof fn law_fetch(m: EngineModel, runs: Seq<Seq<Entry>>, table: int, block: int)
    requires
        healthy(m, runs),
        m.has_block(table, block),
    ensures
        ({
            let key = m.block_key(table, block);
            let after = EngineModel { cache: after_get(m.cache, key), ..m };
            &&& is_cached(m.cache, key) ==> m.cache[place(m.cache, key)].1 == decoded_blocks(
                runs[table],
                bs(),
            )[block]
            &&& healthy(after, runs)
            &&& forall|k: Seq<u8>| #[trigger] value(after, runs, k) == value(m, runs, k)
        }),
{
    let key = m.block_key(table, block);
    let after = EngineModel { cache: after_get(m.cache, key), ..m };
    if is_cached(m.cache, key) {
        let p = place(m.cache, key);
        assert(0 <= p < m.cache.len() && m.cache[p].0 == key);
        assert(true_block(m, runs, m.cache[p]));
        assert forall|i: int| 0 <= i < after.cache.len() implies (
        #[trigger] after.cache[i]).0.sst_id < after.next_sst_id && true_block(
            after,
            runs,
            after.cache[i],
        ) by {
            let j = if i == 0 {
                p
            } else if i - 1 < p {
                i - 1
            } else {
                i
            };
            assert(after.cache[i] == m.cache[j]);
            assert(true_block(m, runs, m.cache[j]));
            lemma_true_block_kept(m, after, runs, m.cache[j]);
        }
    } else {
        assert forall|i: int| 0 <= i < after.cache.len() implies true_block(
            after,
            runs,
            #[trigger] after.cache[i],
        ) by {
            assert(true_block(m, runs, m.cache[i]));
            lemma_true_block_kept(m, after, runs, m.cache[i]);
        }
    }
}

/// A change that leaves the tables alone leaves cached blocks true.
proof fn lemma_true_block_kept(
    m: EngineModel,
    after: EngineModel,
    runs: Seq<Seq<Entry>>,
    c: (BlockKey, BlockModel),
)
    requires
        true_block(m, runs, c),
        after.tables == m.tables,
    ensures
        true_block(after, runs, c),
{
    assert forall|t: int, b: int|
        after.has_block(t, b) && #[trigger] after.block_key(t, b) == c.0 implies c.1
        == decoded_blocks(runs[t], bs())[b] by {
        assert(m.block_key(t, b) == c.0);
    }
}

/// A block that was read from its file decodes.
proof fn lemma_read_block(m: EngineModel, runs: Seq<Seq<Entry>>, table: int, block: int)
    requires
        backed(m, runs),
        m.has_block(table, block),
    ensures
        ({
            let bytes = block_bytes(
                table_image(runs[table], bs()),
                m.tables[table].1.metas[block],
            );
            &&& block_fault(bytes) is None
            &&& block_of(bytes) == decoded_blocks(runs[table], bs())[block]
        }),
{
    let es = runs[table];
    assert(table_fits(es, bs()));
    law_table_blocks(es, bs(), block);
}

/// Behind the block that was inserted stand blocks that were cached before.
proof fn lemma_inserted_rest(
    c: Cached,
    capacity: nat,
    key: BlockKey,
    block: BlockModel,
    i: int,
) -> (j: int)
    requires
        1 <= capacity,
        0 < i < after_insert(c, capacity, key, block).len(),
    ensures
        0 <= j < c.len(),
        after_insert(c, capacity, key, block)[i] == c[j],
{
    if is_cached(c, key) {
        let p = place(c, key);
        assert(0 <= p < c.len() && c[p].0 == key);
        if i - 1 < p {
            i - 1
        } else {
            i
        }
    } else {
        i - 1
    }
}

/// A block that was read from its file decodes, and caching it leaves the engine healthy.
pub proof fn law_supply(m: EngineModel, runs: Seq<Seq<Entry>>, table: int, block: int)
    requires
        healthy(m, runs),
        m.has_block(table, block),
    ensures
        ({
            let key = m.block_key(table, block);
            let bytes = block_bytes(
                table_image(runs[table], bs()),
                m.tables[table].1.metas[block],
            );
            let after = EngineModel {
                cache: after_insert(m.cache, m.cache_capacity as nat, key, block_of(bytes)),
                ..m
            };
            &&& block_fault(bytes) is None
            &&& block_of(bytes) == decoded_blocks(runs[table], bs())[block]
            &&& healthy(after, runs)
            &&& forall|k: Seq<u8>| #[trigger] value(after, runs, k) == value(m, runs, k)
        }),
{
    let key = m.block_key(table, block);
    let bytes = block_bytes(table_image(runs[table], bs()), m.tables[table].1.metas[block]);
    let model = block_of(bytes);
    lemma_read_block(m, runs, table, block);
    let after = EngineModel {
        cache: after_insert(m.cache, m.cache_capacity as nat, key, model),
        ..m
    };
    assert forall|i: int| 0 <= i < after.cache.len() implies (#[trigger] after.cache[i]).0.sst_id
        < after.next_sst_id && true_block(after, runs, after.cache[i]) by {
        if i == 0 {
            assert(after.cache[0] == (key, model));
            assert(m.tables[table].0 < m.next_sst_id);
            assert forall|t: int, b: int|
                after.has_block(t, b) && #[trigger] after.block_key(t, b) == key implies model
                == decoded_blocks(runs[t], bs())[b] by {
                assert(m.has_block(t, b) && m.block_key(t, b) == key);
                lemma_block_keys(m, runs, t, b, table, block);
            }
        } else {
            let j = lemma_inserted_rest(m.cache, m.cache_capacity as nat, key, model, i);
            assert(after.cache[i] == m.cache[j]);
            assert(true_block(m, runs, m.cache[j]));
            lemma_true_block_kept(m, after, runs, m.cache[j]);
        }
    }
}

/// The engine after a committed write.
pub open spec fn after_commit(m: EngineModel, r: WalRecord, size: int) -> EngineModel {
    EngineModel { memtable: apply(m.memtable, r), memtable_size: size, ..m }
}

/// A key that was put has the value that was put, a key that was deleted has none, whatever
/// older tiers say of it, and no other key is touched.
pub proof fn law_write_then_read(
    m: EngineModel,
    runs: Seq<Seq<Entry>>,
    r: WalRecord,
    size: int,
    key: Seq<u8>,
)
    requires
        r.fits(),
    ensures
        value(after_commit(m, r, size), runs, key) == if key == r.key {
            match r.op {
                WalOp::Put => r.value,
                WalOp::Delete => None,
            }
        } else {
            value(m, runs, key)
        },
        healthy(m, runs) ==> healthy(after_commit(m, r, size), runs),
{
    let after = after_commit(m, r, size);
    lemma_value_split(m, runs, key);
    lemma_value_split(after, runs, key);
    if healthy(m, runs) {
        assert forall|i: int| 0 <= i < after.cache.len() implies true_block(
            after,
            runs,
            #[trigger] after.cache[i],
        ) by {
            assert(true_block(m, runs, m.cache[i]));
            lemma_true_block_kept(m, after, runs, m.cache[i]);
        }
    }
}

/// What the engine holds for a key is what the active write buffer says, or else what the
/// frozen ones say, or else what the tables say.
pub proof fn lemma_value_split(m: EngineModel, runs: Seq<Seq<Entry>>, key: Seq<u8>)
    ensures
        resolve(tiers(m, runs), key) == match table_get(m.memtable, key) {
            Some(v) => Some(v),
            None => match resolve(m.frozen.reverse(), key) {
                Some(v) => Some(v),
                None => resolve(tables_of(runs), key),
            },
        },
{
    lemma_resolve_add(m.buffers(), tables_of(runs), key);
    lemma_resolve_add(seq![m.memtable], m.frozen.reverse(), key);
    lemma_single(m.memtable, key);
}

/// The engine after its write buffer was frozen.
pub open spec fn after_freeze(m: EngineModel) -> EngineModel {
    EngineModel {
        memtable: Table::empty(),
        memtable_size: 0,
        frozen: m.frozen.push(m.memtable),
        next_sst_id: next_id(m.next_sst_id),
        ..m
    }
}

/// The engine after the newest frozen write buffer became the table with the given number.
pub open spec fn after_flush(m: EngineModel, id: u64) -> EngineModel {
    EngineModel {
        frozen: m.frozen.drop_last(),
        tables: seq![(id, table_model(run_of(m.frozen.last()), bs()))] + m.tables,
        ..m
    }
}

/// Freezing the write buffer changes no value.
pub proof fn law_freeze(m: EngineModel, runs: Seq<Seq<Entry>>, key: Seq<u8>)
    ensures
        value(after_freeze(m), runs, key) == value(m, runs, key),
        healthy(m, runs) && m.next_sst_id < u64::MAX ==> healthy(after_freeze(m), runs),
{
    let after = after_freeze(m);
    lemma_value_split(m, runs, key);
    lemma_value_split(after, runs, key);
    let old_frozen = m.frozen.reverse();
    assert(after.frozen.reverse() =~= seq![m.memtable] + old_frozen);
    lemma_resolve_add(seq![m.memtable], old_frozen, key);
    lemma_single(m.memtable, key);
    if healthy(m, runs) && m.next_sst_id < u64::MAX {
        assert forall|i: int| 0 <= i < after.cache.len() implies (
        #[trigger] after.cache[i]).0.sst_id < after.next_sst_id && true_block(
            after,
            runs,
            after.cache[i],
        ) by {
            assert(m.cache[i].0.sst_id < m.next_sst_id);
            assert(true_block(m, runs, m.cache[i]));
            lemma_true_block_kept(m, after, runs, m.cache[i]);
        }
        assert forall|i: int| 0 <= i < after.tables.len() implies (#[trigger] after.tables[i]).0
            < after.next_sst_id by {
            assert(m.tables[i].0 < m.next_sst_id);
        }
    }
}

/// Turning the frozen write buffer into the newest table changes no value and leaves the
/// engine healthy. It is the only frozen one: where an earlier flush failed, its write buffer
/// is still frozen, and would then come before the newer table.
pub proof fn law_flush(m: EngineModel, runs: Seq<Seq<Entry>>, id: u64, key: Seq<u8>)
    requires
        m.frozen.len() == 1,
        is_run_of(run_of(m.frozen[0]), m.frozen[0]),
    ensures
        ({
            let es = run_of(m.frozen[0]);
            let after = after_flush(m, id);
            let new_runs = seq![es] + runs;
            &&& value(after, new_runs, key) == value(m, runs, key)
            &&& healthy(m, runs) && table_fits(es, bs()) && id < m.next_sst_id && newest(m, id)
                ==> healthy(after, new_runs)
        }),
{
    let es = run_of(m.frozen[0]);
    let after = after_flush(m, id);
    let new_runs = seq![es] + runs;
    lemma_value_split(m, runs, key);
    lemma_value_split(after, new_runs, key);
    assert(m.frozen.reverse() =~= seq![m.frozen[0]]);
    lemma_single(m.frozen[0], key);
    assert(after.frozen.reverse() =~= Seq::<Table>::empty());
    assert(resolve(after.frozen.reverse(), key) is None);
    assert(tables_of(new_runs) =~= seq![table_of(es)] + tables_of(runs));
    lemma_resolve_add(seq![table_of(es)], tables_of(runs), key);
    lemma_single(table_of(es), key);
    lemma_table_get(es, key);
    assert(lookup(es, key) == table_get(m.frozen[0], key));
    if healthy(m, runs) && table_fits(es, bs()) && id < m.next_sst_id && newest(m, id) {
        lemma_flush_healthy(m, runs, id);
    }
}

/// The number is larger than that of every table and every number that the cache speaks of.
pub open spec fn newest(m: EngineModel, id: u64) -> bool {
    &&& forall|i: int| 0 <= i < m.tables.len() ==> (#[trigger] m.tables[i]).0 < id
    &&& forall|i: int| 0 <= i < m.cache.len() ==> (#[trigger] m.cache[i]).0.sst_id < id
}

proof fn lemma_flush_healthy(m: EngineModel, runs: Seq<Seq<Entry>>, id: u64)
    requires
        m.frozen.len() == 1,
        healthy(m, runs),
        table_fits(run_of(m.frozen[0]), bs()),
        id < m.next_sst_id,
        newest(m, id),
    ensures
        healthy(after_flush(m, id), seq![run_of(m.frozen[0])] + runs),
{
    let es = run_of(m.frozen[0]);
    let after = after_flush(m, id);
    let new_runs = seq![es] + runs;
    assert forall|i: int| 0 <= i < new_runs.len() implies table_fits(#[trigger] new_runs[i], bs())
        && after.tables[i].1 == table_model(new_runs[i], bs()) by {
        if i > 0 {
            assert(new_runs[i] == runs[i - 1]);
            assert(after.tables[i] == m.tables[i - 1]);
        }
    }
    assert forall|i: int, j: int| 0 <= i < j < after.tables.len() implies (
    #[trigger] after.tables[i]).0 > (#[trigger] after.tables[j]).0 by {
        assert(after.tables[j] == m.tables[j - 1]);
        if i > 0 {
            assert(after.tables[i] == m.tables[i - 1]);
        }
    }
    assert forall|i: int| 0 <= i < after.tables.len() implies (#[trigger] after.tables[i]).0
        < after.next_sst_id by {
        if i > 0 {
            assert(after.tables[i] == m.tables[i - 1]);
        }
    }
    assert forall|i: int| 0 <= i < after.cache.len() implies true_block(
        after,
        new_runs,
        #[trigger] after.cache[i],
    ) by {
        let c = m.cache[i];
        assert(true_block(m, runs, c));
        assert forall|t: int, b: int|
            after.has_block(t, b) && #[trigger] after.block_key(t, b) == c.0 implies c.1
            == decoded_blocks(new_runs[t], bs())[b] by {
            if t == 0 {
                assert(c.0.sst_id < id);
            } else {
                assert(after.tables[t] == m.tables[t - 1]);
                assert(m.block_key(t - 1, b) == c.0);
                assert(new_runs[t] == runs[t - 1]);
            }
        }
    }
}

/// The number that the engine gives to a new table is larger than any in use.
pub proof fn law_fresh_id(m: EngineModel, runs: Seq<Seq<Entry>>)
    requires
        healthy(m, runs),
    ensures
        newest(m, m.next_sst_id),
{
}

/// The engine after all tables were compacted into the one with the given number.
pub open spec fn after_compact(m: EngineModel, runs: Seq<Seq<Entry>>, id: u64) -> EngineModel {
    EngineModel { tables: seq![(id, table_model(run_of(compacted(runs, true)), bs()))], ..m }
}

/// Compacting all tables into one changes no value, drops every tombstone from the tables,
/// and leaves the engine healthy.
pub proof fn law_compact(m: EngineModel, runs: Seq<Seq<Entry>>, id: u64, key: Seq<u8>)
    requires
        is_run_of(run_of(compacted(runs, true)), compacted(runs, true)),
    ensures
        ({
            let es = run_of(compacted(runs, true));
            let after = after_compact(m, runs, id);
            &&& value(after, seq![es], key) == value(m, runs, key)
            &&& lookup(es, key) != Some(None::<Seq<u8>>)
            &&& healthy(m, runs) && table_fits(es, bs()) && id < m.next_sst_id && newest(m, id)
                ==> healthy(after, seq![es])
        }),
{
    let t = compacted(runs, true);
    let es = run_of(t);
    let after = after_compact(m, runs, id);
    let one = seq![t];
    lemma_table_get(es, key);
    assert(lookup(es, key) == table_get(t, key));
    lemma_single(t, key);
    lemma_single(table_of(es), key);
    assert(tables_of(seq![es]) =~= seq![table_of(es)]);
    lemma_value_split(m, runs, key);
    lemma_value_split(after, seq![es], key);
    law_compaction_bottom(Seq::empty(), runs, key);
    assert(Seq::<Table>::empty() + one =~= one);
    assert(Seq::<Table>::empty() + tables_of(runs) =~= tables_of(runs));
    if healthy(m, runs) && table_fits(es, bs()) && id < m.next_sst_id && newest(m, id) {
        assert forall|i: int| 0 <= i < after.cache.len() implies true_block(
            after,
            seq![es],
            #[trigger] after.cache[i],
        ) by {
            assert(m.cache[i].0.sst_id < id);
        }
    }
}

/// A crash after a compaction, before all of the tables that it replaces are removed, changes
/// no value, as long as they are removed from the oldest to the newest: whatever part of them
/// is still there, the compacted table comes first.
pub proof fn law_compact_interrupted(runs: Seq<Seq<Entry>>, left: int, key: Seq<u8>)
    requires
        is_run_of(run_of(compacted(runs, true)), compacted(runs, true)),
        0 <= left <= runs.len(),
    ensures
        live(resolve(tables_of(seq![run_of(compacted(runs, true))] + runs.take(left)), key))
            == live(resolve(tables_of(runs), key)),
{
    let t = compacted(runs, true);
    let es = run_of(t);
    lemma_table_get(es, key);
    assert(lookup(es, key) == table_get(t, key));
    lemma_single(table_of(es), key);
    assert(tables_of(seq![es] + runs.take(left)) =~= seq![table_of(es)] + tables_of(
        runs.take(left),
    ));
    lemma_resolve_add(seq![table_of(es)], tables_of(runs.take(left)), key);
    assert(tables_of(runs) =~= tables_of(runs.take(left)) + tables_of(runs.skip(left)));
    lemma_resolve_add(tables_of(runs.take(left)), tables_of(runs.skip(left)), key);
}

/// The merge that a scan makes when every block that it needs can be read: the entries of
/// the range in each write buffer and each table.
pub open spec fn full_scan(
    m: EngineModel,
    runs: Seq<Seq<Entry>>,
    start: Option<Seq<u8>>,
    end: Option<Seq<u8>>,
) -> MergeState {
    scan_of(m, start, end, Seq::new(runs.len(), |i: int| ok_items(restrict(runs[i], start, end))))
}

/// A scan returns every key of the range that has a value, with the value that a lookup
/// returns for it, once and in the order of the keys, and nothing else.
pub proof fn law_scan(
    m: EngineModel,
    runs: Seq<Seq<Entry>>,
    start: Option<Seq<u8>>,
    end: Option<Seq<u8>>,
)
    requires
        spelled(m.buffers()),
        forall|i: int| 0 <= i < runs.len() ==> strictly_sorted(#[trigger] runs[i]),
    ensures
        full_scan(m, runs, start, end).collect() matches Ok(ps) && pairs_sorted(ps) && (forall|
            k: Seq<u8>,
        | #[trigger]
            pair_lookup(ps, k) == if in_range(k, start, end) {
                value(m, runs, k)
            } else {
                None
            }) && (forall|i: int, j: int|
            0 <= i < j < ps.len() ==> key_lt((#[trigger] ps[i]).0, (#[trigger] ps[j]).0)) && (
        forall|k: Seq<u8>| #[trigger]
            pair_lookup(ps, k) == if (start is None || start == Some(k) || key_lt(start->0, k)) && (
            end is None || key_lt(k, end->0)) {
                value(m, runs, k)
            } else {
                None
            }),
{
    let whole = Seq::new(m.buffers().len(), |i: int| run_of(m.buffers()[i])) + runs;
    let parts = Seq::new(whole.len(), |i: int| restrict(whole[i], start, end));
    assert forall|i: int| 0 <= i < whole.len() implies strictly_sorted(#[trigger] whole[i]) by {
        if i < m.buffers().len() {
            assert(is_run_of(run_of(m.buffers()[i]), m.buffers()[i]));
        } else {
            assert(whole[i] == runs[i - m.buffers().len()]);
        }
    }
    assert forall|i: int| 0 <= i < parts.len() implies strictly_sorted(#[trigger] parts[i]) by {
        assert(strictly_sorted(whole[i]));
        lemma_restrict_sorted(whole[i], start, end);
    }
    assert(full_scan(m, runs, start, end).rests =~= merge_of(parts).rests) by {
        let a = full_scan(m, runs, start, end).rests;
        let b = merge_of(parts).rests;
        assert forall|i: int| 0 <= i < a.len() implies a[i] == b[i] by {
            if i >= m.buffers().len() {
                assert(whole[i] == runs[i - m.buffers().len()]);
            }
        }
    }
    assert(full_scan(m, runs, start, end) == merge_of(parts));
    law_merge(parts);
    let ps = merge_of(parts).collect()->Ok_0;
    assert forall|k: Seq<u8>| #[trigger] pair_lookup(ps, k) == if in_range(k, start, end) {
        value(m, runs, k)
    } else {
        None
    } by {
        assert(pair_lookup(ps, k) == live(resolve(tables_of(parts), k)));
        lemma_parts_resolve(m, runs, whole, parts, start, end, k);
    }
    assert forall|k: Seq<u8>| #[trigger] pair_lookup(ps, k) == if (start is None || start == Some(k)
        || key_lt(start->0, k)) && (end is None || key_lt(k, end->0)) {
        value(m, runs, k)
    } else {
        None
    } by {
        law_in_range(k, start, end);
    }
}

/// Restricted tiers say of a key of the range what the tiers say, and nothing of another.
proof fn lemma_parts_resolve(
    m: EngineModel,
    runs: Seq<Seq<Entry>>,
    whole: Seq<Seq<Entry>>,
    parts: Seq<Seq<Entry>>,
    start: Option<Seq<u8>>,
    end: Option<Seq<u8>>,
    k: Seq<u8>,
)
    requires
        spelled(m.buffers()),
        whole == Seq::new(m.buffers().len(), |i: int| run_of(m.buffers()[i])) + runs,
        parts == Seq::new(whole.len(), |i: int| restrict(whole[i], start, end)),
        forall|i: int| 0 <= i < whole.len() ==> strictly_sorted(#[trigger] whole[i]),
    ensures
        resolve(tables_of(parts), k) == if in_range(k, start, end) {
            resolve(tiers(m, runs), k)
        } else {
            None
        },
{
    let n = m.buffers().len();
    let all = tiers(m, runs);
    let cut = tables_of(parts);
    assert forall|i: int| 0 <= i < whole.len() implies table_get(#[trigger] cut[i], k)
        == if in_range(k, start, end) {
        table_get(all[i], k)
    } else {
        None
    } by {
        assert(strictly_sorted(whole[i]));
        lemma_restrict_sorted(whole[i], start, end);
        lemma_table_get(parts[i], k);
        assert(lookup(restrict(whole[i], start, end), k) == if in_range(k, start, end) {
            lookup(whole[i], k)
        } else {
            None
        });
        if i < n {
            assert(is_run_of(run_of(m.buffers()[i]), m.buffers()[i]));
            assert(lookup(whole[i], k) == table_get(m.buffers()[i], k));
            assert(all[i] == m.buffers()[i]);
        } else {
            assert(whole[i] == runs[i - n]);
            assert(all[i] == table_of(runs[i - n]));
            lemma_table_get(runs[i - n], k);
        }
    }
    if in_range(k, start, end) {
        lemma_resolve_same(cut, all, k);
    } else {
        assert forall|i: int| 0 <= i < cut.len() implies !(#[trigger] cut[i]).contains_key(k) by {
            assert(table_get(cut[i], k) is None);
        }
        lemma_resolve_none(cut, k);
    }
}

/// The engine says of every key in the log what the last write of the key said, and its
/// write buffers hold logged writes only.
pub open spec fn logged(m: EngineModel, runs: Seq<Seq<Entry>>, log: Seq<WalRecord>) -> bool {
    &&& forall|k: Seq<u8>| #[trigger]
        replay(log).contains_key(k) ==> value(m, runs, k) == replay(log)[k]
    &&& forall|k: Seq<u8>| #[trigger]
        resolve(m.buffers(), k) is Some ==> replay(log).contains_key(k)
}

/// Every entry that a log of writes that fit leaves in the write buffer can be spelled in a
/// table.
pub proof fn law_log_encodable(log: Seq<WalRecord>, key: Seq<u8>)
    requires
        forall|i: int| 0 <= i < log.len() ==> (#[trigger] log[i]).fits(),
    ensures
        replay(log).contains_key(key) ==> entry_encodable((key, replay(log)[key])),
    decreases log.len(),
{
    if log.len() > 0 {
        let front = log.drop_last();
        assert forall|i: int| 0 <= i < front.len() implies (#[trigger] front[i]).fits() by {
            assert(log[i].fits());
        }
        law_log_encodable(front, key);
        assert(log[log.len() - 1].fits());
    }
}

/// A write that is logged and then committed keeps the engine and its log in step.
pub proof fn law_logged_commit(
    m: EngineModel,
    runs: Seq<Seq<Entry>>,
    log: Seq<WalRecord>,
    r: WalRecord,
    size: int,
)
    requires
        logged(m, runs, log),
        r.fits(),
    ensures
        logged(after_commit(m, r, size), runs, log.push(r)),
{
    let after = after_commit(m, r, size);
    assert(log.push(r).drop_last() =~= log);
    let now = replay(log.push(r));
    assert forall|k: Seq<u8>| #[trigger] now.contains_key(k) implies value(after, runs, k)
        == now[k] by {
        law_write_then_read(m, runs, r, size, k);
        if k != r.key {
            assert(replay(log).contains_key(k));
        }
    }
    assert forall|k: Seq<u8>| #[trigger]
        resolve(after.buffers(), k) is Some implies now.contains_key(k) by {
        lemma_resolve_add(seq![m.memtable], m.frozen.reverse(), k);
        lemma_single(m.memtable, k);
        lemma_resolve_add(seq![after.memtable], after.frozen.reverse(), k);
        lemma_single(after.memtable, k);
        if k != r.key {
            assert(resolve(m.buffers(), k) is Some);
        }
    }
}

/// A change that keeps every value, and lets write buffers at most lose keys, keeps the
/// engine in step with its log.
proof fn lemma_logged_kept(
    m: EngineModel,
    runs: Seq<Seq<Entry>>,
    after: EngineModel,
    new_runs: Seq<Seq<Entry>>,
    log: Seq<WalRecord>,
)
    requires
        logged(m, runs, log),
        forall|k: Seq<u8>| #[trigger] value(after, new_runs, k) == value(m, runs, k),
        forall|k: Seq<u8>| #[trigger]
            resolve(after.buffers(), k) is Some ==> resolve(m.buffers(), k) is Some,
    ensures
        logged(after, new_runs, log),
{
    assert forall|k: Seq<u8>| #[trigger] replay(log).contains_key(k) implies value(
        after,
        new_runs,
        k,
    ) == replay(log)[k] by {
        assert(value(m, runs, k) == replay(log)[k]);
    }
}

/// Freezing the write buffer keeps the engine in step with its log.
pub proof fn law_logged_freeze(m: EngineModel, runs: Seq<Seq<Entry>>, log: Seq<WalRecord>)
    requires
        logged(m, runs, log),
    ensures
        logged(after_freeze(m), runs, log),
{
    let after = after_freeze(m);
    assert forall|k: Seq<u8>| #[trigger] value(after, runs, k) == value(m, runs, k) by {
        law_freeze(m, runs, k);
    }
    assert forall|k: Seq<u8>| #[trigger] resolve(after.buffers(), k) is Some implies resolve(
        m.buffers(),
        k,
    ) is Some by {
        assert(after.frozen.reverse() =~= m.buffers());
        lemma_resolve_add(seq![after.memtable], after.frozen.reverse(), k);
        lemma_single(after.memtable, k);
    }
    lemma_logged_kept(m, runs, after, runs, log);
}

/// Turning the only frozen write buffer into a table keeps the engine in step with its log.
pub proof fn law_logged_flush(
    m: EngineModel,
    runs: Seq<Seq<Entry>>,
    log: Seq<WalRecord>,
    id: u64,
)
    requires
        logged(m, runs, log),
        m.frozen.len() == 1,
        is_run_of(run_of(m.frozen[0]), m.frozen[0]),
    ensures
        logged(after_flush(m, id), seq![run_of(m.frozen[0])] + runs, log),
{
    let after = after_flush(m, id);
    let new_runs = seq![run_of(m.frozen[0])] + runs;
    assert forall|k: Seq<u8>| #[trigger] value(after, new_runs, k) == value(m, runs, k) by {
        law_flush(m, runs, id, k);
    }
    assert forall|k: Seq<u8>| #[trigger] resolve(after.buffers(), k) is Some implies resolve(
        m.buffers(),
        k,
    ) is Some by {
        assert(after.buffers() =~= seq![m.memtable]);
        lemma_resolve_add(seq![m.memtable], m.frozen.reverse(), k);
    }
    lemma_logged_kept(m, runs, after, new_runs, log);
}

/// Once the write buffers are empty, the log holds nothing that the tables do not hold: the
/// engine is in step with an empty log.
pub proof fn law_flush_empties_log(m: EngineModel, runs: Seq<Seq<Entry>>, id: u64)
    requires
        m.frozen.len() == 1,
        m.memtable == Table::empty(),
    ensures
        logged(after_flush(m, id), seq![run_of(m.frozen[0])] + runs, Seq::empty()),
{
    let after = after_flush(m, id);
    assert forall|k: Seq<u8>| resolve(#[trigger] after.buffers(), k) is None by {
        assert(after.buffers() =~= seq![Table::empty()]);
        lemma_single(Table::empty(), k);
    }
}

/// Compacting all tables keeps the engine in step with its log.
pub proof fn law_logged_compact(
    m: EngineModel,
    runs: Seq<Seq<Entry>>,
    log: Seq<WalRecord>,
    id: u64,
)
    requires
        logged(m, runs, log),
        is_run_of(run_of(compacted(runs, true)), compacted(runs, true)),
    ensures
        logged(after_compact(m, runs, id), seq![run_of(compacted(runs, true))], log),
{
    let after = after_compact(m, runs, id);
    let new_runs = seq![run_of(compacted(runs, true))];
    assert forall|k: Seq<u8>| #[trigger] value(after, new_runs, k) == value(m, runs, k) by {
        law_compact(m, runs, id, k);
    }
    assert(after.buffers() =~= m.buffers());
    lemma_logged_kept(m, runs, after, new_runs, log);
}

/// No table has a number larger than the largest one.
proof fn lemma_max_id(s: Seq<OpenTable>, i: int)
    requires
        0 <= i < s.len(),
    ensures
        s[i].0 <= max_id(s),
    decreases s.len(),
{
    if i > 0 {
        lemma_max_id(s.skip(1), i - 1);
        assert(s.skip(1)[i - 1] == s[i]);
    }
}

/// An engine that is opened over tables with different numbers, with nothing in its cache, is
/// healthy.
pub proof fn law_open_healthy(
    m: EngineModel,
    runs: Seq<Seq<Entry>>,
    found: Seq<OpenTable>,
)
    requires
        forall|i: int, j: int|
            0 <= i < j < found.len() ==> (#[trigger] found[i]).0 != (#[trigger] found[j]).0,
        max_id(found) < u64::MAX,
        m.tables == newest_first(found),
        m.next_sst_id == max_id(found) + 1,
        m.cache == Cached::empty(),
        1 <= m.cache_capacity,
        backed(m, runs),
    ensures
        healthy(m, runs),
{
    law_newest_first(found);
    assert forall|i: int| 0 <= i < m.tables.len() implies (#[trigger] m.tables[i]).0
        < m.next_sst_id by {
        assert(m.tables.contains(m.tables[i]));
        assert(found.contains(m.tables[i]));
        let q = choose|q: int| 0 <= q < found.len() && found[q] == m.tables[i];
        lemma_max_id(found, q);
    }
}

/// Two lists of tables, each with the largest number first and no number twice, are the same
/// list if they hold the same tables.
proof fn lemma_descending_unique(a: Seq<OpenTable>, b: Seq<OpenTable>)
    requires
        descending(a),
        descending(b),
        same_tables(a, b),
    ensures
        a == b,
    decreases a.len(),
{
    if a.len() == 0 {
        if b.len() > 0 {
            assert(b.contains(b[0]));
        }
        assert(a =~= b);
    } else {
        assert(a.contains(a[0]));
        let j = choose|j: int| 0 <= j < b.len() && b[j] == a[0];
        assert(b.contains(b[0]));
        let i = choose|i: int| 0 <= i < a.len() && a[i] == b[0];
        if i > 0 {
            assert(a[0].0 > a[i].0);
            assert(j > 0);
            assert(b[0].0 > b[j].0);
        }
        let (x, y) = (a.skip(1), b.skip(1));
        lemma_descending_skip(a);
        lemma_descending_skip(b);
        assert forall|t: OpenTable|
            #![trigger x.contains(t)]
            #![trigger y.contains(t)]
            x.contains(t) <==> y.contains(t) by {
            lemma_skip_contains(a, t);
            lemma_skip_contains(b, t);
        }
        lemma_descending_unique(x, y);
        assert(a =~= seq![a[0]] + x);
        assert(b =~= seq![b[0]] + y);
    }
}

/// Two lists hold the same tables.
pub open spec fn same_tables(a: Seq<OpenTable>, b: Seq<OpenTable>) -> bool {
    forall|x: OpenTable|
        #![trigger a.contains(x)]
        #![trigger b.contains(x)]
        a.contains(x) <==> b.contains(x)
}

/// The largest number comes first, and no number comes twice.
pub open spec fn descending(s: Seq<OpenTable>) -> bool {
    forall|i: int, j: int|
        0 <= i < j < s.len() ==> (#[trigger] s[i]).0 > (#[trigger] s[j]).0
}

proof fn lemma_descending_skip(s: Seq<OpenTable>)
    requires
        descending(s),
        s.len() > 0,
    ensures
        descending(s.skip(1)),
{
    assert forall|i: int, j: int| 0 <= i < j < s.len() - 1 implies (#[trigger] s.skip(1)[i]).0 > (
    #[trigger] s.skip(1)[j]).0 by {
        assert(s[i + 1].0 > s[j + 1].0);
    }
}

proof fn lemma_skip_contains(s: Seq<OpenTable>, t: OpenTable)
    requires
        descending(s),
        s.len() > 0,
    ensures
        s.skip(1).contains(t) <==> s.contains(t) && t != s[0],
{
    if s.skip(1).contains(t) {
        let i = choose|i: int| 0 <= i < s.len() - 1 && s.skip(1)[i] == t;
        assert(s[i + 1] == t);
        assert(s[0].0 > s[i + 1].0);
    }
    if s.contains(t) && t != s[0] {
        let i = choose|i: int| 0 <= i < s.len() && s[i] == t;
        assert(s.skip(1)[i - 1] == t);
    }
}

/// Tables with different numbers, in any order, are sorted into the one list that has the
/// largest number first.
pub proof fn law_newest_first(s: Seq<OpenTable>)
    requires
        forall|i: int, j: int|
            0 <= i < j < s.len() ==> (#[trigger] s[i]).0 != (#[trigger] s[j]).0,
    ensures
        descending(newest_first(s)),
        same_tables(newest_first(s), s),
    decreases s.len(),
{
    if s.len() > 0 {
        let rest = s.skip(1);
        assert forall|i: int, j: int| 0 <= i < j < rest.len() implies (#[trigger] rest[i]).0 != (
        #[trigger] rest[j]).0 by {
            assert(s[i + 1].0 != s[j + 1].0);
        }
        law_newest_first(rest);
        let sorted = newest_first(rest);
        assert forall|i: int| 0 <= i < sorted.len() implies (#[trigger] sorted[i]).0 != s[0].0 by {
            assert(sorted.contains(sorted[i]));
            assert(rest.contains(sorted[i]));
            let q = choose|q: int| 0 <= q < rest.len() && rest[q] == sorted[i];
            assert(s[0].0 != s[q + 1].0);
        }
        lemma_insert_descending(sorted, s[0]);
        let all = newest_first(s);
        assert forall|x: OpenTable|
            #![trigger all.contains(x)]
            #![trigger s.contains(x)]
            all.contains(x) <==> s.contains(x) by {
            assert(all.contains(x) <==> sorted.contains(x) || x == s[0]);
            assert(sorted.contains(x) <==> rest.contains(x));
            if s.contains(x) && x != s[0] {
                let i = choose|i: int| 0 <= i < s.len() && s[i] == x;
                assert(rest[i - 1] == x);
            }
            if rest.contains(x) {
                let i = choose|i: int| 0 <= i < rest.len() && rest[i] == x;
                assert(s[i + 1] == x);
            }
            assert(s.contains(s[0]));
        }
    }
}

proof fn lemma_insert_descending(s: Seq<OpenTable>, t: OpenTable)
    requires
        descending(s),
        forall|i: int| 0 <= i < s.len() ==> (#[trigger] s[i]).0 != t.0,
    ensures
        descending(insert_newest_first(s, t)),
        forall|x: OpenTable| #[trigger]
            insert_newest_first(s, t).contains(x) <==> s.contains(x) || x == t,
    decreases s.len(),
{
    let out = insert_newest_first(s, t);
    if s.len() == 0 || s[0].0 <= t.0 {
        assert forall|i: int, j: int| 0 <= i < j < out.len() implies (#[trigger] out[i]).0 > (
        #[trigger] out[j]).0 by {
            assert(out[j] == s[j - 1]);
            if i > 0 {
                assert(out[i] == s[i - 1]);
            } else if j > 1 {
                assert(s[0].0 > s[j - 1].0);
            }
        }
        assert forall|x: OpenTable| #[trigger] out.contains(x) <==> s.contains(x) || x == t by {
            if s.contains(x) {
                let i = choose|i: int| 0 <= i < s.len() && s[i] == x;
                assert(out[i + 1] == x);
            }
            if out.contains(x) && x != t {
                let i = choose|i: int| 0 <= i < out.len() && out[i] == x;
                assert(s[i - 1] == x);
            }
            assert(out[0] == t);
        }
    } else {
        let rest = s.skip(1);
        lemma_descending_skip(s);
        assert forall|i: int| 0 <= i < rest.len() implies (#[trigger] rest[i]).0 != t.0 by {
            assert(s[i + 1].0 != t.0);
        }
        lemma_insert_descending(rest, t);
        let inner = insert_newest_first(rest, t);
        assert forall|i: int, j: int| 0 <= i < j < out.len() implies (#[trigger] out[i]).0 > (
        #[trigger] out[j]).0 by {
            assert(out[j] == inner[j - 1]);
            if i > 0 {
                assert(out[i] == inner[i - 1]);
            } else {
                assert(inner.contains(inner[j - 1]));
                if inner[j - 1] != t {
                    assert(rest.contains(inner[j - 1]));
                    let q = choose|q: int| 0 <= q < rest.len() && rest[q] == inner[j - 1];
                    assert(s[0].0 > s[q + 1].0);
                }
            }
        }
        assert forall|x: OpenTable| #[trigger] out.contains(x) <==> s.contains(x) || x == t by {
            assert(inner.contains(x) <==> rest.contains(x) || x == t);
            assert(out[0] == s[0]);
            if inner.contains(x) {
                let i = choose|i: int| 0 <= i < inner.len() && inner[i] == x;
                assert(out[i + 1] == x);
            }
            if out.contains(x) && x != s[0] {
                let i = choose|i: int| 0 <= i < out.len() && out[i] == x;
                assert(inner[i - 1] == x);
            }
            lemma_skip_contains(s, x);
        }
    }
}

/// Reopening an engine gives back everything that was in it. Its tables, found in any order,
/// come back in theirs; its log, whatever a crash has left of one more write at its end, is
/// played back to the last complete write; and every key has the value that it had.
pub proof fn law_reopen(
    m: EngineModel,
    runs: Seq<Seq<Entry>>,
    log: Seq<WalRecord>,
    tail: Seq<u8>,
    found: Seq<OpenTable>,
    reopened: EngineModel,
)
    requires
        logged(m, runs, log),
        forall|i: int| 0 <= i < log.len() ==> (#[trigger] log[i]).fits(),
        unfinished(tail),
        descending(m.tables),
        forall|i: int, j: int|
            0 <= i < j < found.len() ==> (#[trigger] found[i]).0 != (#[trigger] found[j]).0,
        same_tables(found, m.tables),
        reopened.memtable == replay(log),
        reopened.frozen == Seq::<Table>::empty(),
        reopened.tables == newest_first(found),
    ensures
        wal_recover(wal_image(log) + tail) == Ok::<_, WalEnd>((log, wal_image(log).len())),
        reopened.tables == m.tables,
        forall|k: Seq<u8>| #[trigger] value(reopened, runs, k) == value(m, runs, k),
        logged(reopened, runs, log),
{
    law_wal_recovers(log, tail);
    law_newest_first(found);
    assert(same_tables(newest_first(found), m.tables)) by {
        let sorted = newest_first(found);
        assert forall|x: OpenTable|
            #![trigger sorted.contains(x)]
            #![trigger m.tables.contains(x)]
            sorted.contains(x) <==> m.tables.contains(x) by {
            assert(sorted.contains(x) <==> found.contains(x));
        }
    }
    lemma_descending_unique(newest_first(found), m.tables);
    assert(reopened.frozen.reverse() =~= Seq::<Table>::empty());
    assert forall|k: Seq<u8>| #[trigger] value(reopened, runs, k) == value(m, runs, k) by {
        lemma_value_split(reopened, runs, k);
        lemma_value_split(m, runs, k);
        lemma_resolve_add(seq![m.memtable], m.frozen.reverse(), k);
        lemma_single(m.memtable, k);
        assert(resolve(reopened.frozen.reverse(), k) is None);
        if !replay(log).contains_key(k) {
            assert(resolve(m.buffers(), k) is None);
        }
    }
    assert forall|k: Seq<u8>| #[trigger] resolve(reopened.buffers(), k) is Some implies replay(
        log,
    ).contains_key(k) by {
        lemma_resolve_add(seq![reopened.memtable], reopened.frozen.reverse(), k);
        lemma_single(reopened.memtable, k);
        assert(resolve(reopened.frozen.reverse(), k) is None);
    }
    assert forall|k: Seq<u8>| #[trigger] replay(log).contains_key(k) implies value(
        reopened,
        runs,
        k,
    ) == replay(log)[k] by {
        assert(value(reopened, runs, k) == value(m, runs, k));
    }
}

/// The value that an engine holds for a key is decided by the newest of its parts that knows the
/// key: the write buffer, then the frozen buffers from the last to the first, then the tables
/// from the first to the last. Without such a part, and after a delete, there is no value.
pub proof fn law_newest_wins(m: EngineModel, runs: Seq<Seq<Entry>>, key: Seq<u8>, i: int)
    ensures
        m.memtable.contains_key(key) ==> value(m, runs, key) == m.memtable[key],
        !m.memtable.contains_key(key) && 0 <= i < m.frozen.len() && m.frozen[i].contains_key(key)
            && (forall|j: int|
            i < j < m.frozen.len() ==> !(#[trigger] m.frozen[j]).contains_key(key)) ==> value(
            m,
            runs,
            key,
        ) == m.frozen[i][key],
        !m.memtable.contains_key(key) && (forall|j: int|
            0 <= j < m.frozen.len() ==> !(#[trigger] m.frozen[j]).contains_key(key)) && 0 <= i
            < runs.len() && lookup(runs[i], key) is Some && (forall|j: int|
            0 <= j < i ==> lookup(#[trigger] runs[j], key) is None) ==> value(m, runs, key)
            == lookup(runs[i], key)->0,
        !m.memtable.contains_key(key) && (forall|j: int|
            0 <= j < m.frozen.len() ==> !(#[trigger] m.frozen[j]).contains_key(key)) && (forall|
            j: int,
        | 0 <= j < runs.len() ==> lookup(#[trigger] runs[j], key) is None) ==> value(m, runs, key)
            is None,
{
    let frozen = m.frozen.reverse();
    let n = m.frozen.len() as int;
    let ts = tables_of(runs);
    lemma_value_split(m, runs, key);
    if 0 <= i < n && m.frozen[i].contains_key(key) && (forall|j: int|
        i < j < n ==> !(#[trigger] m.frozen[j]).contains_key(key)) {
        assert forall|j: int| 0 <= j < n - 1 - i implies !(#[trigger] frozen[j]).contains_key(
            key,
        ) by {
            assert(frozen[j] == m.frozen[n - 1 - j]);
        }
        assert(frozen[n - 1 - i] == m.frozen[i]);
        lemma_resolve_first(frozen, key, n - 1 - i);
    }
    if forall|j: int| 0 <= j < n ==> !(#[trigger] m.frozen[j]).contains_key(key) {
        assert forall|j: int| 0 <= j < n implies !(#[trigger] frozen[j]).contains_key(key) by {
            assert(frozen[j] == m.frozen[n - 1 - j]);
        }
        lemma_resolve_none(frozen, key);
    }
    if 0 <= i < runs.len() && lookup(runs[i], key) is Some && (forall|j: int|
        0 <= j < i ==> lookup(#[trigger] runs[j], key) is None) {
        assert(ts[i] == table_of(runs[i]));
        assert forall|j: int| 0 <= j < i implies !(#[trigger] ts[j]).contains_key(key) by {
            assert(ts[j] == table_of(runs[j]));
            assert(lookup(runs[j], key) is None);
        }
        lemma_resolve_first(ts, key, i);
    }
    if forall|j: int| 0 <= j < runs.len() ==> lookup(#[trigger] runs[j], key) is None {
        assert forall|j: int| 0 <= j < ts.len() implies !(#[trigger] ts[j]).contains_key(key) by {
            assert(ts[j] == table_of(runs[j]));
            assert(lookup(runs[j], key) is None);
        }
        lemma_resolve_none(ts, key);
    }
}

/// A block that is not cached is to be read from its own table's file, and the bytes at the
/// place that is named are its own.
pub proof fn law_fetch_place(m: EngineModel, runs: Seq<Seq<Entry>>, table: int, block: int)
    requires
        healthy(m, runs),
        m.has_block(table, block),
    ensures
        ({
            let place = m.block_key(table, block);
            let file = table_image(runs[table], bs());
            &&& place.sst_id == m.tables[table].0
            &&& 0 <= block < chunks(runs[table], bs()).len()
            &&& file.subrange(
                place.offset as int,
                place.offset + m.tables[table].1.metas[block].len,
            ) == block_image(chunks(runs[table], bs())[block])
        }),
{
    let es = runs[table];
    assert(table_fits(es, bs()) && m.tables[table].1 == table_model(es, bs()));
    law_table_places(es, bs(), block);
    law_table_blocks(es, bs(), block);
}

/// There is a block exactly for each entry of the index of each table.
pub proof fn law_blocks_there(m: EngineModel, table: int, block: int)
    ensures
        m.has_block(table, block) <==> 0 <= table < m.tables.len() && 0 <= block
            < m.tables[table].1.metas.len(),
{
}

/// The number of a new table is one more than the largest that was found, and one where none
/// was.
pub proof fn law_opened_number(
    log: Seq<WalRecord>,
    found: Seq<OpenTable>,
    max_memtable_size: usize,
    block_cache_capacity: usize,
)
    requires
        forall|i: int| 0 <= i < found.len() ==> (#[trigger] found[i]).0 < u64::MAX,
    ensures
        ({
            let m = opened_model(log, found, max_memtable_size, block_cache_capacity);
            &&& found.len() == 0 ==> m.next_sst_id == 1
            &&& forall|i: int| 0 <= i < found.len() ==> (#[trigger] found[i]).0 < m.next_sst_id
            &&& found.len() > 0 ==> exists|i: int|
                0 <= i < found.len() && (#[trigger] found[i]).0 + 1 == m.next_sst_id
        }),
{
    let m = opened_model(log, found, max_memtable_size, block_cache_capacity);
    if found.len() > 0 {
        lemma_max_attained(found);
        let i = choose|i: int| 0 <= i < found.len() && (#[trigger] found[i]).0 == max_id(found);
        assert(found[i].0 + 1 == m.next_sst_id);
    }
    assert forall|i: int| 0 <= i < found.len() implies (#[trigger] found[i]).0 < m.next_sst_id by {
        lemma_max_id(found, i);
    }
}

/// The largest number of some tables is a table's number.
pub proof fn lemma_max_attained(s: Seq<OpenTable>)
    requires
        s.len() > 0,
    ensures
        exists|i: int| 0 <= i < s.len() && (#[trigger] s[i]).0 == max_id(s),
    decreases s.len(),
{
    let rest = s.skip(1);
    if s[0].0 > max_id(rest) || rest.len() == 0 {
        assert(s[0].0 == max_id(s));
    } else {
        lemma_max_attained(rest);
        let i = choose|i: int| 0 <= i < rest.len() && (#[trigger] rest[i]).0 == max_id(rest);
        assert(s[i + 1].0 == max_id(s));
    }
}

/// An engine opens over its tables and a log of writes, whatever a crash has left behind the
/// last one: the log is to be cut to the length of the writes, each key that was written has
/// what its last write said, and the tables come from the newest to the oldest. Damage with
/// more of the log behind it keeps the engine from opening, and is reported.
pub proof fn law_open(
    r: Result<(LsmEngine, usize)>,
    found: Seq<OpenTable>,
    log: Seq<WalRecord>,
    tail: Seq<u8>,
    max_memtable_size: usize,
    block_cache_capacity: usize,
)
    requires
        forall|i: int| 0 <= i < log.len() ==> (#[trigger] log[i]).fits(),
        opened(r, found, wal_image(log) + tail, max_memtable_size, block_cache_capacity),
    ensures
        unfinished(tail) ==> {
            &&& r matches Ok((engine, valid_len))
            &&& engine.wf()
            &&& valid_len == wal_image(log).len()
            &&& engine@.memtable == replay(log)
            &&& engine@.memtable_size == replay_size(log)
            &&& engine@.frozen.len() == 0
            &&& engine@.tables == newest_first(found)
            &&& engine@.cache.len() == 0
            &&& engine@.max_memtable_size == max_memtable_size
            &&& engine@.cache_capacity == if block_cache_capacity < 1 {
                1
            } else {
                block_cache_capacity
            }
            &&& engine@ == opened_model(log, found, max_memtable_size, block_cache_capacity)
        },
        wal_recover(wal_image(log) + tail) matches Err(WalEnd::CrcMismatch { expected, actual })
            ==> r == Err::<(LsmEngine, usize), LsmError>(
            LsmError::CrcMismatch { expected, actual },
        ),
        wal_recover(wal_image(log) + tail) matches Err(WalEnd::InvalidOp { code }) ==> r == Err::<
            (LsmEngine, usize),
            LsmError,
        >(LsmError::InvalidOpCode(code)),
        r is Err ==> wal_recover(wal_image(log) + tail) is Err,
{
    if unfinished(tail) {
        law_wal_recovers(log, tail);
    }
}

/// A block of a table that the engine writes has at most 4,096 bytes, unless a single entry
/// fills it.
pub proof fn law_written_blocks(es: Seq<Entry>, j: int)
    requires
        0 <= j < chunks(es, bs()).len(),
    ensures
        chunks(es, bs())[j].len() == 1 || block_image(chunks(es, bs())[j]).len() <= 4096,
        j + 1 < chunks(es, bs()).len() ==> block_image(
            chunks(es, bs())[j].push(chunks(es, bs())[j + 1][0]),
        ).len() > 4096,
{
    law_block_bytes(es, bs(), j);
    if j + 1 < chunks(es, bs()).len() {
        law_blocks_filled(es, bs(), j);
    }
}

} // verus!
