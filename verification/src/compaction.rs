//! Merging tables into one.
use crate::codec::{as_slice, bytes_of};
use crate::entry::{
    entries_of, entry_of, is_run_of, lemma_lookup_finds, lemma_lookup_push, lemma_lookup_witness,
    lemma_resolve_add, lemma_resolve_first, lemma_resolve_none, lemma_run_of, lemma_table_get, live,
    lookup, merged_table, resolve, run_of, strictly_sorted, table_get, table_of, tables_of,
    without_tombstones, Entry, Table,
};
use crate::filter::bloom::filter_fits;
use crate::key::key_lt;
use crate::memtable::MemTable;
use crate::sstable::builder::{build_table, table_image, DEFAULT_BLOCK_SIZE};
use bytes::Bytes;
use vstd::prelude::*;

verus! {

/// The byte strings behind several lists of pairs of handles.
pub open spec fn runs_of(tables: Seq<Vec<(Bytes, Option<Bytes>)>>) -> Seq<Seq<Entry>> {
    Seq::new(tables.len(), |i: int| entries_of(tables[i]@))
}

/// What compaction makes of several runs, from newest to oldest: the newest entry of each
/// key, and at the bottom level no tombstones.
pub open spec fn compacted(runs: Seq<Seq<Entry>>, is_bottom_level: bool) -> Table {
    if is_bottom_level {
        without_tombstones(merged_table(runs))
    } else {
        merged_table(runs)
    }
}

/// What the first runs and a part of the next one say of a key.
spec fn seen(runs: Seq<Seq<Entry>>, part: Seq<Entry>, key: Seq<u8>) -> Option<Option<Seq<u8>>> {
    match resolve(tables_of(runs), key) {
        Some(v) => Some(v),
        None => lookup(part, key),
    }
}

/// A run that is seen to its end counts as one run more.
proof fn lemma_seen_run(runs: Seq<Seq<Entry>>, es: Seq<Entry>, key: Seq<u8>)
    ensures
        seen(runs.push(es), Seq::empty(), key) == seen(runs, es, key),
{
    let one = seq![table_of(es)];
    assert(tables_of(runs.push(es)) =~= tables_of(runs) + one);
    lemma_resolve_add(tables_of(runs), one, key);
    lemma_table_get(es, key);
    assert(one.skip(1) =~= Seq::<Table>::empty());
    assert(resolve(one.skip(1), key) is None);
}

/// The newest entry of each key, in the order of the keys. Tables are ordered from newest to
/// oldest. At the bottom level, where no older table is left, tombstones are dropped.
pub fn merge_tables(
    tables: &Vec<Vec<(Bytes, Option<Bytes>)>>,
    is_bottom_level: bool,
) -> (entries: Vec<(Bytes, Option<Bytes>)>)
    ensures
        is_run_of(entries_of(entries@), compacted(runs_of(tables@), is_bottom_level)),
        entries_of(entries@) == run_of(compacted(runs_of(tables@), is_bottom_level)),
{
    let ghost runs = runs_of(tables@);
    // Map to collect the newest version of every key (a sorted map, so the output is sorted)
    let mut merged: MemTable = MemTable::new();
    let mut i: usize = 0;
    proof {
        assert(runs.take(0) =~= Seq::<Seq<Entry>>::empty());
    }
    // SSTables are ordered newest (idx 0) to oldest
    while i < tables.len()
        invariant
            i <= tables@.len(),
            runs == runs_of(tables@),
            forall|k: Seq<u8>| #[trigger]
                table_get(merged@, k) == seen(runs.take(i as int), Seq::empty(), k),
        decreases tables@.len() - i,
    {
        let table: &Vec<(Bytes, Option<Bytes>)> = &tables[i];
        let ghost es = entries_of(table@);
        let mut j: usize = 0;
        assert(es.take(0) =~= Seq::<Entry>::empty());
        while j < table.len()
            invariant
                j <= table@.len(),
                es == entries_of(table@),
                forall|k: Seq<u8>| #[trigger]
                    table_get(merged@, k) == seen(runs.take(i as int), es.take(j as int), k),
            decreases table@.len() - j,
        {
            let entry: &(Bytes, Option<Bytes>) = &table[j];
            let ghost before = merged@;
            if merged.get(as_slice(&entry.0)).is_none() {
                match &entry.1 {
                    Some(v) => {
                        merged.put(entry.0.clone(), v.clone());
                    },
                    None => {
                        merged.delete(entry.0.clone());
                    },
                }
            }
            proof {
                let e = entry_of(*entry);
                assert(es.take(j + 1) =~= es.take(j as int).push(e));
                assert(table_get(before, e.0) == seen(runs.take(i as int), es.take(j as int), e.0));
                assert forall|k: Seq<u8>| #[trigger] table_get(merged@, k) == seen(
                    runs.take(i as int),
                    es.take(j + 1),
                    k,
                ) by {
                    assert(table_get(before, k) == seen(runs.take(i as int), es.take(j as int), k));
                    lemma_lookup_push(es.take(j as int), e, k);
                }
            }
            j = j + 1;
        }
        proof {
            assert(es.take(table@.len() as int) =~= es);
            assert(runs.take(i + 1) =~= runs.take(i as int).push(es));
            assert forall|k: Seq<u8>| #[trigger] table_get(merged@, k) == seen(
                runs.take(i + 1),
                Seq::empty(),
                k,
            ) by {
                lemma_seen_run(runs.take(i as int), es, k);
            }
        }
        i = i + 1;
    }
    let all: Vec<(Bytes, Option<Bytes>)> = merged.iter();
    let ghost t = merged_table(runs);
    proof {
        assert(runs.take(tables@.len() as int) =~= runs);
        assert forall|k: Seq<u8>| #[trigger] lookup(entries_of(all@), k) == table_get(t, k) by {
            assert(table_get(merged@, k) == seen(runs, Seq::empty(), k));
        }
        assert(is_run_of(entries_of(all@), t));
    }
    if !is_bottom_level {
        proof {
            lemma_run_of(entries_of(all@), t);
        }
        return all;
    }
    let kept: Vec<(Bytes, Option<Bytes>)> = drop_tombstones(&all);
    proof {
        let es = entries_of(all@);
        let ls = entries_of(kept@);
        lemma_valued(es);
        assert forall|k: Seq<u8>| #[trigger] lookup(ls, k) == table_get(
            without_tombstones(t),
            k,
        ) by {
            assert(lookup(es, k) == table_get(t, k));
            assert(lookup(valued(es), k) == match lookup(es, k) {
                Some(Some(v)) => Some(Some(v)),
                _ => None,
            });
        }
        lemma_run_of(ls, without_tombstones(t));
    }
    kept
}

/// The entries that have a value.
spec fn valued(es: Seq<Entry>) -> Seq<Entry>
    decreases es.len(),
{
    if es.len() == 0 {
        Seq::empty()
    } else if es.last().1 is Some {
        valued(es.drop_last()).push(es.last())
    } else {
        valued(es.drop_last())
    }
}

fn drop_tombstones(entries: &Vec<(Bytes, Option<Bytes>)>) -> (kept: Vec<(Bytes, Option<Bytes>)>)
    ensures
        entries_of(kept@) == valued(entries_of(entries@)),
{
    let ghost es = entries_of(entries@);
    let mut kept: Vec<(Bytes, Option<Bytes>)> = Vec::new();
    let mut i: usize = 0;
    proof {
        assert(es.take(0) =~= Seq::<Entry>::empty());
        assert(entries_of(kept@) =~= Seq::<Entry>::empty());
    }
    while i < entries.len()
        invariant
            i <= entries@.len(),
            es == entries_of(entries@),
            entries_of(kept@) == valued(es.take(i as int)),
        decreases entries@.len() - i,
    {
        let entry: &(Bytes, Option<Bytes>) = &entries[i];
        proof {
            assert(es.take(i + 1).drop_last() =~= es.take(i as int));
            assert(es.take(i + 1).last() == entry_of(*entry));
        }
        if let Some(v) = &entry.1 {
            let ghost before = kept@;
            let pair: (Bytes, Option<Bytes>) = (entry.0.clone(), Some(v.clone()));
            assert(entry_of(pair) == entry_of(*entry));
            kept.push(pair);
            assert(entries_of(kept@) =~= entries_of(before).push(entry_of(*entry)));
        }
        i = i + 1;
    }
    assert(es.take(entries@.len() as int) =~= es);
    kept
}

/// What is left without tombstones is what has a value.
proof fn lemma_valued_contains(es: Seq<Entry>, e: Entry)
    ensures
        valued(es).contains(e) <==> es.contains(e) && e.1 is Some,
    decreases es.len(),
{
    if es.len() > 0 {
        let front = es.drop_last();
        let rest = valued(front);
        let last = es.last();
        lemma_valued_contains(front, e);
        if es.contains(e) {
            let i = choose|i: int| 0 <= i < es.len() && es[i] == e;
            if i < front.len() {
                assert(front[i] == e);
            }
        }
        if front.contains(e) {
            let i = choose|i: int| 0 <= i < front.len() && front[i] == e;
            assert(es[i] == e);
        }
        assert(es[es.len() - 1] == last);
        let all = rest.push(last);
        assert(all[rest.len() as int] == last);
        if rest.contains(e) {
            let i = choose|i: int| 0 <= i < rest.len() && rest[i] == e;
            assert(all[i] == e);
        }
        if all.contains(e) && e != last {
            let i = choose|i: int| 0 <= i < all.len() && all[i] == e;
            assert(rest[i] == e);
        }
    }
}

/// A sorted run without its tombstones is sorted and knows the keys that have a value.
proof fn lemma_valued(es: Seq<Entry>)
    requires
        strictly_sorted(es),
    ensures
        strictly_sorted(valued(es)),
        forall|k: Seq<u8>| #[trigger]
            lookup(valued(es), k) == match lookup(es, k) {
                Some(Some(v)) => Some(Some(v)),
                _ => None,
            },
    decreases es.len(),
{
    let part = valued(es);
    if es.len() > 0 {
        let front = es.drop_last();
        let rest = valued(front);
        assert forall|i: int, j: int|
            #![trigger front[i], front[j]]
            0 <= i < j < front.len() implies key_lt(front[i].0, front[j].0) by {
            assert(key_lt(es[i].0, es[j].0));
        }
        lemma_valued(front);
        assert forall|i: int, j: int|
            #![trigger part[i], part[j]]
            0 <= i < j < part.len() implies key_lt(part[i].0, part[j].0) by {
            if j < rest.len() {
                assert(key_lt(rest[i].0, rest[j].0));
            } else {
                lemma_valued_contains(front, rest[i]);
                let q = choose|q: int| 0 <= q < front.len() && front[q] == rest[i];
                assert(key_lt(es[q].0, es[es.len() - 1].0));
            }
        }
    }
    assert forall|k: Seq<u8>| #[trigger] lookup(part, k) == match lookup(es, k) {
        Some(Some(v)) => Some(Some(v)),
        _ => None,
    } by {
        if lookup(part, k) is Some {
            let i = lemma_lookup_witness(part, k);
            lemma_valued_contains(es, part[i]);
            let q = choose|q: int| 0 <= q < es.len() && es[q] == part[i];
            lemma_lookup_finds(es, q);
        } else if lookup(es, k) is Some {
            let q = lemma_lookup_witness(es, k);
            lemma_valued_contains(es, es[q]);
            if es[q].1 is Some {
                let i = choose|i: int| 0 <= i < part.len() && part[i] == es[q];
                lemma_lookup_finds(part, i);
            }
        }
    }
}

/// Executes a multi-way merge compaction across multiple SSTables.
/// - Merges sorted entries from newest to oldest.
/// - Deduplicates keys: keeps only the freshest version.
/// - Discards obsolete tombstones if `is_bottom_level` is true (reclaiming disk space).
///
/// Returns the bytes of the new SSTable; `None` when no filter can be made for so many keys.
pub fn compact_sstables(
    tables: &Vec<Vec<(Bytes, Option<Bytes>)>>,
    is_bottom_level: bool,
) -> (r: Option<Bytes>)
    ensures
        ({
            let es = run_of(compacted(runs_of(tables@), is_bottom_level));
            &&& is_run_of(es, compacted(runs_of(tables@), is_bottom_level))
            &&& match r {
                Some(file) => filter_fits(es.len()) && bytes_of(file) == table_image(
                    es,
                    DEFAULT_BLOCK_SIZE as nat,
                ),
                None => !filter_fits(es.len()),
            }
            &&& 10 * es.len() + 7 < 0x1_0000_0000 - 64 ==> r is Some
        }),
{
    let entries: Vec<(Bytes, Option<Bytes>)> = merge_tables(tables, is_bottom_level);
    build_table(&entries, DEFAULT_BLOCK_SIZE)
}

/// Compacting tables that have older ones below them changes what no lookup finds: the one
/// table says what the several said, tombstones included, so nothing that they hid comes
/// back.
pub proof fn law_compaction_transparent(
    newer: Seq<Table>,
    runs: Seq<Seq<Entry>>,
    older: Seq<Table>,
    key: Seq<u8>,
)
    ensures
        resolve(newer + seq![compacted(runs, false)] + older, key) == resolve(
            newer + tables_of(runs) + older,
            key,
        ),
{
    let one = seq![compacted(runs, false)];
    lemma_single(compacted(runs, false), key);
    lemma_resolve_add(newer, one, key);
    lemma_resolve_add(newer + one, older, key);
    lemma_resolve_add(newer, tables_of(runs), key);
    lemma_resolve_add(newer + tables_of(runs), older, key);
}

/// Compacting the oldest tables drops their tombstones, and still no lookup finds anything
/// else than before: a key without a value stays without one.
pub proof fn law_compaction_bottom(newer: Seq<Table>, runs: Seq<Seq<Entry>>, key: Seq<u8>)
    ensures
        live(resolve(newer + seq![compacted(runs, true)], key)) == live(
            resolve(newer + tables_of(runs), key),
        ),
        compacted(runs, true).contains_key(key) ==> compacted(runs, true)[key] is Some,
{
    let one = seq![compacted(runs, true)];
    lemma_single(compacted(runs, true), key);
    lemma_resolve_add(newer, one, key);
    lemma_resolve_add(newer, tables_of(runs), key);
}

/// A single tier says what its table says.
pub proof fn lemma_single(t: Table, key: Seq<u8>)
    ensures
        resolve(seq![t], key) == table_get(t, key),
{
    assert(seq![t].skip(1) =~= Seq::<Table>::empty());
    assert(resolve(seq![t].skip(1), key) is None);
}

/// Lists of handles stand for as many runs in the same order.
pub proof fn law_runs_of(tables: Seq<Vec<(Bytes, Option<Bytes>)>>, i: int)
    ensures
        runs_of(tables).len() == tables.len(),
        0 <= i < tables.len() ==> runs_of(tables)[i] == entries_of(tables[i]@),
{
}

/// A compaction keeps for each key the entry of the newest table that has one. A tombstone it
/// keeps as long as there are older tables, and drops otherwise.
pub proof fn law_compaction_newest(runs: Seq<Seq<Entry>>, key: Seq<u8>, i: int)
    ensures
        0 <= i < runs.len() && lookup(runs[i], key) is Some && (forall|j: int|
            0 <= j < i ==> lookup(#[trigger] runs[j], key) is None) ==> {
            let v = lookup(runs[i], key)->0;
            &&& table_get(compacted(runs, false), key) == Some(v)
            &&& table_get(compacted(runs, true), key) == if v is Some {
                Some(v)
            } else {
                None
            }
        },
        (forall|j: int| 0 <= j < runs.len() ==> lookup(#[trigger] runs[j], key) is None)
            ==> !compacted(runs, false).contains_key(key) && !compacted(runs, true).contains_key(
            key,
        ),
{
    let ts = tables_of(runs);
    if 0 <= i < runs.len() && lookup(runs[i], key) is Some && (forall|j: int|
        0 <= j < i ==> lookup(#[trigger] runs[j], key) is None) {
        assert(ts[i] == table_of(runs[i]));
        assert forall|j: int| 0 <= j < i implies !(#[trigger] ts[j]).contains_key(key) by {
            assert(ts[j] == table_of(runs[j]));
            assert(lookup(runs[j], key) is None);
        }
        lemma_resolve_first(ts, key, i);
    }
    if forall|j: int| 0 <= j < runs.len() ==> lookup(#[trigger] runs[j], key) is None {
        assert forall|j: int| 0 <= j < ts.len() implies !(#[trigger] ts[j]).contains_key(key) by {
            assert(ts[j] == table_of(runs[j]));
            assert(lookup(runs[j], key) is None);
        }
        lemma_resolve_none(ts, key);
    }
}

} // verus!
