//! How much room entries take, and that the machine has it.
use crate::codec::lemma_be_len;
use crate::compaction::compacted;
use crate::entry::{
    lemma_lookup_finds, lemma_lookup_witness, lemma_merged_finite, lemma_put_sorted,
    lemma_run_exists, lemma_run_of, lookup, merged_table, put_sorted, resolve, run_of,
    strictly_sorted, table_get, table_of, tables_of, without_tombstones, Entry, Table,
};
use crate::filter::bloom::{law_bloom_layout, law_filter_fits, law_filter_size};
use crate::key::{key_lt, lemma_key_irreflexive};
use crate::sstable::block::{entry_encodable, law_block_add, lemma_packed_push, packed};
use crate::sstable::builder::{
    blocks_image, chunks, filter_of, footer_image, index_image, keys, meta_image, meta_of, metas,
    metas_image, SSTABLE_MAGIC,
};
use crate::sstable::chunks::{joined, lemma_chunks_joined, no_empty};
use crate::sstable::reader::{law_table_filter, table_encodable, table_sized};
use vstd::prelude::*;

verus! {

/// The room that an entry takes: its key, its value and 64 bytes more.
pub open spec fn entry_weight(e: Entry) -> nat {
    e.0.len() + 64 + if e.1 is Some {
        e.1->0.len()
    } else {
        0
    }
}

/// The room that some entries take.
pub open spec fn weight(es: Seq<Entry>) -> nat
    decreases es.len(),
{
    if es.len() == 0 {
        0
    } else {
        entry_weight(es[0]) + weight(es.skip(1))
    }
}

/// The room that several runs of entries take.
pub open spec fn total_weight(runs: Seq<Seq<Entry>>) -> nat
    decreases runs.len(),
{
    if runs.len() == 0 {
        0
    } else {
        weight(runs[0]) + total_weight(runs.skip(1))
    }
}

proof fn lemma_weight_add(a: Seq<Entry>, b: Seq<Entry>)
    ensures
        weight(a + b) == weight(a) + weight(b),
    decreases a.len(),
{
    if a.len() == 0 {
        assert(a + b =~= b);
    } else {
        assert((a + b).skip(1) =~= a.skip(1) + b);
        lemma_weight_add(a.skip(1), b);
    }
}

proof fn lemma_weight_one(e: Entry)
    ensures
        weight(seq![e]) == entry_weight(e),
{
    assert(seq![e].skip(1) =~= Seq::<Entry>::empty());
    assert(weight(seq![e].skip(1)) == 0);
}

proof fn lemma_weight_put(es: Seq<Entry>, e: Entry)
    ensures
        weight(put_sorted(es, e)) == weight(es) + entry_weight(e),
    decreases es.len(),
{
    lemma_weight_one(e);
    if es.len() == 0 || key_lt(e.0, es[0].0) {
        lemma_weight_add(seq![e], es);
    } else {
        lemma_weight_put(es.skip(1), e);
        lemma_weight_one(es[0]);
        lemma_weight_add(seq![es[0]], put_sorted(es.skip(1), e));
    }
}

proof fn lemma_weight_update(es: Seq<Entry>, i: int, e: Entry)
    requires
        0 <= i < es.len(),
    ensures
        weight(es.update(i, e)) <= weight(es) + entry_weight(e),
{
    let (a, b) = (es.take(i), es.skip(i + 1));
    assert(es =~= a + (seq![es[i]] + b));
    assert(es.update(i, e) =~= a + (seq![e] + b));
    lemma_weight_add(a, seq![es[i]] + b);
    lemma_weight_add(a, seq![e] + b);
    lemma_weight_add(seq![es[i]], b);
    lemma_weight_add(seq![e], b);
    lemma_weight_one(e);
}

/// A table with one more key takes as much more room as the key's entry.
proof fn lemma_weight_new(t: Table, k: Seq<u8>, v: Option<Seq<u8>>)
    requires
        t.dom().finite(),
        !t.contains_key(k),
    ensures
        weight(run_of(t.insert(k, v))) == weight(run_of(t)) + entry_weight((k, v)),
{
    lemma_run_exists(t);
    let es = run_of(t);
    let all = t.insert(k, v);
    assert(lookup(es, k) == table_get(t, k));
    lemma_put_sorted(es, (k, v));
    let new = put_sorted(es, (k, v));
    assert forall|q: Seq<u8>| #[trigger] lookup(new, q) == table_get(all, q) by {
        assert(lookup(es, q) == table_get(t, q));
    }
    lemma_run_of(new, all);
    lemma_weight_put(es, (k, v));
}

/// A write makes a table take at most as much more room as its entry.
pub proof fn lemma_weight_insert(t: Table, k: Seq<u8>, v: Option<Seq<u8>>)
    requires
        t.dom().finite(),
    ensures
        weight(run_of(t.insert(k, v))) <= weight(run_of(t)) + entry_weight((k, v)),
{
    if !t.contains_key(k) {
        lemma_weight_new(t, k, v);
    } else {
        lemma_run_exists(t);
        let es = run_of(t);
        let all = t.insert(k, v);
        assert(lookup(es, k) == table_get(t, k));
        let i = lemma_lookup_witness(es, k);
        let new = es.update(i, (k, v));
        assert forall|a: int, b: int|
            #![trigger new[a], new[b]]
            0 <= a < b < new.len() implies key_lt(new[a].0, new[b].0) by {
            assert(key_lt(es[a].0, es[b].0));
        }
        assert forall|q: Seq<u8>| #[trigger] lookup(new, q) == table_get(all, q) by {
            assert(lookup(es, q) == table_get(t, q));
            lemma_lookup_update(es, i, v, q);
        }
        lemma_run_of(new, all);
        lemma_weight_update(es, i, (k, v));
    }
}

/// A run with another value in one place finds that value there and the others where they were.
proof fn lemma_lookup_update(es: Seq<Entry>, i: int, v: Option<Seq<u8>>, q: Seq<u8>)
    requires
        strictly_sorted(es),
        0 <= i < es.len(),
    ensures
        lookup(es.update(i, (es[i].0, v)), q) == if q == es[i].0 {
            Some(v)
        } else {
            lookup(es, q)
        },
    decreases es.len(),
{
    let new = es.update(i, (es[i].0, v));
    if i == 0 {
        assert(new.skip(1) =~= es.skip(1));
    } else {
        assert(key_lt(es[0].0, es[i].0));
        lemma_key_irreflexive(es[i].0);
        let rest = es.skip(1);
        assert forall|a: int, b: int|
            #![trigger rest[a], rest[b]]
            0 <= a < b < rest.len() implies key_lt(rest[a].0, rest[b].0) by {
            assert(key_lt(es[a + 1].0, es[b + 1].0));
        }
        assert(new.skip(1) =~= rest.update(i - 1, (rest[i - 1].0, v)));
        lemma_lookup_update(rest, i - 1, v, q);
    }
}

/// A table over which the entries of a run were written, the first of a key last.
spec fn overlay(t: Table, es: Seq<Entry>) -> Table
    decreases es.len(),
{
    if es.len() == 0 {
        t
    } else {
        overlay(t, es.skip(1)).insert(es[0].0, es[0].1)
    }
}

proof fn lemma_overlay(t: Table, es: Seq<Entry>)
    requires
        t.dom().finite(),
    ensures
        overlay(t, es).dom().finite(),
        weight(run_of(overlay(t, es))) <= weight(run_of(t)) + weight(es),
        forall|k: Seq<u8>| #[trigger]
            table_get(overlay(t, es), k) == match lookup(es, k) {
                Some(v) => Some(v),
                None => table_get(t, k),
            },
    decreases es.len(),
{
    if es.len() > 0 {
        let rest = overlay(t, es.skip(1));
        lemma_overlay(t, es.skip(1));
        lemma_weight_insert(rest, es[0].0, es[0].1);
        assert forall|k: Seq<u8>| #[trigger] table_get(overlay(t, es), k) == match lookup(es, k) {
            Some(v) => Some(v),
            None => table_get(t, k),
        } by {
            assert(table_get(rest, k) == match lookup(es.skip(1), k) {
                Some(v) => Some(v),
                None => table_get(t, k),
            });
        }
    }
}

/// Several runs merged take no more room than they do one by one.
proof fn lemma_merged_weight(runs: Seq<Seq<Entry>>)
    ensures
        weight(run_of(merged_table(runs))) <= total_weight(runs),
    decreases runs.len(),
{
    let ts = tables_of(runs);
    let all = merged_table(runs);
    if runs.len() == 0 {
        assert(all =~= Table::empty());
        assert(all.dom() =~= Set::empty());
        lemma_run_exists(all);
        let es = run_of(all);
        if es.len() > 0 {
            lemma_lookup_finds(es, 0);
            assert(lookup(es, es[0].0) == table_get(all, es[0].0));
        }
    } else {
        let rest = runs.skip(1);
        lemma_merged_weight(rest);
        lemma_merged_finite(rest);
        lemma_overlay(merged_table(rest), runs[0]);
        let over = overlay(merged_table(rest), runs[0]);
        assert(ts.skip(1) =~= tables_of(rest));
        assert(ts[0] == table_of(runs[0]));
        assert forall|k: Seq<u8>| #[trigger] all.contains_key(k) <==> over.contains_key(k) by {
            lemma_merged_get(runs, over, k);
        }
        assert forall|k: Seq<u8>| #[trigger] all.contains_key(k) implies all[k] == over[k] by {
            lemma_merged_get(runs, over, k);
        }
        assert(all =~= over);
    }
}

proof fn lemma_merged_get(runs: Seq<Seq<Entry>>, over: Table, k: Seq<u8>)
    requires
        runs.len() > 0,
        forall|q: Seq<u8>| #[trigger]
            table_get(over, q) == match lookup(runs[0], q) {
                Some(v) => Some(v),
                None => table_get(merged_table(runs.skip(1)), q),
            },
    ensures
        table_get(merged_table(runs), k) == table_get(over, k),
{
    let ts = tables_of(runs);
    assert(ts.skip(1) =~= tables_of(runs.skip(1)));
    assert(ts[0] == table_of(runs[0]));
    assert(resolve(ts, k) == if table_of(runs[0]).contains_key(k) {
        Some(table_of(runs[0])[k])
    } else {
        resolve(tables_of(runs.skip(1)), k)
    });
}

/// Dropping tombstones takes no room.
proof fn lemma_valued_weight(t: Table)
    requires
        t.dom().finite(),
    ensures
        weight(run_of(without_tombstones(t))) <= weight(run_of(t)),
    decreases t.dom().len(),
{
    if exists|k: Seq<u8>| #[trigger] t.contains_key(k) && t[k] is None {
        let k = choose|k: Seq<u8>| #[trigger] t.contains_key(k) && t[k] is None;
        let rest = t.remove(k);
        assert(rest.dom() =~= t.dom().remove(k));
        assert(rest.insert(k, None) =~= t);
        lemma_weight_new(rest, k, None);
        lemma_valued_weight(rest);
        assert(without_tombstones(rest) =~= without_tombstones(t));
    } else {
        assert(without_tombstones(t) =~= t);
    }
}

/// A compaction takes no more room than the tables that it merges.
pub proof fn law_compaction_weight(runs: Seq<Seq<Entry>>)
    ensures
        weight(run_of(compacted(runs, true))) <= total_weight(runs),
        weight(run_of(compacted(runs, false))) <= total_weight(runs),
{
    lemma_merged_weight(runs);
    lemma_merged_finite(runs);
    lemma_valued_weight(merged_table(runs));
}

proof fn lemma_weight_count(es: Seq<Entry>)
    ensures
        64 * es.len() <= weight(es),
    decreases es.len(),
{
    if es.len() > 0 {
        lemma_weight_count(es.skip(1));
    }
}

/// The packed entries of a block, its places and what the index says of it take no more than
/// twice the entries' weight.
proof fn lemma_packed_weight(c: Seq<Entry>)
    ensures
        packed(c).len() + 11 * c.len() <= weight(c),
    decreases c.len(),
{
    if c.len() > 0 {
        let front = c.drop_last();
        lemma_packed_weight(front);
        lemma_packed_push(front, c.last());
        assert(front.push(c.last()) =~= c);
        lemma_weight_one(c.last());
        lemma_weight_add(front, seq![c.last()]);
        assert(front + seq![c.last()] =~= c);
    }
}

proof fn lemma_blocks_weight(cs: Seq<Seq<Entry>>)
    requires
        no_empty(cs),
    ensures
        blocks_image(cs).len() + metas_image(metas(cs)).len() <= 2 * weight(joined(cs)),
        cs.len() <= joined(cs).len(),
    decreases cs.len(),
{
    if cs.len() == 0 {
        assert(metas(cs) =~= Seq::empty());
    } else {
        let front = cs.drop_last();
        let c = cs.last();
        assert forall|j: int| 0 <= j < front.len() implies (#[trigger] front[j]).len() > 0 by {
            assert(front[j] == cs[j]);
        }
        lemma_blocks_weight(front);
        assert(cs[cs.len() - 1].len() > 0);
        assert(metas(cs).drop_last() =~= metas(front)) by {
            assert forall|j: int| 0 <= j < front.len() implies meta_of(cs, j) == meta_of(
                front,
                j,
            ) by {
                assert(cs.take(j) =~= front.take(j));
            }
        }
        let m = metas(cs).last();
        lemma_be_len(m.first_key.len(), 2);
        lemma_be_len(m.offset, 8);
        lemma_be_len(m.len, 8);
        assert(meta_image(m).len() == 18 + c[0].0.len());
        law_block_add(c, c[0], 0);
        lemma_packed_weight(c);
        assert(c[0].0.len() + 64 <= weight(c));
        lemma_weight_add(joined(front), c);
    }
}

/// The machine can hold a table of any entries that take no more than two gigabytes.
pub proof fn law_table_sized(es: Seq<Entry>, block_size: nat)
    requires
        weight(es) <= 0x8000_0000,
    ensures
        table_sized(es, block_size),
{
    let cs = chunks(es, block_size);
    lemma_weight_count(es);
    law_filter_fits(es.len());
    lemma_chunks_joined(es, block_size);
    lemma_blocks_weight(cs);
    lemma_be_len(metas(cs).len(), 4);
    law_table_filter(es, block_size);
    let f = filter_of(es);
    let ks = Seq::new(es.len(), |i: int| es[i].0);
    if es.len() > 0 {
        law_filter_size(f, ks);
    }
    law_bloom_layout(f, Seq::empty());
    let (b, i, l) = (blocks_image(cs).len(), index_image(metas(cs)).len(), f.image().len());
    lemma_be_len(b, 8);
    lemma_be_len(i, 8);
    lemma_be_len(b + i, 8);
    lemma_be_len(l, 8);
    lemma_be_len(SSTABLE_MAGIC as nat, 8);
    assert(footer_image(b, i, b + i, l).len() == 40);
}

/// A table can be written of, and read back as, any entries with keys of up to 65,535 bytes
/// that take no more than two gigabytes, in blocks of up to 64 KB.
pub proof fn law_table_encodable(es: Seq<Entry>, block_size: nat)
    requires
        weight(es) <= 0x8000_0000,
        block_size <= 0x1_0000,
        forall|i: int| 0 <= i < es.len() ==> (#[trigger] es[i]).0.len() <= 65535,
    ensures
        table_encodable(es, block_size),
{
    law_table_sized(es, block_size);
    assert forall|i: int| 0 <= i < es.len() implies #[trigger] entry_encodable(es[i]) by {
        assert(es[i].0.len() <= 65535);
        lemma_weight_part(es, i);
    }
}

proof fn lemma_weight_part(es: Seq<Entry>, i: int)
    requires
        0 <= i < es.len(),
    ensures
        entry_weight(es[i]) <= weight(es),
    decreases es.len(),
{
    if i > 0 {
        assert(es.skip(1)[i - 1] == es[i]);
        lemma_weight_part(es.skip(1), i - 1);
    }
}

} // verus!
