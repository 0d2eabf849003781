//! How the entries of a table are spread over its blocks, and what that means for finding
//! them again.
use crate::entry::{lemma_lookup_finds, lemma_lookup_witness, lookup, strictly_sorted, Entry};
use crate::key::{key_le, key_lt, lemma_key_irreflexive, lemma_key_transitive};
use crate::sstable::block::{
    block_encodable, block_image, block_size_of, entry_encodable, entry_fits, law_block_add,
    lemma_packed_push, packed, packed_start,
};
use crate::sstable::builder::{chunks, split};
use vstd::prelude::*;

verus! {

/// Runs of entries, one behind the other.
pub open spec fn joined(cs: Seq<Seq<Entry>>) -> Seq<Entry>
    decreases cs.len(),
{
    if cs.len() == 0 {
        Seq::empty()
    } else {
        joined(cs.drop_last()) + cs.last()
    }
}

/// Joining runs in two parts.
pub proof fn lemma_joined_add(a: Seq<Seq<Entry>>, b: Seq<Seq<Entry>>)
    ensures
        joined(a + b) == joined(a) + joined(b),
    decreases b.len(),
{
    if b.len() == 0 {
        assert(a + b =~= a);
        assert(joined(a) + joined(b) =~= joined(a));
    } else {
        assert((a + b).drop_last() =~= a + b.drop_last());
        lemma_joined_add(a, b.drop_last());
        assert(joined(a + b) =~= joined(a) + joined(b));
    }
}

/// Where run `j` starts among the joined ones.
pub open spec fn base(cs: Seq<Seq<Entry>>, j: int) -> int {
    joined(cs.take(j)).len() as int
}

/// No run is empty.
pub open spec fn no_empty(cs: Seq<Seq<Entry>>) -> bool {
    forall|j: int| 0 <= j < cs.len() ==> (#[trigger] cs[j]).len() > 0
}

/// Entry `q` of run `j` stands at its place among the joined runs.
pub proof fn lemma_joined_at(cs: Seq<Seq<Entry>>, j: int, q: int)
    requires
        0 <= j < cs.len(),
        0 <= q < cs[j].len(),
    ensures
        0 <= base(cs, j),
        base(cs, j) + cs[j].len() <= joined(cs).len(),
        joined(cs)[base(cs, j) + q] == cs[j][q],
    decreases cs.len(),
{
    let front = cs.drop_last();
    if j == cs.len() - 1 {
        assert(cs.take(j) =~= front);
    } else {
        lemma_joined_at(front, j, q);
        assert(front.take(j) =~= cs.take(j));
    }
}

/// Every place among the joined runs belongs to one of them.
pub proof fn lemma_joined_place(cs: Seq<Seq<Entry>>, p: int) -> (r: (int, int))
    requires
        0 <= p < joined(cs).len(),
    ensures
        0 <= r.0 < cs.len(),
        0 <= r.1 < cs[r.0].len(),
        base(cs, r.0) + r.1 == p,
        joined(cs)[p] == cs[r.0][r.1],
    decreases cs.len(),
{
    let front = cs.drop_last();
    if p < joined(front).len() {
        let r = lemma_joined_place(front, p);
        assert(front.take(r.0) =~= cs.take(r.0));
        r
    } else {
        assert(cs.take(cs.len() - 1) =~= front);
        (cs.len() - 1, p - joined(front).len())
    }
}

/// Runs start one behind the other.
pub proof fn lemma_base_next(cs: Seq<Seq<Entry>>, j: int)
    requires
        0 <= j < cs.len(),
    ensures
        base(cs, j + 1) == base(cs, j) + cs[j].len(),
{
    assert(cs.take(j + 1).drop_last() =~= cs.take(j));
}

/// A later run starts no earlier than where an earlier one ends.
pub proof fn lemma_base_monotone(cs: Seq<Seq<Entry>>, i: int, j: int)
    requires
        0 <= i < j <= cs.len(),
    ensures
        base(cs, i) + cs[i].len() <= base(cs, j),
    decreases j - i,
{
    if i + 1 < j {
        lemma_base_monotone(cs, i, j - 1);
        lemma_base_next(cs, j - 1);
    } else {
        lemma_base_next(cs, i);
    }
}

/// Entries of an earlier run come before those of a later one.
pub proof fn lemma_runs_ordered(cs: Seq<Seq<Entry>>, i: int, q: int, j: int, r: int)
    requires
        strictly_sorted(joined(cs)),
        0 <= i < j < cs.len(),
        0 <= q < cs[i].len(),
        0 <= r < cs[j].len(),
    ensures
        key_lt(cs[i][q].0, cs[j][r].0),
{
    lemma_joined_at(cs, i, q);
    lemma_joined_at(cs, j, r);
    lemma_base_monotone(cs, i, j);
    assert(key_lt(joined(cs)[base(cs, i) + q].0, joined(cs)[base(cs, j) + r].0));
}

/// Each run of a sorted whole is sorted.
pub proof fn lemma_run_sorted(cs: Seq<Seq<Entry>>, i: int)
    requires
        strictly_sorted(joined(cs)),
        0 <= i < cs.len(),
    ensures
        strictly_sorted(cs[i]),
{
    assert forall|q: int, r: int|
        #![trigger cs[i][q], cs[i][r]]
        0 <= q < r < cs[i].len() implies key_lt(cs[i][q].0, cs[i][r].0) by {
        lemma_joined_at(cs, i, q);
        lemma_joined_at(cs, i, r);
        assert(key_lt(joined(cs)[base(cs, i) + q].0, joined(cs)[base(cs, i) + r].0));
    }
}

/// Run `i` is the one to look for a key in: it starts no later than the key, and the next
/// run starts after it.
pub open spec fn is_candidate(cs: Seq<Seq<Entry>>, key: Seq<u8>, i: int) -> bool {
    &&& 0 <= i < cs.len()
    &&& key_le(cs[i][0].0, key)
    &&& i + 1 < cs.len() ==> key_lt(key, cs[i + 1][0].0)
}

/// An entry with the key, wherever it is, is in the candidate run.
proof fn lemma_only_candidate(cs: Seq<Seq<Entry>>, key: Seq<u8>, i: int, j: int, q: int)
    requires
        strictly_sorted(joined(cs)),
        no_empty(cs),
        is_candidate(cs, key, i),
        0 <= j < cs.len(),
        0 <= q < cs[j].len(),
        cs[j][q].0 == key,
    ensures
        j == i,
{
    lemma_key_irreflexive(key);
    if j < i {
        lemma_runs_ordered(cs, j, q, i, 0);
        if key_lt(cs[i][0].0, key) {
            lemma_key_transitive(key, cs[i][0].0, key);
        }
    } else if j > i {
        let next = cs[i + 1];
        if j > i + 1 {
            lemma_runs_ordered(cs, i + 1, 0, j, q);
            lemma_key_transitive(key, next[0].0, key);
        } else if q > 0 {
            lemma_run_sorted(cs, i + 1);
            assert(key_lt(next[0].0, next[q].0));
            lemma_key_transitive(key, next[0].0, key);
        }
    }
}

/// Looking in the candidate run alone finds what looking in all of them would.
pub proof fn lemma_candidate_lookup(cs: Seq<Seq<Entry>>, key: Seq<u8>, i: int)
    requires
        strictly_sorted(joined(cs)),
        no_empty(cs),
        is_candidate(cs, key, i),
    ensures
        lookup(cs[i], key) == lookup(joined(cs), key),
{
    lemma_run_sorted(cs, i);
    if lookup(joined(cs), key) is Some {
        let p = lemma_lookup_witness(joined(cs), key);
        let (j, q) = lemma_joined_place(cs, p);
        lemma_only_candidate(cs, key, i, j, q);
        lemma_lookup_finds(cs[i], q);
    } else if lookup(cs[i], key) is Some {
        let q = lemma_lookup_witness(cs[i], key);
        lemma_joined_at(cs, i, q);
        lemma_lookup_finds(joined(cs), base(cs, i) + q);
    }
}

/// A key before the first one is in no run.
pub proof fn lemma_before_first(cs: Seq<Seq<Entry>>, key: Seq<u8>)
    requires
        strictly_sorted(joined(cs)),
        no_empty(cs),
        cs.len() > 0 ==> key_lt(key, cs[0][0].0),
    ensures
        lookup(joined(cs), key) is None,
{
    if lookup(joined(cs), key) is Some {
        let p = lemma_lookup_witness(joined(cs), key);
        let (j, q) = lemma_joined_place(cs, p);
        lemma_joined_at(cs, 0, 0);
        assert(base(cs, 0) == 0) by {
            assert(cs.take(0) =~= Seq::<Seq<Entry>>::empty());
        }
        lemma_key_irreflexive(key);
        if p > 0 {
            assert(key_lt(joined(cs)[0].0, joined(cs)[p].0));
            lemma_key_transitive(key, cs[0][0].0, key);
        }
    }
}

/// Cutting entries into blocks loses none and keeps their order, and leaves no block empty.
pub proof fn lemma_split_joined(es: Seq<Entry>, block_size: nat)
    ensures
        joined(split(es, block_size).done) + split(es, block_size).current == es,
        no_empty(split(es, block_size).done),
        split(es, block_size).current.len() == 0 <==> es.len() == 0,
        split(es, block_size).current.len() == 0 ==> split(es, block_size).done.len() == 0,
    decreases es.len(),
{
    if es.len() > 0 {
        let s = split(es.drop_last(), block_size);
        lemma_split_joined(es.drop_last(), block_size);
        let e = es.last();
        assert(es.drop_last().push(e) =~= es);
        if entry_fits(s.current, e, block_size) {
            assert(joined(s.done) + s.current.push(e) =~= (joined(s.done) + s.current).push(e));
        } else {
            let done = s.done.push(s.current);
            assert(done.drop_last() =~= s.done);
            assert(joined(done) + seq![e] =~= (joined(s.done) + s.current).push(e));
            assert forall|j: int| 0 <= j < done.len() implies (#[trigger] done[j]).len() > 0 by {
                if j < s.done.len() {
                    assert(done[j] == s.done[j]);
                }
            }
        }
    } else {
        assert(joined(Seq::<Seq<Entry>>::empty()) + Seq::<Entry>::empty() =~= es);
    }
}

/// The blocks of a table hold its entries, all of them and in order.
pub proof fn lemma_chunks_joined(es: Seq<Entry>, block_size: nat)
    ensures
        joined(chunks(es, block_size)) == es,
        no_empty(chunks(es, block_size)),
        chunks(es, block_size).len() == 0 <==> es.len() == 0,
{
    let s = split(es, block_size);
    lemma_split_joined(es, block_size);
    if es.len() > 0 {
        let cs = s.done.push(s.current);
        assert(cs.drop_last() =~= s.done);
        assert forall|j: int| 0 <= j < cs.len() implies (#[trigger] cs[j]).len() > 0 by {
            if j < s.done.len() {
                assert(cs[j] == s.done[j]);
            }
        }
    } else {
        assert(s.done =~= Seq::<Seq<Entry>>::empty());
        assert(joined(s.done) =~= es);
    }
}

/// A block is within the size limit, or holds a single entry.
pub open spec fn within(c: Seq<Entry>, block_size: nat) -> bool {
    c.len() <= 1 || block_size_of(c) <= block_size
}

proof fn lemma_split_within(es: Seq<Entry>, block_size: nat)
    ensures
        forall|j: int|
            0 <= j < split(es, block_size).done.len() ==> within(
                #[trigger] split(es, block_size).done[j],
                block_size,
            ),
        within(split(es, block_size).current, block_size),
    decreases es.len(),
{
    if es.len() > 0 {
        let s = split(es.drop_last(), block_size);
        lemma_split_within(es.drop_last(), block_size);
        lemma_packed_push(s.current, es.last());
        let done = split(es, block_size).done;
        assert forall|j: int| 0 <= j < done.len() implies within(
            #[trigger] done[j],
            block_size,
        ) by {
            if j < s.done.len() {
                assert(done[j] == s.done[j]);
            }
        }
    }
}

/// Every block of a table stays within the block size, unless a single entry fills it.
pub proof fn law_block_size_limit(es: Seq<Entry>, block_size: nat, j: int)
    requires
        0 <= j < chunks(es, block_size).len(),
    ensures
        within(chunks(es, block_size)[j], block_size),
{
    lemma_split_within(es, block_size);
}

/// No entry starts behind the packed entries.
proof fn lemma_start_bound(c: Seq<Entry>, i: int)
    requires
        0 <= i <= c.len(),
    ensures
        packed_start(c, i) <= packed(c).len(),
    decreases c.len(),
{
    if i < c.len() {
        lemma_start_bound(c.drop_last(), i);
        assert(c.drop_last().take(i) =~= c.take(i));
    } else {
        assert(c.take(i) =~= c);
    }
}

/// Blocks of at most 64 KB can be read back, whatever encodable entries they hold.
pub proof fn lemma_chunk_encodable(es: Seq<Entry>, block_size: nat, j: int)
    requires
        block_size <= 0x1_0000,
        forall|i: int| 0 <= i < es.len() ==> #[trigger] entry_encodable(es[i]),
        0 <= j < chunks(es, block_size).len(),
    ensures
        block_encodable(chunks(es, block_size)[j]),
{
    let cs = chunks(es, block_size);
    let c = cs[j];
    lemma_chunks_joined(es, block_size);
    law_block_size_limit(es, block_size, j);
    assert forall|i: int| 0 <= i < c.len() implies #[trigger] entry_encodable(c[i]) by {
        lemma_joined_at(cs, j, i);
        assert(entry_encodable(es[base(cs, j) + i]));
    }
    assert forall|i: int| 0 <= i < c.len() implies #[trigger] packed_start(c, i) < 0x1_0000 by {
        if c.len() == 1 {
            assert(c.take(0) =~= Seq::<Entry>::empty());
            assert(packed_start(c, 0) == 0);
        } else {
            lemma_start_bound(c, i);
        }
    }
}

proof fn lemma_split_filled(es: Seq<Entry>, block_size: nat, j: int)
    requires
        0 <= j < split(es, block_size).done.len(),
    ensures
        ({
            let s = split(es, block_size);
            let next = if j + 1 < s.done.len() {
                s.done[j + 1]
            } else {
                s.current
            };
            next.len() > 0 && !entry_fits(s.done[j], next[0], block_size)
        }),
    decreases es.len(),
{
    let before = split(es.drop_last(), block_size);
    lemma_split_joined(es.drop_last(), block_size);
    if j < before.done.len() {
        lemma_split_filled(es.drop_last(), block_size, j);
    }
}

/// A block is filled before the next one is begun: with the first entry of the next block it
/// would have more bytes than the block size.
pub proof fn law_blocks_filled(es: Seq<Entry>, block_size: nat, j: int)
    requires
        0 <= j,
        j + 1 < chunks(es, block_size).len(),
    ensures
        block_image(chunks(es, block_size)[j].push(chunks(es, block_size)[j + 1][0])).len()
            > block_size,
{
    let cs = chunks(es, block_size);
    lemma_chunks_joined(es, block_size);
    lemma_split_joined(es, block_size);
    lemma_split_filled(es, block_size, j);
    law_block_add(cs[j], cs[j + 1][0], block_size);
}

/// No block of a table has more bytes than the block size, unless a single entry fills it.
pub proof fn law_block_bytes(es: Seq<Entry>, block_size: nat, j: int)
    requires
        0 <= j < chunks(es, block_size).len(),
    ensures
        chunks(es, block_size)[j].len() == 1 || block_image(chunks(es, block_size)[j]).len()
            <= block_size,
{
    let c = chunks(es, block_size)[j];
    lemma_chunks_joined(es, block_size);
    law_block_size_limit(es, block_size, j);
    assert(c.len() > 0);
    law_block_add(c, c[0], block_size);
}

} // verus!
