//! Entries, runs of entries, and tiers of them: the mathematical side of every table.
//!
//! An entry pairs a key with a value, or with nothing when the key was deleted. Such an
//! entry without a value is a tombstone: it hides every older entry of its key.
use crate::codec::bytes_of;
use crate::key::{
    compare_keys, key_lt, lemma_key_irreflexive, lemma_key_total, lemma_key_transitive, KeyOrder,
};
use bytes::Bytes;
use vstd::prelude::*;
use vstd::set_lib::lemma_set_subset_finite;

verus! {

/// A key with its value, or with `None` for a tombstone.
pub type Entry = (Seq<u8>, Option<Seq<u8>>);

/// What a table says of each key that it knows.
pub type Table = Map<Seq<u8>, Option<Seq<u8>>>;

/// The byte string behind an optional handle.
pub open spec fn value_of(v: Option<Bytes>) -> Option<Seq<u8>> {
    match v {
        Some(b) => Some(bytes_of(b)),
        None => None,
    }
}

/// The byte strings behind what a lookup returned.
pub open spec fn found_of(v: Option<Option<Bytes>>) -> Option<Option<Seq<u8>>> {
    match v {
        Some(x) => Some(value_of(x)),
        None => None,
    }
}

/// The byte strings behind a pair of handles.
pub open spec fn entry_of(e: (Bytes, Option<Bytes>)) -> Entry {
    (bytes_of(e.0), value_of(e.1))
}

/// The byte strings behind a list of pairs of handles.
pub open spec fn entries_of(es: Seq<(Bytes, Option<Bytes>)>) -> Seq<Entry> {
    Seq::new(es.len(), |i: int| entry_of(es[i]))
}

/// Each key comes before the next one, so no key occurs twice.
pub open spec fn strictly_sorted(es: Seq<Entry>) -> bool {
    forall|i: int, j: int|
        #![trigger es[i], es[j]]
        0 <= i < j < es.len() ==> key_lt(es[i].0, es[j].0)
}

/// The value of the first entry with the given key, if there is one.
pub open spec fn lookup(es: Seq<Entry>, key: Seq<u8>) -> Option<Option<Seq<u8>>>
    decreases es.len(),
{
    if es.len() == 0 {
        None
    } else if es[0].0 == key {
        Some(es[0].1)
    } else {
        lookup(es.skip(1), key)
    }
}

/// The table that a run of entries spells: the first entry of a key counts.
pub open spec fn table_of(es: Seq<Entry>) -> Table {
    Map::new(|k: Seq<u8>| lookup(es, k) is Some, |k: Seq<u8>| lookup(es, k)->0)
}

/// What a table says of a key, if anything.
pub open spec fn table_get(t: Table, key: Seq<u8>) -> Option<Option<Seq<u8>>> {
    if t.contains_key(key) {
        Some(t[key])
    } else {
        None
    }
}

/// What the first tier that knows the key says of it. Tiers are ordered from newest to
/// oldest.
pub open spec fn resolve(tiers: Seq<Table>, key: Seq<u8>) -> Option<Option<Seq<u8>>>
    decreases tiers.len(),
{
    if tiers.len() == 0 {
        None
    } else if tiers[0].contains_key(key) {
        Some(tiers[0][key])
    } else {
        resolve(tiers.skip(1), key)
    }
}

/// A tombstone and an unknown key look alike from outside: there is no value.
pub open spec fn live(found: Option<Option<Seq<u8>>>) -> Option<Seq<u8>> {
    match found {
        Some(v) => v,
        None => None,
    }
}

/// An entry that is in a run is found by its key, whatever its place.
pub proof fn lemma_lookup_finds(es: Seq<Entry>, i: int)
    requires
        0 <= i < es.len(),
        strictly_sorted(es),
    ensures
        lookup(es, es[i].0) == Some(es[i].1),
    decreases es.len(),
{
    if i > 0 {
        lemma_key_irreflexive(es[i].0);
        assert(key_lt(es[0].0, es[i].0));
        assert(es.skip(1)[i - 1] == es[i]);
        lemma_lookup_finds(es.skip(1), i - 1);
    }
}

/// What a lookup finds is the value of an entry of the run.
pub proof fn lemma_lookup_witness(es: Seq<Entry>, key: Seq<u8>) -> (i: int)
    requires
        lookup(es, key) is Some,
    ensures
        0 <= i < es.len(),
        es[i].0 == key,
        lookup(es, key) == Some(es[i].1),
        forall|j: int| 0 <= j < i ==> es[j].0 != key,
    decreases es.len(),
{
    if es[0].0 == key {
        0
    } else {
        let i = lemma_lookup_witness(es.skip(1), key);
        assert(es.skip(1)[i] == es[i + 1]);
        assert forall|j: int| 0 <= j < i + 1 implies es[j].0 != key by {
            if j > 0 {
                assert(es.skip(1)[j - 1] == es[j]);
            }
        }
        i + 1
    }
}

/// A key that no entry has is not found.
pub proof fn lemma_lookup_absent(es: Seq<Entry>, key: Seq<u8>)
    requires
        forall|i: int| 0 <= i < es.len() ==> es[i].0 != key,
    ensures
        lookup(es, key) is None,
{
    if lookup(es, key) is Some {
        let i = lemma_lookup_witness(es, key);
    }
}

/// A table looks up what its run does.
pub proof fn lemma_table_get(es: Seq<Entry>, key: Seq<u8>)
    ensures
        table_get(table_of(es), key) == lookup(es, key),
{
}

/// The tables that several runs spell.
pub open spec fn tables_of(runs: Seq<Seq<Entry>>) -> Seq<Table> {
    Seq::new(runs.len(), |i: int| table_of(runs[i]))
}

/// The first tier that knows a key decides.
pub proof fn lemma_resolve_first(tiers: Seq<Table>, key: Seq<u8>, i: int)
    requires
        0 <= i < tiers.len(),
        tiers[i].contains_key(key),
        forall|j: int| 0 <= j < i ==> !(#[trigger] tiers[j]).contains_key(key),
    ensures
        resolve(tiers, key) == Some(tiers[i][key]),
    decreases tiers.len(),
{
    if i > 0 {
        assert(!tiers[0].contains_key(key));
        assert forall|j: int| 0 <= j < i - 1 implies !(#[trigger] tiers.skip(1)[j]).contains_key(
            key,
        ) by {
            assert(tiers.skip(1)[j] == tiers[j + 1]);
        }
        assert(tiers.skip(1)[i - 1] == tiers[i]);
        lemma_resolve_first(tiers.skip(1), key, i - 1);
    }
}

/// A key that no tier knows is unknown.
pub proof fn lemma_resolve_none(tiers: Seq<Table>, key: Seq<u8>)
    requires
        forall|j: int| 0 <= j < tiers.len() ==> !(#[trigger] tiers[j]).contains_key(key),
    ensures
        resolve(tiers, key) is None,
    decreases tiers.len(),
{
    if tiers.len() > 0 {
        assert(!tiers[0].contains_key(key));
        assert forall|j: int| 0 <= j < tiers.len() - 1 implies !(#[trigger] tiers.skip(
            1,
        )[j]).contains_key(key) by {
            assert(tiers.skip(1)[j] == tiers[j + 1]);
        }
        lemma_resolve_none(tiers.skip(1), key);
    }
}

/// Tiers that say the same of a key one by one say the same of it together.
pub proof fn lemma_resolve_same(a: Seq<Table>, b: Seq<Table>, key: Seq<u8>)
    requires
        a.len() == b.len(),
        forall|i: int| 0 <= i < a.len() ==> table_get(#[trigger] a[i], key) == table_get(b[i], key),
    ensures
        resolve(a, key) == resolve(b, key),
    decreases a.len(),
{
    if a.len() > 0 {
        assert(table_get(a[0], key) == table_get(b[0], key));
        assert forall|i: int| 0 <= i < a.len() - 1 implies table_get(#[trigger] a.skip(1)[i], key)
            == table_get(b.skip(1)[i], key) by {
            assert(a.skip(1)[i] == a[i + 1]);
        }
        lemma_resolve_same(a.skip(1), b.skip(1), key);
    }
}

/// A key that is known is known to a first tier.
pub proof fn lemma_resolve_witness(tiers: Seq<Table>, key: Seq<u8>) -> (i: int)
    requires
        resolve(tiers, key) is Some,
    ensures
        0 <= i < tiers.len(),
        tiers[i].contains_key(key),
        resolve(tiers, key) == Some(tiers[i][key]),
        forall|j: int| 0 <= j < i ==> !(#[trigger] tiers[j]).contains_key(key),
    decreases tiers.len(),
{
    if tiers[0].contains_key(key) {
        0
    } else {
        let i = lemma_resolve_witness(tiers.skip(1), key);
        assert(tiers.skip(1)[i] == tiers[i + 1]);
        assert forall|j: int| 0 <= j < i + 1 implies !(#[trigger] tiers[j]).contains_key(key) by {
            if j > 0 {
                assert(tiers.skip(1)[j - 1] == tiers[j]);
            }
        }
        i + 1
    }
}

/// Newer tiers decide first, then older ones.
pub proof fn lemma_resolve_add(a: Seq<Table>, b: Seq<Table>, key: Seq<u8>)
    ensures
        resolve(a + b, key) == match resolve(a, key) {
            Some(v) => Some(v),
            None => resolve(b, key),
        },
    decreases a.len(),
{
    if a.len() == 0 {
        assert(a + b =~= b);
    } else {
        assert((a + b).skip(1) =~= a.skip(1) + b);
        lemma_resolve_add(a.skip(1), b, key);
    }
}

/// One entry more is found where no entry before it has its key.
pub proof fn lemma_lookup_push(es: Seq<Entry>, e: Entry, key: Seq<u8>)
    ensures
        lookup(es.push(e), key) == match lookup(es, key) {
            Some(v) => Some(v),
            None => if e.0 == key {
                Some(e.1)
            } else {
                None
            },
        },
    decreases es.len(),
{
    if es.len() == 0 {
        assert(es.push(e)[0] == e);
        assert(es.push(e).skip(1) =~= Seq::<Entry>::empty());
        assert(lookup(es.push(e).skip(1), key) is None);
    } else {
        assert(es.push(e)[0] == es[0]);
        assert(es.push(e).skip(1) =~= es.skip(1).push(e));
        lemma_lookup_push(es.skip(1), e, key);
    }
}

/// The run spells the table: sorted, and with an entry for each key that the table knows.
pub open spec fn is_run_of(es: Seq<Entry>, t: Table) -> bool {
    &&& strictly_sorted(es)
    &&& forall|k: Seq<u8>| #[trigger] lookup(es, k) == table_get(t, k)
}

/// The sorted run that spells a table.
pub open spec fn run_of(t: Table) -> Seq<Entry> {
    choose|es: Seq<Entry>| is_run_of(es, t)
}

/// A table has one sorted run.
pub proof fn lemma_run_unique(a: Seq<Entry>, b: Seq<Entry>)
    requires
        strictly_sorted(a),
        strictly_sorted(b),
        forall|k: Seq<u8>| #[trigger] lookup(a, k) == lookup(b, k),
    ensures
        a == b,
    decreases a.len(),
{
    if a.len() == 0 {
        if b.len() > 0 {
            lemma_lookup_finds(b, 0);
            assert(lookup(a, b[0].0) == lookup(b, b[0].0));
        }
        assert(a =~= b);
    } else {
        let k = a[0].0;
        lemma_lookup_finds(a, 0);
        assert(lookup(a, k) == lookup(b, k));
        let j = lemma_lookup_witness(b, k);
        let m = b[0].0;
        lemma_lookup_finds(b, 0);
        assert(lookup(a, m) == lookup(b, m));
        let i = lemma_lookup_witness(a, m);
        if j > 0 {
            assert(key_lt(b[0].0, b[j].0));
            if i > 0 {
                assert(key_lt(a[0].0, a[i].0));
                lemma_key_transitive(k, m, k);
            }
            lemma_key_irreflexive(k);
        }
        let (x, y) = (a.skip(1), b.skip(1));
        lemma_skip_sorted(a);
        lemma_skip_sorted(b);
        assert forall|q: Seq<u8>| #[trigger] lookup(x, q) == lookup(y, q) by {
            assert(lookup(a, q) == lookup(b, q));
        }
        lemma_run_unique(x, y);
        assert(a =~= seq![a[0]] + x);
        assert(b =~= seq![b[0]] + y);
    }
}

/// The run that spells a table is the table's run.
pub proof fn lemma_run_of(es: Seq<Entry>, t: Table)
    requires
        is_run_of(es, t),
    ensures
        es == run_of(t),
{
    let other = run_of(t);
    assert(is_run_of(other, t));
    assert forall|k: Seq<u8>| #[trigger] lookup(es, k) == lookup(other, k) by {
        assert(lookup(other, k) == table_get(t, k));
    }
    lemma_run_unique(es, other);
}

/// A sorted run with one more entry, put where it belongs.
pub open spec fn put_sorted(es: Seq<Entry>, e: Entry) -> Seq<Entry>
    decreases es.len(),
{
    if es.len() == 0 || key_lt(e.0, es[0].0) {
        seq![e] + es
    } else {
        seq![es[0]] + put_sorted(es.skip(1), e)
    }
}

/// A run stays sorted behind an entry that comes before its first one.
proof fn lemma_cons_sorted(e: Entry, es: Seq<Entry>)
    requires
        strictly_sorted(es),
        es.len() > 0 ==> key_lt(e.0, es[0].0),
    ensures
        strictly_sorted(seq![e] + es),
        forall|k: Seq<u8>| #[trigger]
            lookup(seq![e] + es, k) == if k == e.0 {
                Some(e.1)
            } else {
                lookup(es, k)
            },
{
    let all = seq![e] + es;
    assert(all.skip(1) =~= es);
    assert forall|i: int, j: int|
        #![trigger all[i], all[j]]
        0 <= i < j < all.len() implies key_lt(all[i].0, all[j].0) by {
        assert(all[j] == es[j - 1]);
        if i > 0 {
            assert(all[i] == es[i - 1]);
        } else if j > 1 {
            assert(key_lt(es[0].0, es[j - 1].0));
            lemma_key_transitive(e.0, es[0].0, es[j - 1].0);
        }
    }
}

/// A sorted run stays sorted with one more entry, and finds it.
pub proof fn lemma_put_sorted(es: Seq<Entry>, e: Entry)
    requires
        strictly_sorted(es),
        lookup(es, e.0) is None,
    ensures
        strictly_sorted(put_sorted(es, e)),
        put_sorted(es, e).len() > 0,
        put_sorted(es, e)[0] == e || es.len() > 0 && put_sorted(es, e)[0] == es[0],
        forall|k: Seq<u8>| #[trigger]
            lookup(put_sorted(es, e), k) == if k == e.0 {
                Some(e.1)
            } else {
                lookup(es, k)
            },
    decreases es.len(),
{
    if es.len() == 0 || key_lt(e.0, es[0].0) {
        lemma_cons_sorted(e, es);
    } else {
        let rest = es.skip(1);
        lemma_skip_sorted(es);
        lemma_put_sorted(rest, e);
        lemma_key_total(e.0, es[0].0);
        if rest.len() > 0 {
            assert(key_lt(es[0].0, es[1].0));
        }
        lemma_cons_sorted(es[0], put_sorted(rest, e));
    }
}

/// A table that knows finitely many keys has a sorted run.
pub proof fn lemma_run_exists(t: Table)
    requires
        t.dom().finite(),
    ensures
        is_run_of(run_of(t), t),
    decreases t.dom().len(),
{
    if t.dom().len() == 0 {
        let es = Seq::<Entry>::empty();
        assert forall|k: Seq<u8>| #[trigger] lookup(es, k) == table_get(t, k) by {
            assert(!t.dom().contains(k));
        }
        assert(is_run_of(es, t));
    } else {
        let k = t.dom().choose();
        let rest = t.remove(k);
        assert(rest.dom() =~= t.dom().remove(k));
        lemma_run_exists(rest);
        let es = run_of(rest);
        assert(lookup(es, k) == table_get(rest, k));
        lemma_put_sorted(es, (k, t[k]));
        let all = put_sorted(es, (k, t[k]));
        assert forall|q: Seq<u8>| #[trigger] lookup(all, q) == table_get(t, q) by {
            assert(lookup(es, q) == table_get(rest, q));
        }
        assert(is_run_of(all, t));
    }
}

/// A run knows finitely many keys.
proof fn lemma_table_finite(es: Seq<Entry>)
    ensures
        table_of(es).dom().finite(),
    decreases es.len(),
{
    if es.len() == 0 {
        assert(table_of(es).dom() =~= Set::empty());
    } else {
        lemma_table_finite(es.skip(1));
        assert(table_of(es).dom() =~= table_of(es.skip(1)).dom().insert(es[0].0));
    }
}

/// Several runs together know finitely many keys.
pub proof fn lemma_merged_finite(runs: Seq<Seq<Entry>>)
    ensures
        merged_table(runs).dom().finite(),
        without_tombstones(merged_table(runs)).dom().finite(),
    decreases runs.len(),
{
    let ts = tables_of(runs);
    let all = merged_table(runs).dom();
    if runs.len() == 0 {
        assert(all =~= Set::empty());
    } else {
        let rest = runs.skip(1);
        lemma_merged_finite(rest);
        lemma_table_finite(runs[0]);
        assert(ts.skip(1) =~= tables_of(rest));
        assert(all =~= table_of(runs[0]).dom().union(merged_table(rest).dom()));
    }
    lemma_set_subset_finite(all, without_tombstones(merged_table(runs)).dom());
}

/// Without its first entry a sorted run is sorted, and knows all but that entry's key.
pub proof fn lemma_skip_sorted(es: Seq<Entry>)
    requires
        strictly_sorted(es),
        es.len() > 0,
    ensures
        strictly_sorted(es.skip(1)),
        lookup(es.skip(1), es[0].0) is None,
{
    let rest = es.skip(1);
    assert forall|i: int, j: int|
        #![trigger rest[i], rest[j]]
        0 <= i < j < rest.len() implies key_lt(rest[i].0, rest[j].0) by {
        assert(key_lt(es[i + 1].0, es[j + 1].0));
    }
    assert forall|i: int| 0 <= i < rest.len() implies rest[i].0 != es[0].0 by {
        assert(key_lt(es[0].0, es[i + 1].0));
        lemma_key_irreflexive(es[0].0);
    }
    lemma_lookup_absent(rest, es[0].0);
}

/// What several runs, from newest to oldest, say together.
pub open spec fn merged_table(runs: Seq<Seq<Entry>>) -> Table {
    Map::new(
        |k: Seq<u8>| resolve(tables_of(runs), k) is Some,
        |k: Seq<u8>| resolve(tables_of(runs), k)->0,
    )
}

/// A table without its tombstones.
pub open spec fn without_tombstones(t: Table) -> Table {
    Map::new(|k: Seq<u8>| t.contains_key(k) && t[k] is Some, |k: Seq<u8>| t[k])
}

/// Keys with their values, as a scan reports them.
pub type Pairs = Seq<(Seq<u8>, Seq<u8>)>;

/// Each key comes before the next one.
pub open spec fn pairs_sorted(ps: Pairs) -> bool {
    forall|i: int, j: int|
        #![trigger ps[i], ps[j]]
        0 <= i < j < ps.len() ==> key_lt(ps[i].0, ps[j].0)
}

/// The value that goes with a key, if the key is there.
pub open spec fn pair_lookup(ps: Pairs, key: Seq<u8>) -> Option<Seq<u8>>
    decreases ps.len(),
{
    if ps.len() == 0 {
        None
    } else if ps[0].0 == key {
        Some(ps[0].1)
    } else {
        pair_lookup(ps.skip(1), key)
    }
}

/// A key is at or after `start` and before `end`, where these are given.
pub open spec fn in_range(key: Seq<u8>, start: Option<Seq<u8>>, end: Option<Seq<u8>>) -> bool {
    &&& start matches Some(s) ==> !key_lt(key, s)
    &&& end matches Some(e) ==> key_lt(key, e)
}

/// A range reaches from its start, which belongs to it, to its end, which does not. Without a
/// start it begins before every key, and without an end it goes on behind every key, whatever
/// the other bound is.
pub proof fn law_in_range(key: Seq<u8>, start: Option<Seq<u8>>, end: Option<Seq<u8>>)
    ensures
        in_range(key, None, None),
        in_range(key, start, end) <==> in_range(key, start, None) && in_range(key, None, end),
        start is Some ==> (in_range(key, start, None) <==> start == Some(key) || key_lt(
            start->0,
            key,
        )),
        end is Some ==> (in_range(key, None, end) <==> key_lt(key, end->0)),
{
    if let Some(s) = start {
        lemma_key_total(s, key);
        lemma_key_irreflexive(key);
        if key_lt(s, key) && key_lt(key, s) {
            lemma_key_transitive(key, s, key);
        }
    }
}

/// The entries whose keys are in a range, in their order.
pub open spec fn restrict(
    es: Seq<Entry>,
    start: Option<Seq<u8>>,
    end: Option<Seq<u8>>,
) -> Seq<Entry>
    decreases es.len(),
{
    if es.len() == 0 {
        Seq::empty()
    } else {
        let rest = restrict(es.drop_last(), start, end);
        if in_range(es.last().0, start, end) {
            rest.push(es.last())
        } else {
            rest
        }
    }
}

/// The byte string behind an optional slice.
pub open spec fn bound_of(b: Option<&[u8]>) -> Option<Seq<u8>> {
    match b {
        Some(s) => Some(s@),
        None => None,
    }
}

/// Whether a key is in the range [start, end).
pub(crate) fn key_in_range(key: &[u8], start: Option<&[u8]>, end: Option<&[u8]>) -> (b: bool)
    ensures
        b == in_range(key@, bound_of(start), bound_of(end)),
{
    if let Some(s) = start {
        if let KeyOrder::Less = compare_keys(key, s) {
            return false;
        }
    }
    if let Some(e) = end {
        if let KeyOrder::Less = compare_keys(key, e) {
            return true;
        }
        return false;
    }
    true
}

/// Restricting two runs one after the other.
pub proof fn lemma_restrict_add(
    a: Seq<Entry>,
    b: Seq<Entry>,
    start: Option<Seq<u8>>,
    end: Option<Seq<u8>>,
)
    ensures
        restrict(a + b, start, end) == restrict(a, start, end) + restrict(b, start, end),
    decreases b.len(),
{
    if b.len() == 0 {
        assert(a + b =~= a);
        assert(restrict(a, start, end) + restrict(b, start, end) =~= restrict(a, start, end));
    } else {
        assert((a + b).drop_last() =~= a + b.drop_last());
        lemma_restrict_add(a, b.drop_last(), start, end);
        assert(restrict(a + b, start, end) =~= restrict(a, start, end) + restrict(b, start, end));
    }
}

/// A run without a key in the range is restricted to nothing.
pub proof fn lemma_restrict_none(es: Seq<Entry>, start: Option<Seq<u8>>, end: Option<Seq<u8>>)
    requires
        forall|i: int| 0 <= i < es.len() ==> !in_range((#[trigger] es[i]).0, start, end),
    ensures
        restrict(es, start, end) == Seq::<Entry>::empty(),
    decreases es.len(),
{
    if es.len() > 0 {
        assert(!in_range(es[es.len() - 1].0, start, end));
        lemma_restrict_none(es.drop_last(), start, end);
    }
}

/// What is left of a run is what was in it and in the range.
proof fn lemma_restrict_contains(
    es: Seq<Entry>,
    start: Option<Seq<u8>>,
    end: Option<Seq<u8>>,
    e: Entry,
)
    ensures
        restrict(es, start, end).contains(e) <==> es.contains(e) && in_range(e.0, start, end),
    decreases es.len(),
{
    if es.len() > 0 {
        let front = es.drop_last();
        let rest = restrict(front, start, end);
        let last = es.last();
        lemma_restrict_contains(front, start, end, e);
        assert(front.push(last) =~= es);
        if es.contains(e) {
            let i = choose|i: int| 0 <= i < es.len() && es[i] == e;
            if i < front.len() {
                assert(front[i] == e);
            }
        }
        if front.contains(e) {
            let i = choose|i: int| 0 <= i < front.len() && front[i] == e;
            assert(es[i] == e);
        }
        assert(es[es.len() - 1] == last);
        let all = rest.push(last);
        assert(all[rest.len() as int] == last);
        if rest.contains(e) {
            let i = choose|i: int| 0 <= i < rest.len() && rest[i] == e;
            assert(all[i] == e);
        }
        if all.contains(e) && e != last {
            let i = choose|i: int| 0 <= i < all.len() && all[i] == e;
            assert(rest[i] == e);
        }
    }
}

/// A sorted run restricted to a range is sorted, and knows the keys of the range and no
/// others.
pub proof fn lemma_restrict_sorted(es: Seq<Entry>, start: Option<Seq<u8>>, end: Option<Seq<u8>>)
    requires
        strictly_sorted(es),
    ensures
        strictly_sorted(restrict(es, start, end)),
        forall|k: Seq<u8>| #[trigger]
            lookup(restrict(es, start, end), k) == if in_range(k, start, end) {
                lookup(es, k)
            } else {
                None
            },
    decreases es.len(),
{
    let part = restrict(es, start, end);
    if es.len() > 0 {
        let front = es.drop_last();
        let rest = restrict(front, start, end);
        assert forall|i: int, j: int|
            #![trigger front[i], front[j]]
            0 <= i < j < front.len() implies key_lt(front[i].0, front[j].0) by {
            assert(key_lt(es[i].0, es[j].0));
        }
        lemma_restrict_sorted(front, start, end);
        assert forall|i: int, j: int|
            #![trigger part[i], part[j]]
            0 <= i < j < part.len() implies key_lt(part[i].0, part[j].0) by {
            if j < rest.len() {
                assert(key_lt(rest[i].0, rest[j].0));
            } else {
                lemma_restrict_contains(front, start, end, rest[i]);
                let q = choose|q: int| 0 <= q < front.len() && front[q] == rest[i];
                assert(key_lt(es[q].0, es[es.len() - 1].0));
            }
        }
    }
    assert forall|k: Seq<u8>| #[trigger] lookup(part, k) == if in_range(k, start, end) {
        lookup(es, k)
    } else {
        None
    } by {
        if lookup(part, k) is Some {
            let i = lemma_lookup_witness(part, k);
            lemma_restrict_contains(es, start, end, part[i]);
            let q = choose|q: int| 0 <= q < es.len() && es[q] == part[i];
            lemma_lookup_finds(es, q);
        } else if in_range(k, start, end) && lookup(es, k) is Some {
            let q = lemma_lookup_witness(es, k);
            lemma_restrict_contains(es, start, end, es[q]);
            let i = choose|i: int| 0 <= i < part.len() && part[i] == es[q];
            lemma_lookup_finds(part, i);
        }
    }
}

/// A second handle on each part of an optional value.
pub(crate) fn share_value(v: &Option<Bytes>) -> (r: Option<Bytes>)
    ensures
        value_of(r) == value_of(*v),
{
    match v {
        Some(b) => Some(b.clone()),
        None => None,
    }
}

/// A handle stands for its bytes: none for none, one for one.
pub proof fn law_handles(key: Bytes, value: Bytes)
    ensures
        value_of(None) is None,
        value_of(Some(value)) == Some(bytes_of(value)),
        found_of(None) is None,
        found_of(Some(None)) == Some(None::<Seq<u8>>),
        found_of(Some(Some(value))) == Some(Some(bytes_of(value))),
        entry_of((key, Some(value))) == (bytes_of(key), Some(bytes_of(value))),
        entry_of((key, None)) == (bytes_of(key), None::<Seq<u8>>),
{
}

/// A list of handles stands for as many entries in the same order.
pub proof fn law_entries_of(es: Seq<(Bytes, Option<Bytes>)>, i: int)
    ensures
        entries_of(es).len() == es.len(),
        0 <= i < es.len() ==> entries_of(es)[i] == entry_of(es[i]),
{
}

/// A bound stands for its bytes.
pub proof fn law_bounds(b: &[u8])
    ensures
        bound_of(None) is None,
        bound_of(Some(b)) == Some(b@),
{
}

/// Tiers say of a key what the first of them says that knows it.
pub proof fn law_resolve(tiers: Seq<Table>, key: Seq<u8>, i: int)
    ensures
        0 <= i < tiers.len() && tiers[i].contains_key(key) && (forall|j: int|
            0 <= j < i ==> !(#[trigger] tiers[j]).contains_key(key)) ==> resolve(tiers, key)
            == Some(tiers[i][key]),
        (forall|j: int| 0 <= j < tiers.len() ==> !(#[trigger] tiers[j]).contains_key(key))
            ==> resolve(tiers, key) is None,
{
    if 0 <= i < tiers.len() && tiers[i].contains_key(key) && (forall|j: int|
        0 <= j < i ==> !(#[trigger] tiers[j]).contains_key(key)) {
        lemma_resolve_first(tiers, key, i);
    }
    if forall|j: int| 0 <= j < tiers.len() ==> !(#[trigger] tiers[j]).contains_key(key) {
        lemma_resolve_none(tiers, key);
    }
}

/// A run finds a key's first entry, and nothing for a key that has none.
pub proof fn law_lookup(es: Seq<Entry>, key: Seq<u8>, i: int)
    ensures
        0 <= i < es.len() && es[i].0 == key && (forall|j: int|
            0 <= j < i ==> (#[trigger] es[j]).0 != key) ==> lookup(es, key) == Some(es[i].1),
        (forall|j: int| 0 <= j < es.len() ==> (#[trigger] es[j]).0 != key) ==> lookup(es, key)
            is None,
{
    if lookup(es, key) is Some {
        let p = lemma_lookup_witness(es, key);
        if 0 <= i < es.len() && es[i].0 == key && (forall|j: int|
            0 <= j < i ==> (#[trigger] es[j]).0 != key) {
            if p < i {
                assert(es[p].0 != key);
            }
        }
    } else if 0 <= i < es.len() && es[i].0 == key {
        lemma_lookup_some(es, i);
    }
}

/// A key that an entry has is found.
proof fn lemma_lookup_some(es: Seq<Entry>, i: int)
    requires
        0 <= i < es.len(),
    ensures
        lookup(es, es[i].0) is Some,
    decreases es.len(),
{
    if i > 0 {
        assert(es.skip(1)[i - 1] == es[i]);
        lemma_lookup_some(es.skip(1), i - 1);
    }
}

/// A run is sorted when each key comes before the next ones; a table's run is sorted and has an
/// entry for each of its keys, with what it says of it, and no other.
pub proof fn law_run(t: Table, i: int, j: int)
    requires
        is_run_of(run_of(t), t),
    ensures
        0 <= i < j < run_of(t).len() ==> key_lt(run_of(t)[i].0, run_of(t)[j].0),
        forall|k: Seq<u8>| #[trigger] t.contains_key(k) ==> run_of(t).contains((k, t[k])),
        0 <= i < run_of(t).len() ==> t.contains_key(run_of(t)[i].0) && t[run_of(t)[i].0] == run_of(
            t,
        )[i].1,
{
    let es = run_of(t);
    if 0 <= i < j < es.len() {
        assert(key_lt(es[i].0, es[j].0));
    }
    assert forall|k: Seq<u8>| #[trigger] t.contains_key(k) implies es.contains((k, t[k])) by {
        assert(lookup(es, k) == table_get(t, k));
        let p = lemma_lookup_witness(es, k);
        assert(es[p] == (k, t[k]));
    }
    if 0 <= i < es.len() {
        lemma_lookup_finds(es, i);
        assert(lookup(es, es[i].0) == table_get(t, es[i].0));
    }
}

/// Restricting a run goes through its entries in their order and keeps each one whose key is at
/// or after the start and before the end.
pub proof fn law_restrict(
    es: Seq<Entry>,
    e: Entry,
    start: Option<Seq<u8>>,
    end: Option<Seq<u8>>,
)
    ensures
        restrict(Seq::empty(), start, end) == Seq::<Entry>::empty(),
        restrict(es.push(e), start, end) == if (start is None || start == Some(e.0) || key_lt(
            start->0,
            e.0,
        )) && (end is None || key_lt(e.0, end->0)) {
            restrict(es, start, end).push(e)
        } else {
            restrict(es, start, end)
        },
{
    assert(es.push(e).drop_last() =~= es);
    law_in_range(e.0, start, end);
}

/// A key has the value that its newest entry has, and none when that is a tombstone or when there
/// is no entry.
pub proof fn law_live(v: Seq<u8>)
    ensures
        live(Some(Some(v))) == Some(v),
        live(Some(None)) is None,
        live(None) is None,
{
}

} // verus!
