//! Merging sorted streams of entries into one.
use crate::codec::{as_slice, bytes_of};
use crate::entry::{
    entry_of, lemma_lookup_witness, lemma_resolve_first, lemma_resolve_none, lemma_resolve_same,
    lemma_resolve_witness, lemma_table_get, live, lookup, pair_lookup, pairs_sorted, resolve,
    strictly_sorted, table_get, tables_of, Entry, Pairs,
};
use crate::error::{LsmError, Result};
use crate::heap::{is_top, lemma_precedes_asymmetric, precedes, HeapNode, MinHeap};
use crate::key::{
    compare_keys, key_lt, lemma_key_irreflexive, lemma_key_total, lemma_key_transitive, KeyOrder,
};
use bytes::Bytes;
use std::collections::VecDeque;
use vstd::prelude::*;

verus! {

/// What a stream yields: an entry, or why it could not be read.
pub type Item = std::result::Result<Entry, LsmError>;

/// What a merge yields: a key with its value, or why a stream could not be read.
pub type Merged = std::result::Result<(Seq<u8>, Seq<u8>), LsmError>;

/// The byte strings behind an item of a stream.
pub open spec fn item_of(r: Result<(Bytes, Option<Bytes>)>) -> Item {
    match r {
        Ok(e) => Ok(entry_of(e)),
        Err(e) => Err(e),
    }
}

/// The byte strings behind the items of a stream.
pub open spec fn items_of(s: Seq<Result<(Bytes, Option<Bytes>)>>) -> Seq<Item> {
    Seq::new(s.len(), |i: int| item_of(s[i]))
}

/// The byte strings behind what a merge yields.
pub open spec fn merged_of(r: Result<(Bytes, Bytes)>) -> Merged {
    match r {
        Ok(p) => Ok((bytes_of(p.0), bytes_of(p.1))),
        Err(e) => Err(e),
    }
}

/// The byte strings behind a list of pairs of handles.
pub open spec fn pairs_of(s: Seq<(Bytes, Bytes)>) -> Seq<(Seq<u8>, Seq<u8>)> {
    Seq::new(s.len(), |i: int| (bytes_of(s[i].0), bytes_of(s[i].1)))
}

/// A merge in progress: the streams' heads that are in the heap, what each stream still has
/// behind its head, and whether the first heads have been fetched.
#[verifier::ext_equal]
pub struct MergeState {
    pub heads: Map<int, Entry>,
    pub rests: Seq<Seq<Item>>,
    pub initialized: bool,
}

/// How many entries are left in the first `n` streams, heads included.
pub open spec fn total(heads: Map<int, Entry>, rests: Seq<Seq<Item>>, n: int) -> nat
    decreases n,
{
    if n <= 0 {
        0
    } else {
        total(heads, rests, n - 1) + rests[n - 1].len() + if heads.contains_key(n - 1) {
            1nat
        } else {
            0nat
        }
    }
}

impl MergeState {
    /// Every head belongs to a stream.
    pub open spec fn wf(self) -> bool {
        forall|i: int| #[trigger] self.heads.contains_key(i) ==> 0 <= i < self.rests.len()
    }

    /// How many entries are left.
    pub open spec fn size(self) -> nat {
        total(self.heads, self.rests, self.rests.len() as int)
    }

    /// Some stream has a head.
    pub open spec fn has_top(self) -> bool {
        exists|i: int| is_top(self.heads, i)
    }

    /// The stream whose head comes first.
    pub open spec fn top(self) -> int {
        choose|i: int| is_top(self.heads, i)
    }

    /// Fetches the next head of a stream, or the reason why it cannot be read.
    pub open spec fn advance(self, i: int) -> (MergeState, Option<LsmError>) {
        if self.rests[i].len() == 0 {
            (self, None)
        } else {
            let rests = self.rests.update(i, self.rests[i].skip(1));
            match self.rests[i][0] {
                Ok(e) => (MergeState { heads: self.heads.insert(i, e), rests, ..self }, None),
                Err(e) => (MergeState { rests, ..self }, Some(e)),
            }
        }
    }

    /// Takes out the head of a stream and fetches the next one.
    pub open spec fn replace(self, i: int) -> (MergeState, Option<LsmError>) {
        MergeState { heads: self.heads.remove(i), ..self }.advance(i)
    }

    /// Fetches the first heads of the streams from `i` on.
    pub open spec fn init_from(self, i: int) -> (MergeState, Option<LsmError>)
        decreases self.rests.len() - i,
    {
        if i >= self.rests.len() {
            (self, None)
        } else {
            let (st, e) = self.advance(i);
            if e is Some || st.rests.len() != self.rests.len() {
                (st, e)
            } else {
                st.init_from(i + 1)
            }
        }
    }

    /// Fetches the first heads, once.
    pub open spec fn init(self) -> (MergeState, Option<LsmError>) {
        if self.initialized {
            (self, None)
        } else {
            MergeState { initialized: true, ..self }.init_from(0)
        }
    }

    /// Drops every head with the given key, which older streams may still have.
    pub open spec fn drain(self, key: Seq<u8>) -> (MergeState, Option<LsmError>)
        decreases self.size(),
    {
        if !self.wf() || !self.has_top() || self.heads[self.top()].0 != key {
            (self, None)
        } else {
            proof {
                lemma_replace_size(self, self.top());
            }
            let (st, e) = self.replace(self.top());
            if e is Some {
                (st, e)
            } else {
                st.drain(key)
            }
        }
    }

    /// Takes the heads out in order until one with a value comes.
    pub open spec fn pull(self) -> (MergeState, Option<Merged>)
        decreases self.size(),
    {
        if !self.wf() || !self.has_top() {
            (self, None)
        } else {
            proof {
                lemma_replace_size(self, self.top());
                lemma_drain_size(self.replace(self.top()).0, self.heads[self.top()].0);
            }
            let current = self.heads[self.top()];
            let (advanced, failed) = self.replace(self.top());
            if failed is Some {
                (advanced, Some(Err(failed->0)))
            } else {
                let (drained, failed) = advanced.drain(current.0);
                if failed is Some {
                    (drained, Some(Err(failed->0)))
                } else {
                    match current.1 {
                        Some(v) => (drained, Some(Ok((current.0, v)))),
                        None => drained.pull(),
                    }
                }
            }
        }
    }

    /// Everything that is still to come, or the first reason why it cannot be read. The
    /// first heads have been fetched.
    pub open spec fn remaining(self) -> std::result::Result<Seq<(Seq<u8>, Seq<u8>)>, LsmError>
        decreases self.size(),
    {
        if !self.wf() {
            Ok(Seq::empty())
        } else {
            proof {
                lemma_pull_size(self);
            }
            match self.pull() {
                (_, None) => Ok(Seq::empty()),
                (_, Some(Err(e))) => Err(e),
                (st, Some(Ok(p))) => match st.remaining() {
                    Ok(rest) => Ok(seq![p] + rest),
                    Err(e) => Err(e),
                },
            }
        }
    }

    /// Everything that is still to come, or the first reason why it cannot be read.
    pub open spec fn collect(self) -> std::result::Result<Seq<(Seq<u8>, Seq<u8>)>, LsmError> {
        let (st, e) = self.init();
        if e is Some {
            Err(e->0)
        } else {
            st.remaining()
        }
    }

    /// What comes next, and the merge behind it.
    pub open spec fn next(self) -> (MergeState, Option<Merged>) {
        let (st, e) = self.init();
        if e is Some {
            (st, Some(Err(e->0)))
        } else {
            st.pull()
        }
    }
}

/// Two states that differ in one stream differ in size by what differs there.
proof fn lemma_total_update(a: MergeState, b: MergeState, i: int, n: int)
    requires
        a.rests.len() == b.rests.len(),
        0 <= n <= a.rests.len(),
        forall|j: int| 0 <= j < n && j != i ==> #[trigger] a.rests[j] == b.rests[j],
        forall|j: int|
            0 <= j < n && j != i ==> (#[trigger] a.heads.contains_key(j) <==> b.heads.contains_key(
                j,
            )),
    ensures
        0 <= i < n ==> total(b.heads, b.rests, n) - total(a.heads, a.rests, n)
            == b.rests[i].len() - a.rests[i].len() + (if b.heads.contains_key(i) {
            1int
        } else {
            0int
        }) - (if a.heads.contains_key(i) {
            1int
        } else {
            0int
        }),
        !(0 <= i < n) ==> total(b.heads, b.rests, n) == total(a.heads, a.rests, n),
    decreases n,
{
    if n > 0 {
        lemma_total_update(a, b, i, n - 1);
        assert(n - 1 != i ==> (a.heads.contains_key(n - 1) <==> b.heads.contains_key(n - 1)));
    }
}

/// Fetching a head takes it from behind, so the number of entries does not grow.
proof fn lemma_advance_size(st: MergeState, i: int)
    requires
        st.wf(),
        0 <= i < st.rests.len(),
        !st.heads.contains_key(i),
    ensures
        st.advance(i).0.wf(),
        st.advance(i).0.size() <= st.size(),
        st.advance(i).0.rests.len() == st.rests.len(),
{
    lemma_total_update(st, st.advance(i).0, i, st.rests.len() as int);
}

/// Taking out a head leaves fewer entries.
pub proof fn lemma_replace_size(st: MergeState, i: int)
    ensures
        st.wf() && is_top(st.heads, i) ==> {
            let after = st.replace(i).0;
            &&& after.wf()
            &&& after.size() < st.size()
            &&& after.rests.len() == st.rests.len()
            &&& after.initialized == st.initialized
        },
{
    if st.wf() && is_top(st.heads, i) {
        let popped = MergeState { heads: st.heads.remove(i), ..st };
        lemma_total_update(st, popped, i, st.rests.len() as int);
        lemma_advance_size(popped, i);
    }
}

/// Dropping heads does not add entries.
pub proof fn lemma_drain_size(st: MergeState, key: Seq<u8>)
    ensures
        st.wf() ==> {
            let after = st.drain(key).0;
            &&& after.wf()
            &&& after.size() <= st.size()
            &&& after.rests.len() == st.rests.len()
            &&& after.initialized == st.initialized
        },
    decreases st.size(),
{
    if st.wf() && st.has_top() && st.heads[st.top()].0 == key {
        lemma_replace_size(st, st.top());
        if st.replace(st.top()).1 is None {
            lemma_drain_size(st.replace(st.top()).0, key);
        }
    }
}

/// Pulling an entry leaves fewer of them.
pub proof fn lemma_pull_size(st: MergeState)
    ensures
        st.wf() ==> {
            let (after, r) = st.pull();
            &&& after.wf()
            &&& after.rests.len() == st.rests.len()
            &&& after.initialized == st.initialized
            &&& after.size() <= st.size()
            &&& r is Some ==> after.size() < st.size()
        },
    decreases st.size(),
{
    if st.wf() && st.has_top() {
        let key = st.heads[st.top()].0;
        lemma_replace_size(st, st.top());
        let (advanced, failed) = st.replace(st.top());
        if failed is None {
            lemma_drain_size(advanced, key);
            let (drained, failed) = advanced.drain(key);
            if failed is None && st.heads[st.top()].1 is None {
                lemma_pull_size(drained);
            }
        }
    }
}

/// Only one stream has the head that comes first.
proof fn lemma_top_unique(heads: Map<int, Entry>, i: int, j: int)
    requires
        is_top(heads, i),
        is_top(heads, j),
    ensures
        i == j,
{
    if i != j {
        lemma_precedes_asymmetric(heads[i].0, i, heads[j].0, j);
    }
}

/// The items that wait in each stream.
pub open spec fn streams_of(
    its: Seq<VecDeque<Result<(Bytes, Option<Bytes>)>>>,
) -> Seq<Seq<Item>> {
    Seq::new(its.len(), |i: int| items_of(its[i]@))
}

/// A K-way merge iterator that coordinates sorted streams from MemTable,
/// immutable MemTables, and SSTables.
///
/// Features:
/// - Min-heap priority queue for O(log K) item selection.
/// - On-the-fly deduplication: only the freshest version of any key is retained.
/// - Automatic tombstone masking: deleted keys are pruned from user-facing results.
pub struct MergeIterator {
    iterators: Vec<VecDeque<Result<(Bytes, Option<Bytes>)>>>,
    heap: MinHeap,
    initialized: bool,
}

impl View for MergeIterator {
    type V = MergeState;

    closed spec fn view(&self) -> MergeState {
        MergeState {
            heads: self.heap@,
            rests: streams_of(self.iterators@),
            initialized: self.initialized,
        }
    }
}

impl MergeIterator {
    pub closed spec fn wf(&self) -> bool {
        &&& self.heap.wf()
        &&& self@.wf()
        &&& !self.initialized ==> self.heap@ == Map::<int, Entry>::empty()
    }

    /// Merges streams; the earlier one of two streams is the fresher one.
    pub fn new(iterators: Vec<VecDeque<Result<(Bytes, Option<Bytes>)>>>) -> (m: Self)
        ensures
            m.wf(),
            m@ == (MergeState {
                heads: Map::empty(),
                rests: streams_of(iterators@),
                initialized: false,
            }),
    {
        MergeIterator { iterators, heap: MinHeap::new(), initialized: false }
    }

    /// Fetches the next head of a stream that has none in the heap.
    fn advance(&mut self, idx: usize) -> (r: Result<()>)
        requires
            old(self).wf(),
            old(self).initialized,
            idx < old(self)@.rests.len(),
            !old(self)@.heads.contains_key(idx as int),
        ensures
            final(self).wf(),
            final(self).initialized,
            final(self)@ == old(self)@.advance(idx as int).0,
            match r {
                Ok(_) => old(self)@.advance(idx as int).1 is None,
                Err(e) => old(self)@.advance(idx as int).1 == Some(e),
            },
    {
        let ghost before = self.iterators@;
        let next: Option<Result<(Bytes, Option<Bytes>)>> = self.iterators[idx].pop_front();
        proof {
            let was = before[idx as int]@;
            let now = self.iterators@[idx as int]@;
            if was.len() > 0 {
                assert(items_of(now) =~= items_of(was).skip(1));
                assert(items_of(was)[0] == item_of(was[0]));
            }
            assert(streams_of(self.iterators@) =~= streams_of(before).update(
                idx as int,
                items_of(now),
            ));
            if was.len() == 0 {
                assert(streams_of(self.iterators@) =~= streams_of(before));
            }
        }
        if let Some(item_res) = next {
            match item_res {
                Ok((key, value)) => {
                    self.heap.push(HeapNode { key, value, iterator_idx: idx });
                },
                Err(e) => {
                    return Err(e);
                },
            }
        }
        Ok(())
    }

    fn init(&mut self) -> (r: Result<()>)
        requires
            old(self).wf(),
        ensures
            final(self).wf(),
            final(self).initialized,
            final(self)@ == old(self)@.init().0,
            match r {
                Ok(_) => old(self)@.init().1 is None,
                Err(e) => old(self)@.init().1 == Some(e),
            },
    {
        if self.initialized {
            return Ok(());
        }
        self.initialized = true;
        let mut idx: usize = 0;
        while idx < self.iterators.len()
            invariant
                self.wf(),
                self.initialized,
                idx <= self.iterators@.len(),
                self@.rests.len() == self.iterators@.len(),
                forall|i: int| idx <= i ==> !#[trigger] self@.heads.contains_key(i),
                self@.init_from(idx as int) == old(self)@.init(),
            decreases self.iterators@.len() - idx,
        {
            self.advance(idx)?;
            idx = idx + 1;
        }
        Ok(())
    }

    /// What comes next in the order of the keys: the freshest value of a key that is not
    /// deleted, or the reason why a stream could not be read. `None` at the end.
    pub fn next(&mut self) -> (r: Option<Result<(Bytes, Bytes)>>)
        requires
            old(self).wf(),
        ensures
            final(self).wf(),
            final(self)@ == old(self)@.next().0,
            match old(self)@.next().1 {
                None => r is None,
                Some(m) => r matches Some(x) && merged_of(x) == m,
            },
    {
        if let Err(e) = self.init() {
            return Some(Err(e));
        }
        loop
            invariant
                self.wf(),
                self.initialized,
                self@.pull() == old(self)@.next(),
            decreases self@.size(),
        {
            let ghost start = self@;
            // Pop the lowest key across all active iterators (freshest priority)
            let current: HeapNode = match self.heap.pop() {
                Some(node) => node,
                None => {
                    assert(!start.has_top());
                    return None;
                },
            };
            let ghost key = bytes_of(current.key);
            proof {
                lemma_top_unique(start.heads, start.top(), current.idx());
                lemma_replace_size(start, start.top());
            }
            // Advance the iterator that yielded `current`
            if let Err(e) = self.advance(current.iterator_idx) {
                return Some(Err(e));
            }
            let ghost advanced = self@;
            proof {
                lemma_drain_size(advanced, key);
            }
            // Deduplication: drain all older versions of `current.key` from other iterators
            while self.holds_key(&current.key)
                invariant
                    self.wf(),
                    self.initialized,
                    key == bytes_of(current.key),
                    self@.drain(key) == advanced.drain(key),
                    start.pull() == old(self)@.next(),
                    start.wf(),
                    start.has_top(),
                    start.heads[start.top()] == current.entry(),
                    start.replace(start.top()) == (advanced, None::<LsmError>),
                    advanced.size() < start.size(),
                    self@.size() <= advanced.size(),
                    advanced.wf(),
                decreases self@.size(),
            {
                let ghost here = self@;
                if let Some(stale) = self.heap.pop() {
                    proof {
                        lemma_top_unique(here.heads, here.top(), stale.idx());
                        lemma_replace_size(here, here.top());
                    }
                    if let Err(e) = self.advance(stale.iterator_idx) {
                        return Some(Err(e));
                    }
                }
            }
            // If the freshest version is a tombstone (None), discard it and continue
            if let Some(val) = current.value {
                return Some(Ok((current.key, val)));
            }
        }
    }

    /// Whether the head that comes first has the given key.
    fn holds_key(&self, key: &Bytes) -> (b: bool)
        requires
            self.wf(),
        ensures
            b == (self@.has_top() && self@.heads[self@.top()].0 == bytes_of(*key)),
    {
        match self.heap.peek() {
            Some(top) => {
                proof {
                    lemma_top_unique(self@.heads, self@.top(), top.idx());
                }
                match compare_keys(as_slice(&top.key), as_slice(key)) {
                    KeyOrder::Equal => true,
                    _ => false,
                }
            },
            None => false,
        }
    }

    /// Everything that is still to come, or the first reason why it cannot be read.
    pub fn collect(self) -> (r: Result<Vec<(Bytes, Bytes)>>)
        requires
            self.wf(),
        ensures
            match self@.collect() {
                Ok(ps) => r matches Ok(v) && pairs_of(v@) == ps,
                Err(e) => r matches Err(x) && x == e,
            },
    {
        let mut this: MergeIterator = self;
        let mut out: Vec<(Bytes, Bytes)> = Vec::new();
        let ghost all = self@.collect();
        this.init()?;
        proof {
            if let Ok(ps) = all {
                assert(pairs_of(out@) + ps =~= ps);
            }
        }
        loop
            invariant
                this.wf(),
                this.initialized,
                all == self@.collect(),
                match this@.remaining() {
                    Ok(rest) => all == Ok::<_, LsmError>(pairs_of(out@) + rest),
                    Err(e) => all == Err::<Seq<(Seq<u8>, Seq<u8>)>, _>(e),
                },
            decreases this@.size(),
        {
            proof {
                lemma_pull_size(this@);
            }
            match this.next() {
                None => {
                    assert(pairs_of(out@) + Seq::<(Seq<u8>, Seq<u8>)>::empty() =~= pairs_of(out@));
                    return Ok(out);
                },
                Some(Err(e)) => {
                    return Err(e);
                },
                Some(Ok(p)) => {
                    let ghost before = pairs_of(out@);
                    let ghost pair = (bytes_of(p.0), bytes_of(p.1));
                    out.push(p);
                    proof {
                        assert(pairs_of(out@) =~= before.push(pair));
                        if let Ok(rest) = this@.remaining() {
                            assert(before + (seq![pair] + rest) =~= before.push(pair) + rest);
                        }
                    }
                },
            }
        }
    }
}

/// The entries of a stream that can be read to its end.
pub open spec fn ok_items(es: Seq<Entry>) -> Seq<Item> {
    Seq::new(es.len(), |j: int| Ok::<Entry, LsmError>(es[j]))
}

/// A merge of streams that can be read to their ends, before anything was taken from it.
pub open spec fn merge_of(streams: Seq<Seq<Entry>>) -> MergeState {
    MergeState {
        heads: Map::empty(),
        rests: Seq::new(streams.len(), |i: int| ok_items(streams[i])),
        initialized: false,
    }
}

/// What a stream still has, its head included.
spec fn left(st: MergeState, i: int) -> Seq<Entry> {
    (if st.heads.contains_key(i) {
        seq![st.heads[i]]
    } else {
        Seq::empty()
    }) + Seq::new(st.rests[i].len(), |j: int| st.rests[i][j]->Ok_0)
}

/// What each stream still has.
spec fn lefts(st: MergeState) -> Seq<Seq<Entry>> {
    Seq::new(st.rests.len(), |i: int| left(st, i))
}

/// No stream holds a failure.
spec fn all_ok(st: MergeState) -> bool {
    forall|i: int, j: int|
        0 <= i < st.rests.len() && 0 <= j < st.rests[i].len() ==> (#[trigger] st.rests[i][j]) is Ok
}

/// A stream without a head is at its end.
spec fn primed(st: MergeState) -> bool {
    forall|i: int|
        0 <= i < st.rests.len() && !(#[trigger] st.heads.contains_key(i)) ==> st.rests[i].len()
            == 0
}

/// A merge that will not fail, with sorted streams whose heads are in the heap.
spec fn steady(st: MergeState) -> bool {
    &&& st.wf()
    &&& all_ok(st)
    &&& primed(st)
    &&& forall|i: int| 0 <= i < st.rests.len() ==> strictly_sorted(#[trigger] lefts(st)[i])
}

/// Fetching a head does not change what the streams still have.
proof fn lemma_advance_left(st: MergeState, i: int)
    requires
        st.wf(),
        all_ok(st),
        0 <= i < st.rests.len(),
        !st.heads.contains_key(i),
    ensures
        ({
            let (after, e) = st.advance(i);
            &&& e is None
            &&& after.wf()
            &&& all_ok(after)
            &&& lefts(after) == lefts(st)
            &&& after.rests.len() == st.rests.len()
            &&& st.rests[i].len() > 0 <==> after.heads.contains_key(i)
            &&& forall|j: int|
                j != i ==> (#[trigger] after.heads.contains_key(j) <==> st.heads.contains_key(j))
            &&& forall|j: int|
                0 <= j < st.rests.len() && j != i ==> #[trigger] after.rests[j] == st.rests[j]
            &&& after.rests[i].len() <= st.rests[i].len()
        }),
{
    let after = st.advance(i).0;
    if st.rests[i].len() > 0 {
        assert(st.rests[i][0] is Ok);
        assert forall|a: int, b: int|
            0 <= a < after.rests.len() && 0 <= b < after.rests[a].len() implies (
        #[trigger] after.rests[a][b]) is Ok by {
            if a == i {
                assert(after.rests[a][b] == st.rests[a][b + 1]);
            } else {
                assert(after.rests[a][b] == st.rests[a][b]);
            }
        }
        assert(left(after, i) =~= left(st, i));
        assert forall|j: int| 0 <= j < st.rests.len() implies left(after, j) == left(st, j) by {
            if j != i {
                assert(left(after, j) =~= left(st, j));
            }
        }
        assert(lefts(after) =~= lefts(st));
    }
}

/// Fetching the first heads does not change what the streams have.
proof fn lemma_init_left(st: MergeState, i: int)
    requires
        st.wf(),
        all_ok(st),
        0 <= i <= st.rests.len(),
        forall|j: int| i <= j ==> !#[trigger] st.heads.contains_key(j),
        forall|j: int|
            0 <= j < i && !(#[trigger] st.heads.contains_key(j)) ==> st.rests[j].len() == 0,
    ensures
        ({
            let (after, e) = st.init_from(i);
            &&& e is None
            &&& after.wf()
            &&& all_ok(after)
            &&& primed(after)
            &&& lefts(after) == lefts(st)
        }),
    decreases st.rests.len() - i,
{
    if i < st.rests.len() {
        lemma_advance_left(st, i);
        let next = st.advance(i).0;
        assert forall|j: int|
            0 <= j < i + 1 && !(#[trigger] next.heads.contains_key(j)) implies next.rests[j].len()
            == 0 by {
            if j != i {
                assert(!st.heads.contains_key(j));
                assert(next.rests[j] == st.rests[j]);
            }
        }
        lemma_init_left(next, i + 1);
    }
}

/// Taking out a head takes the first entry from what its stream has.
proof fn lemma_replace_left(st: MergeState, i: int)
    requires
        steady(st),
        is_top(st.heads, i),
    ensures
        ({
            let (after, e) = st.replace(i);
            &&& e is None
            &&& steady(after)
            &&& after.rests.len() == st.rests.len()
            &&& left(st, i).len() > 0
            &&& left(st, i)[0] == st.heads[i]
            &&& lefts(after) == lefts(st).update(i, left(st, i).skip(1))
        }),
{
    let popped = MergeState { heads: st.heads.remove(i), ..st };
    let was = left(st, i);
    assert(left(popped, i) =~= was.skip(1));
    assert forall|j: int| 0 <= j < st.rests.len() && j != i implies left(popped, j) == left(
        st,
        j,
    ) by {
        assert(left(popped, j) =~= left(st, j));
    }
    assert(lefts(popped) =~= lefts(st).update(i, was.skip(1)));
    lemma_advance_left(popped, i);
    let after = st.replace(i).0;
    assert forall|j: int|
        0 <= j < after.rests.len() && !(#[trigger] after.heads.contains_key(
            j,
        )) implies after.rests[j].len() == 0 by {
        if j != i {
            assert(!popped.heads.contains_key(j));
            assert(!st.heads.contains_key(j));
            assert(after.rests[j] == st.rests[j]);
        }
    }
    assert forall|j: int| 0 <= j < after.rests.len() implies strictly_sorted(
        #[trigger] lefts(after)[j],
    ) by {
        assert(strictly_sorted(lefts(st)[j]));
        if j == i {
            assert(lefts(st)[i] == was);
            assert forall|a: int, b: int|
                #![trigger was.skip(1)[a], was.skip(1)[b]]
                0 <= a < b < was.skip(1).len() implies key_lt(
                was.skip(1)[a].0,
                was.skip(1)[b].0,
            ) by {
                assert(key_lt(was[a + 1].0, was[b + 1].0));
            }
        }
    }
}

/// Among the first `n` streams, one has the head that comes first, if any has a head.
proof fn lemma_first_of(heads: Map<int, Entry>, n: int) -> (t: int)
    requires
        exists|i: int| 0 <= i < n && heads.contains_key(i),
    ensures
        0 <= t < n,
        heads.contains_key(t),
        forall|j: int|
            0 <= j < n && j != t && #[trigger] heads.contains_key(j) ==> precedes(
                heads[t].0,
                t,
                heads[j].0,
                j,
            ),
    decreases n,
{
    let last = n - 1;
    if exists|i: int| 0 <= i < last && heads.contains_key(i) {
        let t = lemma_first_of(heads, last);
        if heads.contains_key(last) {
            let (a, b) = (heads[t].0, heads[last].0);
            lemma_key_total(a, b);
            if key_lt(b, a) {
                assert forall|j: int|
                    0 <= j < n && j != last && #[trigger] heads.contains_key(j) implies precedes(
                    b,
                    last,
                    heads[j].0,
                    j,
                ) by {
                    if j != t && key_lt(a, heads[j].0) {
                        lemma_key_transitive(b, a, heads[j].0);
                    }
                }
                last
            } else {
                t
            }
        } else {
            t
        }
    } else {
        let i = choose|i: int| 0 <= i < n && heads.contains_key(i);
        i
    }
}

/// Where no head comes first, no stream has anything left.
proof fn lemma_no_top(st: MergeState)
    requires
        steady(st),
        !st.has_top(),
    ensures
        forall|i: int| 0 <= i < st.rests.len() ==> (#[trigger] lefts(st)[i]).len() == 0,
{
    assert forall|i: int| 0 <= i < st.rests.len() implies (#[trigger] lefts(st)[i]).len() == 0 by {
        if st.heads.contains_key(i) {
            let t = lemma_first_of(st.heads, st.rests.len() as int);
            assert(is_top(st.heads, t));
        }
    }
}

/// The first entry of what a stream has is its head.
proof fn lemma_left_head(st: MergeState, i: int)
    requires
        steady(st),
        0 <= i < st.rests.len(),
    ensures
        left(st, i).len() > 0 <==> st.heads.contains_key(i),
        st.heads.contains_key(i) ==> left(st, i)[0] == st.heads[i],
{
}

/// What a stream has behind its entry of the given key, if that is the first one.
spec fn past(es: Seq<Entry>, key: Seq<u8>) -> Seq<Entry> {
    if es.len() > 0 && es[0].0 == key {
        es.skip(1)
    } else {
        es
    }
}

/// Draining a key takes its entry from each stream that starts with it.
proof fn lemma_drain_left(st: MergeState, key: Seq<u8>)
    requires
        steady(st),
        forall|i: int| #[trigger] st.heads.contains_key(i) ==> !key_lt(st.heads[i].0, key),
    ensures
        ({
            let (after, e) = st.drain(key);
            &&& e is None
            &&& steady(after)
            &&& after.rests.len() == st.rests.len()
            &&& forall|i: int|
                0 <= i < st.rests.len() ==> #[trigger] lefts(after)[i] == past(lefts(st)[i], key)
        }),
    decreases st.size(),
{
    if st.has_top() && st.heads[st.top()].0 == key {
        let t = st.top();
        let next = st.replace(t).0;
        lemma_replace_left(st, t);
        lemma_replace_size(st, t);
        lemma_key_irreflexive(key);
        assert(strictly_sorted(lefts(st)[t]));
        assert forall|i: int| #[trigger] next.heads.contains_key(i) implies !key_lt(
            next.heads[i].0,
            key,
        ) by {
            lemma_left_head(next, i);
            if i == t {
                assert(lefts(next)[t] == left(st, t).skip(1));
                assert(left(st, t).skip(1)[0] == left(st, t)[1]);
                assert(key_lt(left(st, t)[0].0, left(st, t)[1].0));
                if key_lt(next.heads[i].0, key) {
                    lemma_key_transitive(key, next.heads[i].0, key);
                }
            } else {
                assert(lefts(next)[i] == lefts(st)[i]);
                lemma_left_head(st, i);
            }
        }
        lemma_drain_left(next, key);
        let after = st.drain(key).0;
        assert forall|i: int| 0 <= i < st.rests.len() implies #[trigger] lefts(after)[i] == past(
            lefts(st)[i],
            key,
        ) by {
            assert(lefts(after)[i] == past(lefts(next)[i], key));
            if i == t {
                assert(lefts(next)[t] == left(st, t).skip(1));
                if left(st, t).len() > 1 {
                    assert(left(st, t).skip(1)[0] == left(st, t)[1]);
                    assert(key_lt(left(st, t)[0].0, left(st, t)[1].0));
                }
            } else {
                assert(lefts(next)[i] == lefts(st)[i]);
            }
        }
    } else {
        assert forall|i: int| 0 <= i < st.rests.len() implies #[trigger] lefts(st)[i] == past(
            lefts(st)[i],
            key,
        ) by {
            lemma_left_head(st, i);
            if st.heads.contains_key(i) && st.heads[i].0 == key {
                if st.has_top() {
                    let t = st.top();
                    assert(precedes(st.heads[t].0, t, key, i));
                } else {
                    lemma_no_top(st);
                }
            }
        }
    }
}

/// What the streams together say of a key.
spec fn said(st: MergeState, key: Seq<u8>) -> Option<Option<Seq<u8>>> {
    resolve(tables_of(lefts(st)), key)
}

/// A key that comes before all heads, or is no longer in any stream, is not spoken of.
proof fn lemma_said_none(st: MergeState, key: Seq<u8>)
    requires
        forall|i: int| 0 <= i < st.rests.len() ==> lookup(#[trigger] lefts(st)[i], key) is None,
    ensures
        said(st, key) is None,
{
    let tiers = tables_of(lefts(st));
    assert forall|j: int| 0 <= j < tiers.len() implies !(#[trigger] tiers[j]).contains_key(
        key,
    ) by {
        assert(lookup(lefts(st)[j], key) is None);
    }
    lemma_resolve_none(tiers, key);
}

/// One turn of the merge: the first head is what the streams say of its key, and once the
/// key is drained they say of every other key what they said before.
proof fn lemma_turn(st: MergeState)
    requires
        steady(st),
        st.has_top(),
    ensures
        ({
            let current = st.heads[st.top()];
            let (advanced, failed) = st.replace(st.top());
            let (after, failed_too) = advanced.drain(current.0);
            &&& failed is None
            &&& failed_too is None
            &&& steady(after)
            &&& after.rests.len() == st.rests.len()
            &&& after.size() < st.size()
            &&& said(st, current.0) == Some(current.1)
            &&& said(after, current.0) is None
            &&& forall|k: Seq<u8>| k != current.0 ==> #[trigger] said(after, k) == said(st, k)
            &&& forall|k: Seq<u8>| #[trigger] said(after, k) is Some ==> key_lt(current.0, k)
        }),
{
    let t = st.top();
    let key = st.heads[t].0;
    let advanced = st.replace(t).0;
    lemma_replace_left(st, t);
    lemma_replace_size(st, t);
    lemma_turn_heads(st);
    lemma_drain_left(advanced, key);
    lemma_drain_size(advanced, key);
    let after = advanced.drain(key).0;
    assert forall|i: int| 0 <= i < st.rests.len() implies #[trigger] lefts(after)[i] == past(
        lefts(st)[i],
        key,
    ) by {
        assert(lefts(after)[i] == past(lefts(advanced)[i], key));
        assert(strictly_sorted(lefts(st)[i]));
        if i == t {
            let was = left(st, t);
            assert(lefts(advanced)[t] == was.skip(1));
            if was.len() > 1 {
                assert(was.skip(1)[0] == was[1]);
                assert(key_lt(was[0].0, was[1].0));
                lemma_key_irreflexive(key);
            }
        } else {
            assert(lefts(advanced)[i] == lefts(st)[i]);
        }
    }
    lemma_turn_key(st, after);
    assert forall|k: Seq<u8>| k != key implies #[trigger] said(after, k) == said(st, k) by {
        lemma_turn_other(st, after, key, k);
    }
    assert forall|k: Seq<u8>| #[trigger] said(after, k) is Some implies key_lt(key, k) by {
        lemma_turn_rest(st, after, k);
    }
}

/// After the first head is taken out, no head comes before its key.
proof fn lemma_turn_heads(st: MergeState)
    requires
        steady(st),
        st.has_top(),
    ensures
        ({
            let t = st.top();
            let key = st.heads[t].0;
            let advanced = st.replace(t).0;
            forall|i: int| #[trigger]
                advanced.heads.contains_key(i) ==> !key_lt(advanced.heads[i].0, key)
        }),
{
    let t = st.top();
    let key = st.heads[t].0;
    let advanced = st.replace(t).0;
    lemma_replace_left(st, t);
    lemma_key_irreflexive(key);
    assert forall|i: int| #[trigger] advanced.heads.contains_key(i) implies !key_lt(
        advanced.heads[i].0,
        key,
    ) by {
        lemma_left_head(advanced, i);
        let k = advanced.heads[i].0;
        if i == t {
            assert(strictly_sorted(lefts(st)[t]));
            assert(lefts(advanced)[t] == left(st, t).skip(1));
            assert(left(st, t).skip(1)[0] == left(st, t)[1]);
            assert(key_lt(left(st, t)[0].0, left(st, t)[1].0));
        } else {
            assert(lefts(advanced)[i] == lefts(st)[i]);
            lemma_left_head(st, i);
            assert(precedes(key, t, k, i));
        }
        if key_lt(k, key) && key_lt(key, k) {
            lemma_key_transitive(key, k, key);
        }
    }
}

/// A key at or before the first entry of a sorted run is found there or not at all.
proof fn lemma_lookup_first(es: Seq<Entry>, key: Seq<u8>)
    requires
        strictly_sorted(es),
        es.len() > 0 ==> !key_lt(es[0].0, key),
    ensures
        lookup(es, key) == if es.len() > 0 && es[0].0 == key {
            Some(es[0].1)
        } else {
            None
        },
        lookup(past(es, key), key) is None,
{
    lemma_key_irreflexive(key);
    if lookup(past(es, key), key) is Some {
        let i = lemma_lookup_witness(past(es, key), key);
        if es[0].0 == key {
            assert(es.skip(1)[i] == es[i + 1]);
            assert(key_lt(es[0].0, es[i + 1].0));
        } else if i > 0 {
            assert(key_lt(es[0].0, es[i].0));
        }
    }
}

/// The first head is what the streams say of its key, and then they say nothing more of it.
proof fn lemma_turn_key(st: MergeState, after: MergeState)
    requires
        steady(st),
        st.has_top(),
        after.rests.len() == st.rests.len(),
        forall|i: int|
            0 <= i < st.rests.len() ==> #[trigger] lefts(after)[i] == past(
                lefts(st)[i],
                st.heads[st.top()].0,
            ),
    ensures
        said(st, st.heads[st.top()].0) == Some(st.heads[st.top()].1),
        said(after, st.heads[st.top()].0) is None,
{
    let t = st.top();
    let key = st.heads[t].0;
    let tiers = tables_of(lefts(st));
    lemma_key_irreflexive(key);
    assert forall|i: int| 0 <= i < st.rests.len() implies strictly_sorted(#[trigger] lefts(st)[i])
        && (lefts(st)[i].len() > 0 ==> !key_lt(lefts(st)[i][0].0, key)) && (i < t && lefts(
        st,
    )[i].len() > 0 ==> lefts(st)[i][0].0 != key) by {
        lemma_left_head(st, i);
        if i != t && st.heads.contains_key(i) {
            assert(precedes(key, t, st.heads[i].0, i));
            if key_lt(st.heads[i].0, key) && key_lt(key, st.heads[i].0) {
                lemma_key_transitive(key, st.heads[i].0, key);
            }
        }
    }
    lemma_left_head(st, t);
    lemma_lookup_first(lefts(st)[t], key);
    assert(tiers[t].contains_key(key));
    assert forall|j: int| 0 <= j < t implies !(#[trigger] tiers[j]).contains_key(key) by {
        lemma_lookup_first(lefts(st)[j], key);
    }
    lemma_resolve_first(tiers, key, t);
    assert forall|i: int| 0 <= i < after.rests.len() implies lookup(
        #[trigger] lefts(after)[i],
        key,
    ) is None by {
        lemma_lookup_first(lefts(st)[i], key);
    }
    lemma_said_none(after, key);
}

/// Draining one key leaves what is said of another.
proof fn lemma_turn_other(st: MergeState, after: MergeState, key: Seq<u8>, k: Seq<u8>)
    requires
        after.rests.len() == st.rests.len(),
        forall|i: int|
            0 <= i < st.rests.len() ==> #[trigger] lefts(after)[i] == past(lefts(st)[i], key),
        k != key,
    ensures
        said(after, k) == said(st, k),
{
    let a = tables_of(lefts(st));
    let b = tables_of(lefts(after));
    assert forall|i: int| 0 <= i < a.len() implies table_get(#[trigger] a[i], k) == table_get(
        b[i],
        k,
    ) by {
        assert(lefts(after)[i] == past(lefts(st)[i], key));
        lemma_table_get(lefts(st)[i], k);
        lemma_table_get(lefts(after)[i], k);
    }
    lemma_resolve_same(a, b, k);
}

/// What is left after a turn comes after its key.
proof fn lemma_turn_rest(st: MergeState, after: MergeState, k: Seq<u8>)
    requires
        steady(st),
        st.has_top(),
        after.rests.len() == st.rests.len(),
        forall|i: int|
            0 <= i < st.rests.len() ==> #[trigger] lefts(after)[i] == past(
                lefts(st)[i],
                st.heads[st.top()].0,
            ),
        said(after, k) is Some,
    ensures
        key_lt(st.heads[st.top()].0, k),
{
    let t = st.top();
    let key = st.heads[t].0;
    let tiers = tables_of(lefts(after));
    let i = lemma_resolve_witness(tiers, k);
    lemma_table_get(lefts(after)[i], k);
    let p = lemma_lookup_witness(lefts(after)[i], k);
    let es = lefts(st)[i];
    lemma_left_head(st, i);
    assert(strictly_sorted(lefts(st)[i]));
    assert(lefts(after)[i] == past(es, key));
    if es[0].0 == key {
        assert(es.skip(1)[p] == es[p + 1]);
        assert(key_lt(es[0].0, es[p + 1].0));
    } else {
        assert(i != t);
        assert(precedes(key, t, es[0].0, i));
        if p > 0 {
            assert(key_lt(es[0].0, es[p].0));
            lemma_key_transitive(key, es[0].0, k);
        }
    }
}

/// Pulling from a merge gives the smallest key that has a value, with that value, and leaves
/// what comes after it.
proof fn lemma_pull(st: MergeState)
    requires
        steady(st),
    ensures
        match st.pull() {
            (_, None) => forall|k: Seq<u8>| live(#[trigger] said(st, k)) is None,
            (_, Some(Err(_))) => false,
            (after, Some(Ok(p))) => {
                &&& steady(after)
                &&& live(said(st, p.0)) == Some(p.1)
                &&& live(said(after, p.0)) is None
                &&& forall|k: Seq<u8>|
                    k != p.0 ==> live(#[trigger] said(after, k)) == live(said(st, k))
                &&& forall|k: Seq<u8>| #[trigger] said(after, k) is Some ==> key_lt(p.0, k)
            },
        },
    decreases st.size(),
{
    if st.has_top() {
        lemma_turn(st);
        let current = st.heads[st.top()];
        let after = st.replace(st.top()).0.drain(current.0).0;
        if current.1 is None {
            lemma_pull(after);
            assert forall|k: Seq<u8>| live(#[trigger] said(after, k)) == live(said(st, k)) by {
                if k == current.0 {
                    assert(said(st, k) == Some(current.1));
                }
            }
            match after.pull() {
                (_, None) => {
                    assert forall|k: Seq<u8>| live(#[trigger] said(st, k)) is None by {
                        assert(live(said(after, k)) is None);
                    }
                },
                (_, Some(Err(_))) => {},
                (last, Some(Ok(p))) => {
                    assert(live(said(after, p.0)) == live(said(st, p.0)));
                    assert forall|k: Seq<u8>| k != p.0 implies live(#[trigger] said(last, k))
                        == live(said(st, k)) by {
                        assert(live(said(after, k)) == live(said(st, k)));
                    }
                },
            }
        }
    } else {
        assert forall|k: Seq<u8>| live(#[trigger] said(st, k)) is None by {
            lemma_no_top(st);
            lemma_said_none(st, k);
        }
    }
}

/// A key that comes before all pairs is not among them.
proof fn lemma_pair_lookup_before(ps: Pairs, key: Seq<u8>)
    requires
        forall|i: int| 0 <= i < ps.len() ==> key_lt(key, (#[trigger] ps[i]).0),
    ensures
        pair_lookup(ps, key) is None,
    decreases ps.len(),
{
    if ps.len() > 0 {
        lemma_key_irreflexive(key);
        assert(key_lt(key, ps[0].0));
        assert forall|i: int| 0 <= i < ps.len() - 1 implies key_lt(
            key,
            (#[trigger] ps.skip(1)[i]).0,
        ) by {
            assert(ps.skip(1)[i] == ps[i + 1]);
        }
        lemma_pair_lookup_before(ps.skip(1), key);
    }
}

/// A pair that is there has its key found.
proof fn lemma_pair_lookup_at(ps: Pairs, i: int)
    requires
        pairs_sorted(ps),
        0 <= i < ps.len(),
    ensures
        pair_lookup(ps, ps[i].0) == Some(ps[i].1),
    decreases ps.len(),
{
    if i > 0 {
        lemma_key_irreflexive(ps[i].0);
        assert(key_lt(ps[0].0, ps[i].0));
        assert(ps.skip(1)[i - 1] == ps[i]);
        assert forall|a: int, b: int|
            #![trigger ps.skip(1)[a], ps.skip(1)[b]]
            0 <= a < b < ps.len() - 1 implies key_lt(ps.skip(1)[a].0, ps.skip(1)[b].0) by {
            assert(key_lt(ps[a + 1].0, ps[b + 1].0));
        }
        lemma_pair_lookup_at(ps.skip(1), i - 1);
    }
}

/// What is still to come is sorted and says what the streams say.
proof fn lemma_remaining(st: MergeState)
    requires
        steady(st),
    ensures
        st.remaining() matches Ok(ps) && pairs_sorted(ps) && forall|k: Seq<u8>| #[trigger]
            pair_lookup(ps, k) == live(said(st, k)),
    decreases st.size(),
{
    lemma_pull(st);
    lemma_pull_size(st);
    match st.pull() {
        (_, None) => {
            let ps = Seq::<(Seq<u8>, Seq<u8>)>::empty();
            assert forall|k: Seq<u8>| #[trigger] pair_lookup(ps, k) == live(said(st, k)) by {
                assert(live(said(st, k)) is None);
            }
        },
        (_, Some(Err(_))) => {},
        (after, Some(Ok(p))) => {
            lemma_remaining(after);
            let rest = after.remaining()->Ok_0;
            let ps = seq![p] + rest;
            assert(ps.skip(1) =~= rest);
            assert forall|i: int| 0 <= i < rest.len() implies key_lt(
                p.0,
                (#[trigger] rest[i]).0,
            ) by {
                lemma_pair_lookup_at(rest, i);
                assert(pair_lookup(rest, rest[i].0) == live(said(after, rest[i].0)));
                assert(said(after, rest[i].0) is Some);
            }
            lemma_pair_lookup_before(rest, p.0);
            assert forall|i: int, j: int|
                #![trigger ps[i], ps[j]]
                0 <= i < j < ps.len() implies key_lt(ps[i].0, ps[j].0) by {
                if i == 0 {
                    assert(ps[j] == rest[j - 1]);
                } else {
                    assert(ps[i] == rest[i - 1] && ps[j] == rest[j - 1]);
                }
            }
            assert forall|k: Seq<u8>| #[trigger] pair_lookup(ps, k) == live(said(st, k)) by {
                if k != p.0 {
                    assert(pair_lookup(rest, k) == live(said(after, k)));
                }
            }
        },
    }
}

/// Merging sorted streams gives each key that the freshest stream to know it has a value
/// for, once, with that value, in the order of the keys. A key whose freshest entry is a
/// tombstone does not come out.
pub proof fn law_merge(streams: Seq<Seq<Entry>>)
    requires
        forall|i: int| 0 <= i < streams.len() ==> strictly_sorted(#[trigger] streams[i]),
    ensures
        merge_of(streams).collect() matches Ok(ps) && pairs_sorted(ps) && forall|k: Seq<u8>|
            #[trigger] pair_lookup(ps, k) == live(resolve(tables_of(streams), k)),
{
    let fresh = merge_of(streams);
    let st = MergeState { initialized: true, ..fresh };
    assert forall|i: int| 0 <= i < streams.len() implies left(st, i) == streams[i] by {
        assert(left(st, i) =~= streams[i]);
    }
    assert(lefts(st) =~= streams);
    lemma_init_left(st, 0);
    let ready = st.init_from(0).0;
    assert forall|i: int| 0 <= i < ready.rests.len() implies strictly_sorted(
        #[trigger] lefts(ready)[i],
    ) by {
        assert(lefts(ready)[i] == streams[i]);
    }
    lemma_remaining(ready);
    assert(lefts(ready) == streams);
}

/// One of the streams holds the given failure.
pub open spec fn holds_error(streams: Seq<Seq<Item>>, e: LsmError) -> bool {
    exists|i: int, j: int|
        0 <= i < streams.len() && 0 <= j < streams[i].len() && #[trigger] streams[i][j]
            == Err::<Entry, LsmError>(e)
}

/// The same failures are still to come.
spec fn same_errors(a: MergeState, b: MergeState) -> bool {
    forall|e: LsmError|
        #![trigger holds_error(a.rests, e)]
        #![trigger holds_error(b.rests, e)]
        holds_error(a.rests, e) <==> holds_error(b.rests, e)
}

/// Fetching a head meets a failure or leaves all failures where they are.
proof fn lemma_advance_errors(st: MergeState, i: int)
    requires
        0 <= i < st.rests.len(),
    ensures
        ({
            let (after, failed) = st.advance(i);
            match failed {
                Some(e) => holds_error(st.rests, e),
                None => {
                    &&& same_errors(after, st)
                    &&& after.rests.len() == st.rests.len()
                    &&& after.rests[i].len() == 0 || after.heads.contains_key(i)
                    &&& forall|j: int|
                        j != i ==> (#[trigger] after.heads.contains_key(j)
                            <==> st.heads.contains_key(j))
                    &&& forall|j: int|
                        0 <= j < st.rests.len() && j != i ==> #[trigger] after.rests[j]
                            == st.rests[j]
                },
            }
        }),
{
    let (after, failed) = st.advance(i);
    if st.rests[i].len() > 0 {
        if let Err(e) = st.rests[i][0] {
            assert(st.rests[i][0] == Err::<Entry, LsmError>(e));
        } else {
            assert forall|e: LsmError| #[trigger] holds_error(after.rests, e) <==> holds_error(
                st.rests,
                e,
            ) by {
                if holds_error(after.rests, e) {
                    let (a, b) = choose|a: int, b: int|
                        0 <= a < after.rests.len() && 0 <= b < after.rests[a].len()
                            && #[trigger] after.rests[a][b] == Err::<Entry, LsmError>(e);
                    if a == i {
                        assert(st.rests[a][b + 1] == Err::<Entry, LsmError>(e));
                    } else {
                        assert(st.rests[a][b] == Err::<Entry, LsmError>(e));
                    }
                }
                if holds_error(st.rests, e) {
                    let (a, b) = choose|a: int, b: int|
                        0 <= a < st.rests.len() && 0 <= b < st.rests[a].len()
                            && #[trigger] st.rests[a][b] == Err::<Entry, LsmError>(e);
                    if a == i {
                        assert(after.rests[a][b - 1] == Err::<Entry, LsmError>(e));
                    } else {
                        assert(after.rests[a][b] == Err::<Entry, LsmError>(e));
                    }
                }
            }
        }
    }
}

/// Fetching the first heads meets a failure or leaves all failures where they are.
proof fn lemma_init_errors(st: MergeState, i: int)
    requires
        st.wf(),
        0 <= i <= st.rests.len(),
        forall|j: int|
            0 <= j < i && !(#[trigger] st.heads.contains_key(j)) ==> st.rests[j].len() == 0,
        forall|j: int| i <= j ==> !(#[trigger] st.heads.contains_key(j)),
    ensures
        ({
            let (after, failed) = st.init_from(i);
            match failed {
                Some(e) => holds_error(st.rests, e),
                None => same_errors(after, st) && after.wf() && primed(after),
            }
        }),
    decreases st.rests.len() - i,
{
    if i < st.rests.len() {
        lemma_advance_errors(st, i);
        let (after, failed) = st.advance(i);
        if failed is None {
            lemma_advance_size(st, i);
            lemma_init_errors(after, i + 1);
        }
    }
}

/// Taking out a head meets a failure or leaves all failures where they are.
proof fn lemma_replace_errors(st: MergeState, i: int)
    requires
        st.wf(),
        primed(st),
        is_top(st.heads, i),
    ensures
        ({
            let (after, failed) = st.replace(i);
            match failed {
                Some(e) => holds_error(st.rests, e),
                None => same_errors(after, st) && after.wf() && primed(after),
            }
        }),
{
    let popped = MergeState { heads: st.heads.remove(i), ..st };
    lemma_replace_size(st, i);
    lemma_advance_errors(popped, i);
    let (after, failed) = st.replace(i);
    if failed is None {
        assert forall|j: int|
            0 <= j < after.rests.len() && !(#[trigger] after.heads.contains_key(
                j,
            )) implies after.rests[j].len() == 0 by {
            if j != i {
                assert(!popped.heads.contains_key(j));
                assert(!st.heads.contains_key(j));
            }
        }
    }
}

/// Dropping heads meets a failure or leaves all failures where they are.
proof fn lemma_drain_errors(st: MergeState, key: Seq<u8>)
    requires
        st.wf(),
        primed(st),
    ensures
        ({
            let (after, failed) = st.drain(key);
            match failed {
                Some(e) => holds_error(st.rests, e),
                None => same_errors(after, st) && after.wf() && primed(after),
            }
        }),
    decreases st.size(),
{
    if st.has_top() && st.heads[st.top()].0 == key {
        lemma_replace_size(st, st.top());
        lemma_replace_errors(st, st.top());
        if st.replace(st.top()).1 is None {
            lemma_drain_errors(st.replace(st.top()).0, key);
        }
    }
}

/// Pulling an entry meets a failure, or leaves all failures where they are, or is at the end,
/// where no failure is left.
proof fn lemma_pull_errors(st: MergeState)
    requires
        st.wf(),
        primed(st),
    ensures
        ({
            let (after, r) = st.pull();
            match r {
                Some(Err(e)) => holds_error(st.rests, e),
                Some(Ok(_)) => same_errors(after, st) && after.wf() && primed(after),
                None => forall|e: LsmError| !(#[trigger] holds_error(st.rests, e)),
            }
        }),
    decreases st.size(),
{
    if st.has_top() {
        let current = st.heads[st.top()];
        lemma_replace_size(st, st.top());
        lemma_replace_errors(st, st.top());
        let (advanced, failed) = st.replace(st.top());
        if failed is None {
            lemma_drain_size(advanced, current.0);
            lemma_drain_errors(advanced, current.0);
            let (drained, failed) = advanced.drain(current.0);
            if failed is None && current.1 is None {
                lemma_pull_errors(drained);
            }
        }
    } else {
        assert forall|i: int| 0 <= i < st.rests.len() implies (#[trigger] st.rests[i]).len()
            == 0 by {
            if st.heads.contains_key(i) {
                let t = lemma_first_of(st.heads, st.rests.len() as int);
                assert(is_top(st.heads, t));
            }
        }
    }
}

/// What is still to come ends in a failure exactly when one is left.
proof fn lemma_remaining_errors(st: MergeState)
    requires
        st.wf(),
        primed(st),
    ensures
        match st.remaining() {
            Ok(_) => forall|e: LsmError| !(#[trigger] holds_error(st.rests, e)),
            Err(e) => holds_error(st.rests, e),
        },
    decreases st.size(),
{
    lemma_pull_size(st);
    lemma_pull_errors(st);
    if let (after, Some(Ok(_))) = st.pull() {
        lemma_remaining_errors(after);
    }
}

/// A merge that is run to its end fails exactly when one of its streams holds a failure, and
/// the failure that it reports is one that a stream holds.
pub proof fn law_merge_errors(streams: Seq<Seq<Item>>)
    ensures
        match (MergeState { heads: Map::empty(), rests: streams, initialized: false }).collect() {
            Ok(_) => forall|e: LsmError| !(#[trigger] holds_error(streams, e)),
            Err(e) => holds_error(streams, e),
        },
{
    let st = MergeState { heads: Map::empty(), rests: streams, initialized: true };
    lemma_init_errors(st, 0);
    if st.init_from(0).1 is None {
        lemma_remaining_errors(st.init_from(0).0);
    }
}

/// Fetching the first heads does not undo that they are to be fetched once.
proof fn lemma_init_initialized(st: MergeState, i: int)
    requires
        st.wf(),
        0 <= i,
        forall|j: int| i <= j ==> !(#[trigger] st.heads.contains_key(j)),
    ensures
        st.init_from(i).0.initialized == st.initialized,
        st.init_from(i).1 is None ==> st.init_from(i).0.wf(),
    decreases st.rests.len() - i,
{
    if i < st.rests.len() {
        lemma_advance_size(st, i);
        if st.advance(i).1 is None {
            lemma_init_initialized(st.advance(i).0, i + 1);
        }
    }
}

/// A merge that is run to its end is what comes next, and then the rest run to its end, up to
/// the first failure.
pub proof fn law_merge_next(st: MergeState)
    requires
        st.wf(),
        !st.initialized ==> st.heads == Map::<int, Entry>::empty(),
    ensures
        ({
            let (after, r) = st.next();
            st.collect() == match r {
                None => Ok(Seq::empty()),
                Some(Err(e)) => Err(e),
                Some(Ok(p)) => match after.collect() {
                    Ok(rest) => Ok(seq![p] + rest),
                    Err(e) => Err(e),
                },
            }
        }),
{
    let (ready, failed) = st.init();
    if !st.initialized {
        lemma_init_initialized(MergeState { initialized: true, ..st }, 0);
    }
    if failed is None {
        lemma_pull_size(ready);
    }
}

/// A merge yields what its handles stand for, in the same order, and takes its streams so.
pub proof fn law_merge_views(
    ps: Seq<(Bytes, Bytes)>,
    items: Seq<Result<(Bytes, Option<Bytes>)>>,
    streams: Seq<VecDeque<Result<(Bytes, Option<Bytes>)>>>,
    es: Seq<Entry>,
    i: int,
    e: LsmError,
)
    ensures
        pairs_of(ps).len() == ps.len(),
        0 <= i < ps.len() ==> pairs_of(ps)[i] == (bytes_of(ps[i].0), bytes_of(ps[i].1))
            && merged_of(Ok(ps[i])) == Ok::<(Seq<u8>, Seq<u8>), LsmError>(pairs_of(ps)[i]),
        merged_of(Err(e)) == Err::<(Seq<u8>, Seq<u8>), LsmError>(e),
        items_of(items).len() == items.len(),
        0 <= i < items.len() ==> match items[i] {
            Ok(x) => items_of(items)[i] == Ok::<Entry, LsmError>(entry_of(x)),
            Err(x) => items_of(items)[i] == Err::<Entry, LsmError>(x),
        },
        streams_of(streams).len() == streams.len(),
        0 <= i < streams.len() ==> streams_of(streams)[i] == items_of(streams[i]@),
        ok_items(es).len() == es.len(),
        0 <= i < es.len() ==> ok_items(es)[i] == Ok::<Entry, LsmError>(es[i]),
{
}

} // verus!
