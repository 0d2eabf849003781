//! The in-memory write buffer: a sorted map of the newest entries.
use crate::codec::{as_slice, bytes_of};
use crate::entry::{
    entries_of, found_of, is_run_of, lemma_run_of, lookup, run_of, strictly_sorted, table_get,
    value_of, Table,
};
use bytes::Bytes;
use crossbeam_skiplist::SkipMap;
use vstd::arithmetic::div_mod::{
    lemma_add_mod_noop_right, lemma_mod_sub_multiples_vanish, lemma_small_mod,
};
use vstd::prelude::*;

verus! {

/// Approximate memory that a skip-list node takes besides its key and value.
pub const ESTIMATED_NODE_OVERHEAD: usize = 64;

/// `crossbeam_skiplist::SkipMap`, an ordered map.
#[verifier::external_type_specification]
#[verifier::external_body]
#[verifier::reject_recursive_types(K)]
#[verifier::reject_recursive_types(V)]
pub struct ExSkipMap<K, V>(SkipMap<K, V>);

/// What a skip map holds.
pub uninterp spec fn skip_map_table(m: SkipMap<Bytes, Option<Bytes>>) -> Table;

/// `SkipMap::new`: a map that holds nothing.
#[verifier::external_body]
fn skip_map_new() -> (m: SkipMap<Bytes, Option<Bytes>>)
    ensures
        skip_map_table(m) == Table::empty(),
{
    SkipMap::new()
}

/// `SkipMap::insert`: the key is bound to the value, and whatever it was bound to before
/// is gone. Nothing else changes. The map is held exclusively, so no other thread
/// changes it at the same time.
#[verifier::external_body]
fn skip_map_insert(m: &mut SkipMap<Bytes, Option<Bytes>>, key: Bytes, value: Option<Bytes>)
    ensures
        skip_map_table(*final(m)) == skip_map_table(*old(m)).insert(bytes_of(key), value_of(value)),
{
    m.insert(key, value);
}

/// `SkipMap::get`: the value that the key is bound to, if it is bound.
#[verifier::external_body]
fn skip_map_get(m: &SkipMap<Bytes, Option<Bytes>>, key: &[u8]) -> (r: Option<Option<Bytes>>)
    ensures
        found_of(r) == table_get(skip_map_table(*m), key@),
{
    m.get(key).map(|entry| entry.value().clone())
}

/// `SkipMap::len`: how many keys are bound.
#[verifier::external_body]
fn skip_map_len(m: &SkipMap<Bytes, Option<Bytes>>) -> (n: usize)
    ensures
        n as nat == skip_map_table(*m).dom().len(),
{
    m.len()
}

/// `SkipMap::is_empty`: whether no key is bound.
#[verifier::external_body]
fn skip_map_is_empty(m: &SkipMap<Bytes, Option<Bytes>>) -> (b: bool)
    ensures
        b == (skip_map_table(*m) == Table::empty()),
{
    m.is_empty()
}

/// `SkipMap::iter`: every binding once, in ascending order of the keys. `Bytes` orders
/// itself as the byte slice it stands for, which is the lexicographic order.
#[verifier::external_body]
fn skip_map_iter(m: &SkipMap<Bytes, Option<Bytes>>) -> (es: Vec<(Bytes, Option<Bytes>)>)
    ensures
        strictly_sorted(entries_of(es@)),
        forall|k: Seq<u8>|
            #[trigger] lookup(entries_of(es@), k) == table_get(skip_map_table(*m), k),
{
    m.iter().map(|entry| (entry.key().clone(), entry.value().clone())).collect()
}

/// A sum of two sizes, counted modulo the number of sizes there are.
fn wrapping_sum(a: usize, b: usize) -> (s: usize)
    ensures
        s as int == (a + b) % (usize::MAX + 1),
{
    let s: usize = a.wrapping_add(b);
    proof {
        let m = usize::MAX + 1;
        if a + b < m {
            assert(s as int == a + b);
        } else {
            assert(s as int == -m + (a + b));
            lemma_mod_sub_multiples_vanish(a + b, m);
        }
        lemma_small_mod(s as nat, m as nat);
    }
    s
}

/// In-memory sorted write buffer over a skip list.
pub struct MemTable {
    map: SkipMap<Bytes, Option<Bytes>>,
    size_bytes: usize,
}

impl View for MemTable {
    type V = Table;

    /// What the buffer says of each key that it knows.
    closed spec fn view(&self) -> Table {
        skip_map_table(self.map)
    }
}

impl MemTable {
    /// The running count of bytes, as `size_bytes` reports it.
    pub closed spec fn spec_size(&self) -> usize {
        self.size_bytes
    }

    pub fn new() -> (t: Self)
        ensures
            t@ == Table::empty(),
            t.spec_size() == 0,
    {
        MemTable { map: skip_map_new(), size_bytes: 0 }
    }

    /// Insert or overwrite a key-value pair.
    pub fn put(&mut self, key: Bytes, value: Bytes)
        ensures
            final(self)@ == old(self)@.insert(bytes_of(key), Some(bytes_of(value))),
            final(self).spec_size() as int == (old(self).spec_size() + bytes_of(key).len()
                + bytes_of(value).len() + ESTIMATED_NODE_OVERHEAD) % (usize::MAX + 1),
    {
        let k: usize = as_slice(&key).len();
        let v: usize = as_slice(&value).len();
        let pair: usize = wrapping_sum(k, v);
        let added: usize = wrapping_sum(pair, ESTIMATED_NODE_OVERHEAD);
        let size: usize = wrapping_sum(self.size_bytes, added);
        proof {
            let m = usize::MAX + 1;
            lemma_add_mod_noop_right(ESTIMATED_NODE_OVERHEAD as int, k + v, m);
            assert(added as int == (k + v + ESTIMATED_NODE_OVERHEAD) % m);
            lemma_add_mod_noop_right(self.size_bytes as int, k + v + ESTIMATED_NODE_OVERHEAD, m);
            assert(size as int == (self.size_bytes + k + v + ESTIMATED_NODE_OVERHEAD) % m);
        }
        skip_map_insert(&mut self.map, key, Some(value));
        self.size_bytes = size;
    }

    /// Mark a key as deleted by inserting a tombstone (`None`).
    pub fn delete(&mut self, key: Bytes)
        ensures
            final(self)@ == old(self)@.insert(bytes_of(key), None),
            final(self).spec_size() as int == (old(self).spec_size() + bytes_of(key).len()
                + ESTIMATED_NODE_OVERHEAD) % (usize::MAX + 1),
    {
        let k: usize = as_slice(&key).len();
        let added: usize = wrapping_sum(k, ESTIMATED_NODE_OVERHEAD);
        let size: usize = wrapping_sum(self.size_bytes, added);
        proof {
            let m = usize::MAX + 1;
            lemma_add_mod_noop_right(self.size_bytes as int, k + ESTIMATED_NODE_OVERHEAD, m);
            assert(size as int == (self.size_bytes + k + ESTIMATED_NODE_OVERHEAD) % m);
        }
        skip_map_insert(&mut self.map, key, None);
        self.size_bytes = size;
    }

    /// Lookup a key in the MemTable.
    /// Returns:
    /// - `Some(Some(val))` if key exists with active value.
    /// - `Some(None)` if key has an active Tombstone (deleted).
    /// - `None` if key is not present in this MemTable.
    pub fn get(&self, key: &[u8]) -> (r: Option<Option<Bytes>>)
        ensures
            found_of(r) == table_get(self@, key@),
    {
        skip_map_get(&self.map, key)
    }

    /// Total approximate memory footprint of this MemTable in bytes.
    pub fn size_bytes(&self) -> (n: usize)
        ensures
            n == self.spec_size(),
    {
        self.size_bytes
    }

    /// Number of entries currently in the MemTable.
    pub fn len(&self) -> (n: usize)
        ensures
            n as nat == self@.dom().len(),
    {
        skip_map_len(&self.map)
    }

    pub fn is_empty(&self) -> (b: bool)
        ensures
            b == (self@ == Table::empty()),
    {
        skip_map_is_empty(&self.map)
    }

    /// All (Key, Option<Value>) entries in lexicographical sorted order.
    pub fn iter(&self) -> (es: Vec<(Bytes, Option<Bytes>)>)
        ensures
            is_run_of(entries_of(es@), self@),
            entries_of(es@) == run_of(self@),
    {
        let es: Vec<(Bytes, Option<Bytes>)> = skip_map_iter(&self.map);
        proof {
            lemma_run_of(entries_of(es@), self@);
        }
        es
    }
}

impl Default for MemTable {
    fn default() -> (t: Self)
        ensures
            t@ == Table::empty(),
            t.spec_size() == 0,
    {
        MemTable::new()
    }
}

} // verus!
