//! The block cache: decoded blocks, kept in memory by how recently they were used.
use crate::sstable::block::{Block, BlockModel};
use std::collections::HashMap;
use std::sync::Arc;
use vstd::prelude::*;

verus! {

/// Unique identifier for an SSTable block in the cache: (SSTable ID, Byte Offset).
#[derive(Clone, Copy, Debug, PartialEq, Eq, Hash, Structural)]
pub struct BlockKey {
    pub sst_id: u64,
    pub offset: u64,
}

impl BlockKey {
    /// The key as one number.
    pub open spec fn packed(self) -> int {
        self.sst_id * 0x1_0000_0000_0000_0000 + self.offset
    }

    fn pack(self) -> (n: u128)
        ensures
            n == self.packed(),
    {
        self.sst_id as u128 * 0x1_0000_0000_0000_0000 + self.offset as u128
    }
}

/// `Arc::clone`: a second handle on the same block.
#[verifier::external_body]
pub(crate) fn share_block(b: &Arc<Block>) -> (r: Arc<Block>)
    ensures
        r == *b,
{
    Arc::clone(b)
}

/// A cached block, and its neighbours in the order of use.
struct LruNode {
    key: BlockKey,
    block: Arc<Block>,
    prev: Option<usize>,
    next: Option<usize>,
}

/// What a cache holds, from the most to the least recently used block.
pub type Cached = Seq<(BlockKey, BlockModel)>;

/// The cache holds a block for the key.
pub open spec fn is_cached(c: Cached, key: BlockKey) -> bool {
    exists|i: int| 0 <= i < c.len() && (#[trigger] c[i]).0 == key
}

/// The place of the key's block.
pub open spec fn place(c: Cached, key: BlockKey) -> int {
    choose|i: int| 0 <= i < c.len() && (#[trigger] c[i]).0 == key
}

/// No key has two blocks.
pub open spec fn distinct(c: Cached) -> bool {
    forall|i: int, j: int| 0 <= i < j < c.len() ==> (#[trigger] c[i]).0 != (#[trigger] c[j]).0
}

/// A use of the block at place `i` makes it the most recently used one.
pub open spec fn promote(c: Cached, i: int) -> Cached {
    seq![c[i]] + c.remove(i)
}

/// A cache after a lookup.
pub open spec fn after_get(c: Cached, key: BlockKey) -> Cached {
    if is_cached(c, key) {
        promote(c, place(c, key))
    } else {
        c
    }
}

/// A cache after an insertion: the new block is the most recently used one. It takes the
/// place of the key's old block; otherwise, in a full cache, that of the least recently
/// used block.
pub open spec fn after_insert(
    c: Cached,
    capacity: nat,
    key: BlockKey,
    block: BlockModel,
) -> Cached {
    if is_cached(c, key) {
        seq![(key, block)] + c.remove(place(c, key))
    } else if c.len() >= capacity {
        seq![(key, block)] + c.drop_last()
    } else {
        seq![(key, block)] + c
    }
}

/// The slot at place `i` of the order, if there is such a place.
spec fn at(order: Seq<usize>, i: int) -> Option<usize> {
    if 0 <= i < order.len() {
        Some(order[i])
    } else {
        None
    }
}

/// The slot at place `i` holds a node that points to its neighbours.
spec fn slot_ok(nodes: Seq<Option<LruNode>>, order: Seq<usize>, i: int) -> bool {
    &&& order[i] < nodes.len()
    &&& nodes[order[i] as int] is Some
    &&& nodes[order[i] as int]->0.prev == at(order, i - 1)
    &&& nodes[order[i] as int]->0.next == at(order, i + 1)
}

/// The nodes form a doubly linked list in the given order.
spec fn linked(
    nodes: Seq<Option<LruNode>>,
    head: Option<usize>,
    tail: Option<usize>,
    order: Seq<usize>,
) -> bool {
    &&& forall|i: int| 0 <= i < order.len() ==> #[trigger] slot_ok(nodes, order, i)
    &&& forall|i: int, j: int| 0 <= i < j < order.len() ==> order[i] != order[j]
    &&& head == at(order, 0)
    &&& tail == at(order, order.len() - 1)
}

/// The same blocks stand in the same slots.
spec fn same_blocks(a: Seq<Option<LruNode>>, b: Seq<Option<LruNode>>) -> bool {
    &&& a.len() == b.len()
    &&& forall|s: int|
        0 <= s < a.len() ==> ((#[trigger] a[s]) is Some <==> b[s] is Some) && (a[s] is Some
            ==> a[s]->0.key == b[s]->0.key && a[s]->0.block == b[s]->0.block)
}

/// An in-memory Least-Recently-Used (LRU) cache for decoded 4KB SSTable data blocks.
/// Provides O(1) cache lookups, insertions, and evictions.
pub struct BlockCache {
    capacity: usize,
    nodes: Vec<Option<LruNode>>,
    map: HashMap<u128, usize>,
    head: Option<usize>,  // Most recently used slot
    tail: Option<usize>,  // Least recently used slot
    free_slots: Vec<usize>,
    order: Ghost<Seq<usize>>,
}

impl View for BlockCache {
    type V = Cached;

    closed spec fn view(&self) -> Cached {
        contents(self.nodes@, self.order@)
    }
}

/// The blocks in the given slots, in order.
spec fn contents(nodes: Seq<Option<LruNode>>, order: Seq<usize>) -> Cached {
    Seq::new(
        order.len(),
        |i: int| (nodes[order[i] as int]->0.key, nodes[order[i] as int]->0.block@),
    )
}

impl BlockCache {
    /// The slots are linked in the order of use.
    spec fn list_ok(&self) -> bool {
        linked(self.nodes@, self.head, self.tail, self.order@)
    }

    /// Slots that can be used again are empty.
    spec fn free_ok(&self) -> bool {
        &&& forall|i: int|
            0 <= i < self.free_slots@.len() ==> (#[trigger] self.free_slots@[i])
                < self.nodes@.len() && self.nodes@[self.free_slots@[i] as int] is None
        &&& forall|i: int, j: int|
            0 <= i < j < self.free_slots@.len() ==> self.free_slots@[i] != self.free_slots@[j]
    }

    /// The map leads from each cached key to its slot.
    spec fn map_ok(&self) -> bool {
        mapped(self.map@, self.nodes@, self.order@)
    }

    pub closed spec fn wf(&self) -> bool {
        &&& self.list_ok()
        &&& self.free_ok()
        &&& self.map_ok()
        &&& 1 <= self.capacity
        &&& self.order@.len() <= self.capacity
        &&& self.nodes@.len() == self.order@.len() + self.free_slots@.len()
        &&& self.nodes@.len() <= self.capacity
    }

    /// The most blocks that the cache holds.
    pub closed spec fn spec_capacity(&self) -> usize {
        self.capacity
    }

    /// How many slots the cache has made; evicted blocks leave theirs to later ones.
    pub closed spec fn spec_slots(&self) -> nat {
        self.nodes@.len()
    }

    pub fn new(capacity: usize) -> (c: Self)
        ensures
            c.wf(),
            c@ == Cached::empty(),
            c.spec_capacity() == if capacity == 0 {
                1
            } else {
                capacity
            },
    {
        let cap: usize = if capacity == 0 {
            1
        } else {
            capacity
        };
        let c: BlockCache = BlockCache {
            capacity: cap,
            nodes: Vec::new(),
            map: HashMap::new(),
            head: None,
            tail: None,
            free_slots: Vec::new(),
            order: Ghost(Seq::empty()),
        };
        assert(c@ =~= Cached::empty());
        c
    }

    /// Takes a node out of the list, at place `p` of the order.
    fn detach(&mut self, idx: usize, Ghost(p): Ghost<int>)
        requires
            old(self).list_ok(),
            0 <= p < old(self).order@.len(),
            old(self).order@[p] == idx,
        ensures
            final(self).list_ok(),
            final(self).order@ == old(self).order@.remove(p),
            same_blocks(old(self).nodes@, final(self).nodes@),
            final(self).capacity == old(self).capacity,
            final(self).map == old(self).map,
            final(self).free_slots == old(self).free_slots,
    {
        let ghost order = self.order@;
        let ghost start = self.nodes@;
        assert(slot_ok(start, order, p));
        let (prev, next) = match &self.nodes[idx] {
            Some(node) => (node.prev, node.next),
            None => {
                return;
            },
        };
        if let Some(p_idx) = prev {
            assert(slot_ok(start, order, p - 1));
            if let Some(p_node) = &mut self.nodes[p_idx] {
                p_node.next = next;
            }
        } else {
            self.head = next;
        }
        if let Some(n_idx) = next {
            assert(slot_ok(start, order, p + 1));
            if let Some(n_node) = &mut self.nodes[n_idx] {
                n_node.prev = prev;
            }
        } else {
            self.tail = prev;
        }
        if let Some(node) = &mut self.nodes[idx] {
            node.prev = None;
            node.next = None;
        }
        self.order = Ghost(order.remove(p));
        proof {
            let now = self.order@;
            assert forall|i: int| 0 <= i < now.len() implies #[trigger] slot_ok(
                self.nodes@,
                now,
                i,
            ) by {
                let j = if i < p {
                    i
                } else {
                    i + 1
                };
                assert(slot_ok(start, order, j));
                assert(now[i] == order[j]);
            }
        }
    }

    /// Puts a node that is in no list in front.
    fn attach_head(&mut self, idx: usize)
        requires
            old(self).list_ok(),
            idx < old(self).nodes@.len(),
            old(self).nodes@[idx as int] is Some,
            forall|i: int| 0 <= i < old(self).order@.len() ==> old(self).order@[i] != idx,
        ensures
            final(self).list_ok(),
            final(self).order@ == seq![idx] + old(self).order@,
            same_blocks(old(self).nodes@, final(self).nodes@),
            final(self).capacity == old(self).capacity,
            final(self).map == old(self).map,
            final(self).free_slots == old(self).free_slots,
    {
        let ghost order = self.order@;
        let ghost start = self.nodes@;
        let old_head: Option<usize> = self.head;
        if let Some(node) = &mut self.nodes[idx] {
            node.prev = None;
            node.next = old_head;
        }
        if let Some(h) = old_head {
            assert(slot_ok(start, order, 0));
            if let Some(h_node) = &mut self.nodes[h] {
                h_node.prev = Some(idx);
            }
        } else {
            self.tail = Some(idx);
        }
        self.head = Some(idx);
        self.order = Ghost(seq![idx] + order);
        proof {
            let now = self.order@;
            assert forall|i: int| 0 <= i < now.len() implies #[trigger] slot_ok(
                self.nodes@,
                now,
                i,
            ) by {
                if i > 0 {
                    assert(slot_ok(start, order, i - 1));
                    assert(now[i] == order[i - 1]);
                }
            }
        }
    }

    fn move_to_head(&mut self, idx: usize, Ghost(p): Ghost<int>)
        requires
            old(self).list_ok(),
            0 <= p < old(self).order@.len(),
            old(self).order@[p] == idx,
        ensures
            final(self).list_ok(),
            final(self).order@ == seq![idx] + old(self).order@.remove(p),
            same_blocks(old(self).nodes@, final(self).nodes@),
            final(self).capacity == old(self).capacity,
            final(self).map == old(self).map,
            final(self).free_slots == old(self).free_slots,
    {
        assert(slot_ok(self.nodes@, self.order@, p));
        if let Some(h) = self.head {
            if h == idx {
                assert(p == 0);
                assert(seq![idx] + self.order@.remove(0) =~= self.order@);
                return;
            }
        }
        self.detach(idx, Ghost(p));
        self.attach_head(idx);
    }

    fn allocate_slot(&mut self) -> (slot: usize)
        requires
            old(self).list_ok(),
            old(self).free_ok(),
            old(self).map_ok(),
        ensures
            final(self).list_ok(),
            final(self).free_ok(),
            final(self).map_ok(),
            final(self).order == old(self).order,
            final(self).map == old(self).map,
            final(self).capacity == old(self).capacity,
            final(self)@ == old(self)@,
            slot < final(self).nodes@.len(),
            final(self).nodes@[slot as int] is None,
            forall|i: int|
                0 <= i < final(self).free_slots@.len() ==> final(self).free_slots@[i] != slot,
            final(self).nodes@.len() - final(self).free_slots@.len() == old(self).nodes@.len()
                - old(self).free_slots@.len() + 1,
            final(self).nodes@.len() == if old(self).free_slots@.len() > 0 {
                old(self).nodes@.len()
            } else {
                old(self).nodes@.len() + 1
            },
    {
        let ghost start = self.nodes@;
        let ghost free = self.free_slots@;
        if let Some(slot) = self.free_slots.pop() {
            proof {
                assert(free[free.len() - 1] == slot);
                assert forall|i: int| 0 <= i < self.free_slots@.len() implies (
                #[trigger] self.free_slots@[i]) < self.nodes@.len()
                    && self.nodes@[self.free_slots@[i] as int] is None by {
                    assert(self.free_slots@[i] == free[i]);
                }
            }
            slot
        } else {
            let slot: usize = self.nodes.len();
            self.nodes.push(None);
            proof {
                let order = self.order@;
                assert forall|i: int| 0 <= i < order.len() implies #[trigger] slot_ok(
                    self.nodes@,
                    order,
                    i,
                ) by {
                    assert(slot_ok(start, order, i));
                }
                assert forall|i: int| 0 <= i < order.len() implies start[#[trigger] order[i] as int]
                    == self.nodes@[order[i] as int] by {
                    assert(slot_ok(start, order, i));
                }
                lemma_same_order(self.map@, start, self.nodes@, order);
                assert(self@ =~= old(self)@);
            }
            slot
        }
    }

    /// Takes the least recently used block out of the list and frees its slot.
    fn evict_tail(&mut self) -> (r: Option<BlockKey>)
        requires
            old(self).list_ok(),
            old(self).free_ok(),
            old(self).order@.len() > 0,
        ensures
            final(self).list_ok(),
            final(self).free_ok(),
            final(self).order@ == old(self).order@.drop_last(),
            final(self).map == old(self).map,
            final(self).capacity == old(self).capacity,
            final(self).nodes@.len() == old(self).nodes@.len(),
            final(self).free_slots@.len() == old(self).free_slots@.len() + 1,
            r == Some(old(self).nodes@[old(self).order@.last() as int]->0.key),
            forall|i: int|
                0 <= i < final(self).order@.len() ==> same_block(
                    old(self).nodes@,
                    final(self).nodes@,
                    #[trigger] final(self).order@[i] as int,
                ),
    {
        let ghost start = self.nodes@;
        let ghost order = self.order@;
        let ghost last = order.len() - 1;
        assert(slot_ok(start, order, last));
        let tail_idx: usize = match self.tail {
            Some(t) => t,
            None => {
                return None;
            },
        };
        let key: BlockKey = match &self.nodes[tail_idx] {
            Some(n) => n.key,
            None => {
                return None;
            },
        };
        self.detach(tail_idx, Ghost(last));
        let ghost middle = self.nodes@;
        let ghost free = self.free_slots@;
        self.nodes.set(tail_idx, None);
        self.free_slots.push(tail_idx);
        proof {
            let now = self.order@;
            assert(now =~= order.drop_last());
            assert(middle[tail_idx as int] is Some <==> start[tail_idx as int] is Some);
            assert forall|i: int| 0 <= i < now.len() implies #[trigger] slot_ok(
                self.nodes@,
                now,
                i,
            ) by {
                assert(slot_ok(middle, now, i));
                assert(order[i] != order[last]);
            }
            assert forall|i: int| 0 <= i < free.len() implies (#[trigger] free[i])
                < self.nodes@.len() && free[i] != tail_idx
                && self.nodes@[free[i] as int] is None by {
                assert(start[free[i] as int] is None);
                assert(middle[free[i] as int] is None <==> start[free[i] as int] is None);
            }
            assert forall|i: int| 0 <= i < now.len() implies same_block(
                start,
                self.nodes@,
                #[trigger] now[i] as int,
            ) by {
                assert(slot_ok(start, order, i));
                assert(order[i] != order[last]);
                assert(middle[now[i] as int] is Some);
                assert(start[now[i] as int]->0.key == middle[now[i] as int]->0.key);
            }
        }
        Some(key)
    }

    /// Number of cached blocks currently in memory.
    pub fn len(&self) -> (n: usize)
        requires
            self.wf(),
        ensures
            n as nat == self@.len(),
    {
        broadcast use vstd::std_specs::hash::group_hash_axioms;

        self.map.len()
    }

    pub fn is_empty(&self) -> (b: bool)
        requires
            self.wf(),
        ensures
            b == (self@.len() == 0),
    {
        broadcast use vstd::std_specs::hash::group_hash_axioms;

        self.map.len() == 0
    }

    pub fn capacity(&self) -> (n: usize)
        ensures
            n == self.spec_capacity(),
    {
        self.capacity
    }

    /// Retrieves a block from cache, promoting it to Most Recently Used (MRU).
    pub fn get(&mut self, key: &BlockKey) -> (r: Option<Arc<Block>>)
        requires
            old(self).wf(),
        ensures
            final(self).wf(),
            final(self).spec_capacity() == old(self).spec_capacity(),
            final(self)@ == after_get(old(self)@, *key),
            match r {
                Some(b) => is_cached(old(self)@, *key) && b@ == old(self)@[place(
                    old(self)@,
                    *key,
                )].1,
                None => !is_cached(old(self)@, *key),
            },
    {
        broadcast use vstd::std_specs::hash::group_hash_axioms;

        let ghost start = self.nodes@;
        let ghost order = self.order@;
        let ghost before = self@;
        let k: u128 = key.pack();
        let idx: usize = match self.map.get(&k) {
            Some(i) => *i,
            None => {
                proof {
                    assert forall|i: int| 0 <= i < before.len() implies (#[trigger] before[i]).0
                        != *key by {
                        assert(self.map@.contains_key(packed_at(start, order, i)));
                    }
                }
                return None;
            },
        };
        let ghost p = choose|p: int|
            0 <= p < order.len() && #[trigger] packed_at(start, order, p) == k;
        proof {
            lemma_key_place(self.map@, start, order, *key, p);
            assert(slot_ok(start, order, p));
        }
        self.move_to_head(idx, Ghost(p));
        proof {
            lemma_promoted(self.map@, start, self.nodes@, order, p);
            lemma_free_kept(start, self.nodes@, self.free_slots@);
        }
        match &self.nodes[idx] {
            Some(node) => Some(share_block(&node.block)),
            None => None,
        }
    }

    /// Inserts a block into the cache. If capacity is exceeded, evicts the LRU block.
    pub fn insert(&mut self, key: BlockKey, block: Arc<Block>)
        requires
            old(self).wf(),
        ensures
            final(self).wf(),
            final(self).spec_capacity() == old(self).spec_capacity(),
            final(self)@ == after_insert(
                old(self)@,
                old(self).spec_capacity() as nat,
                key,
                block@,
            ),
    {
        broadcast use vstd::std_specs::hash::group_hash_axioms;

        let ghost start = self.nodes@;
        let ghost order = self.order@;
        let ghost before = self@;
        let k: u128 = key.pack();
        if let Some(found) = self.map.get(&k) {
            let idx: usize = *found;
            let ghost p = choose|p: int|
                0 <= p < order.len() && #[trigger] packed_at(start, order, p) == k;
            proof {
                lemma_key_place(self.map@, start, order, key, p);
                assert(slot_ok(start, order, p));
            }
            if let Some(node) = &mut self.nodes[idx] {
                node.block = block;
            }
            let ghost changed = self.nodes@;
            proof {
                assert forall|i: int| 0 <= i < order.len() implies #[trigger] slot_ok(
                    changed,
                    order,
                    i,
                ) by {
                    assert(slot_ok(start, order, i));
                }
                assert forall|i: int|
                    0 <= i < order.len() implies start[#[trigger] order[i] as int]->0.key
                    == changed[order[i] as int]->0.key by {
                    assert(slot_ok(start, order, i));
                }
                lemma_same_order(self.map@, start, changed, order);
            }
            self.move_to_head(idx, Ghost(p));
            proof {
                lemma_promoted(self.map@, changed, self.nodes@, order, p);
                assert forall|i: int| 0 <= i < self.free_slots@.len() implies (
                #[trigger] self.free_slots@[i]) < changed.len()
                    && changed[self.free_slots@[i] as int] is None by {
                    assert(start[self.free_slots@[i] as int] is None);
                }
                lemma_free_kept(changed, self.nodes@, self.free_slots@);
                let model = contents(changed, order);
                assert forall|i: int| 0 <= i < order.len() && i != p implies model[i]
                    == before[i] by {
                    assert(order[i] != order[p]);
                    assert(slot_ok(start, order, i));
                }
                assert(model.remove(p) =~= before.remove(p));
                assert(self@ =~= seq![(key, block@)] + before.remove(p));
            }
            return;
        }
        proof {
            assert forall|i: int| 0 <= i < before.len() implies (#[trigger] before[i]).0 != key by {
                assert(self.map@.contains_key(packed_at(start, order, i)));
            }
        }
        if self.map.len() >= self.capacity {
            if let Some(evicted_key) = self.evict_tail() {
                let ghost last = order.len() - 1;
                let e: u128 = evicted_key.pack();
                assert(packed_at(start, order, last) == e);
                let ghost full = self.map@;
                self.map.remove(&e);
                proof {
                    full.lemma_remove_key_len(e);
                    lemma_evicted(full, start, self.nodes@, order);
                }
            }
        }
        let ghost kept = self.nodes@;
        let ghost rest = self.order@;
        let ghost kept_view = self@;
        let ghost kept_map = self.map@;
        proof {
            assert(kept_view =~= if before.len() >= self.capacity {
                before.drop_last()
            } else {
                before
            });
            assert(!kept_map.contains_key(k)) by {
                if kept_map.contains_key(k) {
                    let i = choose|i: int|
                        0 <= i < rest.len() && #[trigger] packed_at(kept, rest, i) == k;
                    lemma_key_place(kept_map, kept, rest, key, i);
                    assert(kept_view[i].0 == key);
                }
            }
        }
        let idx: usize = self.allocate_slot();
        let ghost middle = self.nodes@;
        self.nodes.set(idx, Some(LruNode { key, block, prev: None, next: None }));
        let ghost placed = self.nodes@;
        proof {
            assert forall|i: int| 0 <= i < rest.len() implies rest[i] != idx by {
                assert(slot_ok(middle, rest, i));
            }
            assert forall|i: int| 0 <= i < rest.len() implies #[trigger] slot_ok(
                placed,
                rest,
                i,
            ) by {
                assert(slot_ok(middle, rest, i));
            }
        }
        self.attach_head(idx);
        self.map.insert(k, idx);
        proof {
            lemma_inserted(kept_map, middle, placed, self.nodes@, rest, idx, key);
            assert(kept_map.dom().insert(k).len() == kept_map.dom().len() + 1);
            assert(self.map@.dom() =~= kept_map.dom().insert(k));
            assert forall|i: int| 0 <= i < self.free_slots@.len() implies (
            #[trigger] self.free_slots@[i]) < self.nodes@.len()
                && self.nodes@[self.free_slots@[i] as int] is None by {
                assert(middle[self.free_slots@[i] as int] is None);
                assert(placed[self.free_slots@[i] as int] is None);
            }
            assert(self@ =~= seq![(key, block@)] + kept_view);
        }
    }
}

/// The block of one slot is the same.
spec fn same_block(a: Seq<Option<LruNode>>, b: Seq<Option<LruNode>>, s: int) -> bool {
    a[s]->0.key == b[s]->0.key && a[s]->0.block == b[s]->0.block
}

/// The number of the key at place `i`.
spec fn packed_at(nodes: Seq<Option<LruNode>>, order: Seq<usize>, i: int) -> u128 {
    nodes[order[i] as int]->0.key.packed() as u128
}

/// A map leads from the key of each listed slot to the slot, and from nothing else.
spec fn mapped(map: Map<u128, usize>, nodes: Seq<Option<LruNode>>, order: Seq<usize>) -> bool {
    &&& map.dom().finite()
    &&& map.len() == order.len()
    &&& forall|i: int|
        0 <= i < order.len() ==> map.contains_key(#[trigger] packed_at(nodes, order, i))
            && map[packed_at(nodes, order, i)] == order[i]
    &&& forall|k: u128| #[trigger]
        map.contains_key(k) ==> exists|i: int|
            0 <= i < order.len() && #[trigger] packed_at(nodes, order, i) == k
}

/// Two keys with the same number are the same key.
proof fn lemma_packed_injective(a: BlockKey, b: BlockKey)
    requires
        a.packed() == b.packed(),
    ensures
        a == b,
{
}

/// The place that the map leads to is the key's place in the order of use.
proof fn lemma_key_place(
    map: Map<u128, usize>,
    nodes: Seq<Option<LruNode>>,
    order: Seq<usize>,
    key: BlockKey,
    p: int,
)
    requires
        mapped(map, nodes, order),
        forall|i: int, j: int| 0 <= i < j < order.len() ==> order[i] != order[j],
        0 <= p < order.len(),
        packed_at(nodes, order, p) == key.packed(),
    ensures
        contents(nodes, order)[p].0 == key,
        is_cached(contents(nodes, order), key),
        place(contents(nodes, order), key) == p,
        map[key.packed() as u128] == order[p],
        distinct(contents(nodes, order)),
{
    let c = contents(nodes, order);
    lemma_packed_injective(c[p].0, key);
    lemma_distinct(map, nodes, order);
    assert(c[p].0 == key);
    let q = place(c, key);
    assert(c[q].0 == key);
    if p < q {
        assert(c[p].0 != c[q].0);
    } else if q < p {
        assert(c[q].0 != c[p].0);
    }
}

/// No key is cached twice.
proof fn lemma_distinct(map: Map<u128, usize>, nodes: Seq<Option<LruNode>>, order: Seq<usize>)
    requires
        mapped(map, nodes, order),
        forall|i: int, j: int| 0 <= i < j < order.len() ==> order[i] != order[j],
    ensures
        distinct(contents(nodes, order)),
{
    let c = contents(nodes, order);
    assert forall|i: int, j: int| 0 <= i < j < c.len() implies (#[trigger] c[i]).0 != (
    #[trigger] c[j]).0 by {
        assert(map[packed_at(nodes, order, i)] == order[i]);
        assert(map[packed_at(nodes, order, j)] == order[j]);
    }
}

/// A map stays right when the keys in the listed slots stay.
proof fn lemma_same_order(
    map: Map<u128, usize>,
    a: Seq<Option<LruNode>>,
    b: Seq<Option<LruNode>>,
    order: Seq<usize>,
)
    requires
        mapped(map, a, order),
        forall|i: int|
            0 <= i < order.len() ==> a[#[trigger] order[i] as int]->0.key
                == b[order[i] as int]->0.key,
    ensures
        mapped(map, b, order),
{
    assert forall|i: int| 0 <= i < order.len() implies #[trigger] packed_at(b, order, i)
        == packed_at(a, order, i) by {
        assert(a[order[i] as int]->0.key == b[order[i] as int]->0.key);
    }
    assert forall|i: int| 0 <= i < order.len() implies map.contains_key(
        #[trigger] packed_at(b, order, i),
    ) && map[packed_at(b, order, i)] == order[i] by {
        assert(map.contains_key(packed_at(a, order, i)));
    }
    assert forall|k: u128| #[trigger] map.contains_key(k) implies exists|i: int|
        0 <= i < order.len() && #[trigger] packed_at(b, order, i) == k by {
        let i = choose|i: int| 0 <= i < order.len() && #[trigger] packed_at(a, order, i) == k;
        assert(packed_at(b, order, i) == k);
    }
}

/// Promoting the block at place `p` promotes it in the order of use, and the map stays right.
proof fn lemma_promoted(
    map: Map<u128, usize>,
    a: Seq<Option<LruNode>>,
    b: Seq<Option<LruNode>>,
    order: Seq<usize>,
    p: int,
)
    requires
        mapped(map, a, order),
        same_blocks(a, b),
        0 <= p < order.len(),
        forall|i: int| 0 <= i < order.len() ==> #[trigger] slot_ok(a, order, i),
    ensures
        ({
            let now = seq![order[p]] + order.remove(p);
            &&& mapped(map, b, now)
            &&& contents(b, now) == promote(contents(a, order), p)
        }),
{
    let now = seq![order[p]] + order.remove(p);
    assert forall|i: int| 0 <= i < order.len() implies a[#[trigger] order[i] as int]->0.key
        == b[order[i] as int]->0.key && a[order[i] as int]->0.block
        == b[order[i] as int]->0.block by {
        assert(slot_ok(a, order, i));
        assert(a[order[i] as int] is Some);
    }
    lemma_same_order(map, a, b, order);
    assert forall|i: int| 0 <= i < now.len() implies map.contains_key(
        #[trigger] packed_at(b, now, i),
    ) && map[packed_at(b, now, i)] == now[i] by {
        let j = if i == 0 {
            p
        } else if i - 1 < p {
            i - 1
        } else {
            i
        };
        assert(now[i] == order[j]);
        assert(packed_at(b, now, i) == packed_at(b, order, j));
    }
    assert forall|k: u128| #[trigger] map.contains_key(k) implies exists|i: int|
        0 <= i < now.len() && #[trigger] packed_at(b, now, i) == k by {
        let j = choose|j: int| 0 <= j < order.len() && #[trigger] packed_at(b, order, j) == k;
        let i = if j == p {
            0
        } else if j < p {
            j + 1
        } else {
            j
        };
        assert(now[i] == order[j]);
        assert(packed_at(b, now, i) == k);
    }
    assert forall|i: int| 0 <= i < now.len() implies contents(b, now)[i] == promote(
        contents(a, order),
        p,
    )[i] by {
        let j = if i == 0 {
            p
        } else if i - 1 < p {
            i - 1
        } else {
            i
        };
        assert(now[i] == order[j]);
        assert(a[order[j] as int]->0.key == b[order[j] as int]->0.key);
    }
    assert(contents(b, now) =~= promote(contents(a, order), p));
}

/// Free slots stay empty when the blocks stay where they are.
proof fn lemma_free_kept(a: Seq<Option<LruNode>>, b: Seq<Option<LruNode>>, free: Seq<usize>)
    requires
        same_blocks(a, b),
        forall|i: int|
            0 <= i < free.len() ==> (#[trigger] free[i]) < a.len() && a[free[i] as int] is None,
    ensures
        forall|i: int|
            0 <= i < free.len() ==> (#[trigger] free[i]) < b.len() && b[free[i] as int] is None,
{
    assert forall|i: int| 0 <= i < free.len() implies (#[trigger] free[i]) < b.len()
        && b[free[i] as int] is None by {
        assert(a[free[i] as int] is Some <==> b[free[i] as int] is Some);
    }
}

/// Without the evicted key the map is right for the rest of the list.
proof fn lemma_evicted(
    map: Map<u128, usize>,
    a: Seq<Option<LruNode>>,
    b: Seq<Option<LruNode>>,
    order: Seq<usize>,
)
    requires
        mapped(map, a, order),
        order.len() > 0,
        forall|i: int, j: int| 0 <= i < j < order.len() ==> order[i] != order[j],
        forall|i: int|
            0 <= i < order.drop_last().len() ==> same_block(
                a,
                b,
                #[trigger] order.drop_last()[i] as int,
            ),
        map.remove(packed_at(a, order, order.len() - 1)).len() == map.len() - 1,
    ensures
        mapped(map.remove(packed_at(a, order, order.len() - 1)), b, order.drop_last()),
        contents(b, order.drop_last()) == contents(a, order).drop_last(),
{
    let last = order.len() - 1;
    let e = packed_at(a, order, last);
    let less = map.remove(e);
    let now = order.drop_last();
    assert forall|i: int| 0 <= i < now.len() implies less.contains_key(
        #[trigger] packed_at(b, now, i),
    ) && less[packed_at(b, now, i)] == now[i] by {
        assert(same_block(a, b, now[i] as int));
        assert(packed_at(b, now, i) == packed_at(a, order, i));
        assert(map[packed_at(a, order, i)] == order[i]);
        assert(map[packed_at(a, order, last)] == order[last]);
    }
    assert forall|k: u128| #[trigger] less.contains_key(k) implies exists|i: int|
        0 <= i < now.len() && #[trigger] packed_at(b, now, i) == k by {
        assert(map.contains_key(k));
        let i = choose|i: int| 0 <= i < order.len() && #[trigger] packed_at(a, order, i) == k;
        assert(i != last);
        assert(same_block(a, b, now[i] as int));
        assert(packed_at(b, now, i) == k);
    }
    assert forall|i: int| 0 <= i < now.len() implies contents(b, now)[i] == contents(
        a,
        order,
    ).drop_last()[i] by {
        assert(same_block(a, b, now[i] as int));
    }
    assert(contents(b, now) =~= contents(a, order).drop_last());
}

/// With the new key the map is right for the longer list.
proof fn lemma_inserted(
    map: Map<u128, usize>,
    a: Seq<Option<LruNode>>,
    placed: Seq<Option<LruNode>>,
    b: Seq<Option<LruNode>>,
    order: Seq<usize>,
    idx: usize,
    key: BlockKey,
)
    requires
        mapped(map, a, order),
        idx < a.len(),
        placed == a.update(idx as int, placed[idx as int]),
        placed[idx as int] is Some,
        placed[idx as int]->0.key == key,
        same_blocks(placed, b),
        forall|i: int| 0 <= i < order.len() ==> #[trigger] slot_ok(placed, order, i),
        forall|i: int| 0 <= i < order.len() ==> order[i] != idx,
        !map.contains_key(key.packed() as u128),
    ensures
        ({
            let more = map.insert(key.packed() as u128, idx);
            let now = seq![idx] + order;
            &&& mapped(more, b, now)
            &&& contents(b, now) == seq![(key, placed[idx as int]->0.block@)] + contents(a, order)
        }),
{
    let k = key.packed() as u128;
    let more = map.insert(k, idx);
    let now = seq![idx] + order;
    assert(b[idx as int]->0.key == key && b[idx as int]->0.block
        == placed[idx as int]->0.block) by {
        assert(placed[idx as int] is Some);
    }
    assert forall|i: int| 0 < i < now.len() implies #[trigger] now[i] == order[i - 1]
        && b[now[i] as int]->0.key == a[now[i] as int]->0.key && b[now[i] as int]->0.block
        == a[now[i] as int]->0.block by {
        assert(slot_ok(placed, order, i - 1));
        assert(placed[now[i] as int] is Some);
    }
    assert(packed_at(b, now, 0) == k);
    assert forall|i: int| 0 <= i < now.len() implies more.contains_key(
        #[trigger] packed_at(b, now, i),
    ) && more[packed_at(b, now, i)] == now[i] by {
        if i > 0 {
            assert(now[i] == order[i - 1]);
            assert(packed_at(b, now, i) == packed_at(a, order, i - 1));
        }
    }
    assert forall|x: u128| #[trigger] more.contains_key(x) implies exists|i: int|
        0 <= i < now.len() && #[trigger] packed_at(b, now, i) == x by {
        if x != k {
            assert(map.contains_key(x));
            let j = choose|j: int| 0 <= j < order.len() && #[trigger] packed_at(a, order, j) == x;
            assert(now[j + 1] == order[j]);
            assert(packed_at(b, now, j + 1) == x);
        }
    }
    assert(more.dom() =~= map.dom().insert(k));
    assert(contents(b, now) =~= seq![(key, placed[idx as int]->0.block@)] + contents(a, order));
}

/// The cache's own view of itself: no key twice, no more blocks and no more slots than its
/// capacity.
pub proof fn law_cache_invariant(c: BlockCache)
    requires
        c.wf(),
    ensures
        distinct(c@),
        c@.len() <= c.spec_capacity(),
        1 <= c.spec_capacity(),
        c.spec_slots() <= c.spec_capacity(),
{
    lemma_distinct(c.map@, c.nodes@, c.order@);
}

/// A cache stays within its capacity and never holds two blocks for one key, whatever is
/// looked up or inserted.
pub proof fn law_cache_bounded(c: Cached, capacity: nat, key: BlockKey, block: BlockModel)
    requires
        distinct(c),
        c.len() <= capacity,
        capacity >= 1,
    ensures
        distinct(after_get(c, key)),
        after_get(c, key).len() == c.len(),
        distinct(after_insert(c, capacity, key, block)),
        after_insert(c, capacity, key, block).len() <= capacity,
{
    if is_cached(c, key) {
        let p = place(c, key);
        assert(0 <= p < c.len() && c[p].0 == key);
        lemma_front_distinct(c.remove(p), (key, block));
        lemma_front_distinct(c.remove(p), c[p]);
    } else if c.len() >= capacity {
        lemma_front_distinct(c.drop_last(), (key, block));
    } else {
        lemma_front_distinct(c, (key, block));
    }
}

/// A block in front of others with other keys.
proof fn lemma_front_distinct(rest: Cached, e: (BlockKey, BlockModel))
    requires
        distinct(rest),
        forall|i: int| 0 <= i < rest.len() ==> (#[trigger] rest[i]).0 != e.0,
    ensures
        distinct(seq![e] + rest),
{
    let all = seq![e] + rest;
    assert forall|i: int, j: int| 0 <= i < j < all.len() implies (#[trigger] all[i]).0 != (
    #[trigger] all[j]).0 by {
        assert(all[j] == rest[j - 1]);
        if i > 0 {
            assert(all[i] == rest[i - 1]);
        }
    }
}

/// A block that was inserted is the most recently used one and is found again.
pub proof fn law_cache_insert_get(c: Cached, capacity: nat, key: BlockKey, block: BlockModel)
    requires
        distinct(c),
        c.len() <= capacity,
        capacity >= 1,
    ensures
        ({
            let after = after_insert(c, capacity, key, block);
            &&& after[0] == (key, block)
            &&& is_cached(after, key)
            &&& after[place(after, key)] == (key, block)
        }),
{
    let after = after_insert(c, capacity, key, block);
    law_cache_bounded(c, capacity, key, block);
    assert(after[0].0 == key);
    let p = place(after, key);
    if p > 0 {
        assert(after[0].0 != after[p].0);
    }
}

/// A lookup makes its block the most recently used one and keeps the others in their order.
pub proof fn law_cache_promotes(c: Cached, key: BlockKey)
    requires
        distinct(c),
        is_cached(c, key),
    ensures
        after_get(c, key)[0].0 == key,
        after_get(c, key).skip(1) == c.remove(place(c, key)),
{
    let p = place(c, key);
    assert(0 <= p < c.len() && c[p].0 == key);
    assert(after_get(c, key).skip(1) =~= c.remove(p));
}

/// A new block pushes out the least recently used one if the cache is full, and no other:
/// every key that was cached is still cached, with its block, but for the last one.
pub proof fn law_cache_evicts_least_recent(
    c: Cached,
    capacity: nat,
    key: BlockKey,
    block: BlockModel,
    i: int,
)
    requires
        distinct(c),
        1 <= capacity,
        c.len() <= capacity,
        !is_cached(c, key),
        0 <= i < c.len(),
    ensures
        ({
            let after = after_insert(c, capacity, key, block);
            &&& is_cached(after, c[i].0) <==> (c.len() < capacity || i < c.len() - 1)
            &&& is_cached(after, c[i].0) ==> after[i + 1] == c[i]
        }),
{
    let after = after_insert(c, capacity, key, block);
    assert(c[i].0 != key);
    if c.len() < capacity || i < c.len() - 1 {
        assert(after[i + 1] == c[i]);
    } else if is_cached(after, c[i].0) {
        let q = place(after, c[i].0);
        assert(after[q].0 == c[i].0);
        if q > 0 {
            assert(after[q] == c[q - 1]);
            assert(c[q - 1].0 != c[i].0);
        }
    }
}

/// A key is cached exactly when one of the cached blocks is its.
pub proof fn law_cache_holds(c: Cached, key: BlockKey, i: int)
    requires
        0 <= i < c.len(),
    ensures
        is_cached(c, c[i].0),
        distinct(c) ==> place(c, c[i].0) == i,
        is_cached(c, key) ==> c[place(c, key)].0 == key && 0 <= place(c, key) < c.len(),
        !is_cached(c, key) ==> c[i].0 != key,
{
    if distinct(c) {
        let p = place(c, c[i].0);
        assert(0 <= p < c.len() && c[p].0 == c[i].0);
        if p < i {
            assert(c[p].0 != c[i].0);
        } else if i < p {
            assert(c[i].0 != c[p].0);
        }
    }
}

/// A lookup of a key that is not cached changes nothing.
pub proof fn law_cache_miss(c: Cached, key: BlockKey)
    requires
        forall|i: int| 0 <= i < c.len() ==> (#[trigger] c[i]).0 != key,
    ensures
        !is_cached(c, key),
        after_get(c, key) == c,
{
}

/// A block that is inserted for a key that is cached takes the place of the key's block, comes
/// first, and leaves the others in their order.
pub proof fn law_cache_replaces(
    c: Cached,
    capacity: nat,
    key: BlockKey,
    block: BlockModel,
    i: int,
)
    requires
        distinct(c),
        0 <= i < c.len(),
        c[i].0 == key,
    ensures
        ({
            let after = after_insert(c, capacity, key, block);
            &&& after.len() == c.len()
            &&& after[0] == (key, block)
            &&& after.skip(1) == c.remove(i)
        }),
{
    law_cache_holds(c, key, i);
    assert(after_insert(c, capacity, key, block).skip(1) =~= c.remove(i));
}

/// A use of the block at place `i` brings it to the front and leaves the others in their order.
pub proof fn law_cache_use(c: Cached, i: int)
    requires
        distinct(c),
        0 <= i < c.len(),
    ensures
        after_get(c, c[i].0) == seq![c[i]] + c.remove(i),
{
    law_cache_holds(c, c[i].0, i);
}

} // verus!
