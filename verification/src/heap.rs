//! A binary min-heap over the heads of several streams.
use crate::codec::{as_slice, bytes_of};
use crate::entry::{value_of, Entry};
use crate::key::{
    compare_keys, key_lt, lemma_key_irreflexive, lemma_key_total, lemma_key_transitive, KeyOrder,
};
use bytes::Bytes;
use vstd::prelude::*;

verus! {

/// The head of a stream, with the number of the stream.
#[derive(Debug)]
pub struct HeapNode {
    pub key: Bytes,
    pub value: Option<Bytes>,
    pub iterator_idx: usize,
}

impl HeapNode {
    /// The entry that the node holds.
    pub open spec fn entry(self) -> Entry {
        (bytes_of(self.key), value_of(self.value))
    }

    /// The number of the node's stream.
    pub open spec fn idx(self) -> int {
        self.iterator_idx as int
    }
}

/// Which of two heads comes out first: the one with the smaller key, and of two with the
/// same key the one of the stream with the smaller number, which is the fresher one.
pub open spec fn precedes(a: Seq<u8>, i: int, b: Seq<u8>, j: int) -> bool {
    key_lt(a, b) || (a == b && i < j)
}

/// One node comes out before another.
pub open spec fn before(a: HeapNode, b: HeapNode) -> bool {
    precedes(a.entry().0, a.idx(), b.entry().0, b.idx())
}

/// Stream `i` has the head that comes out first.
pub open spec fn is_top(heads: Map<int, Entry>, i: int) -> bool {
    &&& heads.contains_key(i)
    &&& forall|j: int| #[trigger]
        heads.contains_key(j) && j != i ==> precedes(heads[i].0, i, heads[j].0, j)
}

/// The order of heads is asymmetric.
pub proof fn lemma_precedes_asymmetric(a: Seq<u8>, i: int, b: Seq<u8>, j: int)
    requires
        precedes(a, i, b, j),
    ensures
        !precedes(b, j, a, i),
{
    lemma_key_irreflexive(a);
    if key_lt(a, b) && key_lt(b, a) {
        lemma_key_transitive(a, b, a);
    }
}

/// If `b` does not come out before `a`, nor `c` before `b`, then `c` does not before `a`.
proof fn lemma_before_chain(a: HeapNode, b: HeapNode, c: HeapNode)
    requires
        !before(b, a),
        !before(c, b),
    ensures
        !before(c, a),
{
    let (x, y, z) = (a.entry().0, b.entry().0, c.entry().0);
    lemma_key_total(x, y);
    lemma_key_total(y, z);
    lemma_key_irreflexive(x);
    if before(c, a) {
        if key_lt(z, x) {
            if key_lt(x, y) {
                lemma_key_transitive(z, x, y);
            }
            if key_lt(y, z) {
                lemma_key_transitive(y, z, x);
            }
        } else if key_lt(x, y) && key_lt(y, z) {
            lemma_key_transitive(x, y, z);
        }
    }
}

/// The place above place `i`.
spec fn parent(i: int) -> int {
    (i - 1) / 2
}

/// Node `i` does not come out before the one above it.
spec fn edge(nodes: Seq<HeapNode>, i: int) -> bool {
    !before(nodes[i], nodes[parent(i)])
}

/// No node comes out before the one above it.
spec fn ordered(nodes: Seq<HeapNode>) -> bool {
    forall|i: int| 0 < i < nodes.len() ==> #[trigger] edge(nodes, i)
}

/// The nodes are the given heads, one node for each.
spec fn holds(nodes: Seq<HeapNode>, heads: Map<int, Entry>) -> bool {
    &&& forall|p: int|
        0 <= p < nodes.len() ==> heads.contains_key((#[trigger] nodes[p]).idx())
            && heads[nodes[p].idx()] == nodes[p].entry()
    &&& forall|p: int, q: int|
        0 <= p < q < nodes.len() ==> (#[trigger] nodes[p]).idx() != (#[trigger] nodes[q]).idx()
    &&& forall|i: int| #[trigger]
        heads.contains_key(i) ==> exists|p: int|
            0 <= p < nodes.len() && (#[trigger] nodes[p]).idx() == i
}

spec fn swapped(nodes: Seq<HeapNode>, i: int, j: int) -> Seq<HeapNode> {
    nodes.update(i, nodes[j]).update(j, nodes[i])
}

/// Two nodes that change places are still the same heads.
proof fn lemma_swap_holds(nodes: Seq<HeapNode>, heads: Map<int, Entry>, i: int, j: int)
    requires
        holds(nodes, heads),
        0 <= i < j < nodes.len(),
    ensures
        holds(swapped(nodes, i, j), heads),
{
    let after = swapped(nodes, i, j);
    assert forall|p: int, q: int| 0 <= p < q < after.len() implies (#[trigger] after[p]).idx() != (
    #[trigger] after[q]).idx() by {
        let pp = if p == i {
            j
        } else if p == j {
            i
        } else {
            p
        };
        let qq = if q == i {
            j
        } else if q == j {
            i
        } else {
            q
        };
        assert(after[p] == nodes[pp] && after[q] == nodes[qq]);
        if pp < qq {
            assert(nodes[pp].idx() != nodes[qq].idx());
        } else {
            assert(nodes[qq].idx() != nodes[pp].idx());
        }
    }
    assert forall|k: int| #[trigger] heads.contains_key(k) implies exists|p: int|
        0 <= p < after.len() && (#[trigger] after[p]).idx() == k by {
        let p = choose|p: int| 0 <= p < nodes.len() && (#[trigger] nodes[p]).idx() == k;
        let pp = if p == i {
            j
        } else if p == j {
            i
        } else {
            p
        };
        assert(after[pp].idx() == k);
    }
}

/// No node comes out before the one at the root.
proof fn lemma_root(nodes: Seq<HeapNode>, i: int)
    requires
        ordered(nodes),
        0 <= i < nodes.len(),
    ensures
        !before(nodes[i], nodes[0]),
    decreases i,
{
    if i == 0 {
        lemma_key_irreflexive(nodes[0].entry().0);
    } else {
        assert(edge(nodes, i));
        lemma_root(nodes, parent(i));
        lemma_before_chain(nodes[0], nodes[parent(i)], nodes[i]);
    }
}

/// The root is the head that comes out first.
proof fn lemma_root_is_top(nodes: Seq<HeapNode>, heads: Map<int, Entry>)
    requires
        ordered(nodes),
        holds(nodes, heads),
        nodes.len() > 0,
    ensures
        is_top(heads, nodes[0].idx()),
{
    let top = nodes[0].idx();
    assert forall|j: int| #[trigger] heads.contains_key(j) && j != top implies precedes(
        heads[top].0,
        top,
        heads[j].0,
        j,
    ) by {
        let p = choose|p: int| 0 <= p < nodes.len() && (#[trigger] nodes[p]).idx() == j;
        lemma_root(nodes, p);
        lemma_key_total(heads[top].0, heads[j].0);
    }
}

/// Exchanges two nodes.
fn swap_nodes(nodes: &mut Vec<HeapNode>, i: usize, j: usize)
    requires
        i < j < old(nodes)@.len(),
    ensures
        final(nodes)@ == swapped(old(nodes)@, i as int, j as int),
{
    let (front, back) = nodes.as_mut_slice().split_at_mut(j);
    std::mem::swap(&mut front[i], &mut back[0]);
}

/// Whether one node comes out before another.
fn is_before(a: &HeapNode, b: &HeapNode) -> (r: bool)
    ensures
        r == before(*a, *b),
{
    proof {
        let (x, y) = (bytes_of(a.key), bytes_of(b.key));
        lemma_key_irreflexive(x);
        if key_lt(x, y) && key_lt(y, x) {
            lemma_key_transitive(x, y, x);
        }
    }
    match compare_keys(as_slice(&a.key), as_slice(&b.key)) {
        KeyOrder::Less => true,
        KeyOrder::Equal => a.iterator_idx < b.iterator_idx,
        KeyOrder::Greater => false,
    }
}

/// A min-heap of stream heads.
pub struct MinHeap {
    nodes: Vec<HeapNode>,
    heads: Ghost<Map<int, Entry>>,
}

impl View for MinHeap {
    type V = Map<int, Entry>;

    /// The head of each stream that has one in the heap.
    closed spec fn view(&self) -> Map<int, Entry> {
        self.heads@
    }
}

impl MinHeap {
    pub closed spec fn wf(&self) -> bool {
        ordered(self.nodes@) && holds(self.nodes@, self.heads@)
    }

    pub fn new() -> (h: Self)
        ensures
            h.wf(),
            h@ == Map::<int, Entry>::empty(),
    {
        MinHeap { nodes: Vec::new(), heads: Ghost(Map::empty()) }
    }

    /// Adds the head of a stream that has none in the heap.
    pub fn push(&mut self, node: HeapNode)
        requires
            old(self).wf(),
            !old(self)@.contains_key(node.idx()),
        ensures
            final(self).wf(),
            final(self)@ == old(self)@.insert(node.idx(), node.entry()),
    {
        let ghost was = self.nodes@;
        let ghost heads = self.heads@.insert(node.idx(), node.entry());
        let mut pos: usize = self.nodes.len();
        self.nodes.push(node);
        self.heads = Ghost(heads);
        proof {
            assert(self.nodes@[pos as int] == node);
            assert forall|i: int| #[trigger] heads.contains_key(i) implies exists|p: int|
                0 <= p < self.nodes@.len() && (#[trigger] self.nodes@[p]).idx() == i by {
                if i != node.idx() {
                    assert(old(self).heads@.contains_key(i));
                    let p = choose|p: int| 0 <= p < was.len() && (#[trigger] was[p]).idx() == i;
                    assert(self.nodes@[p].idx() == i);
                }
            }
            assert(holds(self.nodes@, heads));
            assert forall|i: int| 0 < i < self.nodes@.len() && i != pos implies #[trigger] edge(
                self.nodes@,
                i,
            ) by {
                assert(edge(was, i));
            }
        }
        while pos > 0
            invariant
                pos < self.nodes@.len(),
                self.heads@ == heads,
                heads == old(self)@.insert(node.idx(), node.entry()),
                holds(self.nodes@, heads),
                forall|i: int|
                    0 < i < self.nodes@.len() && i != pos ==> #[trigger] edge(self.nodes@, i),
                forall|i: int|
                    0 < i < self.nodes@.len() && #[trigger] parent(i) == pos && pos > 0 ==> !before(
                        self.nodes@[i],
                        self.nodes@[parent(pos as int)],
                    ),
            decreases pos,
        {
            let up: usize = (pos - 1) / 2;
            assert(up == parent(pos as int));
            if !is_before(&self.nodes[pos], &self.nodes[up]) {
                assert(edge(self.nodes@, pos as int));
                return;
            }
            let ghost prev = self.nodes@;
            swap_nodes(&mut self.nodes, up, pos);
            proof {
                lemma_swap_holds(prev, heads, up as int, pos as int);
                lemma_sift_up(prev, up as int, pos as int);
            }
            pos = up;
        }
    }

    /// The head that comes out first.
    pub fn peek(&self) -> (r: Option<&HeapNode>)
        requires
            self.wf(),
        ensures
            match r {
                Some(n) => is_top(self@, n.idx()) && self@[n.idx()] == n.entry(),
                None => forall|i: int| !#[trigger] self@.contains_key(i),
            },
    {
        if self.nodes.len() == 0 {
            return None;
        }
        proof {
            lemma_root_is_top(self.nodes@, self.heads@);
        }
        Some(&self.nodes[0])
    }

    /// Takes out the head that comes out first.
    pub fn pop(&mut self) -> (r: Option<HeapNode>)
        requires
            old(self).wf(),
        ensures
            final(self).wf(),
            match r {
                Some(n) => is_top(old(self)@, n.idx()) && old(self)@[n.idx()] == n.entry()
                    && final(self)@ == old(self)@.remove(n.idx()),
                None => *final(self) == *old(self) && forall|i: int|
                    !#[trigger] old(self)@.contains_key(i),
            },
    {
        if self.nodes.len() == 0 {
            return None;
        }
        let ghost was = self.nodes@;
        proof {
            lemma_root_is_top(self.nodes@, self.heads@);
        }
        let top: HeapNode = self.nodes.swap_remove(0);
        let ghost heads = self.heads@.remove(top.idx());
        self.heads = Ghost(heads);
        proof {
            lemma_swap_remove(was, self.nodes@, old(self).heads@);
        }
        let n: usize = self.nodes.len();
        let mut pos: usize = 0;
        while pos < n / 2
            invariant
                n == self.nodes@.len(),
                pos < n || n == 0,
                self.heads@ == heads,
                heads == old(self)@.remove(top.idx()),
                is_top(old(self)@, top.idx()),
                old(self)@[top.idx()] == top.entry(),
                holds(self.nodes@, heads),
                forall|i: int|
                    0 < i < n && parent(i) != pos ==> #[trigger] edge(self.nodes@, i),
                forall|i: int|
                    0 < i < n && #[trigger] parent(i) == pos && pos > 0 ==> !before(
                        self.nodes@[i],
                        self.nodes@[parent(pos as int)],
                    ),
            decreases n - pos,
        {
            let left: usize = 2 * pos + 1;
            let right: usize = left + 1;
            let child: usize = if right < n && is_before(&self.nodes[right], &self.nodes[left]) {
                right
            } else {
                left
            };
            proof {
                assert(parent(left as int) == pos && parent(right as int) == pos);
                lemma_smaller_child(self.nodes@, pos as int, child as int);
            }
            if !is_before(&self.nodes[child], &self.nodes[pos]) {
                proof {
                    assert forall|i: int| 0 < i < n implies #[trigger] edge(self.nodes@, i) by {
                        if parent(i) == pos {
                            assert(!before(self.nodes@[i], self.nodes@[child as int]));
                            lemma_before_chain(
                                self.nodes@[pos as int],
                                self.nodes@[child as int],
                                self.nodes@[i],
                            );
                        }
                    }
                }
                return Some(top);
            }
            let ghost prev = self.nodes@;
            swap_nodes(&mut self.nodes, pos, child);
            proof {
                lemma_swap_holds(prev, heads, pos as int, child as int);
                lemma_sift_down(prev, pos as int, child as int);
            }
            pos = child;
        }
        Some(top)
    }
}

/// Of two children, the one that comes out first.
proof fn lemma_smaller_child(nodes: Seq<HeapNode>, pos: int, child: int)
    requires
        0 <= pos,
        0 < child < nodes.len(),
        parent(child) == pos,
        2 * pos + 2 < nodes.len() ==> (if before(nodes[2 * pos + 2], nodes[2 * pos + 1]) {
            child == 2 * pos + 2
        } else {
            child == 2 * pos + 1
        }),
    ensures
        forall|i: int|
            0 < i < nodes.len() && #[trigger] parent(i) == pos ==> !before(nodes[i], nodes[child]),
{
    assert forall|i: int| 0 < i < nodes.len() && #[trigger] parent(i) == pos implies !before(
        nodes[i],
        nodes[child],
    ) by {
        assert(i == 2 * pos + 1 || i == 2 * pos + 2);
        assert(child == 2 * pos + 1 || child == 2 * pos + 2);
        let (l, r) = (nodes[2 * pos + 1], nodes[2 * pos + 2]);
        lemma_key_irreflexive(nodes[i].entry().0);
        if i != child && before(r, l) {
            lemma_precedes_asymmetric(r.entry().0, r.idx(), l.entry().0, l.idx());
        }
    }
}

/// Moving a node up leaves everything else in order.
proof fn lemma_sift_up(prev: Seq<HeapNode>, up: int, pos: int)
    requires
        0 < pos < prev.len(),
        up == parent(pos),
        before(prev[pos], prev[up]),
        forall|i: int| 0 < i < prev.len() && i != pos ==> #[trigger] edge(prev, i),
        forall|i: int|
            0 < i < prev.len() && #[trigger] parent(i) == pos ==> !before(prev[i], prev[up]),
    ensures
        ({
            let next = swapped(prev, up, pos);
            &&& forall|i: int| 0 < i < next.len() && i != up ==> #[trigger] edge(next, i)
            &&& forall|i: int|
                0 < i < next.len() && #[trigger] parent(i) == up && up > 0 ==> !before(
                    next[i],
                    next[parent(up)],
                )
        }),
{
    let next = swapped(prev, up, pos);
    let (child, above) = (prev[pos], prev[up]);
    lemma_precedes_asymmetric(child.entry().0, child.idx(), above.entry().0, above.idx());
    assert forall|i: int| 0 < i < next.len() && i != up implies #[trigger] edge(next, i) by {
        if i == pos {
        } else {
            assert(edge(prev, i));
            if parent(i) == up {
                lemma_before_chain(child, above, prev[i]);
            }
        }
    }
    assert forall|i: int|
        0 < i < next.len() && #[trigger] parent(i) == up && up > 0 implies !before(
        next[i],
        next[parent(up)],
    ) by {
        assert(edge(prev, up));
        if i == pos {
        } else {
            assert(edge(prev, i));
            lemma_before_chain(prev[parent(up)], above, prev[i]);
        }
    }
}

/// Moving a node down leaves everything else in order.
proof fn lemma_sift_down(prev: Seq<HeapNode>, pos: int, child: int)
    requires
        0 <= pos < child < prev.len(),
        parent(child) == pos,
        before(prev[child], prev[pos]),
        forall|i: int| 0 < i < prev.len() && parent(i) != pos ==> #[trigger] edge(prev, i),
        forall|i: int|
            0 < i < prev.len() && #[trigger] parent(i) == pos ==> !before(prev[i], prev[child]),
        forall|i: int|
            0 < i < prev.len() && #[trigger] parent(i) == pos && pos > 0 ==> !before(
                prev[i],
                prev[parent(pos)],
            ),
    ensures
        ({
            let next = swapped(prev, pos, child);
            &&& forall|i: int| 0 < i < next.len() && parent(i) != child ==> #[trigger] edge(next, i)
            &&& forall|i: int|
                0 < i < next.len() && #[trigger] parent(i) == child ==> !before(
                    next[i],
                    next[parent(child)],
                )
        }),
{
    let next = swapped(prev, pos, child);
    let (low, high) = (prev[child], prev[pos]);
    lemma_precedes_asymmetric(low.entry().0, low.idx(), high.entry().0, high.idx());
    assert forall|i: int| 0 < i < next.len() && parent(i) != child implies #[trigger] edge(
        next,
        i,
    ) by {
        if i == child {
        } else if parent(i) == pos {
            assert(!before(prev[i], prev[child]));
        } else if i == pos {
            assert(parent(child) == pos);
            assert(!before(prev[child], prev[parent(pos)]));
        } else {
            assert(edge(prev, i));
        }
    }
    assert forall|i: int| 0 < i < next.len() && #[trigger] parent(i) == child implies !before(
        next[i],
        next[parent(child)],
    ) by {
        assert(edge(prev, i));
    }
}

/// Putting the last node in the place of the root takes out the root's head, and leaves
/// everything below the new root in order.
proof fn lemma_swap_remove(was: Seq<HeapNode>, now: Seq<HeapNode>, heads: Map<int, Entry>)
    requires
        was.len() > 0,
        now == was.update(0, was.last()).drop_last(),
        holds(was, heads),
        ordered(was),
    ensures
        holds(now, heads.remove(was[0].idx())),
        forall|i: int| 0 < i < now.len() && parent(i) != 0 ==> #[trigger] edge(now, i),
{
    let left = heads.remove(was[0].idx());
    let n = was.len() - 1;
    assert forall|p: int| 0 <= p < now.len() implies left.contains_key((#[trigger] now[p]).idx())
        && left[now[p].idx()] == now[p].entry() by {
        let q = if p == 0 {
            n
        } else {
            p
        };
        assert(now[p] == was[q]);
        assert(was[0].idx() != was[q].idx());
    }
    assert forall|p: int, q: int| 0 <= p < q < now.len() implies (#[trigger] now[p]).idx() != (
    #[trigger] now[q]).idx() by {
        if p == 0 {
            assert(was[q].idx() != was[n].idx());
        } else {
            assert(was[p].idx() != was[q].idx());
        }
    }
    assert forall|i: int| #[trigger] left.contains_key(i) implies exists|p: int|
        0 <= p < now.len() && (#[trigger] now[p]).idx() == i by {
        assert(heads.contains_key(i));
        let p = choose|p: int| 0 <= p < was.len() && (#[trigger] was[p]).idx() == i;
        let q = if p == n {
            0
        } else {
            p
        };
        assert(now[q].idx() == i);
    }
    assert forall|i: int| 0 < i < now.len() && parent(i) != 0 implies #[trigger] edge(now, i) by {
        assert(edge(was, i));
    }
}

} // verus!
