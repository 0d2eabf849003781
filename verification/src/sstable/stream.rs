//! Reading the entries of a table out of its blocks: all of them, or those of a range.
use crate::codec::as_slice;
use crate::entry::{
    bound_of, entries_of, entry_of, in_range, key_in_range, lemma_restrict_add, lemma_restrict_none,
    restrict, share_value, strictly_sorted, Entry,
};
use crate::error::{LsmError, Result};
use crate::iterator::{items_of, ok_items, Item};
use crate::key::{key_lt, lemma_key_transitive};
use crate::sstable::block::{block_of, Block, BlockModel};
use crate::sstable::builder::{chunks, table_image};
use crate::sstable::chunks::{
    joined, lemma_chunks_joined, lemma_joined_add, lemma_joined_place, lemma_run_sorted,
    lemma_runs_ordered,
};
use crate::sstable::reader::{
    block_bytes, law_table_blocks, lemma_candidate, lemma_first_keys, table_encodable, table_fits,
    table_model, SsTableReader, TableModel,
};
use bytes::Bytes;
use std::collections::VecDeque;
use std::sync::Arc;
use vstd::prelude::*;

verus! {

/// The views of a list of blocks.
pub open spec fn blocks_of(bs: Seq<Arc<Block>>) -> Seq<BlockModel> {
    Seq::new(bs.len(), |i: int| bs[i]@)
}

/// What reading blocks one after the other gives; `None` when one of them points outside
/// its own bytes.
pub open spec fn read_blocks(bs: Seq<BlockModel>) -> Option<Seq<Entry>>
    decreases bs.len(),
{
    if bs.len() == 0 {
        Some(Seq::empty())
    } else {
        match (read_blocks(bs.drop_last()), bs.last().read_from(0)) {
            (Some(front), Some(es)) => Some(front + es),
            _ => None,
        }
    }
}

/// Once a block cannot be read, the blocks behind it do not help.
proof fn lemma_read_blocks_none(bs: Seq<BlockModel>, i: int)
    requires
        0 <= i <= bs.len(),
        read_blocks(bs.take(i)) is None,
    ensures
        read_blocks(bs) is None,
    decreases bs.len(),
{
    if i == bs.len() {
        assert(bs.take(i) =~= bs);
    } else {
        assert(bs.drop_last().take(i) =~= bs.take(i));
        lemma_read_blocks_none(bs.drop_last(), i);
    }
}

impl SsTableReader {
    /// Reads all entries from all data blocks in sequential order; `None` when a block points
    /// outside its own bytes.
    pub fn read_all_entries(blocks: &Vec<Arc<Block>>) -> (r: Option<Vec<(Bytes, Option<Bytes>)>>)
        ensures
            match read_blocks(blocks_of(blocks@)) {
                Some(es) => r matches Some(v) && entries_of(v@) == es,
                None => r is None,
            },
    {
        let ghost models = blocks_of(blocks@);
        let mut entries: Vec<(Bytes, Option<Bytes>)> = Vec::new();
        let mut i: usize = 0;
        proof {
            assert(models.take(0) =~= Seq::<BlockModel>::empty());
            assert(entries_of(entries@) =~= Seq::<Entry>::empty());
        }
        while i < blocks.len()
            invariant
                i <= blocks@.len(),
                models == blocks_of(blocks@),
                read_blocks(models.take(i as int)) == Some(entries_of(entries@)),
            decreases blocks@.len() - i,
        {
            let block: &Arc<Block> = &blocks[i];
            proof {
                assert(models.take(i + 1).drop_last() =~= models.take(i as int));
                assert(models.take(i + 1).last() == block@);
            }
            match block.read_entries() {
                Some(found) => {
                    let mut more: Vec<(Bytes, Option<Bytes>)> = found;
                    let ghost before = entries@;
                    let ghost added = more@;
                    entries.append(&mut more);
                    assert(entries_of(entries@) =~= entries_of(before) + entries_of(added));
                },
                None => {
                    proof {
                        lemma_read_blocks_none(models, i + 1);
                    }
                    return None;
                },
            }
            i = i + 1;
        }
        assert(models.take(blocks@.len() as int) =~= models);
        Some(entries)
    }
}

/// Appends the entries of a range to a stream.
fn extend_stream(
    stream: &mut VecDeque<Result<(Bytes, Option<Bytes>)>>,
    entries: Vec<(Bytes, Option<Bytes>)>,
    start: Option<&[u8]>,
    end: Option<&[u8]>,
)
    ensures
        items_of(final(stream)@) == items_of(old(stream)@) + ok_items(
            restrict(entries_of(entries@), bound_of(start), bound_of(end)),
        ),
{
    let ghost es = entries_of(entries@);
    let ghost base = items_of(stream@);
    let ghost (s, e) = (bound_of(start), bound_of(end));
    let mut i: usize = 0;
    proof {
        assert(es.take(0) =~= Seq::<Entry>::empty());
        assert(base + ok_items(restrict(es.take(0), s, e)) =~= base);
    }
    while i < entries.len()
        invariant
            i <= entries@.len(),
            es == entries_of(entries@),
            s == bound_of(start),
            e == bound_of(end),
            items_of(stream@) == base + ok_items(restrict(es.take(i as int), s, e)),
        decreases entries@.len() - i,
    {
        let entry: &(Bytes, Option<Bytes>) = &entries[i];
        proof {
            assert(es.take(i + 1).drop_last() =~= es.take(i as int));
            assert(es.take(i + 1).last() == entry_of(*entry));
        }
        if key_in_range(as_slice(&entry.0), start, end) {
            let ghost before = stream@;
            let ghost kept = restrict(es.take(i as int), s, e);
            let value: Option<Bytes> = share_value(&entry.1);
            let key: Bytes = entry.0.clone();
            let ghost item = (key, value);
            stream.push_back(Ok((key, value)));
            proof {
                assert(entry_of(item) == entry_of(*entry));
                assert(items_of(stream@) =~= items_of(before).push(
                    Ok::<Entry, LsmError>(entry_of(*entry)),
                ));
                assert(ok_items(kept.push(entry_of(*entry))) =~= ok_items(kept).push(
                    Ok::<Entry, LsmError>(entry_of(*entry)),
                ));
                assert(items_of(stream@) =~= base + ok_items(kept.push(entry_of(*entry))));
            }
        }
        i = i + 1;
    }
    assert(es.take(entries@.len() as int) =~= es);
}

/// The entries of a sorted list in the range [start, end), as a stream.
pub fn entries_stream(
    entries: Vec<(Bytes, Option<Bytes>)>,
    start: Option<&[u8]>,
    end: Option<&[u8]>,
) -> (stream: VecDeque<Result<(Bytes, Option<Bytes>)>>)
    ensures
        items_of(stream@) == ok_items(
            restrict(entries_of(entries@), bound_of(start), bound_of(end)),
        ),
{
    let mut stream: VecDeque<Result<(Bytes, Option<Bytes>)>> = VecDeque::new();
    let ghost es = entries_of(entries@);
    extend_stream(&mut stream, entries, start, end);
    assert(items_of(stream@) =~= ok_items(restrict(es, bound_of(start), bound_of(end))));
    stream
}

/// A block that was fetched, or why it could not be.
pub type Fetched = std::result::Result<BlockModel, LsmError>;

/// The views of a list of fetched blocks.
pub open spec fn fetched_of(bs: Seq<Result<Arc<Block>>>) -> Seq<Fetched> {
    Seq::new(
        bs.len(),
        |i: int|
            match bs[i] {
                Ok(b) => Ok::<BlockModel, LsmError>(b@),
                Err(e) => Err::<BlockModel, LsmError>(e),
            },
    )
}

/// The entries of a range in blocks that were fetched one after the other, with a failure in
/// the place of each block that could not be fetched. `None` when a block points outside its
/// own bytes.
pub open spec fn stream_of(
    bs: Seq<Fetched>,
    start: Option<Seq<u8>>,
    end: Option<Seq<u8>>,
) -> Option<Seq<Item>>
    decreases bs.len(),
{
    if bs.len() == 0 {
        Some(Seq::empty())
    } else {
        match stream_of(bs.drop_last(), start, end) {
            None => None,
            Some(front) => match bs.last() {
                Err(e) => Some(front.push(Err(e))),
                Ok(b) => match b.read_from(0) {
                    None => None,
                    Some(es) => Some(front + ok_items(restrict(es, start, end))),
                },
            },
        }
    }
}

proof fn lemma_stream_none(bs: Seq<Fetched>, start: Option<Seq<u8>>, end: Option<Seq<u8>>, i: int)
    requires
        0 <= i <= bs.len(),
        stream_of(bs.take(i), start, end) is None,
    ensures
        stream_of(bs, start, end) is None,
    decreases bs.len(),
{
    if i == bs.len() {
        assert(bs.take(i) =~= bs);
    } else {
        assert(bs.drop_last().take(i) =~= bs.take(i));
        lemma_stream_none(bs.drop_last(), start, end, i);
    }
}

/// The entries of the range [start, end) in the blocks of a table that intersect it, as a
/// stream. A block that could not be fetched is a failure in its place. `None` when a block
/// points outside its own bytes.
pub fn table_stream(
    blocks: VecDeque<Result<Arc<Block>>>,
    start: Option<&[u8]>,
    end: Option<&[u8]>,
) -> (r: Option<VecDeque<Result<(Bytes, Option<Bytes>)>>>)
    ensures
        match stream_of(fetched_of(blocks@), bound_of(start), bound_of(end)) {
            Some(items) => r matches Some(s) && items_of(s@) == items,
            None => r is None,
        },
{
    let ghost all = fetched_of(blocks@);
    let ghost (s, e) = (bound_of(start), bound_of(end));
    let ghost mut done: int = 0;
    let mut left: VecDeque<Result<Arc<Block>>> = blocks;
    let mut stream: VecDeque<Result<(Bytes, Option<Bytes>)>> = VecDeque::new();
    proof {
        assert(all.take(0) =~= Seq::<Fetched>::empty());
        assert(items_of(stream@) =~= Seq::<Item>::empty());
        assert(all.skip(0) =~= all);
    }
    loop
        invariant
            0 <= done <= all.len(),
            all == fetched_of(blocks@),
            fetched_of(left@) == all.skip(done),
            s == bound_of(start),
            e == bound_of(end),
            stream_of(all.take(done), s, e) == Some(items_of(stream@)),
        decreases left@.len(),
    {
        let ghost waiting = left@;
        let next: Result<Arc<Block>> = match left.pop_front() {
            Some(b) => b,
            None => {
                assert(all.skip(done).len() == 0);
                assert(all.take(done) =~= all);
                return Some(stream);
            },
        };
        proof {
            assert(fetched_of(waiting).len() == waiting.len());
            assert(all.skip(done)[0] == all[done]);
            assert(fetched_of(left@) =~= fetched_of(waiting).skip(1));
            assert(all.skip(done).skip(1) =~= all.skip(done + 1));
            assert(all.take(done + 1).drop_last() =~= all.take(done));
            assert(all.take(done + 1).last() == all[done]);
        }
        match next {
            Err(err) => {
                let ghost before = stream@;
                stream.push_back(Err(err));
                assert(items_of(stream@) =~= items_of(before).push(Err::<Entry, LsmError>(err)));
            },
            Ok(block) => {
                match block.read_entries() {
                    Some(entries) => {
                        extend_stream(&mut stream, entries, start, end);
                    },
                    None => {
                        proof {
                            lemma_stream_none(all, s, e, done + 1);
                        }
                        return None;
                    },
                }
            },
        }
        proof {
            done = done + 1;
        }
    }
}

/// Reading all blocks of a table gives back all entries that were put into it, in the order
/// in which they were put, also those that share a key.
pub proof fn law_table_read_all(es: Seq<Entry>, block_size: nat)
    requires
        table_encodable(es, block_size),
    ensures
        read_blocks(decoded_blocks(es, block_size)) == Some(es),
{
    let cs = chunks(es, block_size);
    let bs = decoded_blocks(es, block_size);
    lemma_chunks_joined(es, block_size);
    lemma_read_joined(es, block_size, cs.len() as int);
    assert(cs.take(cs.len() as int) =~= cs);
    assert(bs.take(cs.len() as int) =~= bs);
}

/// The blocks of a table file, decoded.
pub open spec fn decoded_blocks(es: Seq<Entry>, block_size: nat) -> Seq<BlockModel> {
    Seq::new(
        chunks(es, block_size).len(),
        |i: int|
            block_of(
                block_bytes(table_image(es, block_size), table_model(es, block_size).metas[i]),
            ),
    )
}

proof fn lemma_read_joined(es: Seq<Entry>, block_size: nat, n: int)
    requires
        table_encodable(es, block_size),
        0 <= n <= chunks(es, block_size).len(),
    ensures
        read_blocks(decoded_blocks(es, block_size).take(n)) == Some(
            joined(chunks(es, block_size).take(n)),
        ),
    decreases n,
{
    let cs = chunks(es, block_size);
    let bs = decoded_blocks(es, block_size);
    if n > 0 {
        lemma_read_joined(es, block_size, n - 1);
        law_table_blocks(es, block_size, n - 1);
        assert(bs.take(n).drop_last() =~= bs.take(n - 1));
        assert(cs.take(n).drop_last() =~= cs.take(n - 1));
        assert(bs.take(n).last() == bs[n - 1]);
    } else {
        assert(bs.take(0) =~= Seq::<BlockModel>::empty());
        assert(cs.take(0) =~= Seq::<Seq<Entry>>::empty());
    }
}

/// A block that is not among those of a range holds no key of the range.
pub proof fn law_range_blocks(
    es: Seq<Entry>,
    block_size: nat,
    start: Option<Seq<u8>>,
    end: Option<Seq<u8>>,
    i: int,
    q: int,
)
    requires
        strictly_sorted(es),
        0 <= i < chunks(es, block_size).len(),
        0 <= q < chunks(es, block_size)[i].len(),
        ({
            let (a, b) = table_model(es, block_size).iter_range(start, end);
            !(a <= i < b)
        }),
    ensures
        !in_range(chunks(es, block_size)[i][q].0, start, end),
{
    let t = table_model(es, block_size);
    let cs = chunks(es, block_size);
    let (a, b) = t.iter_range(start, end);
    let key = cs[i][q].0;
    lemma_chunks_joined(es, block_size);
    lemma_range_bounds(es, block_size, start, end);
    assert(cs[i].len() > 0);
    if i < a {
        let s = start->0;
        lemma_candidate(es, block_size, s);
        assert(cs[a].len() > 0);
        lemma_runs_ordered(cs, i, q, a, 0);
        if key_lt(t.metas[a].first_key, s) {
            lemma_key_transitive(key, t.metas[a].first_key, s);
        }
    } else {
        lemma_last_block(t, a, end);
        let e = end->0;
        assert(!key_lt(t.metas[b].first_key, e));
        assert(cs[b].len() > 0);
        if i > b {
            lemma_runs_ordered(cs, b, 0, i, q);
        } else if q > 0 {
            lemma_run_sorted(cs, b);
            assert(key_lt(cs[b][0].0, cs[b][q].0));
        }
        if key_lt(key, e) && (i > b || q > 0) {
            lemma_key_transitive(cs[b][0].0, key, e);
        }
    }
}

/// Where the blocks of a range end, a block starts at or after the end of the range.
proof fn lemma_last_block(t: TableModel, i: int, end: Option<Seq<u8>>)
    requires
        0 <= i <= t.metas.len(),
    ensures
        ({
            let b = t.last_block(i, end);
            &&& i <= b <= t.metas.len()
            &&& b < t.metas.len() ==> end is Some && !key_lt(t.metas[b].first_key, end->0)
        }),
    decreases t.metas.len() - i,
{
    if i < t.metas.len() {
        match end {
            Some(e) => {
                if key_lt(t.metas[i].first_key, e) {
                    lemma_last_block(t, i + 1, end);
                }
            },
            None => {
                lemma_last_block(t, i + 1, end);
            },
        }
    }
}

/// The blocks of a range are blocks of the table.
pub proof fn lemma_range_bounds(
    es: Seq<Entry>,
    block_size: nat,
    start: Option<Seq<u8>>,
    end: Option<Seq<u8>>,
)
    requires
        strictly_sorted(es),
    ensures
        ({
            let (a, b) = table_model(es, block_size).iter_range(start, end);
            0 <= a <= b <= chunks(es, block_size).len()
        }),
{
    let t = table_model(es, block_size);
    if let Some(s) = start {
        if t.metas.len() > 0 {
            lemma_candidate(es, block_size, s);
        }
    }
    lemma_last_block(t, t.first_block(start), end);
}

/// The blocks that a scan of a range fetches, when all of them can be fetched.
pub open spec fn range_blocks(
    es: Seq<Entry>,
    block_size: nat,
    start: Option<Seq<u8>>,
    end: Option<Seq<u8>>,
) -> Seq<Fetched> {
    let (a, b) = table_model(es, block_size).iter_range(start, end);
    Seq::new(
        (b - a) as nat,
        |i: int| Ok::<BlockModel, LsmError>(decoded_blocks(es, block_size)[a + i]),
    )
}

/// Blocks of a table that are not among those of a range are restricted to nothing.
proof fn lemma_outside(
    es: Seq<Entry>,
    block_size: nat,
    start: Option<Seq<u8>>,
    end: Option<Seq<u8>>,
    first: int,
    last: int,
)
    requires
        strictly_sorted(es),
        0 <= first <= last <= chunks(es, block_size).len(),
        ({
            let (a, b) = table_model(es, block_size).iter_range(start, end);
            last <= a || b <= first
        }),
    ensures
        restrict(joined(chunks(es, block_size).subrange(first, last)), start, end) == Seq::<
            Entry,
        >::empty(),
{
    let cs = chunks(es, block_size);
    let part = cs.subrange(first, last);
    assert forall|p: int| 0 <= p < joined(part).len() implies !in_range(
        (#[trigger] joined(part)[p]).0,
        start,
        end,
    ) by {
        let (i, q) = lemma_joined_place(part, p);
        assert(part[i] == cs[first + i]);
        law_range_blocks(es, block_size, start, end, first + i, q);
    }
    lemma_restrict_none(joined(part), start, end);
}

/// A table restricted to a range is what its blocks of the range are restricted to.
proof fn lemma_inside(
    es: Seq<Entry>,
    block_size: nat,
    start: Option<Seq<u8>>,
    end: Option<Seq<u8>>,
)
    requires
        strictly_sorted(es),
    ensures
        ({
            let (a, b) = table_model(es, block_size).iter_range(start, end);
            restrict(es, start, end) == restrict(
                joined(chunks(es, block_size).subrange(a, b)),
                start,
                end,
            )
        }),
{
    let cs = chunks(es, block_size);
    let n = cs.len() as int;
    let (a, b) = table_model(es, block_size).iter_range(start, end);
    lemma_chunks_joined(es, block_size);
    lemma_range_bounds(es, block_size, start, end);
    let front = cs.subrange(0, a);
    let middle = cs.subrange(a, b);
    let back = cs.subrange(b, n);
    assert(cs =~= (front + middle) + back);
    lemma_joined_add(front, middle);
    lemma_joined_add(front + middle, back);
    lemma_restrict_add(joined(front), joined(middle), start, end);
    lemma_restrict_add(joined(front) + joined(middle), joined(back), start, end);
    lemma_outside(es, block_size, start, end, 0, a);
    lemma_outside(es, block_size, start, end, b, n);
    assert(restrict(es, start, end) =~= restrict(joined(middle), start, end));
}

/// Scanning a range of a table, by the blocks that intersect it alone, gives the entries of
/// the table that are in the range, all of them and in order.
pub proof fn law_table_range(
    es: Seq<Entry>,
    block_size: nat,
    start: Option<Seq<u8>>,
    end: Option<Seq<u8>>,
)
    requires
        table_fits(es, block_size),
    ensures
        stream_of(range_blocks(es, block_size, start, end), start, end) == Some(
            ok_items(restrict(es, start, end)),
        ),
{
    let all = range_blocks(es, block_size, start, end);
    let (a, b) = table_model(es, block_size).iter_range(start, end);
    lemma_range_bounds(es, block_size, start, end);
    lemma_inside(es, block_size, start, end);
    lemma_stream_joined(es, block_size, start, end, b - a);
    assert(all.take(b - a) =~= all);
    assert(a + (b - a) == b);
}

/// One block more.
proof fn lemma_stream_push(
    front: Seq<Fetched>,
    items: Seq<Item>,
    block: BlockModel,
    es: Seq<Entry>,
    start: Option<Seq<u8>>,
    end: Option<Seq<u8>>,
)
    requires
        stream_of(front, start, end) == Some(items),
        block.read_from(0) == Some(es),
    ensures
        stream_of(front.push(Ok::<BlockModel, LsmError>(block)), start, end) == Some(
            items + ok_items(restrict(es, start, end)),
        ),
{
    assert(front.push(Ok::<BlockModel, LsmError>(block)).drop_last() =~= front);
}

/// The first `n` blocks of a range give the entries of the range in them.
proof fn lemma_stream_joined(
    es: Seq<Entry>,
    block_size: nat,
    start: Option<Seq<u8>>,
    end: Option<Seq<u8>>,
    n: int,
)
    requires
        table_fits(es, block_size),
        ({
            let (a, b) = table_model(es, block_size).iter_range(start, end);
            0 <= n <= b - a && 0 <= a && b <= chunks(es, block_size).len()
        }),
    ensures
        ({
            let (a, b) = table_model(es, block_size).iter_range(start, end);
            stream_of(range_blocks(es, block_size, start, end).take(n), start, end) == Some(
                ok_items(
                    restrict(joined(chunks(es, block_size).subrange(a, a + n)), start, end),
                ),
            )
        }),
    decreases n,
{
    let cs = chunks(es, block_size);
    let (a, b) = table_model(es, block_size).iter_range(start, end);
    let bs = range_blocks(es, block_size, start, end);
    if n > 0 {
        lemma_stream_joined(es, block_size, start, end, n - 1);
        let before = cs.subrange(a, a + n - 1);
        let now = cs.subrange(a, a + n);
        let c = cs[a + n - 1];
        let block = decoded_blocks(es, block_size)[a + n - 1];
        assert(block.read_from(0) == Some(c)) by {
            law_table_blocks(es, block_size, a + n - 1);
        }
        assert(bs.take(n) =~= bs.take(n - 1).push(Ok::<BlockModel, LsmError>(block)));
        let x = restrict(joined(before), start, end);
        lemma_stream_push(bs.take(n - 1), ok_items(x), block, c, start, end);
        assert(now.drop_last() =~= before);
        assert(now.last() == c);
        lemma_restrict_add(joined(before), c, start, end);
        let y = restrict(c, start, end);
        assert(ok_items(x) + ok_items(y) =~= ok_items(x + y));
    } else {
        assert(bs.take(0) =~= Seq::<Fetched>::empty());
        assert(cs.subrange(a, a) =~= Seq::<Seq<Entry>>::empty());
        assert(ok_items(Seq::<Entry>::empty()) =~= Seq::<Item>::empty());
    }
}

/// Every block before the last one of a range starts before the end of the range.
proof fn lemma_blocks_before_end(t: TableModel, first: int, end: Option<Seq<u8>>, i: int)
    requires
        0 <= first <= i < t.last_block(first, end),
    ensures
        i < t.metas.len(),
        end is Some ==> key_lt(t.metas[i].first_key, end->0),
    decreases t.metas.len() - first,
{
    if first < t.metas.len() && first < i {
        lemma_blocks_before_end(t, first + 1, end, i);
    }
}

/// A scan reads no block that cannot hold a key of its range: each block that it reads starts
/// before the end of the range, and each but the first one starts behind its start.
pub proof fn law_range_tight(
    es: Seq<Entry>,
    block_size: nat,
    start: Option<Seq<u8>>,
    end: Option<Seq<u8>>,
    i: int,
)
    requires
        strictly_sorted(es),
        ({
            let (a, b) = table_model(es, block_size).iter_range(start, end);
            a <= i < b
        }),
    ensures
        ({
            let (a, b) = table_model(es, block_size).iter_range(start, end);
            let cs = chunks(es, block_size);
            &&& 0 <= i < cs.len()
            &&& end is Some ==> key_lt(cs[i][0].0, end->0)
            &&& start is Some && i > a ==> key_lt(start->0, cs[i][0].0)
            &&& start is None ==> a == 0
        }),
{
    let t = table_model(es, block_size);
    let (a, b) = t.iter_range(start, end);
    lemma_range_bounds(es, block_size, start, end);
    lemma_blocks_before_end(t, a, end, i);
    if let Some(s) = start {
        lemma_candidate(es, block_size, s);
        if i > a + 1 {
            lemma_first_keys(es, block_size, a + 1, i);
            lemma_key_transitive(s, t.metas[a + 1].first_key, t.metas[i].first_key);
        }
    }
}

/// A stream holds a failure exactly when one of its blocks could not be fetched for that reason,
/// and there is no stream exactly when one of them points outside its own bytes.
pub proof fn law_stream_errors(
    bs: Seq<Fetched>,
    start: Option<Seq<u8>>,
    end: Option<Seq<u8>>,
    e: LsmError,
)
    ensures
        stream_of(bs, start, end) is None <==> exists|p: int|
            0 <= p < bs.len() && (#[trigger] bs[p]) is Ok && bs[p]->Ok_0.read_from(0) is None,
        stream_of(bs, start, end) matches Some(items) ==> (items.contains(Err::<Entry, LsmError>(e))
            <==> bs.contains(Err::<BlockModel, LsmError>(e))),
    decreases bs.len(),
{
    let failed = Err::<Entry, LsmError>(e);
    let missing = Err::<BlockModel, LsmError>(e);
    if bs.len() > 0 {
        let front = bs.drop_last();
        let last = bs.last();
        law_stream_errors(front, start, end, e);
        assert(bs[bs.len() - 1] == last);
        assert(front.push(last) =~= bs);
        if let Some(items) = stream_of(front, start, end) {
            assert forall|p: int| 0 <= p < front.len() && (#[trigger] bs[p]) is Ok implies
                bs[p]->Ok_0.read_from(0) is Some by {
                assert(front[p] == bs[p]);
            }
            if let Some(all) = stream_of(bs, start, end) {
                lemma_contains_push(front, last, missing);
                if last is Err {
                    lemma_contains_push(items, Err::<Entry, LsmError>(last->Err_0), failed);
                } else {
                    let more = ok_items(restrict(last->Ok_0.read_from(0)->0, start, end));
                    assert(all == items + more);
                    if all.contains(failed) {
                        let q = choose|q: int| 0 <= q < all.len() && all[q] == failed;
                        if q >= items.len() {
                            assert(more[q - items.len()] is Ok);
                        }
                        assert(items[q] == failed);
                    }
                    if items.contains(failed) {
                        let q = choose|q: int| 0 <= q < items.len() && items[q] == failed;
                        assert(all[q] == failed);
                    }
                }
            }
        } else {
            let p = choose|p: int|
                0 <= p < front.len() && (#[trigger] front[p]) is Ok && front[p]->Ok_0.read_from(0)
                    is None;
            assert(bs[p] == front[p]);
        }
    }
}

/// What a list with one more item contains.
proof fn lemma_contains_push<T>(s: Seq<T>, x: T, y: T)
    ensures
        s.push(x).contains(y) <==> s.contains(y) || x == y,
{
    let all = s.push(x);
    assert(all[s.len() as int] == x);
    if s.contains(y) {
        let i = choose|i: int| 0 <= i < s.len() && s[i] == y;
        assert(all[i] == y);
    }
    if all.contains(y) && x != y {
        let i = choose|i: int| 0 <= i < all.len() && all[i] == y;
        assert(s[i] == y);
    }
}

/// Blocks in memory stand for as many in the same order, and so do blocks that were fetched.
pub proof fn law_block_lists(bs: Seq<Arc<Block>>, fetched: Seq<Result<Arc<Block>>>, i: int)
    ensures
        blocks_of(bs).len() == bs.len(),
        0 <= i < bs.len() ==> blocks_of(bs)[i] == bs[i]@,
        fetched_of(fetched).len() == fetched.len(),
        0 <= i < fetched.len() ==> match fetched[i] {
            Ok(b) => fetched_of(fetched)[i] == Ok::<BlockModel, LsmError>(b@),
            Err(e) => fetched_of(fetched)[i] == Err::<BlockModel, LsmError>(e),
        },
{
}

/// Reading blocks one after the other gives the entries of each of them in turn, and nothing when
/// one of them points outside its own bytes.
pub proof fn law_read_blocks(bs: Seq<BlockModel>, b: BlockModel)
    ensures
        read_blocks(Seq::empty()) == Some(Seq::<Entry>::empty()),
        read_blocks(bs) is Some && b.read_from(0) is Some ==> read_blocks(bs.push(b)) == Some(
            read_blocks(bs)->0 + b.read_from(0)->0,
        ),
        read_blocks(bs) is None || b.read_from(0) is None ==> read_blocks(bs.push(b)) is None,
{
    assert(bs.push(b).drop_last() =~= bs);
}

/// A stream goes through its blocks in their order: a block gives its entries of the range, and a
/// block that could not be fetched gives the reason.
pub proof fn law_stream_push(
    bs: Seq<Fetched>,
    b: Fetched,
    start: Option<Seq<u8>>,
    end: Option<Seq<u8>>,
)
    ensures
        stream_of(Seq::empty(), start, end) == Some(Seq::<Item>::empty()),
        stream_of(bs, start, end) matches Some(items) ==> match b {
            Err(e) => stream_of(bs.push(b), start, end) == Some(
                items.push(Err::<Entry, LsmError>(e)),
            ),
            Ok(block) => block.read_from(0) matches Some(es) ==> stream_of(bs.push(b), start, end)
                == Some(items + ok_items(restrict(es, start, end))),
        },
{
    assert(bs.push(b).drop_last() =~= bs);
}

} // verus!
