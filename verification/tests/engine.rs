use std::collections::{BTreeMap, VecDeque};
use std::sync::Arc;

use bytes::Bytes;
use lsm_tree::compaction::compact_sstables;
use lsm_tree::engine::{BlockSource, Lookup};
use lsm_tree::error::{LsmError, Result};
use lsm_tree::sstable::reader::{is_complete, Footer};
use lsm_tree::sstable::stream::table_stream;
use lsm_tree::sstable::{Block, SsTableReader};
use lsm_tree::{LsmEngine, DEFAULT_BLOCK_CACHE_CAPACITY, DEFAULT_MAX_MEMTABLE_SIZE};

/// What an engine leaves on disk.
#[derive(Clone, Default)]
struct Disk {
    tables: BTreeMap<u64, Bytes>,
    wal: Vec<u8>,
}

/// An engine over files in memory.
struct Db {
    engine: LsmEngine,
    disk: Disk,
    reads: usize,
}

fn open_table(id: u64, file: &Bytes) -> Result<SsTableReader> {
    let at = Footer::locate(file.len() as u64)? as usize;
    let f = Footer::decode(&file[at..])?;
    let filter = file.slice(f.filter_offset as usize..(f.filter_offset + f.filter_len) as usize);
    let index = file.slice(f.index_offset as usize..(f.index_offset + f.index_len) as usize);
    Ok(SsTableReader::open(id, filter, &index).unwrap())
}

impl Db {
    fn open_with_cache_options(disk: Disk, max_size: usize, capacity: usize) -> Result<Db> {
        let mut disk = disk;
        let mut readers = Vec::new();
        for (id, file) in &disk.tables {
            if is_complete(file.len() as u64, &file[file.len().saturating_sub(40)..]) {
                readers.push(open_table(*id, file)?);
            }
        }
        let (engine, valid_len) =
            LsmEngine::open_with_cache_options(readers, &disk.wal, max_size, capacity)?;
        disk.wal.truncate(valid_len);
        Ok(Db { engine, disk, reads: 0 })
    }

    fn open_with_options(disk: Disk, max_size: usize) -> Result<Db> {
        Db::open_with_cache_options(disk, max_size, DEFAULT_BLOCK_CACHE_CAPACITY)
    }

    fn open(disk: Disk) -> Result<Db> {
        Db::open_with_options(disk, DEFAULT_MAX_MEMTABLE_SIZE)
    }

    fn put(&mut self, key: &[u8], value: &[u8]) -> Result<()> {
        let write = self.engine.put(key, value)?;
        self.disk.wal.extend_from_slice(write.frame());
        if self.engine.commit(write) {
            self.flush_memtable()?;
        }
        Ok(())
    }

    fn delete(&mut self, key: &[u8]) -> Result<()> {
        let write = self.engine.delete(key)?;
        self.disk.wal.extend_from_slice(write.frame());
        if self.engine.commit(write) {
            self.flush_memtable()?;
        }
        Ok(())
    }

    fn block(&mut self, table: usize, block: usize) -> Result<Arc<Block>> {
        match self.engine.fetch(table, block) {
            BlockSource::Cached(b) => Ok(b),
            BlockSource::File { sst_id, offset, len } => {
                self.reads += 1;
                let file = &self.disk.tables[&sst_id];
                let bytes = file.slice(offset as usize..(offset + len) as usize);
                self.engine.supply(table, block, bytes)
            }
        }
    }

    fn get(&mut self, key: &[u8]) -> Result<Option<Bytes>> {
        let mut step = self.engine.get(key);
        loop {
            match step {
                Lookup::Done(v) => return Ok(v),
                Lookup::Fetch { table, block } => {
                    let b = self.block(table, block)?;
                    step = self.engine.resume(key, table, &b);
                }
                Lookup::Corrupt => panic!("corrupt"),
            }
        }
    }

    fn flush_memtable(&mut self) -> Result<()> {
        if let Some(flush) = self.engine.flush_memtable() {
            let file = flush.file.unwrap();
            let reader = open_table(flush.sst_id, &file)?;
            self.disk.tables.insert(flush.sst_id, file);
            if self.engine.finish_flush(reader) {
                self.disk.wal.clear();
            }
        }
        Ok(())
    }

    fn compact(&mut self) -> Result<()> {
        let new_id = match self.engine.compact() {
            Some(id) => id,
            None => return Ok(()),
        };
        let mut tables = Vec::new();
        let mut old = Vec::new();
        for t in 0..self.engine.sstable_count() {
            let id = self.engine.table_id(t);
            old.push(id);
            let file = &self.disk.tables[&id];
            let mut blocks = Vec::new();
            for b in 0..self.engine.table_blocks(t) {
                let (offset, len) = self.engine.block_place(t, b);
                let bytes = file.slice(offset as usize..(offset + len) as usize);
                blocks.push(Arc::new(Block::decode(bytes)?));
            }
            tables.push(SsTableReader::read_all_entries(&blocks).unwrap());
        }
        let file = compact_sstables(&tables, true).unwrap();
        let reader = open_table(new_id, &file)?;
        self.disk.tables.insert(new_id, file);
        self.engine.finish_compact(reader);
        for id in old.iter().rev() {
            self.disk.tables.remove(id);
        }
        Ok(())
    }

    fn streams(
        &mut self,
        start: Option<&[u8]>,
        end: Option<&[u8]>,
    ) -> Vec<VecDeque<Result<(Bytes, Option<Bytes>)>>> {
        let mut streams = Vec::new();
        for t in 0..self.engine.sstable_count() {
            let (a, b) = self.engine.table_range(t, start, end);
            let mut blocks = VecDeque::new();
            for i in a..b {
                blocks.push_back(self.block(t, i));
            }
            streams.push(table_stream(blocks, start, end).unwrap());
        }
        streams
    }

    fn scan(&mut self, start: Option<&[u8]>, end: Option<&[u8]>) -> Result<Vec<(Bytes, Bytes)>> {
        let streams = self.streams(start, end);
        self.engine.scan(start, end, streams)
    }

    fn scan_all(&mut self) -> Result<Vec<(Bytes, Bytes)>> {
        let streams = self.streams(None, None);
        self.engine.scan_all(streams)
    }

    fn sstable_count(&self) -> usize {
        self.engine.sstable_count()
    }
}

#[test]
fn test_engine_crud() -> Result<()> {
    let mut db = Db::open(Disk::default())?;

    db.put(b"order:100", b"status=pending")?;
    assert_eq!(db.get(b"order:100")?, Some(Bytes::from("status=pending")));

    db.put(b"order:100", b"status=completed")?;
    assert_eq!(db.get(b"order:100")?, Some(Bytes::from("status=completed")));

    db.delete(b"order:100")?;
    assert_eq!(db.get(b"order:100")?, None);

    Ok(())
}

#[test]
fn test_automatic_flush_to_sstable() -> Result<()> {
    // Small 256-byte threshold to force flush
    let mut db = Db::open_with_options(Disk::default(), 256)?;

    assert_eq!(db.sstable_count(), 0);

    // Insert enough records to trigger automatic flush
    for i in 0..20 {
        let k = format!("sensor:{:02}", i);
        let v = format!("metric_payload_data_{:04}", i);
        db.put(k.as_bytes(), v.as_bytes())?;
    }

    // Should have created at least 1 SSTable on disk
    assert!(db.sstable_count() >= 1);

    // Verify all 20 records are still readable across MemTable and SSTables
    for i in 0..20 {
        let k = format!("sensor:{:02}", i);
        let expected_v = format!("metric_payload_data_{:04}", i);
        assert_eq!(db.get(k.as_bytes())?, Some(Bytes::from(expected_v)));
    }

    // Verify tombstone across SSTable
    db.delete(b"sensor:05")?;
    assert_eq!(db.get(b"sensor:05")?, None);

    Ok(())
}

#[test]
fn test_persistence_across_full_restart() -> Result<()> {
    // 1. Session 1: Put keys, force flush, put more keys, exit
    let disk = {
        let mut db = Db::open_with_options(Disk::default(), 256)?;
        db.put(b"config:timeout", b"30s")?;
        db.put(b"config:retries", b"5")?;
        db.flush_memtable()?; // Forced disk flush -> 000001.sst
        db.put(b"config:host", b"127.0.0.1")?;
        db.disk
    };

    // 2. Session 2: Reopen DB from scratch and verify everything is intact
    {
        let mut db = Db::open(disk)?;
        assert!(db.sstable_count() >= 1);
        assert_eq!(db.get(b"config:timeout")?, Some(Bytes::from("30s")));
        assert_eq!(db.get(b"config:retries")?, Some(Bytes::from("5")));
        assert_eq!(db.get(b"config:host")?, Some(Bytes::from("127.0.0.1")));
        assert_eq!(db.get(b"config:unknown")?, None);
    }

    Ok(())
}

#[test]
fn test_engine_compaction() -> Result<()> {
    let mut db = Db::open_with_options(Disk::default(), 4096)?;

    // Batch 1: Flushed to SSTable 1
    db.put(b"k1", b"v1_old")?;
    db.put(b"k2", b"v2")?;
    db.flush_memtable()?;

    // Batch 2: Overwrite k1, delete k2, add k3 -> Flushed to SSTable 2
    db.put(b"k1", b"v1_new")?;
    db.delete(b"k2")?;
    db.put(b"k3", b"v3")?;
    db.flush_memtable()?;

    assert_eq!(db.sstable_count(), 2);

    // Run background compaction
    db.compact()?;

    // After compaction, both SSTables merged into 1 single SSTable
    assert_eq!(db.sstable_count(), 1);

    // Verify values
    assert_eq!(db.get(b"k1")?, Some(Bytes::from("v1_new")));
    assert_eq!(db.get(b"k2")?, None); // Purged
    assert_eq!(db.get(b"k3")?, Some(Bytes::from("v3")));

    Ok(())
}

#[test]
fn test_engine_range_scan() -> Result<()> {
    let mut db = Db::open_with_options(Disk::default(), 512)?;

    // Batch 1: Insert into SSTable 1 (via flush)
    db.put(b"user:010", b"Alice")?;
    db.put(b"user:020", b"Bob")?;
    db.put(b"user:030", b"Charlie")?;
    db.flush_memtable()?;

    // Batch 2: Insert into SSTable 2 (via flush)
    db.put(b"user:015", b"Alex")?;
    db.put(b"user:020", b"BobUpdated")?; // Overwrite
    db.put(b"user:040", b"Dave")?;
    db.flush_memtable()?;

    // Batch 3: Active MemTable (in-memory)
    db.put(b"user:025", b"Brian")?;
    db.delete(b"user:030")?; // Delete Charlie in MemTable
    db.put(b"user:050", b"Eve")?;

    // 1. Scan bounded range: [user:015, user:035)
    let results = db.scan(Some(b"user:015"), Some(b"user:035"))?;
    // Expected:
    // user:015 -> Alex
    // user:020 -> BobUpdated (from SSTable 2, masking SSTable 1's Bob)
    // user:025 -> Brian (from MemTable)
    // user:030 -> deleted (tombstone in MemTable masks Charlie)
    assert_eq!(results.len(), 3);
    assert_eq!(results[0], (Bytes::from("user:015"), Bytes::from("Alex")));
    assert_eq!(results[1], (Bytes::from("user:020"), Bytes::from("BobUpdated")));
    assert_eq!(results[2], (Bytes::from("user:025"), Bytes::from("Brian")));

    // 2. Scan all
    let all = db.scan_all()?;
    // Expected: user:010, user:015, user:020, user:025, user:040, user:050
    assert_eq!(all.len(), 6);
    assert_eq!(all[0].0.as_ref(), b"user:010");
    assert_eq!(all[5].0.as_ref(), b"user:050");

    Ok(())
}

#[test]
fn test_engine_block_cache() -> Result<()> {
    // DB with tiny 2-block LRU cache
    let mut db = Db::open_with_cache_options(Disk::default(), 512, 2)?;
    assert_eq!(db.engine.block_cache_capacity(), 2);
    assert_eq!(db.engine.block_cache_len(), 0);

    // Put keys and flush to SSTable
    for i in 0..30 {
        let k = format!("cached_key_{:03}", i);
        let v = format!("cached_val_{:03}", i);
        db.put(k.as_bytes(), v.as_bytes())?;
    }
    db.flush_memtable()?;

    // Cold read: loads block into cache
    assert_eq!(db.get(b"cached_key_005")?, Some(Bytes::from("cached_val_005")));
    assert!(db.engine.block_cache_len() >= 1);

    // Warm read: serves directly from block cache
    let cold = db.reads;
    assert_eq!(db.get(b"cached_key_005")?, Some(Bytes::from("cached_val_005")));
    assert_eq!(db.reads, cold);

    Ok(())
}

#[test]
fn sizes_and_defaults() -> Result<()> {
    assert_eq!(DEFAULT_MAX_MEMTABLE_SIZE, 4_194_304);
    assert_eq!(DEFAULT_BLOCK_CACHE_CAPACITY, 1024);
    let (engine, valid) = LsmEngine::open(vec![], &[])?;
    assert_eq!(valid, 0);
    assert_eq!(engine.block_cache_capacity(), 1024);
    assert_eq!(engine.memtable_size(), 0);
    let (engine, _) = LsmEngine::open_with_options(vec![], &[], 1)?;
    assert_eq!(engine.block_cache_capacity(), 1024);

    let mut db = Db::open(Disk::default())?;
    db.put(b"ab", b"cde")?;
    assert_eq!(db.engine.memtable_size(), 69);
    db.flush_memtable()?;
    assert_eq!(db.engine.memtable_size(), 0);
    Ok(())
}

#[test]
fn a_flush_is_due_when_the_threshold_is_reached() -> Result<()> {
    let mut db = Db::open_with_options(Disk::default(), 136)?;
    db.put(b"a", b"123")?;
    assert_eq!(db.sstable_count(), 0);
    db.put(b"b", b"123")?;
    assert_eq!(db.sstable_count(), 1);
    assert_eq!(db.engine.table_id(0), 1);
    db.delete(b"a")?;
    assert_eq!(db.engine.memtable_size(), 65);
    assert_eq!(db.get(b"a")?, None);
    assert_eq!(db.get(b"b")?, Some(Bytes::from("123")));
    Ok(())
}

#[test]
fn flushing_nothing_makes_no_table() -> Result<()> {
    let mut db = Db::open(Disk::default())?;
    db.flush_memtable()?;
    assert_eq!(db.sstable_count(), 0);
    db.put(b"a", b"1")?;
    db.flush_memtable()?;
    db.flush_memtable()?;
    assert_eq!(db.sstable_count(), 1);
    // The number of the empty flush was not used up.
    db.put(b"a", b"2")?;
    db.flush_memtable()?;
    assert_eq!(db.engine.table_id(0), 2);
    Ok(())
}

#[test]
fn too_long_keys_are_refused() -> Result<()> {
    let mut db = Db::open(Disk::default())?;
    let long = vec![1u8; 65536];
    assert!(matches!(
        db.put(&long, b"v"),
        Err(LsmError::KeyTooLarge { actual: 65536, max: 65535 })
    ));
    assert!(matches!(db.delete(&long), Err(LsmError::KeyTooLarge { .. })));
    assert_eq!(db.disk.wal.len(), 0);
    assert_eq!(db.engine.memtable_size(), 0);
    Ok(())
}

#[test]
fn a_frozen_buffer_is_still_read() -> Result<()> {
    let mut db = Db::open(Disk::default())?;
    db.put(b"a", b"1")?;
    db.put(b"b", b"1")?;
    let flush = db.engine.flush_memtable().unwrap();
    assert_eq!(flush.sst_id, 1);
    assert_eq!(db.sstable_count(), 0);
    assert_eq!(db.get(b"a")?, Some(Bytes::from("1")));
    db.put(b"a", b"2")?;
    assert_eq!(db.get(b"a")?, Some(Bytes::from("2")));
    assert_eq!(db.get(b"b")?, Some(Bytes::from("1")));
    assert_eq!(
        db.scan_all()?,
        vec![
            (Bytes::from("a"), Bytes::from("2")),
            (Bytes::from("b"), Bytes::from("1"))
        ]
    );
    let file = flush.file.unwrap();
    let reader = open_table(1, &file)?;
    db.disk.tables.insert(1, file);
    // The second write of "a" stands in the log alone.
    assert!(!db.engine.finish_flush(reader));
    assert_eq!(db.get(b"a")?, Some(Bytes::from("2")));
    assert_eq!(db.get(b"b")?, Some(Bytes::from("1")));
    Ok(())
}

#[test]
fn compacting_one_table_changes_nothing() -> Result<()> {
    let mut db = Db::open(Disk::default())?;
    db.compact()?;
    db.put(b"a", b"1")?;
    db.delete(b"a")?;
    db.flush_memtable()?;
    db.compact()?;
    assert_eq!(db.sstable_count(), 1);
    assert_eq!(db.engine.table_id(0), 1);
    Ok(())
}

#[test]
fn tables_are_ordered_by_number_whatever_order_they_are_found_in() -> Result<()> {
    let mut db = Db::open(Disk::default())?;
    for i in 0..12 {
        db.put(b"k", format!("{}", i).as_bytes())?;
        db.flush_memtable()?;
    }
    let mut readers = Vec::new();
    for id in [3u64, 12, 1, 7, 2, 11, 4, 10, 5, 9, 6, 8] {
        readers.push(open_table(id, &db.disk.tables[&id])?);
    }
    let (engine, _) = LsmEngine::open(readers, &[])?;
    let ids: Vec<u64> = (0..12).map(|t| engine.table_id(t)).collect();
    assert_eq!(ids, vec![12, 11, 10, 9, 8, 7, 6, 5, 4, 3, 2, 1]);
    let mut other = Db { engine, disk: db.disk, reads: 0 };
    assert_eq!(other.get(b"k")?, Some(Bytes::from("11")));
    // The next table gets the next number.
    other.put(b"x", b"y")?;
    other.flush_memtable()?;
    assert_eq!(other.engine.table_id(0), 13);
    Ok(())
}

#[test]
fn a_torn_write_is_lost_and_nothing_else() -> Result<()> {
    let mut db = Db::open(Disk::default())?;
    db.put(b"a", b"1")?;
    db.put(b"b", b"2")?;
    let good = db.disk.wal.len();
    db.delete(b"a")?;
    for cut in good..db.disk.wal.len() {
        let mut disk = db.disk.clone();
        disk.wal.truncate(cut);
        let mut again = Db::open(disk)?;
        assert_eq!(again.disk.wal.len(), good);
        assert_eq!(again.get(b"a")?, Some(Bytes::from("1")));
        assert_eq!(again.get(b"b")?, Some(Bytes::from("2")));
        // What is written next is read back.
        again.put(b"c", b"3")?;
        let mut once_more = Db::open(again.disk)?;
        assert_eq!(once_more.get(b"c")?, Some(Bytes::from("3")));
    }
    Ok(())
}

#[test]
fn damage_in_the_middle_of_the_log_stops_an_opening() -> Result<()> {
    let mut db = Db::open(Disk::default())?;
    db.put(b"a", b"1")?;
    db.put(b"b", b"2")?;
    let mut disk = db.disk.clone();
    disk.wal[12] ^= 1;
    assert!(matches!(Db::open(disk), Err(LsmError::CrcMismatch { .. })));
    let mut disk = db.disk.clone();
    disk.wal[10] = 3;
    assert!(matches!(Db::open(disk), Err(LsmError::InvalidOpCode(3))));
    Ok(())
}

#[test]
fn a_damaged_block_is_an_error() -> Result<()> {
    let mut db = Db::open(Disk::default())?;
    db.put(b"a", b"1")?;
    db.flush_memtable()?;
    let mut file = db.disk.tables[&1].to_vec();
    file[12] = 200;
    db.disk.tables.insert(1, Bytes::from(file));
    match db.get(b"a") {
        Err(LsmError::CorruptedSSTable(text)) => {
            assert_eq!(text, "Block offset table out of bounds")
        }
        other => panic!("unexpected {:?}", other),
    }
    assert!(db.scan_all().is_err());
    assert_eq!(db.engine.block_cache_len(), 0);
    Ok(())
}

#[test]
fn any_history_reads_like_a_map() -> Result<()> {
    let mut db = Db::open_with_cache_options(Disk::default(), 3000, 3)?;
    let mut model: BTreeMap<Vec<u8>, Vec<u8>> = BTreeMap::new();
    let mut seed: u64 = 12345;
    for step in 0..1500u32 {
        seed = seed.wrapping_mul(6364136223846793005).wrapping_add(1442695040888963407);
        let n = (seed >> 33) % 60;
        let key = format!("key:{:02}", n).into_bytes();
        match (seed >> 20) % 10 {
            0..=5 => {
                let value = format!("value {} of {}", step, n).into_bytes();
                db.put(&key, &value)?;
                model.insert(key, value);
            }
            6 | 7 => {
                db.delete(&key)?;
                model.remove(&key);
            }
            8 => {
                let found = db.get(&key)?;
                assert_eq!(found.as_deref(), model.get(&key).map(|v| v.as_slice()));
            }
            _ => match (seed >> 40) % 8 {
                0 => db.flush_memtable()?,
                1 => db.compact()?,
                2 => {
                    let disk = db.disk.clone();
                    db = Db::open_with_cache_options(disk, 3000, 3)?;
                }
                _ => {
                    let (a, b) = ((seed >> 43) % 60, (seed >> 50) % 60);
                    let start = format!("key:{:02}", a.min(b)).into_bytes();
                    let end = format!("key:{:02}", a.max(b)).into_bytes();
                    let found = db.scan(Some(&start), Some(&end))?;
                    let expected: Vec<(Bytes, Bytes)> = model
                        .range(start..end)
                        .map(|(k, v)| (Bytes::from(k.clone()), Bytes::from(v.clone())))
                        .collect();
                    assert_eq!(found, expected);
                }
            },
        }
        assert!(db.engine.block_cache_len() <= 3);
    }
    let all: Vec<(Bytes, Bytes)> = model
        .iter()
        .map(|(k, v)| (Bytes::from(k.clone()), Bytes::from(v.clone())))
        .collect();
    assert_eq!(db.scan_all()?, all);
    Ok(())
}

#[test]
fn a_flush_empties_the_log() -> Result<()> {
    let mut db = Db::open(Disk::default())?;
    db.put(b"k", b"v")?;
    assert!(!db.disk.wal.is_empty());
    db.flush_memtable()?;
    assert!(db.disk.wal.is_empty());
    let mut again = Db::open(db.disk)?;
    assert_eq!(again.engine.memtable_size(), 0);
    assert_eq!(again.sstable_count(), 1);
    assert_eq!(again.get(b"k")?, Some(Bytes::from("v")));
    Ok(())
}

#[test]
fn a_crash_between_a_flush_and_emptying_the_log_loses_nothing() -> Result<()> {
    let mut db = Db::open(Disk::default())?;
    db.put(b"a", b"1")?;
    db.delete(b"b")?;
    let log = db.disk.wal.clone();
    db.flush_memtable()?;
    let mut disk = db.disk.clone();
    disk.wal = log;
    let mut again = Db::open(disk)?;
    assert_eq!(again.engine.memtable_size(), 66 + 65);
    assert_eq!(again.get(b"a")?, Some(Bytes::from("1")));
    assert_eq!(again.get(b"b")?, None);
    Ok(())
}

#[test]
fn incomplete_tables_are_ignored() -> Result<()> {
    let mut db = Db::open(Disk::default())?;
    db.put(b"k", b"v")?;
    db.flush_memtable()?;
    let whole = db.disk.tables[&1].clone();
    for cut in 0..whole.len() {
        let mut disk = db.disk.clone();
        disk.tables.insert(3, whole.slice(..cut));
        let mut again = Db::open(disk)?;
        assert_eq!(again.sstable_count(), 1);
        assert_eq!(again.get(b"k")?, Some(Bytes::from("v")));
    }
    let mut disk = db.disk.clone();
    disk.tables.insert(3, Bytes::from_static(&[0u8; 10]));
    let mut again = Db::open(disk)?;
    assert_eq!(again.sstable_count(), 1);
    assert_eq!(again.get(b"k")?, Some(Bytes::from("v")));
    Ok(())
}

#[test]
fn a_crash_while_compacted_tables_are_removed_changes_no_value() -> Result<()> {
    let mut db = Db::open(Disk::default())?;
    db.put(b"a", b"old")?;
    db.put(b"b", b"old")?;
    db.flush_memtable()?;
    db.delete(b"a")?;
    db.flush_memtable()?;
    db.put(b"b", b"new")?;
    db.flush_memtable()?;
    let before = db.disk.clone();
    db.compact()?;
    assert_eq!(db.disk.tables.keys().copied().collect::<Vec<u64>>(), vec![4]);
    // Some of the newest of the old tables are still there.
    for left in 0..=3u64 {
        let mut disk = db.disk.clone();
        for id in 4 - left..4 {
            disk.tables.insert(id, before.tables[&id].clone());
        }
        let mut again = Db::open(disk)?;
        assert_eq!(again.sstable_count() as u64, left + 1);
        assert_eq!(again.get(b"a")?, None);
        assert_eq!(again.get(b"b")?, Some(Bytes::from("new")));
        assert_eq!(again.scan_all()?, vec![(Bytes::from("b"), Bytes::from("new"))]);
    }
    Ok(())
}

#[test]
fn a_compaction_leaves_the_buffer_and_one_table() -> Result<()> {
    let mut db = Db::open(Disk::default())?;
    db.put(b"a", b"1")?;
    db.flush_memtable()?;
    db.delete(b"a")?;
    db.flush_memtable()?;
    db.put(b"b", b"2")?;
    let size = db.engine.memtable_size();
    db.compact()?;
    assert_eq!(db.engine.memtable_size(), size);
    assert_eq!(db.sstable_count(), 1);
    // Nothing but a tombstone was left of the tables.
    assert_eq!(db.engine.table_blocks(0), 0);
    assert_eq!(db.scan_all()?, vec![(Bytes::from("b"), Bytes::from("2"))]);
    Ok(())
}

#[test]
fn the_buffer_stays_below_its_threshold() -> Result<()> {
    for threshold in [1usize, 65, 66, 67, 200, 1000] {
        let mut db = Db::open_with_options(Disk::default(), threshold)?;
        let mut size = 0;
        let mut tables = 0;
        for i in 0..40usize {
            let key = format!("{:02}", i % 13);
            let value = vec![b'v'; i % 7];
            db.put(key.as_bytes(), &value)?;
            let grown = size + key.len() + value.len() + 64;
            if grown >= threshold {
                size = 0;
                tables += 1;
            } else {
                size = grown;
            }
            assert_eq!(db.engine.memtable_size(), size);
            assert_eq!(db.sstable_count(), tables);
        }
    }
    Ok(())
}

#[test]
fn an_engine_reopens_with_any_sizes() -> Result<()> {
    let mut db = Db::open(Disk::default())?;
    db.put(b"a", b"1")?;
    db.flush_memtable()?;
    db.put(b"b", b"2")?;
    for (max, capacity) in [(0, 0), (1, 1), (usize::MAX, usize::MAX)] {
        let mut again = Db::open_with_cache_options(db.disk.clone(), max, capacity)?;
        assert_eq!(again.engine.block_cache_capacity(), capacity.max(1));
        assert_eq!(again.engine.block_cache_len(), 0);
        assert_eq!(again.engine.memtable_size(), 66);
        assert_eq!(again.sstable_count(), 1);
        assert_eq!(again.get(b"a")?, Some(Bytes::from("1")));
        assert_eq!(again.get(b"b")?, Some(Bytes::from("2")));
    }
    Ok(())
}
