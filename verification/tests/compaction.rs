use std::sync::Arc;

use bytes::Bytes;
use lsm_tree::compaction::{compact_sstables, merge_tables};
use lsm_tree::error::Result;
use lsm_tree::naming::table_file_name;
use lsm_tree::sstable::reader::Footer;
use lsm_tree::sstable::{Block, SsTableBuilder, SsTableReader};

fn read_all_entries(file: &Bytes) -> Result<Vec<(Bytes, Option<Bytes>)>> {
    let at = Footer::locate(file.len() as u64)? as usize;
    let f = Footer::decode(&file[at..])?;
    let filter = file.slice(f.filter_offset as usize..(f.filter_offset + f.filter_len) as usize);
    let index = file.slice(f.index_offset as usize..(f.index_offset + f.index_len) as usize);
    let reader = SsTableReader::open(0, filter, &index).unwrap();
    let mut blocks = Vec::new();
    for i in 0..reader.num_blocks() {
        let (offset, len) = reader.block_place(i);
        blocks.push(Arc::new(Block::decode(
            file.slice(offset as usize..(offset + len) as usize),
        )?));
    }
    Ok(SsTableReader::read_all_entries(&blocks).unwrap())
}

#[test]
fn test_compaction_deduplication_and_tombstone_eviction() -> Result<()> {
    // SSTable 1 (Oldest): keyA=1, keyB=1, keyC=1
    assert_eq!(table_file_name(1), b"000001.sst");
    let sst1 = {
        let mut b = SsTableBuilder::create();
        b.add(b"keyA", Some(b"1"))?;
        b.add(b"keyB", Some(b"1"))?;
        b.add(b"keyC", Some(b"1"))?;
        b.finish()
    };

    // SSTable 2 (Newer): keyA=2 (overwrite), keyB=None (deleted via tombstone)
    assert_eq!(table_file_name(2), b"000002.sst");
    let sst2 = {
        let mut b = SsTableBuilder::create();
        b.add(b"keyA", Some(b"2"))?;
        b.add(b"keyB", None)?;
        b.finish()
    };

    let tables = vec![
        read_all_entries(&sst2)?, // Newer at idx 0
        read_all_entries(&sst1)?, // Older at idx 1
    ];
    assert_eq!(tables.len(), 2);

    // Perform bottom-level compaction into 000003.sst
    let compacted = compact_sstables(&tables, true).unwrap();
    assert_eq!(table_file_name(3), b"000003.sst");

    // Inspect new compacted SSTable
    let all_entries = read_all_entries(&compacted)?;

    // keyA should be 2 (freshest value)
    // keyB should be evicted completely (tombstone reclaimed)
    // keyC should be 1
    assert_eq!(all_entries.len(), 2);
    assert_eq!(all_entries[0].0.as_ref(), b"keyA");
    assert_eq!(all_entries[0].1, Some(Bytes::from("2")));

    assert_eq!(all_entries[1].0.as_ref(), b"keyC");
    assert_eq!(all_entries[1].1, Some(Bytes::from("1")));

    Ok(())
}

fn entry(k: &str, v: Option<&str>) -> (Bytes, Option<Bytes>) {
    (Bytes::from(k.to_string()), v.map(|v| Bytes::from(v.to_string())))
}

#[test]
fn tombstones_stay_above_the_bottom_level() {
    let tables = vec![
        vec![entry("b", None), entry("c", Some("3"))],
        vec![entry("a", Some("1")), entry("b", Some("2")), entry("c", None)],
    ];
    assert_eq!(
        merge_tables(&tables, false),
        vec![entry("a", Some("1")), entry("b", None), entry("c", Some("3"))]
    );
    assert_eq!(
        merge_tables(&tables, true),
        vec![entry("a", Some("1")), entry("c", Some("3"))]
    );
    let file = compact_sstables(&tables, false).unwrap();
    assert_eq!(read_all_entries(&file).unwrap(), merge_tables(&tables, false));
}

#[test]
fn compacting_only_tombstones_leaves_an_empty_table() {
    let tables = vec![vec![entry("a", None)], vec![entry("a", Some("1"))]];
    assert_eq!(merge_tables(&tables, true), vec![]);
    let file = compact_sstables(&tables, true).unwrap();
    assert_eq!(read_all_entries(&file).unwrap(), vec![]);
    assert_eq!(merge_tables(&vec![], true), vec![]);
}
