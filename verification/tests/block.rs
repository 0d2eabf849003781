use bytes::Bytes;
use lsm_tree::error::{LsmError, Result};
use lsm_tree::sstable::block::BlockSearch;
use lsm_tree::sstable::{Block, BlockBuilder};

#[test]
fn test_block_build_and_binary_search() -> Result<()> {
    let mut builder = BlockBuilder::new(4096);

    assert!(builder.add(b"key:01", Some(b"val:01")));
    assert!(builder.add(b"key:05", Some(b"val:05")));
    assert!(builder.add(b"key:10", None)); // Tombstone
    assert!(builder.add(b"key:20", Some(b"val:20")));

    let block_bytes = builder.build();
    let block = Block::decode(block_bytes)?;

    assert_eq!(block.len(), 4);
    assert_eq!(block.first_key(), Some(Bytes::from("key:01")));

    // Exact match active value
    assert_eq!(block.get(b"key:01"), Some(Some(Bytes::from("val:01"))));
    assert_eq!(block.get(b"key:05"), Some(Some(Bytes::from("val:05"))));

    // Tombstone
    assert_eq!(block.get(b"key:10"), Some(None));

    // Missing key
    assert_eq!(block.get(b"key:03"), None);
    assert_eq!(block.get(b"key:25"), None);

    Ok(())
}

#[test]
fn blocks_have_the_documented_bytes() {
    let mut builder = BlockBuilder::new(4096);
    assert!(builder.is_empty());
    assert_eq!(builder.current_size(), 2);
    assert!(builder.add(b"a", Some(b"1")));
    assert!(builder.add(b"b", None));
    assert!(!builder.is_empty());
    assert_eq!(builder.current_size(), 23);
    assert_eq!(
        builder.build().as_ref(),
        &[
            0, 1, 0, 0, 0, 1, 0, b'a', b'1', 0, 1, 0, 0, 0, 0, 1, b'b', 0, 0, 0, 9, 0, 2
        ]
    );
}

#[test]
fn a_full_block_takes_no_more() {
    // The first entry takes 9 bytes, its offset 2 and the count 2.
    let mut exact = BlockBuilder::new(24);
    assert!(exact.add(b"a", Some(b"1")));
    assert!(exact.add(b"b", Some(b"2")));
    assert_eq!(exact.current_size(), 24);
    assert!(!exact.add(b"c", None));
    assert_eq!(exact.current_size(), 24);

    let mut tight = BlockBuilder::new(23);
    assert!(tight.add(b"a", Some(b"1")));
    assert!(!tight.add(b"b", Some(b"2")));

    // A first entry always goes in.
    let mut tiny = BlockBuilder::new(1);
    assert!(tiny.add(b"large", Some(&[0u8; 100])));
    assert!(!tiny.add(b"m", None));
    let block = Block::decode(tiny.build()).unwrap();
    assert_eq!(block.get(b"large"), Some(Some(Bytes::from(vec![0u8; 100]))));
}

#[test]
fn an_empty_block_decodes() {
    let block = Block::decode(BlockBuilder::new(64).build()).unwrap();
    assert!(block.is_empty());
    assert_eq!(block.len(), 0);
    assert_eq!(block.first_key(), None);
    assert_eq!(block.get(b"a"), None);
    assert_eq!(block.read_entries(), Some(vec![]));
}

#[test]
fn every_entry_of_a_block_reads_back() {
    let mut builder = BlockBuilder::new(65536);
    let mut entries = Vec::new();
    for i in 0..200u32 {
        let key = format!("key:{:04}", i);
        let value = if i % 7 == 0 { None } else { Some(format!("value {}", i)) };
        assert!(builder.add(key.as_bytes(), value.as_ref().map(|v| v.as_bytes())));
        entries.push((Bytes::from(key), value.map(Bytes::from)));
    }
    let block = Block::decode(builder.build()).unwrap();
    assert_eq!(block.read_entries(), Some(entries.clone()));
    for (i, (key, value)) in entries.iter().enumerate() {
        assert_eq!(block.get_key(i), Some(key.clone()));
        assert_eq!(block.get(key), Some(value.clone()));
    }
    assert_eq!(block.get_key(200), None);
    assert_eq!(block.get(b"key:00005"), None);
}

fn fault(data: &'static [u8]) -> String {
    match Block::decode(Bytes::from_static(data)) {
        Err(LsmError::CorruptedSSTable(text)) => text,
        _ => panic!("no fault"),
    }
}

#[test]
fn damaged_blocks_are_refused() {
    assert_eq!(fault(&[]), "Block data too short");
    assert_eq!(fault(&[0]), "Block data too short");
    assert_eq!(fault(&[0, 1]), "Block offset table out of bounds");
    assert_eq!(fault(&[0, 0, 0, 2]), "Block offset table out of bounds");
    assert!(Block::decode(Bytes::from_static(&[0, 0])).is_ok());
}

#[test]
fn a_block_that_points_outside_itself_is_reported() {
    // One entry at offset 300.
    let far = Block::decode(Bytes::from_static(&[1, 44, 0, 1])).unwrap();
    assert!(matches!(far.search(b"a"), BlockSearch::OutOfBounds));
    assert_eq!(far.read_entries(), None);
    // One entry whose value would end behind the block.
    let long = Block::decode(Bytes::from_static(&[
        0, 1, 0, 0, 1, 0, 0, b'a', 0, 0, 0, 1,
    ]))
    .unwrap();
    assert!(matches!(long.search(b"a"), BlockSearch::OutOfBounds));
    assert!(matches!(long.search(b"b"), BlockSearch::Missing));
    // One entry whose header is cut short.
    let short = Block::decode(Bytes::from_static(&[0, 0, 0, 1])).unwrap();
    assert!(matches!(short.search(b"a"), BlockSearch::Missing));
    assert_eq!(short.get_key(0), None);
    assert_eq!(short.read_entries(), Some(vec![]));
}
