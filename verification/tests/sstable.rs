use std::sync::Arc;

use bytes::Bytes;
use lsm_tree::error::{LsmError, Result};
use lsm_tree::sstable::reader::{decode_index, is_complete, Footer, TableStep};
use lsm_tree::sstable::stream::table_stream;
use lsm_tree::sstable::{Block, SsTableBuilder, SsTableReader};

struct Table {
    file: Bytes,
    reader: SsTableReader,
}

impl Table {
    fn open(file: Bytes) -> Result<Table> {
        let at = Footer::locate(file.len() as u64)? as usize;
        let footer = Footer::decode(&file[at..])?;
        let filter = file.slice(
            footer.filter_offset as usize..(footer.filter_offset + footer.filter_len) as usize,
        );
        let index = file
            .slice(footer.index_offset as usize..(footer.index_offset + footer.index_len) as usize);
        let reader = SsTableReader::open(1, filter, &index).unwrap();
        Ok(Table { file, reader })
    }

    fn block(&self, idx: usize) -> Result<Block> {
        let (offset, len) = self.reader.block_place(idx);
        Block::decode(self.file.slice(offset as usize..(offset + len) as usize))
    }

    fn get(&self, key: &[u8]) -> Result<Option<Option<Bytes>>> {
        match self.reader.get(key) {
            TableStep::Absent => Ok(None),
            TableStep::Read(idx) => Ok(self.block(idx)?.get(key)),
            TableStep::Unaddressable => panic!("no bits"),
        }
    }

    fn read_all_entries(&self) -> Result<Vec<(Bytes, Option<Bytes>)>> {
        let mut blocks = Vec::new();
        for idx in 0..self.reader.num_blocks() {
            blocks.push(Arc::new(self.block(idx)?));
        }
        Ok(SsTableReader::read_all_entries(&blocks).unwrap())
    }
}

#[test]
fn test_sstable_build_and_read_point_lookups() -> Result<()> {
    // 1. Build an SSTable with small blocks (128 bytes) to force multiple blocks
    let file = {
        let mut builder = SsTableBuilder::create_with_block_size(128);
        for i in 0..50 {
            let k = format!("key:{:04}", i);
            let v = format!("val:{:04}", i);
            if i == 25 {
                builder.add(k.as_bytes(), None)?; // Tombstone
            } else {
                builder.add(k.as_bytes(), Some(v.as_bytes()))?;
            }
        }
        builder.finish()
    };

    // 2. Read and verify with SsTableReader
    let table = Table::open(file)?;
    assert!(table.reader.num_blocks() > 1); // Confirmed multiple blocks were created

    // Verify existing values
    for i in 0..50 {
        let k = format!("key:{:04}", i);
        let res = table.get(k.as_bytes())?;
        if i == 25 {
            assert_eq!(res, Some(None), "Key 25 should be tombstone");
        } else {
            let expected_v = format!("val:{:04}", i);
            assert_eq!(res, Some(Some(Bytes::from(expected_v))));
        }
    }

    // Verify missing keys (should be rejected via Bloom filter or block index)
    assert_eq!(table.get(b"key:9999")?, None);
    assert_eq!(table.get(b"non_existent")?, None);

    // Verify read all entries preserves order
    let all = table.read_all_entries()?;
    assert_eq!(all.len(), 50);
    assert_eq!(all[0].0.as_ref(), b"key:0000");
    assert_eq!(all[49].0.as_ref(), b"key:0049");

    Ok(())
}

#[test]
fn table_files_have_the_documented_bytes() -> Result<()> {
    let mut builder = SsTableBuilder::create();
    builder.add(b"a", Some(b"1"))?;
    let file = builder.finish();
    let mut expected: Vec<u8> = Vec::new();
    // One block: the entry, its offset and the count.
    expected.extend([0, 1, 0, 0, 0, 1, 0, b'a', b'1', 0, 0, 0, 1]);
    // The index: one block, its first key, offset and length.
    expected.extend([0, 0, 0, 1, 0, 1, b'a']);
    expected.extend([0, 0, 0, 0, 0, 0, 0, 0, 0, 0, 0, 0, 0, 0, 0, 13]);
    // The filter.
    expected.extend([7, 0x10, 0x10, 0x10, 0x10, 0x00, 0x10, 0x10, 0x10]);
    // The footer.
    for n in [13u64, 23, 36, 9, 0x4C534D5452454531] {
        expected.extend(n.to_be_bytes());
    }
    assert_eq!(file.as_ref(), expected.as_slice());
    Ok(())
}

#[test]
fn an_empty_table_opens() -> Result<()> {
    let table = Table::open(SsTableBuilder::create().finish())?;
    assert_eq!(table.reader.num_blocks(), 0);
    assert_eq!(table.get(b"a")?, None);
    assert_eq!(table.read_all_entries()?, vec![]);
    assert_eq!(table.reader.iter_range(None, None), (0, 0));
    assert_eq!(table.reader.iter_range(Some(b"a"), Some(b"b")), (0, 0));
    Ok(())
}

#[test]
fn entries_with_equal_keys_are_read_back_each_with_its_own_value() -> Result<()> {
    for block_size in [16usize, 4096] {
        let mut builder = SsTableBuilder::create_with_block_size(block_size);
        builder.add(b"k", Some(b"1"))?;
        builder.add(b"k", Some(b"2"))?;
        builder.add(b"k", None)?;
        builder.add(b"a", Some(b"3"))?;
        let table = Table::open(builder.finish())?;
        assert_eq!(
            table.read_all_entries()?,
            vec![
                (Bytes::from("k"), Some(Bytes::from("1"))),
                (Bytes::from("k"), Some(Bytes::from("2"))),
                (Bytes::from("k"), None),
                (Bytes::from("a"), Some(Bytes::from("3"))),
            ]
        );
    }
    Ok(())
}

#[test]
fn a_file_is_complete_when_its_footer_and_what_it_points_to_are_there() {
    let file = numbered(10, 64).file;
    let len = file.len();
    assert!(is_complete(len as u64, &file[len - 40..]));
    assert!(!is_complete(len as u64, &file[len - 39..]));
    assert!(!is_complete(39, &file[len - 39..]));
    assert!(!is_complete(10, &[0u8; 10]));
    assert!(!is_complete(40, &[0u8; 40]));
    let mut footer = [0u8; 40];
    footer[32..].copy_from_slice(b"LSMTREE1");
    assert!(is_complete(40, &footer));
    footer[7] = 30;
    footer[15] = 20;
    assert!(is_complete(50, &footer));
    assert!(!is_complete(49, &footer));
    footer[23] = 31;
    footer[31] = 20;
    assert!(!is_complete(50, &footer));
    assert!(is_complete(51, &footer));
    footer[24..32].copy_from_slice(&u64::MAX.to_be_bytes());
    assert!(!is_complete(u64::MAX, &footer));
    footer[31] -= 31;
    assert!(is_complete(u64::MAX, &footer));
}

fn text_of(r: LsmError) -> String {
    match r {
        LsmError::CorruptedSSTable(text) => text,
        other => panic!("unexpected {:?}", other),
    }
}

#[test]
fn files_without_a_footer_are_refused() {
    for len in 0..40 {
        assert_eq!(
            text_of(Footer::locate(len).unwrap_err()),
            "File too small to contain SSTable footer"
        );
    }
    assert_eq!(Footer::locate(40).unwrap(), 0);
    assert_eq!(Footer::locate(u64::MAX).unwrap(), u64::MAX - 40);
}

#[test]
fn a_wrong_magic_number_is_refused() {
    let mut footer = [0u8; 40];
    footer[7] = 1;
    footer[15] = 2;
    footer[23] = 3;
    footer[31] = 4;
    footer[38] = 0xab;
    assert_eq!(
        text_of(Footer::decode(&footer).unwrap_err()),
        "Invalid SSTable magic bytes: expected 0x4c534d5452454531, got 0x000000000000ab00"
    );
    footer[32..].copy_from_slice(b"LSMTREE1");
    let decoded = Footer::decode(&footer).unwrap();
    assert_eq!(decoded.index_offset, 1);
    assert_eq!(decoded.index_len, 2);
    assert_eq!(decoded.filter_offset, 3);
    assert_eq!(decoded.filter_len, 4);
}

#[test]
fn an_index_that_is_cut_short_is_refused() {
    let mut index = vec![0, 0, 0, 1, 0, 2, b'a', b'b'];
    index.extend(7u64.to_be_bytes());
    index.extend(9u64.to_be_bytes());
    let metas = decode_index(&index).unwrap();
    assert_eq!(metas.len(), 1);
    assert_eq!(metas[0].first_key.as_ref(), b"ab");
    assert_eq!(metas[0].offset, 7);
    assert_eq!(metas[0].len, 9);
    for cut in 0..index.len() {
        assert!(decode_index(&index[..cut]).is_none());
        assert!(SsTableReader::open(1, Bytes::new(), &index[..cut]).is_none());
    }
    assert_eq!(decode_index(&[0, 0, 0, 0, 5]).unwrap().len(), 0);
    let reader = SsTableReader::open(77, Bytes::new(), &index).unwrap();
    assert_eq!(reader.id(), 77);
    assert_eq!(reader.block_place(0), (7, 9));
}

fn numbered(n: u32, block_size: usize) -> Table {
    let mut builder = SsTableBuilder::create_with_block_size(block_size);
    for i in 0..n {
        let k = format!("k{:03}", 2 * i);
        builder.add(k.as_bytes(), Some(k.as_bytes())).unwrap();
    }
    Table::open(builder.finish()).unwrap()
}

#[test]
fn lookups_read_the_one_block_that_can_hold_the_key() {
    let table = numbered(100, 64);
    let firsts: Vec<Bytes> = (0..table.reader.num_blocks())
        .map(|i| table.block(i).unwrap().first_key().unwrap())
        .collect();
    for i in 0..100u32 {
        let k = format!("k{:03}", 2 * i);
        match table.reader.get(k.as_bytes()) {
            TableStep::Read(b) => {
                assert!(firsts[b].as_ref() <= k.as_bytes());
                assert!(b + 1 == firsts.len() || k.as_bytes() < firsts[b + 1].as_ref());
            }
            other => panic!("unexpected {:?}", other),
        }
        let between = format!("k{:03}", 2 * i + 1);
        assert_eq!(table.get(between.as_bytes()).unwrap(), None);
    }
    assert_eq!(table.get(b"a").unwrap(), None);
    assert_eq!(table.reader.get(b"a"), TableStep::Absent);
}

#[test]
fn ranges_read_the_blocks_that_intersect_them() {
    let table = numbered(100, 64);
    let n = table.reader.num_blocks();
    let firsts: Vec<Bytes> = (0..n).map(|i| table.block(i).unwrap().first_key().unwrap()).collect();
    assert_eq!(table.reader.iter_range(None, None), (0, n));
    assert_eq!(table.reader.iter_range(Some(b"a"), None), (0, n));
    assert_eq!(table.reader.iter_range(Some(&firsts[3]), None), (3, n));
    assert_eq!(table.reader.iter_range(None, Some(&firsts[3])), (0, 3));
    assert_eq!(table.reader.iter_range(Some(&firsts[3]), Some(&firsts[3])), (3, 3));
    assert_eq!(table.reader.iter_range(Some(b"z"), None), (n - 1, n));
    assert_eq!(table.reader.iter_range(None, Some(b"a")), (0, 0));

    for (s, e) in [("k000", "k010"), ("k001", "k099"), ("k050", "k051"), ("k051", "k052")] {
        let (a, b) = table.reader.iter_range(Some(s.as_bytes()), Some(e.as_bytes()));
        let blocks = (a..b).map(|i| table.block(i).map(Arc::new)).collect();
        let stream = table_stream(blocks, Some(s.as_bytes()), Some(e.as_bytes())).unwrap();
        let keys: Vec<String> = stream
            .into_iter()
            .map(|r| String::from_utf8(r.unwrap().0.to_vec()).unwrap())
            .collect();
        let expected: Vec<String> = (0..100)
            .map(|i| format!("k{:03}", 2 * i))
            .filter(|k| k.as_str() >= s && k.as_str() < e)
            .collect();
        assert_eq!(keys, expected);
    }
}

#[test]
fn a_block_that_cannot_be_fetched_is_a_failure_in_its_place() {
    let table = numbered(10, 40);
    let mut blocks: std::collections::VecDeque<Result<Arc<Block>>> = Default::default();
    blocks.push_back(table.block(0).map(Arc::new));
    blocks.push_back(Err(LsmError::InvalidOpCode(7)));
    blocks.push_back(table.block(2).map(Arc::new));
    let stream: Vec<_> = table_stream(blocks, None, None).unwrap().into_iter().collect();
    let failed = stream.iter().position(|r| r.is_err()).unwrap();
    assert_eq!(failed, table.block(0).unwrap().len());
    assert!(matches!(stream[failed], Err(LsmError::InvalidOpCode(7))));
    assert_eq!(stream.len(), failed + 1 + table.block(2).unwrap().len());
}

#[test]
fn a_damaged_block_gives_no_stream() {
    let far = Block::decode(Bytes::from_static(&[1, 44, 0, 1])).unwrap();
    let blocks = std::collections::VecDeque::from(vec![Ok(Arc::new(far.clone()))]);
    assert!(table_stream(blocks, None, None).is_none());
    assert!(SsTableReader::read_all_entries(&vec![Arc::new(far)]).is_none());
}

#[test]
fn a_large_entry_has_a_block_of_its_own() -> Result<()> {
    let mut builder = SsTableBuilder::create();
    let large = vec![9u8; 100_000];
    builder.add(b"a", Some(b"small"))?;
    builder.add(b"b", Some(&large))?;
    builder.add(b"c", Some(b"small"))?;
    let table = Table::open(builder.finish())?;
    assert_eq!(table.reader.num_blocks(), 3);
    assert_eq!(table.get(b"b")?, Some(Some(Bytes::from(large))));
    assert_eq!(table.get(b"c")?, Some(Some(Bytes::from("small"))));
    Ok(())
}
