use std::sync::Arc;

use bytes::Bytes;
use lsm_tree::sstable::{Block, BlockBuilder, BlockCache, BlockKey};

fn make_test_block(k: &str, v: &str) -> Arc<Block> {
    let mut builder = BlockBuilder::new(1024);
    builder.add(k.as_bytes(), Some(v.as_bytes()));
    let bytes = builder.build();
    Arc::new(Block::decode(bytes).unwrap())
}

#[test]
fn test_block_cache_lru_eviction() {
    let mut cache = BlockCache::new(2);

    let k1 = BlockKey { sst_id: 1, offset: 0 };
    let k2 = BlockKey { sst_id: 1, offset: 4096 };
    let k3 = BlockKey { sst_id: 2, offset: 0 };

    let b1 = make_test_block("k1", "v1");
    let b2 = make_test_block("k2", "v2");
    let b3 = make_test_block("k3", "v3");

    cache.insert(k1, b1.clone());
    cache.insert(k2, b2.clone());
    assert_eq!(cache.len(), 2);

    // Access k1, making k2 the LRU block
    assert!(cache.get(&k1).is_some());

    // Insert k3 -> should evict k2
    cache.insert(k3, b3.clone());
    assert_eq!(cache.len(), 2);

    assert!(cache.get(&k1).is_some(), "k1 should still be present");
    assert!(cache.get(&k3).is_some(), "k3 should be present");
    assert!(cache.get(&k2).is_none(), "k2 should have been evicted by LRU policy");
}

fn key(n: u64) -> BlockKey {
    BlockKey { sst_id: n, offset: u64::MAX - n }
}

#[test]
fn a_cache_holds_at_least_one_block() {
    let mut cache = BlockCache::new(0);
    assert_eq!(cache.capacity(), 1);
    assert!(cache.is_empty());
    cache.insert(key(1), make_test_block("a", "1"));
    cache.insert(key(2), make_test_block("b", "2"));
    assert_eq!(cache.len(), 1);
    assert!(!cache.is_empty());
    assert!(cache.get(&key(1)).is_none());
    let block = cache.get(&key(2)).unwrap();
    assert_eq!(block.get(b"b"), Some(Some(Bytes::from("2"))));
}

#[test]
fn a_cache_can_be_as_large_as_the_machine_can_count() {
    let mut cache = BlockCache::new(usize::MAX);
    assert_eq!(cache.capacity(), usize::MAX);
    cache.insert(key(1), make_test_block("a", "1"));
    assert_eq!(cache.len(), 1);
}

#[test]
fn inserting_again_replaces_and_promotes() {
    let mut cache = BlockCache::new(2);
    cache.insert(key(1), make_test_block("a", "1"));
    cache.insert(key(2), make_test_block("b", "2"));
    cache.insert(key(1), make_test_block("a", "3"));
    assert_eq!(cache.len(), 2);
    cache.insert(key(3), make_test_block("c", "4"));
    assert!(cache.get(&key(2)).is_none());
    let block = cache.get(&key(1)).unwrap();
    assert_eq!(block.get(b"a"), Some(Some(Bytes::from("3"))));
    assert_eq!(cache.capacity(), 2);
}

#[test]
fn keys_differ_in_table_and_in_offset() {
    let mut cache = BlockCache::new(8);
    let a = BlockKey { sst_id: 1, offset: 2 };
    let b = BlockKey { sst_id: 2, offset: 1 };
    let c = BlockKey { sst_id: 1, offset: 1 };
    cache.insert(a, make_test_block("k", "a"));
    cache.insert(b, make_test_block("k", "b"));
    assert!(cache.get(&c).is_none());
    assert_eq!(cache.get(&a).unwrap().get(b"k"), Some(Some(Bytes::from("a"))));
    assert_eq!(cache.get(&b).unwrap().get(b"k"), Some(Some(Bytes::from("b"))));
}

#[test]
fn a_long_run_keeps_the_recently_used_blocks() {
    let mut cache = BlockCache::new(4);
    let mut recent: Vec<u64> = Vec::new();
    for step in 0..500u64 {
        let n = (step * step * 7 + step * 3) % 11;
        if step % 3 == 0 {
            let hit = cache.get(&key(n)).is_some();
            assert_eq!(hit, recent.contains(&n));
            if hit {
                recent.retain(|x| *x != n);
                recent.insert(0, n);
            }
        } else {
            cache.insert(key(n), make_test_block("k", "v"));
            recent.retain(|x| *x != n);
            recent.insert(0, n);
            recent.truncate(4);
        }
        assert_eq!(cache.len(), recent.len());
    }
}
