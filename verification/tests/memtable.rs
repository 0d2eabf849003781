use bytes::Bytes;
use lsm_tree::memtable::MemTable;

#[test]
fn test_memtable_crud() {
    let mut memtable = MemTable::new();
    assert!(memtable.is_empty());

    memtable.put(Bytes::from("key1"), Bytes::from("val1"));
    memtable.put(Bytes::from("key2"), Bytes::from("val2"));

    assert_eq!(memtable.get(b"key1"), Some(Some(Bytes::from("val1"))));
    assert_eq!(memtable.get(b"key2"), Some(Some(Bytes::from("val2"))));
    assert_eq!(memtable.get(b"key3"), None);

    // Test delete (tombstone)
    memtable.delete(Bytes::from("key1"));
    assert_eq!(memtable.get(b"key1"), Some(None)); // Tombstone
    assert_eq!(memtable.len(), 2);
}

#[test]
fn test_memtable_sorted_order() {
    let mut memtable = MemTable::new();
    memtable.put(Bytes::from("charlie"), Bytes::from("3"));
    memtable.put(Bytes::from("alice"), Bytes::from("1"));
    memtable.put(Bytes::from("bob"), Bytes::from("2"));

    let keys: Vec<String> = memtable
        .iter()
        .into_iter()
        .map(|(k, _)| String::from_utf8(k.to_vec()).unwrap())
        .collect();

    assert_eq!(keys, vec!["alice", "bob", "charlie"]);
}

#[test]
fn sizes_count_keys_values_and_overhead() {
    let mut memtable = MemTable::default();
    assert_eq!(memtable.size_bytes(), 0);
    memtable.put(Bytes::from("abc"), Bytes::from("defgh"));
    assert_eq!(memtable.size_bytes(), 3 + 5 + 64);
    memtable.delete(Bytes::from("abc"));
    assert_eq!(memtable.size_bytes(), 72 + 3 + 64);
    // An overwrite counts again, and is still one entry.
    memtable.put(Bytes::from("abc"), Bytes::new());
    assert_eq!(memtable.size_bytes(), 139 + 3 + 64);
    assert_eq!(memtable.len(), 1);
    assert!(!memtable.is_empty());
    assert_eq!(memtable.get(b"abc"), Some(Some(Bytes::new())));
}

#[test]
fn iteration_lists_tombstones_and_the_last_values() {
    let mut memtable = MemTable::new();
    memtable.put(Bytes::from("b"), Bytes::from("1"));
    memtable.put(Bytes::from("a"), Bytes::from("2"));
    memtable.put(Bytes::from("b"), Bytes::from("3"));
    memtable.delete(Bytes::from("a"));
    memtable.put(Bytes::from("ab"), Bytes::from("4"));
    assert_eq!(
        memtable.iter(),
        vec![
            (Bytes::from("a"), None),
            (Bytes::from("ab"), Some(Bytes::from("4"))),
            (Bytes::from("b"), Some(Bytes::from("3"))),
        ]
    );
}
