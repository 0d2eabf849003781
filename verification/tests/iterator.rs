use std::collections::VecDeque;

use bytes::Bytes;
use lsm_tree::error::{LsmError, Result};
use lsm_tree::MergeIterator;

#[test]
fn test_merge_iterator_deduplication_and_tombstones() -> Result<()> {
    // Stream 0 (Freshest - e.g. MemTable):
    // k1 -> None (Deleted!)
    // k2 -> Some("v2_new")
    let stream0: Vec<Result<(Bytes, Option<Bytes>)>> = vec![
        Ok((Bytes::from("k1"), None)),
        Ok((Bytes::from("k2"), Some(Bytes::from("v2_new")))),
    ];

    // Stream 1 (Older - e.g. SSTable 1):
    // k1 -> Some("v1_old")
    // k2 -> Some("v2_old")
    // k3 -> Some("v3")
    let stream1: Vec<Result<(Bytes, Option<Bytes>)>> = vec![
        Ok((Bytes::from("k1"), Some(Bytes::from("v1_old")))),
        Ok((Bytes::from("k2"), Some(Bytes::from("v2_old")))),
        Ok((Bytes::from("k3"), Some(Bytes::from("v3")))),
    ];

    // Stream 2 (Oldest - e.g. SSTable 2):
    // k0 -> Some("v0")
    // k3 -> Some("v3_ancient")
    let stream2: Vec<Result<(Bytes, Option<Bytes>)>> = vec![
        Ok((Bytes::from("k0"), Some(Bytes::from("v0")))),
        Ok((Bytes::from("k3"), Some(Bytes::from("v3_ancient")))),
    ];

    let iterators: Vec<VecDeque<Result<(Bytes, Option<Bytes>)>>> =
        vec![VecDeque::from(stream0), VecDeque::from(stream1), VecDeque::from(stream2)];

    let merge_iter = MergeIterator::new(iterators);
    let results: Result<Vec<(Bytes, Bytes)>> = merge_iter.collect();
    let results = results?;

    // Expected output:
    // k0 -> v0 (from stream 2)
    // k1 -> dropped (stream 0 tombstone masked stream 1)
    // k2 -> v2_new (stream 0 took precedence over stream 1)
    // k3 -> v3 (stream 1 took precedence over stream 2)
    assert_eq!(results.len(), 3);
    assert_eq!(results[0], (Bytes::from("k0"), Bytes::from("v0")));
    assert_eq!(results[1], (Bytes::from("k2"), Bytes::from("v2_new")));
    assert_eq!(results[2], (Bytes::from("k3"), Bytes::from("v3")));

    Ok(())
}

fn stream(items: &[(&str, Option<&str>)]) -> VecDeque<Result<(Bytes, Option<Bytes>)>> {
    items
        .iter()
        .map(|(k, v)| Ok((Bytes::from(k.to_string()), v.map(|v| Bytes::from(v.to_string())))))
        .collect()
}

fn pair(k: &str, v: &str) -> (Bytes, Bytes) {
    (Bytes::from(k.to_string()), Bytes::from(v.to_string()))
}

#[test]
fn nothing_merges_to_nothing() {
    assert_eq!(MergeIterator::new(vec![]).collect().unwrap(), vec![]);
    assert_eq!(
        MergeIterator::new(vec![stream(&[]), stream(&[("a", None)]), stream(&[])]).collect().unwrap(),
        vec![]
    );
    let mut merge = MergeIterator::new(vec![stream(&[])]);
    assert!(merge.next().is_none());
    assert!(merge.next().is_none());
}

#[test]
fn many_streams_merge_in_order() {
    let mut streams = Vec::new();
    for s in 0..9usize {
        let mut items = VecDeque::new();
        for k in 0..40usize {
            if (k + s) % 4 == 0 {
                let value = if (k * s) % 5 == 1 { None } else { Some(Bytes::from(format!("{}", s))) };
                items.push_back(Ok((Bytes::from(format!("{:02}", k)), value)));
            }
        }
        streams.push(items);
    }
    let mut expected = Vec::new();
    for k in 0..40usize {
        if let Some(s) = (0..9usize).find(|s| (k + s) % 4 == 0) {
            if (k * s) % 5 != 1 {
                expected.push(pair(&format!("{:02}", k), &format!("{}", s)));
            }
        }
    }
    assert_eq!(MergeIterator::new(streams).collect().unwrap(), expected);
}

#[test]
fn a_failure_comes_out_when_it_is_reached() {
    let mut broken = stream(&[("b", Some("1"))]);
    broken.push_back(Err(LsmError::InvalidOpCode(5)));
    broken.push_back(Ok((Bytes::from("d"), Some(Bytes::from("2")))));
    let mut merge = MergeIterator::new(vec![stream(&[("a", Some("0")), ("c", Some("3"))]), broken]);
    assert_eq!(merge.next().unwrap().unwrap(), pair("a", "0"));
    // Taking out "b" fetches the failure behind it.
    assert!(matches!(merge.next(), Some(Err(LsmError::InvalidOpCode(5)))));
    assert_eq!(merge.next().unwrap().unwrap(), pair("c", "3"));
    assert!(merge.next().is_none());
}

#[test]
fn a_failure_at_the_start_ends_a_collection() {
    let mut broken: VecDeque<Result<(Bytes, Option<Bytes>)>> = VecDeque::new();
    broken.push_back(Err(LsmError::CorruptedSSTable("gone".to_string())));
    let merge = MergeIterator::new(vec![stream(&[("a", Some("0"))]), broken]);
    match merge.collect() {
        Err(LsmError::CorruptedSSTable(text)) => assert_eq!(text, "gone"),
        other => panic!("unexpected {:?}", other),
    }
}

#[test]
fn a_collection_fails_wherever_a_failure_stands() {
    for s in 0..3usize {
        for at in 0..4usize {
            let mut streams = vec![
                stream(&[("a", Some("0")), ("b", None), ("c", Some("1"))]),
                stream(&[("a", Some("2")), ("b", Some("3")), ("d", None)]),
                stream(&[("b", Some("4")), ("e", Some("5")), ("f", Some("6"))]),
            ];
            streams[s].insert(at, Err(LsmError::InvalidOpCode(10 + s as u8)));
            match MergeIterator::new(streams).collect() {
                Err(LsmError::InvalidOpCode(code)) => assert_eq!(code as usize, 10 + s),
                other => panic!("unexpected {:?}", other),
            }
        }
    }
}
