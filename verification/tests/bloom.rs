use bytes::Bytes;
use lsm_tree::filter::bloom::{check_filter_fits, hash_pair};
use lsm_tree::filter::BloomFilter;

#[test]
fn test_bloom_filter_accuracy() {
    let keys = vec![
        b"user:001".as_slice(),
        b"user:002".as_slice(),
        b"user:003".as_slice(),
        b"user:100".as_slice(),
        b"order:999".as_slice(),
    ];

    let filter = BloomFilter::build(&keys);

    // All added keys MUST be present (zero false negatives)
    for key in &keys {
        assert!(filter.may_contain(key));
    }

    // Keys not added should almost certainly return false
    assert!(!filter.may_contain(b"user:404"));
    assert!(!filter.may_contain(b"non_existent_key"));
    assert!(!filter.may_contain(b"random_query"));

    // Serialization roundtrip
    let encoded = filter.encode();
    let decoded = BloomFilter::decode(encoded);
    for key in &keys {
        assert!(decoded.may_contain(key));
    }
    assert!(!decoded.may_contain(b"user:404"));
}

#[test]
fn hashes_have_the_expected_values() {
    assert_eq!(hash_pair(b""), (0x811c9dc5, 0x9e3779b9));
    assert_eq!(hash_pair(b"a"), (0xe40c292c, 0xf89c5d48));
    assert_eq!(hash_pair(b"user:001"), (0xb0a5df0b, 0x6f94cbdf));
}

#[test]
fn one_key_sets_its_bits_in_a_filter_of_eight_bytes() {
    let filter = BloomFilter::build(&[b"a".as_slice()]);
    assert_eq!(
        filter.encode().as_ref(),
        &[7, 0x10, 0x10, 0x10, 0x10, 0x00, 0x10, 0x10, 0x10]
    );
}

#[test]
fn filters_take_ten_bits_per_key() {
    let keys: Vec<Vec<u8>> = (0..20).map(|i| format!("x{}", i).into_bytes()).collect();
    let slices: Vec<&[u8]> = keys.iter().map(|k| k.as_slice()).collect();
    let filter = BloomFilter::build(&slices);
    assert_eq!(filter.encode().len(), 1 + 25);
    assert!(filter.is_addressable());
    for key in &slices {
        assert!(filter.may_contain(key));
    }
}

#[test]
fn few_foreign_keys_get_through() {
    let keys: Vec<Vec<u8>> = (0..1000).map(|i| format!("member:{}", i).into_bytes()).collect();
    let slices: Vec<&[u8]> = keys.iter().map(|k| k.as_slice()).collect();
    let filter = BloomFilter::build(&slices);
    for key in &slices {
        assert!(filter.may_contain(key));
    }
    let through = (0..1000)
        .filter(|i| filter.may_contain(format!("stranger:{}", i).as_bytes()))
        .count();
    assert!(through < 100);
}

#[test]
fn an_empty_filter_lets_every_key_through() {
    let filter = BloomFilter::build(&[]);
    assert_eq!(filter.encode().as_ref(), &[0]);
    assert!(filter.may_contain(b"anything"));
    assert!(BloomFilter::decode(Bytes::new()).may_contain(b"anything"));
    assert!(BloomFilter::decode(Bytes::from_static(&[7])).may_contain(b"anything"));
    assert!(!BloomFilter::decode(Bytes::from_static(&[7, 0, 0])).may_contain(b"anything"));
}

#[test]
fn some_numbers_of_keys_leave_a_filter_no_bits_to_address() {
    assert!(check_filter_fits(0));
    assert!(check_filter_fits(5));
    assert!(check_filter_fits(429_496_728));
    assert!(!check_filter_fits(429_496_729));
    assert!(check_filter_fits(429_496_730));
    assert!(!check_filter_fits(usize::MAX));
}
