use lsm_tree::key::{compare_keys, KeyOrder};
use lsm_tree::naming::{parse_table_id, table_file_name};

#[test]
fn table_names_are_padded_to_six_digits() {
    assert_eq!(table_file_name(0), b"000000.sst");
    assert_eq!(table_file_name(42), b"000042.sst");
    assert_eq!(table_file_name(999_999), b"999999.sst");
    assert_eq!(table_file_name(1_000_000), b"1000000.sst");
    assert_eq!(table_file_name(u64::MAX), b"18446744073709551615.sst");
}

#[test]
fn table_names_are_read_as_numbers() {
    assert_eq!(parse_table_id(b"000042"), Some(42));
    assert_eq!(parse_table_id(b"7"), Some(7));
    assert_eq!(parse_table_id(b"+7"), Some(7));
    assert_eq!(parse_table_id(b"18446744073709551615"), Some(u64::MAX));
    assert_eq!(parse_table_id(b"18446744073709551616"), None);
    assert_eq!(parse_table_id(b"99999999999999999999"), None);
    for bad in ["", "+", "-1", "1a", " 1", "1.0", "++1"] {
        assert_eq!(parse_table_id(bad.as_bytes()), None, "{:?}", bad);
        assert!(bad.parse::<u64>().is_err());
    }
}

#[test]
fn a_table_is_found_again_by_its_name() {
    for id in [0, 1, 9, 10, 99_999, 100_000, 123_456_789, u64::MAX] {
        let name = table_file_name(id);
        let stem = &name[..name.len() - 4];
        assert_eq!(parse_table_id(stem), Some(id));
    }
}

#[test]
fn keys_are_compared_byte_by_byte() {
    let keys: [&[u8]; 6] = [b"", b"\x00", b"a", b"aa", b"ab", b"\xff"];
    for (i, a) in keys.iter().enumerate() {
        for (j, b) in keys.iter().enumerate() {
            let expected = if i < j {
                KeyOrder::Less
            } else if i == j {
                KeyOrder::Equal
            } else {
                KeyOrder::Greater
            };
            assert_eq!(compare_keys(a, b), expected);
        }
    }
}
