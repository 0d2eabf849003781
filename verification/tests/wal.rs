use lsm_tree::error::{LsmError, Result};
use lsm_tree::wal::{WalOp, WalReader, WalWriter, HEADER_SIZE, MAX_KEY_SIZE};

#[test]
fn test_wal_write_and_recover() -> Result<()> {
    let log = {
        let mut writer = WalWriter::new();
        writer.append_put(b"user:101", b"Bradshaw")?;
        writer.append_put(b"user:102", b"Asher")?;
        writer.append_delete(b"user:101")?;
        writer.take()
    };

    let entries = WalReader::read_all(&log)?;
    assert_eq!(entries.len(), 3);

    assert_eq!(entries[0].op, WalOp::Put);
    assert_eq!(entries[0].key.as_ref(), b"user:101");
    assert_eq!(entries[0].value.as_deref(), Some(&b"Bradshaw"[..]));

    assert_eq!(entries[1].op, WalOp::Put);
    assert_eq!(entries[1].key.as_ref(), b"user:102");
    assert_eq!(entries[1].value.as_deref(), Some(&b"Asher"[..]));

    assert_eq!(entries[2].op, WalOp::Delete);
    assert_eq!(entries[2].key.as_ref(), b"user:101");
    assert_eq!(entries[2].value, None);

    Ok(())
}

#[test]
fn test_wal_crc_corruption_detection() -> Result<()> {
    let mut log = {
        let mut writer = WalWriter::new();
        writer.append_put(b"test_key", b"test_value")?;
        writer.take()
    };

    // Corrupt 1 byte in the file
    log[HEADER_SIZE + 2] = b'X';

    // Replay should catch CRC mismatch
    let result = WalReader::read_all(&log);
    assert!(matches!(result, Err(LsmError::CrcMismatch { .. })));

    Ok(())
}

fn three_records() -> (Vec<u8>, Vec<usize>) {
    let mut writer = WalWriter::new();
    let mut log = Vec::new();
    let mut ends = vec![0];
    writer.append_put(b"a", b"one").unwrap();
    log.extend(writer.take());
    ends.push(log.len());
    writer.append_delete(b"a").unwrap();
    log.extend(writer.take());
    ends.push(log.len());
    writer.append_put(b"b", b"").unwrap();
    log.extend(writer.take());
    ends.push(log.len());
    (log, ends)
}

#[test]
fn frames_have_the_documented_bytes() {
    let mut writer = WalWriter::new();
    writer.append_put(b"k", b"vw").unwrap();
    assert_eq!(
        writer.take(),
        vec![0x7d, 0xb7, 0x31, 0x7b, 0, 1, 0, 0, 0, 2, 0, b'k', b'v', b'w']
    );
    writer.append_delete(b"k").unwrap();
    assert_eq!(writer.take(), vec![0x00, 0x2e, 0x5d, 0x4c, 0, 1, 0, 0, 0, 0, 1, b'k']);
    assert_eq!(writer.take(), Vec::<u8>::new());
}

#[test]
fn a_log_cut_anywhere_recovers_to_the_last_complete_record() {
    let (log, ends) = three_records();
    for cut in 0..=log.len() {
        let recovery = WalReader::recover(&log[..cut]).unwrap();
        let complete = ends.iter().filter(|end| **end <= cut).count() - 1;
        assert_eq!(recovery.entries.len(), complete, "cut at {}", cut);
        assert_eq!(recovery.valid_len, ends[complete], "cut at {}", cut);
    }
}

#[test]
fn a_torn_record_is_named_with_its_place_and_length() {
    let (log, ends) = three_records();
    let result = WalReader::read_all(&log[..ends[2] + HEADER_SIZE]);
    match result {
        Err(LsmError::TornWrite { offset, detail }) => {
            assert_eq!(offset, ends[2] as u64);
            assert_eq!(
                detail,
                "Failed to read complete payload (expected 1 bytes): failed to fill whole buffer"
            );
        }
        other => panic!("unexpected {:?}", other),
    }
    let mut writer = WalWriter::new();
    writer.append_put(&[7u8; 1000], &[8u8; 234]).unwrap();
    let long = writer.take();
    match WalReader::read_all(&long[..long.len() - 1]) {
        Err(LsmError::TornWrite { offset, detail }) => {
            assert_eq!(offset, 0);
            assert!(detail.contains("(expected 1234 bytes)"));
        }
        other => panic!("unexpected {:?}", other),
    }
}

#[test]
fn a_partial_header_ends_the_log() {
    let (log, ends) = three_records();
    let entries = WalReader::read_all(&log[..ends[1] + HEADER_SIZE - 1]).unwrap();
    assert_eq!(entries.len(), 1);
    assert_eq!(WalReader::read_all(&[]).unwrap().len(), 0);
}

#[test]
fn damage_in_the_last_record_is_cut_off_and_elsewhere_is_an_error() {
    let (log, ends) = three_records();
    let mut last = log.clone();
    *last.last_mut().unwrap() ^= 1;
    let recovery = WalReader::recover(&last).unwrap();
    assert_eq!(recovery.entries.len(), 2);
    assert_eq!(recovery.valid_len, ends[2]);
    assert!(matches!(WalReader::read_all(&last), Err(LsmError::CrcMismatch { .. })));

    let mut first = log.clone();
    first[ends[1] - 1] ^= 1;
    assert!(matches!(WalReader::recover(&first), Err(LsmError::CrcMismatch { .. })));
}

#[test]
fn both_checksums_are_reported() {
    let mut log = vec![0x7d, 0xb7, 0x31, 0x7b, 0, 1, 0, 0, 0, 2, 0, b'k', b'v', b'w'];
    log[0] = 0x7c;
    match WalReader::read_all(&log) {
        Err(LsmError::CrcMismatch { expected, actual }) => {
            assert_eq!(expected, 0x7cb7317b);
            assert_eq!(actual, 0x7db7317b);
        }
        other => panic!("unexpected {:?}", other),
    }
}

#[test]
fn an_unknown_operation_is_an_error() {
    let (mut log, ends) = three_records();
    log[ends[1] + 10] = 9;
    assert!(matches!(WalReader::read_all(&log), Err(LsmError::InvalidOpCode(9))));
    assert!(matches!(WalReader::recover(&log), Err(LsmError::InvalidOpCode(9))));
    assert!(matches!(WalOp::try_from(2), Err(LsmError::InvalidOpCode(2))));
    assert!(matches!(WalOp::try_from(0), Ok(WalOp::Put)));
    assert!(matches!(WalOp::try_from(1), Ok(WalOp::Delete)));
    assert_eq!(WalOp::Put.code(), 0);
    assert_eq!(WalOp::Delete.code(), 1);
}

#[test]
fn an_unknown_operation_in_the_last_record_is_cut_off() {
    let (mut log, ends) = three_records();
    log[ends[2] + 10] = 9;
    for cut in [ends[3], ends[2] + HEADER_SIZE] {
        let recovery = WalReader::recover(&log[..cut]).unwrap();
        assert_eq!(recovery.entries.len(), 2);
        assert_eq!(recovery.valid_len, ends[2]);
        assert!(matches!(WalReader::read_all(&log[..cut]), Err(LsmError::InvalidOpCode(9))));
    }
    log.push(0);
    assert!(matches!(WalReader::recover(&log), Err(LsmError::InvalidOpCode(9))));
}

/// A record of key "k" with code 9 and the checksum of these bytes.
const UNKNOWN: [u8; 12] = [0xc8, 0xf7, 0xd7, 0x44, 0, 1, 0, 0, 0, 0, 9, b'k'];

#[test]
fn an_intact_record_with_an_unknown_operation_is_an_error_wherever_it_stands() {
    let (log, ends) = three_records();
    for end in ends {
        let mut unknown = log[..end].to_vec();
        unknown.extend(UNKNOWN);
        assert!(matches!(WalReader::read_all(&unknown), Err(LsmError::InvalidOpCode(9))));
        assert!(matches!(WalReader::recover(&unknown), Err(LsmError::InvalidOpCode(9))));
        // Cut short, or with a changed byte, it is what a crash leaves.
        for cut in end..unknown.len() {
            assert_eq!(WalReader::recover(&unknown[..cut]).unwrap().valid_len, end);
        }
        *unknown.last_mut().unwrap() ^= 1;
        assert_eq!(WalReader::recover(&unknown).unwrap().valid_len, end);
    }
}

#[test]
fn every_changed_byte_of_a_checksum_a_key_or_a_value_is_found() {
    let (log, ends) = three_records();
    for r in 0..3 {
        for at in (ends[r]..ends[r] + 4).chain(ends[r] + HEADER_SIZE..ends[r + 1]) {
            for flip in 1..=255u8 {
                let mut damaged = log.clone();
                damaged[at] ^= flip;
                match WalReader::read_all(&damaged) {
                    Err(LsmError::CrcMismatch { expected, actual }) => {
                        assert_ne!(expected, actual)
                    }
                    other => panic!("unexpected {:?}", other),
                }
            }
        }
    }
}

#[test]
fn keys_have_a_largest_size() {
    let mut writer = WalWriter::new();
    assert!(writer.append_put(&vec![1u8; MAX_KEY_SIZE], b"v").is_ok());
    let log = writer.take();
    assert_eq!(WalReader::read_all(&log).unwrap()[0].key.len(), 65535);

    match writer.append_put(&vec![1u8; MAX_KEY_SIZE + 1], b"v") {
        Err(LsmError::KeyTooLarge { actual, max }) => {
            assert_eq!(actual, 65536);
            assert_eq!(max, 65535);
        }
        other => panic!("unexpected {:?}", other),
    }
    assert!(matches!(
        writer.append_delete(&vec![1u8; MAX_KEY_SIZE + 1]),
        Err(LsmError::KeyTooLarge { .. })
    ));
    assert_eq!(writer.take(), Vec::<u8>::new());
}
