//! The write-ahead log: one checksummed record per write, read back after a crash.
//!
//! A record is laid out as `[CRC32: 4B][KeyLen: 2B][ValLen: 4B][Op: 1B][Key][Val]`, with
//! all integers in big-endian order. The checksum covers everything behind it.
use crate::codec::{
    be_bytes, be_value, bytes_of, copy_bytes, four_bytes, get_u16, get_u32, get_u8, law_be_value,
    lemma_be_len, lemma_be_ranges, lemma_be_round_trip, lemma_be_unique, lemma_be_value_bound,
    lemma_low_u16, lemma_low_u32, put_slice, put_u16, put_u32, put_u8, two_bytes,
};
use crate::crc::{checksum, crc32, law_crc_changed_byte};
use crate::entry::value_of;
use crate::error::{LsmError, Result};
use crate::text::{decimal, push_decimal};
use bytes::Bytes;
use vstd::prelude::*;
use vstd::seq_lib::lemma_concat_associative;
use vstd::slice::slice_subrange;
use vstd::string::*;

verus! {

/// Bytes before a record's key: 4 (checksum) + 2 (key length) + 4 (value length) + 1 (code).
pub const HEADER_SIZE: usize = 11;

/// The longest key that a record's two length bytes can spell.
pub const MAX_KEY_SIZE: usize = 65535;

/// What a log record does to its key.
#[derive(Debug, Clone, Copy, PartialEq, Eq, Structural)]
pub enum WalOp {
    Put,
    Delete,
}

impl WalOp {
    /// The byte that stands for the operation in a record.
    pub open spec fn spec_code(self) -> u8 {
        match self {
            WalOp::Put => 0,
            WalOp::Delete => 1,
        }
    }

    /// The byte that stands for the operation in a record.
    pub fn code(self) -> (c: u8)
        ensures
            c == self.spec_code(),
    {
        match self {
            WalOp::Put => 0,
            WalOp::Delete => 1,
        }
    }

    /// The operation that a byte stands for.
    pub fn try_from(val: u8) -> (r: Result<WalOp>)
        ensures
            match r {
                Ok(op) => op.spec_code() == val,
                Err(e) => val > 1 && e == LsmError::InvalidOpCode(val),
            },
    {
        match val {
            0 => Ok(WalOp::Put),
            1 => Ok(WalOp::Delete),
            other => Err(LsmError::InvalidOpCode(other)),
        }
    }
}

/// One record read back from the log.
#[derive(Debug, Clone, PartialEq, Eq)]
pub struct WalEntry {
    pub op: WalOp,
    pub key: Bytes,
    pub value: Option<Bytes>,
}

/// A log record as byte strings.
pub struct WalRecord {
    pub op: WalOp,
    pub key: Seq<u8>,
    pub value: Option<Seq<u8>>,
}

impl View for WalEntry {
    type V = WalRecord;

    open spec fn view(&self) -> WalRecord {
        WalRecord { op: self.op, key: bytes_of(self.key), value: value_of(self.value) }
    }
}

impl WalRecord {
    /// A put carries a value that four length bytes can spell, a delete carries none, and
    /// two length bytes can spell the key's length.
    pub open spec fn fits(self) -> bool {
        &&& self.key.len() <= MAX_KEY_SIZE
        &&& match self.op {
            WalOp::Put => self.value is Some && self.value->0.len() < 0x1_0000_0000,
            WalOp::Delete => self.value is None,
        }
    }

    /// The value's bytes; none for a delete.
    pub open spec fn value_bytes(self) -> Seq<u8> {
        match self.value {
            Some(v) => v,
            None => Seq::empty(),
        }
    }

    /// What the checksum covers.
    pub open spec fn payload(self) -> Seq<u8> {
        be_bytes(self.key.len(), 2) + be_bytes(self.value_bytes().len(), 4)
            + seq![self.op.spec_code()] + self.key + self.value_bytes()
    }

    /// The record as it stands in the log.
    pub open spec fn frame(self) -> Seq<u8> {
        be_bytes(crc32(self.payload()) as nat, 4) + self.payload()
    }
}

/// A log that holds the given records, one behind the other.
pub open spec fn wal_image(records: Seq<WalRecord>) -> Seq<u8>
    decreases records.len(),
{
    if records.len() == 0 {
        Seq::empty()
    } else {
        records[0].frame() + wal_image(records.skip(1))
    }
}

/// Why reading a log came to an end.
#[derive(Debug, Clone, Copy, PartialEq, Eq, Structural)]
#[allow(inconsistent_fields)]
pub enum WalEnd {
    /// Too few bytes are left for another header.
    Clean,
    /// A header is there, and its `expected` payload bytes are not.
    Torn { expected: u64 },
    /// A header holds an unknown operation code.
    InvalidOp { code: u8 },
    /// A complete record does not match its checksum.
    CrcMismatch { expected: u32, actual: u32 },
}

/// What a log says: its records up to the place where reading ends.
pub struct WalScan {
    pub records: Seq<WalRecord>,
    /// The length of the part that the records take up.
    pub valid: nat,
    pub end: WalEnd,
}

/// The payload length that the header at the start of `s` announces.
pub open spec fn body_len(s: Seq<u8>) -> nat {
    be_value(s.subrange(4, 6)) + be_value(s.subrange(6, 10))
}

/// The record that starts `s`, where it is complete.
pub open spec fn record_at(s: Seq<u8>) -> WalRecord {
    let key_end = 11 + be_value(s.subrange(4, 6)) as int;
    let end = 11 + body_len(s) as int;
    if s[10] == 1 {
        WalRecord { op: WalOp::Delete, key: s.subrange(11, key_end), value: None }
    } else {
        WalRecord {
            op: WalOp::Put,
            key: s.subrange(11, key_end),
            value: Some(s.subrange(key_end, end)),
        }
    }
}

/// The records at the start of `s`, and where and why they end.
pub open spec fn wal_scan(s: Seq<u8>) -> WalScan
    decreases s.len(),
{
    if s.len() < 11 {
        WalScan { records: Seq::empty(), valid: 0, end: WalEnd::Clean }
    } else if s[10] > 1 {
        WalScan { records: Seq::empty(), valid: 0, end: WalEnd::InvalidOp { code: s[10] } }
    } else if s.len() < 11 + body_len(s) {
        WalScan {
            records: Seq::empty(),
            valid: 0,
            end: WalEnd::Torn { expected: body_len(s) as u64 },
        }
    } else {
        let total = 11 + body_len(s) as int;
        let stored = be_value(s.subrange(0, 4)) as u32;
        let actual = crc32(s.subrange(4, total));
        if stored != actual {
            WalScan {
                records: Seq::empty(),
                valid: 0,
                end: WalEnd::CrcMismatch { expected: stored, actual },
            }
        } else {
            let rest = wal_scan(s.skip(total));
            WalScan {
                records: seq![record_at(s)] + rest.records,
                valid: (total + rest.valid) as nat,
                end: rest.end,
            }
        }
    }
}

/// The text that goes with a torn record.
pub open spec fn torn_detail(expected: nat) -> Seq<char> {
    "Failed to read complete payload (expected "@ + decimal(expected)
        + " bytes): failed to fill whole buffer"@
}

fn torn_write(offset: u64, expected: u64) -> (e: LsmError)
    ensures
        e matches LsmError::TornWrite { offset: o, detail } && o == offset && detail@
            == torn_detail(expected as nat),
{
    let mut detail: String = "Failed to read complete payload (expected ".to_owned();
    push_decimal(&mut detail, expected);
    detail.append(" bytes): failed to fill whole buffer");
    assert(detail@ =~= torn_detail(expected as nat));
    LsmError::TornWrite { offset, detail }
}

/// The views of a list of entries.
pub open spec fn records_of(entries: Seq<WalEntry>) -> Seq<WalRecord> {
    Seq::new(entries.len(), |i: int| entries[i]@)
}

/// Write-Ahead Log writer for append-only durability. It frames records; what it has
/// framed waits in it until it is taken out to be written and synced.
pub struct WalWriter {
    pending: Vec<u8>,
}

impl View for WalWriter {
    type V = Seq<u8>;

    /// The bytes that wait to be written.
    closed spec fn view(&self) -> Seq<u8> {
        self.pending@
    }
}

impl WalWriter {
    pub fn new() -> (w: Self)
        ensures
            w@ == Seq::<u8>::empty(),
    {
        WalWriter { pending: Vec::new() }
    }

    pub fn append_put(&mut self, key: &[u8], value: &[u8]) -> (r: Result<()>)
        ensures
            match r {
                Ok(_) => key@.len() <= MAX_KEY_SIZE && final(self)@ == old(self)@ + (WalRecord {
                    op: WalOp::Put,
                    key: key@,
                    value: Some(value@),
                }).frame(),
                Err(e) => key@.len() > MAX_KEY_SIZE && final(self)@ == old(self)@ && e
                    == (LsmError::KeyTooLarge { actual: key@.len() as usize, max: MAX_KEY_SIZE }),
            },
    {
        self.append_record(WalOp::Put, key, Some(value))
    }

    pub fn append_delete(&mut self, key: &[u8]) -> (r: Result<()>)
        ensures
            match r {
                Ok(_) => key@.len() <= MAX_KEY_SIZE && final(self)@ == old(self)@ + (WalRecord {
                    op: WalOp::Delete,
                    key: key@,
                    value: None,
                }).frame(),
                Err(e) => key@.len() > MAX_KEY_SIZE && final(self)@ == old(self)@ && e
                    == (LsmError::KeyTooLarge { actual: key@.len() as usize, max: MAX_KEY_SIZE }),
            },
    {
        self.append_record(WalOp::Delete, key, None)
    }

    fn append_record(&mut self, op: WalOp, key: &[u8], value: Option<&[u8]>) -> (r: Result<()>)
        ensures
            match r {
                Ok(_) => key@.len() <= MAX_KEY_SIZE && final(self)@ == old(self)@ + (WalRecord {
                    op,
                    key: key@,
                    value: match value {
                        Some(v) => Some(v@),
                        None => None,
                    },
                }).frame(),
                Err(e) => key@.len() > MAX_KEY_SIZE && final(self)@ == old(self)@ && e
                    == (LsmError::KeyTooLarge { actual: key@.len() as usize, max: MAX_KEY_SIZE }),
            },
    {
        if key.len() > MAX_KEY_SIZE {
            return Err(LsmError::KeyTooLarge { actual: key.len(), max: MAX_KEY_SIZE });
        }
        let ghost record = WalRecord {
            op,
            key: key@,
            value: match value {
                Some(v) => Some(v@),
                None => None,
            },
        };
        let val_len: usize = match value {
            Some(v) => v.len(),
            None => 0,
        };
        let mut payload: Vec<u8> = Vec::new();
        put_u16(&mut payload, key.len() as u16);
        put_u32(&mut payload, val_len as u32);
        put_u8(&mut payload, op.code());
        put_slice(&mut payload, key);
        if let Some(v) = value {
            put_slice(&mut payload, v);
        }
        proof {
            lemma_low_u16(key@.len() as usize);
            lemma_low_u32(val_len);
            assert(payload@ =~= record.payload());
        }
        // Frame: [CRC32: 4B][KeyLen: 2B][ValLen: 4B][Op: 1B][Key: N B][Val: M B]
        put_u32(&mut self.pending, checksum(payload.as_slice()));
        put_slice(&mut self.pending, payload.as_slice());
        assert(self@ =~= old(self)@ + record.frame());
        Ok(())
    }

    /// Takes out everything that waits to be written.
    pub fn take(&mut self) -> (bytes: Vec<u8>)
        ensures
            bytes@ == old(self)@,
            final(self)@ == Seq::<u8>::empty(),
    {
        let mut bytes: Vec<u8> = Vec::new();
        std::mem::swap(&mut bytes, &mut self.pending);
        bytes
    }
}

/// What is left of a log after a crash.
pub struct WalRecovery {
    pub entries: Vec<WalEntry>,
    /// The length to which the log has to be cut before it is written to again.
    pub valid_len: usize,
}

/// Reads and validates a WAL file, recovering all valid entries.
pub struct WalReader;

impl WalReader {
    /// Reads a log from its first byte to the place where it ends.
    fn scan(data: &[u8]) -> (r: (Vec<WalEntry>, usize, WalEnd))
        ensures
            records_of(r.0@) == wal_scan(data@).records,
            r.1 as nat == wal_scan(data@).valid,
            r.1 <= data@.len(),
            r.2 == wal_scan(data@).end,
    {
        let mut entries: Vec<WalEntry> = Vec::new();
        let mut offset: usize = 0;
        proof {
            assert(data@.skip(0) =~= data@);
            assert(records_of(entries@) + wal_scan(data@).records =~= wal_scan(data@).records);
        }
        loop
            invariant
                offset <= data@.len(),
                ({
                    let rest = wal_scan(data@.skip(offset as int));
                    &&& wal_scan(data@).records == records_of(entries@) + rest.records
                    &&& wal_scan(data@).valid == offset + rest.valid
                    &&& wal_scan(data@).end == rest.end
                }),
            decreases data@.len() - offset,
        {
            let ghost s = data@.skip(offset as int);
            let left: usize = data.len() - offset;
            if left < HEADER_SIZE {
                assert(records_of(entries@) + wal_scan(s).records =~= records_of(entries@));
                return (entries, offset, WalEnd::Clean);
            }
            let expected_crc: u32 = get_u32(data, offset);
            let key_len: usize = get_u16(data, offset + 4) as usize;
            let val_len: u64 = get_u32(data, offset + 6) as u64;
            let code: u8 = get_u8(data, offset + 10);
            proof {
                assert(data@.subrange(offset as int, offset + 4) =~= s.subrange(0, 4));
                assert(data@.subrange(offset + 4, offset + 6) =~= s.subrange(4, 6));
                assert(data@.subrange(offset + 6, offset + 10) =~= s.subrange(6, 10));
                assert(s[10] == data@[offset + 10]);
            }
            let op: WalOp = match WalOp::try_from(code) {
                Ok(op) => op,
                Err(_) => {
                    assert(records_of(entries@) + wal_scan(s).records =~= records_of(entries@));
                    return (entries, offset, WalEnd::InvalidOp { code });
                },
            };
            let body: u64 = key_len as u64 + val_len;
            if body > (left - HEADER_SIZE) as u64 {
                assert(records_of(entries@) + wal_scan(s).records =~= records_of(entries@));
                return (entries, offset, WalEnd::Torn { expected: body });
            }
            let total: usize = HEADER_SIZE + body as usize;
            let actual_crc: u32 = checksum(slice_subrange(data, offset + 4, offset + total));
            proof {
                assert(data@.subrange(offset + 4, offset + total) =~= s.subrange(4, total as int));
            }
            if expected_crc != actual_crc {
                assert(records_of(entries@) + wal_scan(s).records =~= records_of(entries@));
                return (
                    entries,
                    offset,
                    WalEnd::CrcMismatch { expected: expected_crc, actual: actual_crc },
                );
            }
            let key_start: usize = offset + HEADER_SIZE;
            let key_end: usize = key_start + key_len;
            let key: Bytes = copy_bytes(slice_subrange(data, key_start, key_end));
            let value: Option<Bytes> = if op == WalOp::Delete {
                None
            } else {
                Some(copy_bytes(slice_subrange(data, key_end, offset + total)))
            };
            let ghost before = records_of(entries@);
            let entry: WalEntry = WalEntry { op, key, value };
            proof {
                assert(data@.subrange(key_start as int, key_end as int) =~= s.subrange(
                    11,
                    11 + key_len as int,
                ));
                assert(data@.subrange(key_end as int, offset + total) =~= s.subrange(
                    11 + key_len as int,
                    total as int,
                ));
                assert(entry@ == record_at(s));
            }
            entries.push(entry);
            proof {
                assert(records_of(entries@) =~= before.push(record_at(s)));
                assert(s.skip(total as int) =~= data@.skip(offset + total));
                let rest = wal_scan(s.skip(total as int));
                assert(wal_scan(s).records == seq![record_at(s)] + rest.records);
                assert(before + (seq![record_at(s)] + rest.records) =~= before.push(record_at(s))
                    + rest.records);
            }
            offset = offset + total;
        }
    }

    /// Every record of a log. A record that is incomplete, does not match its checksum or
    /// holds an unknown operation code is an error, wherever it stands.
    pub fn read_all(data: &[u8]) -> (r: Result<Vec<WalEntry>>)
        ensures
            match wal_scan(data@).end {
                WalEnd::Clean => r matches Ok(entries) && records_of(entries@) == wal_scan(
                    data@,
                ).records,
                WalEnd::Torn { expected } => r matches Err(
                    LsmError::TornWrite { offset, detail },
                ) && offset == wal_scan(data@).valid && detail@ == torn_detail(expected as nat),
                WalEnd::InvalidOp { code } => r matches Err(LsmError::InvalidOpCode(c)) && c
                    == code,
                WalEnd::CrcMismatch { expected, actual } => r matches Err(
                    LsmError::CrcMismatch { expected: e, actual: a },
                ) && e == expected && a == actual,
            },
    {
        let (entries, valid, end) = WalReader::scan(data);
        match end {
            WalEnd::Clean => Ok(entries),
            WalEnd::Torn { expected } => Err(torn_write(valid as u64, expected)),
            WalEnd::InvalidOp { code } => Err(LsmError::InvalidOpCode(code)),
            WalEnd::CrcMismatch { expected, actual } => Err(
                LsmError::CrcMismatch { expected, actual },
            ),
        }
    }

    /// What a crash has left of a log. A write that was cut short can only be the last one:
    /// it is incomplete, or it ends the log and does not match its checksum. Playback halts
    /// before it, at the last valid record. A record that does not match its checksum with
    /// more of the log behind it is an error, and so is an unknown operation code in a record
    /// that was not cut short.
    pub fn recover(data: &[u8]) -> (r: Result<WalRecovery>)
        ensures
            match wal_recover(data@) {
                Ok((records, valid)) => r matches Ok(w) && records_of(w.entries@) == records
                    && w.valid_len as nat == valid,
                Err(WalEnd::InvalidOp { code }) => r matches Err(LsmError::InvalidOpCode(c)) && c
                    == code,
                Err(WalEnd::CrcMismatch { expected, actual }) => r matches Err(
                    LsmError::CrcMismatch { expected: e, actual: a },
                ) && e == expected && a == actual,
                Err(_) => false,
            },
    {
        let (entries, valid, end) = WalReader::scan(data);
        proof {
            lemma_scan_stop(data@);
        }
        match end {
            WalEnd::Clean => Ok(WalRecovery { entries, valid_len: valid }),
            WalEnd::Torn { expected: _ } => Ok(WalRecovery { entries, valid_len: valid }),
            WalEnd::InvalidOp { code } => {
                if WalReader::is_cut_short(data, valid) {
                    Ok(WalRecovery { entries, valid_len: valid })
                } else {
                    Err(LsmError::InvalidOpCode(code))
                }
            },
            WalEnd::CrcMismatch { expected, actual } => {
                if WalReader::is_cut_short(data, valid) {
                    Ok(WalRecovery { entries, valid_len: valid })
                } else {
                    Err(LsmError::CrcMismatch { expected, actual })
                }
            },
        }
    }

    /// Whether the record whose header stands at `offset` was cut short.
    fn is_cut_short(data: &[u8], offset: usize) -> (b: bool)
        requires
            offset + 11 <= data@.len(),
        ensures
            b == cut_short(data@.skip(offset as int)),
    {
        let ghost s = data@.skip(offset as int);
        let left: usize = data.len() - offset;
        let key_len: u64 = get_u16(data, offset + 4) as u64;
        let val_len: u64 = get_u32(data, offset + 6) as u64;
        proof {
            assert(data@.subrange(offset + 4, offset + 6) =~= s.subrange(4, 6));
            assert(data@.subrange(offset + 6, offset + 10) =~= s.subrange(6, 10));
        }
        let body: u64 = key_len + val_len;
        if (left - HEADER_SIZE) as u64 != body {
            return ((left - HEADER_SIZE) as u64) < body;
        }
        let stored: u32 = get_u32(data, offset);
        proof {
            assert(data@.subrange(offset as int, offset + 4) =~= s.subrange(0, 4));
            assert(data@.subrange(offset + 4, data@.len() as int) =~= s.skip(4));
        }
        stored != checksum(slice_subrange(data, offset + 4, data.len()))
    }
}

/// The record whose header starts `tail`, the rest of a log, was cut short: the log ends before
/// it does, or it ends the log and does not match its checksum.
pub open spec fn cut_short(tail: Seq<u8>) -> bool {
    ||| tail.len() < 11 + body_len(tail)
    ||| tail.len() == 11 + body_len(tail) && be_value(tail.subrange(0, 4)) != crc32(tail.skip(4))
}

/// What recovery makes of a log: its valid records and their length, or why it gives up.
pub open spec fn wal_recover(data: Seq<u8>) -> std::result::Result<(Seq<WalRecord>, nat), WalEnd> {
    let scan = wal_scan(data);
    match scan.end {
        WalEnd::Clean => Ok((scan.records, scan.valid)),
        WalEnd::Torn { expected } => Ok((scan.records, scan.valid)),
        _ => if cut_short(data.skip(scan.valid as int)) {
            Ok((scan.records, scan.valid))
        } else {
            Err(scan.end)
        },
    }
}

/// Recovery finds nothing in these bytes and cuts them off: there are none, they are a part of
/// a record's frame, or they are one whole frame that does not match its checksum.
pub open spec fn unfinished(tail: Seq<u8>) -> bool {
    wal_recover(tail) == Ok::<_, WalEnd>((Seq::<WalRecord>::empty(), 0nat))
}

/// Where reading ends, the rest of the log is read as nothing, for the same reason.
proof fn lemma_scan_stop(s: Seq<u8>)
    ensures
        wal_scan(s).valid <= s.len(),
        ({
            let rest = s.skip(wal_scan(s).valid as int);
            &&& wal_scan(rest).records == Seq::<WalRecord>::empty()
            &&& wal_scan(rest).valid == 0
            &&& wal_scan(rest).end == wal_scan(s).end
            &&& wal_scan(s).end !is Clean ==> rest.len() >= 11
        }),
    decreases s.len(),
{
    if s.len() >= 11 && s[10] <= 1 && s.len() >= 11 + body_len(s) && be_value(
        s.subrange(0, 4),
    ) as u32 == crc32(s.subrange(4, 11 + body_len(s) as int)) {
        let total = 11 + body_len(s) as int;
        lemma_scan_stop(s.skip(total));
        assert(s.skip(total).skip(wal_scan(s.skip(total)).valid as int) =~= s.skip(
            wal_scan(s).valid as int,
        ));
    } else {
        assert(s.skip(0) =~= s);
    }
}

/// Reading a record's own frame gives the record back and goes on behind it.
proof fn lemma_scan_frame(r: WalRecord, tail: Seq<u8>)
    requires
        r.fits(),
    ensures
        wal_scan(r.frame() + tail).records == seq![r] + wal_scan(tail).records,
        wal_scan(r.frame() + tail).valid == r.frame().len() + wal_scan(tail).valid,
        wal_scan(r.frame() + tail).end == wal_scan(tail).end,
{
    let s = r.frame() + tail;
    let crc = be_bytes(crc32(r.payload()) as nat, 4);
    let kl = be_bytes(r.key.len(), 2);
    let vl = be_bytes(r.value_bytes().len(), 4);
    lemma_frame_parts(r);
    lemma_be_ranges();
    lemma_be_round_trip(crc32(r.payload()) as nat, 4);
    lemma_be_round_trip(r.key.len(), 2);
    lemma_be_round_trip(r.value_bytes().len(), 4);
    assert(s.subrange(0, 4) =~= crc);
    assert(s.subrange(4, 6) =~= kl);
    assert(s.subrange(6, 10) =~= vl);
    assert(s[10] == r.op.spec_code());
    let total = 11 + body_len(s) as int;
    assert(total == r.frame().len());
    assert(s.subrange(4, total) =~= r.payload());
    assert(s.skip(total) =~= tail);
    let key_end = 11 + r.key.len() as int;
    assert(s.subrange(11, key_end) =~= r.key);
    assert(s.subrange(key_end, total) =~= r.value_bytes());
    assert(record_at(s) == r);
}

/// A frame is eleven header bytes, the key and the value.
proof fn lemma_frame_parts(r: WalRecord)
    ensures
        r.frame().len() == 11 + r.key.len() + r.value_bytes().len(),
        be_bytes(crc32(r.payload()) as nat, 4).len() == 4,
        be_bytes(r.key.len(), 2).len() == 2,
        be_bytes(r.value_bytes().len(), 4).len() == 4,
{
    lemma_be_len(crc32(r.payload()) as nat, 4);
    lemma_be_len(r.key.len(), 2);
    lemma_be_len(r.value_bytes().len(), 4);
}

/// Appending a record's frame to a log appends the record to what the log holds.
pub proof fn law_wal_append(records: Seq<WalRecord>, r: WalRecord)
    ensures
        wal_image(records.push(r)) == wal_image(records) + r.frame(),
    decreases records.len(),
{
    if records.len() == 0 {
        assert(records.push(r).skip(1) =~= Seq::<WalRecord>::empty());
        assert(wal_image(records.push(r).skip(1)) == Seq::<u8>::empty());
        assert(records.push(r)[0] == r);
        assert(wal_image(records.push(r)) =~= wal_image(records) + r.frame());
    } else {
        assert(records.push(r).skip(1) =~= records.skip(1).push(r));
        law_wal_append(records.skip(1), r);
        assert(wal_image(records.push(r)) =~= wal_image(records) + r.frame());
    }
}

/// Reading goes through a log's records and then on to whatever follows them.
pub proof fn law_wal_prefix(records: Seq<WalRecord>, tail: Seq<u8>)
    requires
        forall|i: int| 0 <= i < records.len() ==> (#[trigger] records[i]).fits(),
    ensures
        wal_scan(wal_image(records) + tail).records == records + wal_scan(tail).records,
        wal_scan(wal_image(records) + tail).valid == wal_image(records).len() + wal_scan(
            tail,
        ).valid,
        wal_scan(wal_image(records) + tail).end == wal_scan(tail).end,
{
    lemma_scan_image(records, tail);
}

/// Reading goes through a log's records one by one.
proof fn lemma_scan_image(records: Seq<WalRecord>, tail: Seq<u8>)
    requires
        forall|i: int| 0 <= i < records.len() ==> (#[trigger] records[i]).fits(),
    ensures
        wal_scan(wal_image(records) + tail).records == records + wal_scan(tail).records,
        wal_scan(wal_image(records) + tail).valid == wal_image(records).len() + wal_scan(
            tail,
        ).valid,
        wal_scan(wal_image(records) + tail).end == wal_scan(tail).end,
    decreases records.len(),
{
    if records.len() == 0 {
        assert(wal_image(records) + tail =~= tail);
        assert(records + wal_scan(tail).records =~= wal_scan(tail).records);
    } else {
        let rest = records.skip(1);
        assert forall|i: int| 0 <= i < rest.len() implies (#[trigger] rest[i]).fits() by {
            assert(rest[i] == records[i + 1]);
        }
        lemma_scan_image(rest, tail);
        let f = records[0].frame();
        let more = wal_scan(tail).records;
        lemma_scan_frame(records[0], wal_image(rest) + tail);
        lemma_concat_associative(f, wal_image(rest), tail);
        assert(wal_image(records) == f + wal_image(rest));
        assert(wal_image(records) + tail == f + (wal_image(rest) + tail));
        assert(seq![records[0]] + rest =~= records);
        lemma_concat_associative(seq![records[0]], rest, more);
        assert(records + more == seq![records[0]] + (rest + more));
    }
}

/// What was appended to a log is what reading the log gives back, all of it and in order.
pub proof fn law_wal_round_trip(records: Seq<WalRecord>)
    requires
        forall|i: int| 0 <= i < records.len() ==> (#[trigger] records[i]).fits(),
    ensures
        wal_scan(wal_image(records)) == (WalScan {
            records,
            valid: wal_image(records).len(),
            end: WalEnd::Clean,
        }),
        wal_recover(wal_image(records)) == Ok::<_, WalEnd>((records, wal_image(records).len())),
{
    law_wal_prefix(records, Seq::empty());
    assert(wal_image(records) + Seq::<u8>::empty() =~= wal_image(records));
    assert(records + Seq::<WalRecord>::empty() =~= records);
}

/// What a crash has left behind the last complete record does not keep recovery from giving
/// back every record before it, and the length of the log without it.
pub proof fn law_wal_recovers(records: Seq<WalRecord>, tail: Seq<u8>)
    requires
        forall|i: int| 0 <= i < records.len() ==> (#[trigger] records[i]).fits(),
        unfinished(tail),
    ensures
        wal_recover(wal_image(records) + tail) == Ok::<_, WalEnd>(
            (records, wal_image(records).len()),
        ),
{
    law_wal_prefix(records, tail);
    assert(records + Seq::<WalRecord>::empty() =~= records);
    assert((wal_image(records) + tail).skip(wal_image(records).len() as int) =~= tail);
    assert(tail.skip(0) =~= tail);
}

/// A crash in the middle of a write loses that write and nothing else: whatever part of the
/// record's frame reached the log, recovery gives back every record before it, and the
/// length of the log without that part.
pub proof fn law_wal_torn_write(records: Seq<WalRecord>, r: WalRecord, written: int)
    requires
        forall|i: int| 0 <= i < records.len() ==> (#[trigger] records[i]).fits(),
        r.fits(),
        0 <= written < r.frame().len(),
    ensures
        wal_recover(wal_image(records) + r.frame().take(written)) == Ok::<_, WalEnd>(
            (records, wal_image(records).len()),
        ),
        unfinished(r.frame().take(written)),
        written >= 11 ==> wal_scan(wal_image(records) + r.frame().take(written)).end == (
        WalEnd::Torn { expected: (r.key.len() + r.value_bytes().len()) as u64 }),
{
    let torn = r.frame().take(written);
    lemma_torn(r, written);
    law_wal_prefix(records, torn);
    law_wal_recovers(records, torn);
}

/// A part of a record's frame is read as nothing: it is no header, or the record is torn.
proof fn lemma_torn(r: WalRecord, written: int)
    requires
        r.fits(),
        0 <= written < r.frame().len(),
    ensures
        wal_scan(r.frame().take(written)).records == Seq::<WalRecord>::empty(),
        wal_scan(r.frame().take(written)).valid == 0,
        wal_scan(r.frame().take(written)).end == if written < 11 {
            WalEnd::Clean
        } else {
            WalEnd::Torn { expected: (r.key.len() + r.value_bytes().len()) as u64 }
        },
{
    let torn = r.frame().take(written);
    if written >= 11 {
        lemma_frame_parts(r);
        lemma_be_ranges();
        lemma_be_round_trip(r.key.len(), 2);
        lemma_be_round_trip(r.value_bytes().len(), 4);
        assert(torn.subrange(4, 6) =~= be_bytes(r.key.len(), 2));
        assert(torn.subrange(6, 10) =~= be_bytes(r.value_bytes().len(), 4));
        assert(torn[10] == r.op.spec_code());
    }
}

/// A record whose stored checksum is not the checksum of its payload is never read as a
/// record: reading ends in front of it and reports both checksums.
pub proof fn law_wal_detects_corruption(records: Seq<WalRecord>, damaged: Seq<u8>, tail: Seq<u8>)
    requires
        forall|i: int| 0 <= i < records.len() ==> (#[trigger] records[i]).fits(),
        damaged.len() >= 11,
        damaged[10] <= 1,
        damaged.len() == 11 + body_len(damaged),
        be_value(damaged.subrange(0, 4)) != crc32(damaged.skip(4)),
    ensures
        wal_scan(wal_image(records) + (damaged + tail)) == (WalScan {
            records,
            valid: wal_image(records).len(),
            end: WalEnd::CrcMismatch {
                expected: be_value(damaged.subrange(0, 4)) as u32,
                actual: crc32(damaged.skip(4)),
            },
        }),
{
    let s = damaged + tail;
    law_wal_prefix(records, s);
    assert(records + Seq::<WalRecord>::empty() =~= records);
    assert(s.subrange(0, 4) =~= damaged.subrange(0, 4));
    assert(s.subrange(4, 6) =~= damaged.subrange(4, 6));
    assert(s.subrange(6, 10) =~= damaged.subrange(6, 10));
    assert(s.subrange(4, damaged.len() as int) =~= damaged.skip(4));
    lemma_be_ranges();
    lemma_be_value_bound(damaged.subrange(0, 4));
}

/// A crash that damages the record it interrupts loses that record and nothing else: where the
/// last record of a log does not match its checksum, whatever its operation code, recovery
/// gives back every record before it, and the length of the log without it.
pub proof fn law_wal_damaged_end(records: Seq<WalRecord>, damaged: Seq<u8>)
    requires
        forall|i: int| 0 <= i < records.len() ==> (#[trigger] records[i]).fits(),
        damaged.len() >= 11,
        damaged.len() == 11 + body_len(damaged),
        be_value(damaged.subrange(0, 4)) != crc32(damaged.skip(4)),
    ensures
        wal_recover(wal_image(records) + damaged) == Ok::<_, WalEnd>(
            (records, wal_image(records).len()),
        ),
        unfinished(damaged),
{
    assert(damaged.subrange(4, damaged.len() as int) =~= damaged.skip(4));
    assert(damaged.skip(0) =~= damaged);
    lemma_be_ranges();
    lemma_be_value_bound(damaged.subrange(0, 4));
    law_wal_recovers(records, damaged);
}

/// A damaged record with more of the log behind it keeps recovery from giving anything back: it
/// reports both checksums.
pub proof fn law_wal_reports_damage(records: Seq<WalRecord>, damaged: Seq<u8>, tail: Seq<u8>)
    requires
        forall|i: int| 0 <= i < records.len() ==> (#[trigger] records[i]).fits(),
        damaged.len() >= 11,
        damaged[10] <= 1,
        damaged.len() == 11 + body_len(damaged),
        be_value(damaged.subrange(0, 4)) != crc32(damaged.skip(4)),
        tail.len() > 0,
    ensures
        wal_recover(wal_image(records) + (damaged + tail)) == Err::<(Seq<WalRecord>, nat), WalEnd>(
            WalEnd::CrcMismatch {
                expected: be_value(damaged.subrange(0, 4)) as u32,
                actual: crc32(damaged.skip(4)),
            },
        ),
{
    let s = damaged + tail;
    law_wal_detects_corruption(records, damaged, tail);
    assert((wal_image(records) + s).skip(wal_image(records).len() as int) =~= s);
    assert(s.subrange(4, 6) =~= damaged.subrange(4, 6));
    assert(s.subrange(6, 10) =~= damaged.subrange(6, 10));
}

/// A complete record with an unknown operation code that matches its checksum was not cut
/// short: recovery gives up and reports the code, also at the end of the log.
pub proof fn law_wal_unknown_operation(records: Seq<WalRecord>, whole: Seq<u8>, tail: Seq<u8>)
    requires
        forall|i: int| 0 <= i < records.len() ==> (#[trigger] records[i]).fits(),
        whole.len() >= 11,
        whole.len() == 11 + body_len(whole),
        whole[10] > 1,
        be_value(whole.subrange(0, 4)) == crc32(whole.skip(4)),
    ensures
        wal_recover(wal_image(records) + (whole + tail)) == Err::<(Seq<WalRecord>, nat), WalEnd>(
            WalEnd::InvalidOp { code: whole[10] },
        ),
{
    let s = whole + tail;
    law_wal_prefix(records, s);
    assert((wal_image(records) + s).skip(wal_image(records).len() as int) =~= s);
    assert(s.subrange(0, 4) =~= whole.subrange(0, 4));
    assert(s.subrange(4, 6) =~= whole.subrange(4, 6));
    assert(s.subrange(6, 10) =~= whole.subrange(6, 10));
    if tail.len() == 0 {
        assert(s.skip(4) =~= whole.skip(4));
    }
}

/// A log is what stands before one of its records, that record's frame, and what stands behind.
proof fn lemma_image_split(records: Seq<WalRecord>, i: int)
    requires
        0 <= i < records.len(),
    ensures
        wal_image(records) == wal_image(records.take(i)) + (records[i].frame() + wal_image(
            records.skip(i + 1),
        )),
    decreases records.len(),
{
    let rest = records.skip(1);
    if i == 0 {
        assert(wal_image(records.take(0)) =~= Seq::<u8>::empty());
        assert(wal_image(records) =~= wal_image(records.take(0)) + (records[0].frame()
            + wal_image(rest)));
    } else {
        lemma_image_split(rest, i - 1);
        assert(rest.skip(i) =~= records.skip(i + 1));
        assert(records.take(i).skip(1) =~= rest.take(i - 1));
        assert(records.take(i)[0] == records[0]);
        lemma_concat_associative(
            records[0].frame(),
            wal_image(rest.take(i - 1)),
            records[i].frame() + wal_image(records.skip(i + 1)),
        );
    }
}

/// A frame with one changed byte in its checksum, its key or its value keeps its length and
/// its operation, and no longer matches its checksum.
proof fn lemma_changed_frame(r: WalRecord, at: int, b: u8)
    requires
        r.fits(),
        0 <= at < 4 || 11 <= at < r.frame().len(),
        b != r.frame()[at],
    ensures
        ({
            let damaged = r.frame().update(at, b);
            &&& damaged.len() >= 11
            &&& damaged[10] <= 1
            &&& damaged.len() == 11 + body_len(damaged)
            &&& be_value(damaged.subrange(0, 4)) != crc32(damaged.skip(4))
            &&& be_value(damaged.subrange(0, 4)) <= u32::MAX
        }),
{
    let f = r.frame();
    let damaged = f.update(at, b);
    let crc = be_bytes(crc32(r.payload()) as nat, 4);
    lemma_frame_parts(r);
    lemma_be_ranges();
    lemma_be_round_trip(crc32(r.payload()) as nat, 4);
    lemma_be_round_trip(r.key.len(), 2);
    lemma_be_round_trip(r.value_bytes().len(), 4);
    assert(damaged.subrange(4, 6) =~= be_bytes(r.key.len(), 2));
    assert(damaged.subrange(6, 10) =~= be_bytes(r.value_bytes().len(), 4));
    assert(damaged[10] == r.op.spec_code());
    assert(f.skip(4) =~= r.payload());
    if at < 4 {
        assert(damaged.skip(4) =~= r.payload());
        let stored = damaged.subrange(0, 4);
        assert(stored =~= crc.update(at, b));
        assert(stored[at] != crc[at]);
        if be_value(stored) == crc32(r.payload()) {
            lemma_be_unique(stored, crc);
        }
    } else {
        assert(damaged.subrange(0, 4) =~= crc);
        assert(damaged.skip(4) =~= r.payload().update(at - 4, b));
        law_crc_changed_byte(r.payload(), at - 4, b);
    }
    lemma_be_value_bound(damaged.subrange(0, 4));
}

/// One changed byte in the checksum, the key or the value of any record of a log is found:
/// reading ends in front of that record and reports two checksums that differ. So does
/// recovery, unless the record is the last one, which alone it then cuts off.
pub proof fn law_wal_changed_byte(records: Seq<WalRecord>, i: int, at: int, b: u8)
    requires
        forall|j: int| 0 <= j < records.len() ==> (#[trigger] records[j]).fits(),
        0 <= i < records.len(),
        0 <= at < 4 || 11 <= at < records[i].frame().len(),
        b != records[i].frame()[at],
    ensures
        ({
            let start = wal_image(records.take(i)).len();
            let s = wal_scan(wal_image(records).update(start + at, b));
            &&& s.records == records.take(i)
            &&& s.valid == start
            &&& s.end matches WalEnd::CrcMismatch { expected, actual } && expected != actual
            &&& i + 1 < records.len() ==> wal_recover(wal_image(records).update(start + at, b))
                == Err::<(Seq<WalRecord>, nat), WalEnd>(s.end)
            &&& i + 1 == records.len() ==> wal_recover(wal_image(records).update(start + at, b))
                == Ok::<_, WalEnd>((records.take(i), start))
        }),
{
    let before = records.take(i);
    let behind = wal_image(records.skip(i + 1));
    let frame = records[i].frame();
    let damaged = frame.update(at, b);
    lemma_changed_frame(records[i], at, b);
    assert forall|j: int| 0 <= j < before.len() implies (#[trigger] before[j]).fits() by {
        assert(before[j] == records[j]);
    }
    law_wal_detects_corruption(before, damaged, behind);
    lemma_image_split(records, i);
    lemma_update_middle(wal_image(before), frame, behind, at, b);
    let after = records.skip(i + 1);
    if i + 1 < records.len() {
        assert(after[0] == records[i + 1]);
        lemma_frame_parts(after[0]);
        law_wal_reports_damage(before, damaged, behind);
    } else {
        assert(behind =~= Seq::<u8>::empty());
        assert(damaged + behind =~= damaged);
        law_wal_damaged_end(before, damaged);
    }
}

/// Changing a byte of the middle part of three changes that part.
proof fn lemma_update_middle(x: Seq<u8>, y: Seq<u8>, z: Seq<u8>, at: int, b: u8)
    requires
        0 <= at < y.len(),
    ensures
        (x + (y + z)).update(x.len() + at, b) == x + (y.update(at, b) + z),
{
    assert((x + (y + z)).update(x.len() + at, b) =~= x + (y.update(at, b) + z));
}

/// A key of up to 65,535 bytes and a value of less than four gigabytes can be logged.
pub proof fn law_wal_fits(key: Seq<u8>, value: Seq<u8>)
    ensures
        (WalRecord { op: WalOp::Put, key, value: Some(value) }).fits() <==> key.len() <= 65535
            && value.len() < 0x1_0000_0000,
        (WalRecord { op: WalOp::Delete, key, value: None }).fits() <==> key.len() <= 65535,
{
}

/// The fields of a header, read byte by byte.
proof fn lemma_header(s: Seq<u8>)
    requires
        s.len() >= 11,
    ensures
        be_value(s.subrange(0, 4)) == four_bytes(s, 0),
        be_value(s.subrange(4, 6)) == two_bytes(s, 4),
        be_value(s.subrange(6, 10)) == four_bytes(s, 6),
        body_len(s) == two_bytes(s, 4) + four_bytes(s, 6),
        four_bytes(s, 0) < 0x1_0000_0000,
{
    law_be_value(s, 0);
    law_be_value(s, 4);
    law_be_value(s, 6);
}

/// Where each part of a record stands in its frame: four bytes for the checksum of all that
/// follows, two for the length of the key, four for the length of the value, one that tells a
/// put from a delete, then the key and the value.
pub proof fn law_wal_frame(op: WalOp, key: Seq<u8>, value: Option<Seq<u8>>)
    requires
        key.len() <= 65535,
        value is Some ==> value->0.len() < 0x1_0000_0000,
    ensures
        ({
            let f = (WalRecord { op, key, value }).frame();
            let n = if value is Some {
                value->0.len() as int
            } else {
                0
            };
            &&& f.len() == 11 + key.len() + n
            &&& four_bytes(f, 0) == crc32(f.skip(4))
            &&& two_bytes(f, 4) == key.len()
            &&& four_bytes(f, 6) == n
            &&& op == WalOp::Put ==> f[10] == 0
            &&& op == WalOp::Delete ==> f[10] == 1
            &&& f.subrange(11, 11 + key.len() as int) == key
            &&& value is Some ==> f.skip(11 + key.len() as int) == value->0
        }),
{
    let r = WalRecord { op, key, value };
    let f = r.frame();
    lemma_frame_parts(r);
    lemma_header(f);
    lemma_be_ranges();
    lemma_be_round_trip(crc32(r.payload()) as nat, 4);
    lemma_be_round_trip(key.len(), 2);
    lemma_be_round_trip(r.value_bytes().len(), 4);
    assert(f.subrange(0, 4) =~= be_bytes(crc32(r.payload()) as nat, 4));
    assert(f.subrange(4, 6) =~= be_bytes(key.len(), 2));
    assert(f.subrange(6, 10) =~= be_bytes(r.value_bytes().len(), 4));
    assert(f.skip(4) =~= r.payload());
    assert(f[10] == op.spec_code());
    assert(f.subrange(11, 11 + key.len() as int) =~= key);
    assert(f.skip(11 + key.len() as int) =~= r.value_bytes());
}

/// A log without records is empty.
pub proof fn law_wal_empty()
    ensures
        wal_image(Seq::empty()) == Seq::<u8>::empty(),
        wal_scan(Seq::empty()).records == Seq::<WalRecord>::empty(),
{
}

/// Reading ends, and only ends, where what is left of the log is no intact record: there are
/// not eleven bytes for a header, or its operation code is none of the two, or the log ends
/// before the key and the value do, or the checksum is not theirs.
pub proof fn law_wal_stops(s: Seq<u8>)
    ensures
        wal_scan(s).valid <= s.len(),
        ({
            let rest = s.skip(wal_scan(s).valid as int);
            let body = two_bytes(rest, 4) + four_bytes(rest, 6);
            match wal_scan(s).end {
                WalEnd::Clean => rest.len() < 11,
                WalEnd::InvalidOp { code } => rest.len() >= 11 && rest[10] > 1 && code == rest[10],
                WalEnd::Torn { expected } => rest.len() >= 11 && rest[10] <= 1 && rest.len() < 11
                    + body && expected == body,
                WalEnd::CrcMismatch { expected, actual } => rest[10] <= 1 && rest.len() >= 11 + body
                    && expected == four_bytes(rest, 0) && actual == crc32(
                    rest.subrange(4, 11 + body),
                ) && expected != actual,
            }
        }),
{
    lemma_scan_stop(s);
    let rest = s.skip(wal_scan(s).valid as int);
    if rest.len() >= 11 {
        lemma_header(rest);
    }
}

/// Recovery gives back the records that reading finds when what follows them is less than one
/// record, or one whole record that does not match its checksum. In every other case it fails,
/// for the reason for which reading ends.
pub proof fn law_wal_recovery(s: Seq<u8>)
    ensures
        ({
            let scan = wal_scan(s);
            let rest = s.skip(scan.valid as int);
            let whole = 11 + two_bytes(rest, 4) + four_bytes(rest, 6);
            wal_recover(s) == if rest.len() < 11 || rest.len() < whole || (rest.len() == whole
                && four_bytes(rest, 0) != crc32(rest.skip(4))) {
                Ok((scan.records, scan.valid))
            } else {
                Err(scan.end)
            }
        }),
{
    lemma_scan_stop(s);
    let rest = s.skip(wal_scan(s).valid as int);
    if rest.len() >= 11 {
        lemma_header(rest);
        assert(rest.subrange(4, rest.len() as int) =~= rest.skip(4));
    }
}

/// An intact record at the start of a log is read as what its parts spell, and reading goes on
/// behind it.
pub proof fn law_wal_reads_record(s: Seq<u8>)
    requires
        s.len() >= 11,
        s[10] <= 1,
        s.len() >= 11 + two_bytes(s, 4) + four_bytes(s, 6),
        four_bytes(s, 0) == crc32(s.subrange(4, 11 + two_bytes(s, 4) + four_bytes(s, 6))),
    ensures
        ({
            let key_end = 11 + two_bytes(s, 4);
            let end = key_end + four_bytes(s, 6);
            let rest = wal_scan(s.skip(end));
            let r = WalRecord {
                op: if s[10] == 0 {
                    WalOp::Put
                } else {
                    WalOp::Delete
                },
                key: s.subrange(11, key_end),
                value: if s[10] == 0 {
                    Some(s.subrange(key_end, end))
                } else {
                    None
                },
            };
            &&& wal_scan(s).records == seq![r] + rest.records
            &&& wal_scan(s).valid == end + rest.valid
            &&& wal_scan(s).end == rest.end
        }),
{
    lemma_header(s);
}

/// An entry read from the log stands for a record with the same operation, key and value, and a
/// list of entries for as many records in the same order.
pub proof fn law_wal_entries(entries: Seq<WalEntry>, i: int)
    requires
        0 <= i < entries.len(),
    ensures
        records_of(entries).len() == entries.len(),
        records_of(entries)[i].op == entries[i].op,
        records_of(entries)[i].key == bytes_of(entries[i].key),
        records_of(entries)[i].value is Some <==> entries[i].value is Some,
        entries[i].value is Some ==> records_of(entries)[i].value == Some(
            bytes_of(entries[i].value->0),
        ),
{
}

/// The text that goes with a torn record names the number of bytes in decimal.
pub proof fn law_torn_text(expected: nat)
    ensures
        torn_detail(expected) == "Failed to read complete payload (expected "@ + (decimal(expected)
            + " bytes): failed to fill whole buffer"@),
{
    assert(torn_detail(expected) =~= "Failed to read complete payload (expected "@ + (decimal(
        expected,
    ) + " bytes): failed to fill whole buffer"@));
}

} // verus!
