//! What can go wrong in the storage engine.
use vstd::prelude::*;

verus! {

/// `std::io::Error`, carried through unread.
#[verifier::external_type_specification]
#[verifier::external_body]
pub struct ExIoError(std::io::Error);

/// Every failure that the engine reports.
#[derive(Debug)]
#[allow(inconsistent_fields)]
pub enum LsmError {
    /// The operating system refused a read or a write.
    Io(std::io::Error),
    /// A log record's stored checksum is not the checksum of its payload.
    CrcMismatch { expected: u32, actual: u32 },
    /// A log record holds an operation code that is neither a put nor a delete.
    InvalidOpCode(u8),
    /// The log record at `offset` was not written to its end.
    TornWrite { offset: u64, detail: String },
    /// A key is longer than a log record can hold.
    KeyTooLarge { actual: usize, max: usize },
    /// A table file does not hold what it should.
    CorruptedSSTable(String),
}

pub type Result<T> = std::result::Result<T, LsmError>;

} // verus!
