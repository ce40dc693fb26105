use vstd::prelude::*;

verus! {

/// Why a scan, or one of its steps, did not produce a count.
#[derive(Debug, Clone, Copy, PartialEq, Eq, Structural)]
pub enum ScanError {
    /// An index file could not be found.
    IndexNotFound,
    /// An index file does not follow its format.
    MalformedIndex,
    /// A seek target lies outside what the block index and the archive cover.
    OffsetOutOfRange,
    /// The archive ends before a record's payload is complete.
    TruncatedRecord,
    /// A block of the archive is not a well-formed compressed block.
    DecompressionError,
    /// Opening, reading or seeking a file failed.
    IOError,
}

} // verus!
