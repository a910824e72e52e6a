use vstd::prelude::*;

verus! {

/// Structural faults of a table or memo file. Each of them aborts the
/// conversion of that one file.
#[derive(Debug, Clone, Copy, PartialEq, Eq, Structural)]
pub enum DbfError {
    /// The fixed header or the field-descriptor array is cut short, or the
    /// declared header length does not cover the descriptors and their
    /// terminator.
    TruncatedHeader,
    /// The record area declared by the header does not fit in the file, or a
    /// record is too short for its delete flag or for one of its fields (a
    /// field whose filled-in displacement exceeds 32 bits among them).
    TruncatedRecordArea,
    /// A memo reference points outside the memo file, or at a blob that is
    /// not properly framed.
    MalformedMemoBlock,
}

} // verus!
