use vstd::prelude::*;

verus! {

/// Why a message could not be decoded or encoded.
#[derive(Debug, Clone, Copy, PartialEq, Eq, Structural)]
pub enum DnsError {
    /// Fewer than twelve bytes where a header was expected.
    TruncatedBuffer,
    /// A name started, or a pointer led, at or past the end of the buffer.
    OffsetOutOfBounds,
    /// A compression pointer or a label runs past the end of the buffer.
    TruncatedName,
    /// A name followed more compression pointers than allowed.
    CompressionLoop,
    /// The bytes of a label are not UTF-8 text.
    InvalidLabelEncoding,
    /// Fewer than four bytes for a question's type and class.
    TruncatedQuestion,
    /// Fewer than ten bytes for a record's type, class, TTL and data length.
    TruncatedAnswerFields,
    /// Fewer bytes of record data than its declared length.
    TruncatedRdata,
    /// A name to be encoded holds a label longer than 63 bytes.
    LabelTooLong,
    /// More records than a 16-bit section count can declare.
    TooManyRecords,
}

} // verus!
