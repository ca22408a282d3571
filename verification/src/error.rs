use vstd::prelude::*;

verus! {

/// Why an encode or a decode was refused.
#[derive(Clone, Copy, Debug, PartialEq, Eq, Hash)]
pub enum DnsError {
    /// The buffer ends before the field that was asked for.
    Truncated,
    /// A label is longer than the 63 bytes that a length prefix can announce.
    LabelTooLong,
    /// The bytes of a label are not UTF-8 text.
    InvalidLabel,
    /// A pointer names an offset at which no name has been seen.
    UnknownPointer,
    /// A record type code outside the supported set.
    InvalidQuestionType(u16),
    /// The direction bit of a header is neither query nor response.
    InvalidPacketType,
    /// The declared number of records differs from the number at hand.
    CountMismatch,
    /// An offset does not fit in the 14 bits of a pointer.
    OffsetOutOfRange,
    /// Record data is longer than its 16-bit length field can announce.
    DataTooLong,
    /// More records than a 16-bit count can announce.
    TooManyRecords,
    /// The encoded message would not fit in memory.
    MessageTooLong,
}

} // verus!
