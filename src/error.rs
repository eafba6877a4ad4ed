use vstd::prelude::*;

verus! {

/// Every way in which decoding, encoding or forwarding can fail.
///
/// None of these aborts the process: each is returned to the caller, which
/// may drop the offending datagram and carry on.
#[derive(Debug, Clone, PartialEq, Eq)]
pub enum DnsError {
    /// Fewer bytes than a fixed-width field or a declared record count needs.
    ShortBuffer,
    /// A name whose segments run past the end of the input before a
    /// terminator or a pointer is found.
    MalformedLabel,
    /// A compression pointer that leaves the buffer, points forward, or
    /// leads to a second pointer.
    InvalidCompressionPointer,
    /// The upstream resolver answered with a zero-length datagram.
    EmptyResponse,
    /// The upstream response carries another transaction id than the query.
    IdMismatch,
    /// The upstream response does not hold exactly one answer record.
    UnexpectedAnswerCount,
    /// The transport failed; the text describes how.
    IoFailure(String),
    /// A label longer than 255 bytes or record data longer than 65535 bytes.
    EncodingSizeExceeded,
}

} // verus!
