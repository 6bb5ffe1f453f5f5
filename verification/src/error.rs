use vstd::prelude::*;

verus! {

/// Every way that parsing or editing a PNG byte stream can fail.
///
/// Each parse or mutation reports exactly one of these; malformed
/// input never panics.
#[derive(Clone, Copy, Debug, PartialEq, Eq, Structural)]
pub enum PngError {
    /// A tag byte lies outside the ASCII letter ranges.
    InvalidTagBytes,
    /// A textual tag does not encode to exactly four bytes.
    WrongTagLength,
    /// Fewer than the twelve fixed-field bytes are present.
    InsufficientBytes,
    /// The declared payload length disagrees with the record's size.
    LengthMismatch,
    /// The stored checksum disagrees with the recomputed one.
    ChecksumMismatch,
    /// The buffer does not begin with the PNG signature.
    InvalidSignature,
    /// No chunk carries the requested tag.
    ChunkNotFound,
    /// The payload is not valid UTF-8 text.
    NonTextPayload,
}

} // verus!
