use vstd::prelude::*;

verus! {

/// The ways a parse can fail. Every failure aborts the whole parse: no
/// partial descriptor is ever produced.
#[derive(Clone, Copy, Debug, PartialEq, Eq, Structural)]
pub enum PngError {
    /// A byte-conversion call received a slice of the wrong width.
    LengthMismatch,
    /// The chunk framer needed more bytes than remained in the buffer.
    TruncatedChunk,
    /// The leading 8 bytes do not match the fixed PNG signature.
    InvalidSignature,
    /// The mandatory image-header chunk is absent.
    MissingRequiredChunk,
    /// A recognized chunk's data is shorter than its decoder requires.
    MalformedChunk,
    /// The header's color-type byte is not one of the five defined codes.
    InvalidColorType,
}

} // verus!
