use vstd::prelude::*;

verus! {

/// The ways in which reading or editing a container can fail.
#[derive(Debug, Clone, Copy, PartialEq, Eq, Structural)]
pub enum Error {
    /// The leading eight bytes are not the container signature.
    InvalidSignature,
    /// The buffer ends before a length, type, payload or checksum field is complete.
    Truncated,
    /// A declared chunk length is larger than the largest payload allowed.
    InvalidLength,
    /// A type code is not four ASCII letters, or a payload is not UTF-8 text.
    InvalidEncoding,
    /// The stored checksum differs from the one computed over the chunk.
    CrcMismatch,
    /// No chunk of the requested type is present.
    NotFound,
}

} // verus!
