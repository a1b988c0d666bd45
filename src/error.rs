use vstd::prelude::*;

verus! {

/// Why a decode failed.
#[derive(Debug, Clone, Copy, PartialEq, Eq, Structural)]
pub enum DecodeError {
    /// More bytes are needed than remain in the source region.
    TruncatedInput,
    /// The bytes are present but do not form a valid value.
    MalformedElement,
}

/// Why an encode failed.
#[derive(Debug, Clone, Copy, PartialEq, Eq, Structural)]
pub enum EncodeError {
    /// The value is too large for the format to represent.
    EncodeOverflow,
}

} // verus!
