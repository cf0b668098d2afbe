//! Why a conversion call stopped.

use vstd::prelude::*;

verus! {

/// Outcome of one call of a decoder.
#[derive(Clone, Copy, Debug, PartialEq, Eq, Structural)]
pub enum DecoderResult {
    /// All input was consumed.
    InputEmpty,
    /// The destination has no room for the next code point.
    OutputFull,
    /// The next input bytes have no Unicode equivalent. The value is the
    /// number of bytes of the malformed sequence, which were not consumed.
    Malformed(u8),
}

/// Outcome of one call of an encoder.
#[derive(Clone, Copy, Debug, PartialEq, Eq, Structural)]
pub enum EncoderResult {
    /// All input was consumed.
    InputEmpty,
    /// The destination has no room for the next byte.
    OutputFull,
    /// The next code point, which the value holds, has no byte in the
    /// encoding. It was not consumed.
    Unmappable(char),
}

} // verus!
