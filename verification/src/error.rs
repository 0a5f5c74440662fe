//! The failures that the codec reports to its caller.

use vstd::prelude::*;

verus! {

/// Why an encode or decode request was turned down.
#[derive(Clone, Copy, Debug, PartialEq, Eq, Structural)]
pub enum CodecError {
    /// The key string is not URL-safe base64 without padding, or does not
    /// decode to exactly 16 bytes.
    InvalidKey,
    /// The height or the width is larger than 4095.
    DimensionOverflow,
    /// The stream is shorter than its 3-byte header.
    MalformedHeader,
    /// The cipher cannot work on a buffer of this length.
    CipherFailure,
}

} // verus!
