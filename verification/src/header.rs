//! The 3-byte dimension header: two 12-bit fields, height first, written
//! big-endian.

use vstd::prelude::*;
use crate::error::CodecError;

verus! {

/// The largest height or width that a header can carry.
pub const MAX_DIMENSION: u16 = 4095;

/// Number of bytes in a header.
pub const HEADER_LEN: usize = 3;

/// The 24-bit number that stands for a pair of dimensions.
pub open spec fn header_value(height: int, width: int) -> int {
    height * 4096 + width
}

/// The header bytes of `height` and `width`, most significant byte first.
pub open spec fn spec_pack(height: int, width: int) -> Seq<u8> {
    let v = header_value(height, width);
    seq![(v / 65536) as u8, ((v / 256) % 256) as u8, (v % 256) as u8]
}

/// The `(height, width)` pair that three header bytes carry.
pub open spec fn spec_unpack(b0: u8, b1: u8, b2: u8) -> (int, int) {
    let v = b0 as int * 65536 + b1 as int * 256 + b2 as int;
    (v / 4096, v % 4096)
}

/// Whether both dimensions fit their 12-bit fields.
pub open spec fn dimensions_fit(height: int, width: int) -> bool {
    0 <= height <= MAX_DIMENSION && 0 <= width <= MAX_DIMENSION
}

/// Packs two dimensions into a header, the first in the high 12 bits.
/// A dimension above 4095 is rejected.
pub fn pack_dimensions(a: u16, b: u16) -> (r: Result<[u8; 3], CodecError>)
    ensures
        dimensions_fit(a as int, b as int) ==> r is Ok && r->Ok_0@ == spec_pack(a as int, b as int),
        !dimensions_fit(a as int, b as int) ==> r == Err::<[u8; 3], CodecError>(
            CodecError::DimensionOverflow,
        ),
{
    if a > MAX_DIMENSION || b > MAX_DIMENSION {
        return Err(CodecError::DimensionOverflow);
    }
    let combined: u32 = ((a as u32) << 12) | (b as u32);
    let b0 = ((combined >> 16) & 0xFF) as u8;
    let b1 = ((combined >> 8) & 0xFF) as u8;
    let b2 = (combined & 0xFF) as u8;
    proof {
        assert(combined == a as u32 * 4096 + b as u32) by (bit_vector)
            requires
                a <= 4095,
                b <= 4095,
                combined == ((a as u32) << 12) | (b as u32),
        ;
        assert(b0 == (combined / 65536) as u8 && b1 == ((combined / 256) % 256) as u8 && b2 == (
        combined % 256) as u8) by (bit_vector)
            requires
                combined < 0x100_0000,
                b0 == ((combined >> 16) & 0xFF) as u8,
                b1 == ((combined >> 8) & 0xFF) as u8,
                b2 == (combined & 0xFF) as u8,
        ;
    }
    Ok([b0, b1, b2])
}

/// Reads the dimensions back from the first three bytes of `bytes`.
pub fn unpack_dimensions(bytes: &[u8]) -> (dims: (u32, u32))
    requires
        bytes@.len() >= 3,
    ensures
        (dims.0 as int, dims.1 as int) == spec_unpack(bytes@[0], bytes@[1], bytes@[2]),
        dimensions_fit(dims.0 as int, dims.1 as int),
{
    let x0 = bytes[0];
    let x1 = bytes[1];
    let x2 = bytes[2];
    let combined: u32 = ((x0 as u32) << 16) | ((x1 as u32) << 8) | (x2 as u32);
    let height = (combined >> 12) as u16 & 0xFFF;
    let width = (combined & 0xFFF) as u16;
    proof {
        assert(combined == x0 as u32 * 65536 + x1 as u32 * 256 + x2 as u32) by (bit_vector)
            requires
                combined == ((x0 as u32) << 16) | ((x1 as u32) << 8) | (x2 as u32),
        ;
        assert(height == combined / 4096 && width == combined % 4096) by (bit_vector)
            requires
                combined < 0x100_0000,
                height == (combined >> 12) as u16 & 0xFFF,
                width == (combined & 0xFFF) as u16,
        ;
    }
    (height as u32, width as u32)
}

/// Unpacking a packed header gives the dimensions back.
pub proof fn lemma_unpack_pack(height: int, width: int)
    requires
        dimensions_fit(height, width),
    ensures
        ({
            let h = spec_pack(height, width);
            spec_unpack(h[0], h[1], h[2]) == (height, width)
        }),
{
}

} // verus!
