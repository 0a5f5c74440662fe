//! The nibble codec: two palette codes per byte, the earlier pixel in the
//! high half.

use vstd::prelude::*;
use vstd::slice::slice_subrange;
use crate::palette::{
    code_of, color_of, get_encode, is_palette_entry, lemma_color_of_code, lemma_nearest_exists,
    lemma_palette_in_code_table, nearest_index, spec_color_of, spec_quantization, COLORS,
    PALETTE_COLORS,
};

verus! {

/// The byte that holds `first` in its high half and `second` in its low half.
pub open spec fn spec_codes_to_byte(first: u8, second: u8) -> u8 {
    (first << 4) | second
}

/// The code in the high half of a byte.
pub open spec fn high_code(byte: u8) -> u8 {
    byte >> 4
}

/// The code in the low half of a byte.
pub open spec fn low_code(byte: u8) -> u8 {
    byte & 0x0F
}

/// Number of pixels in a buffer of `len` bytes. Bytes behind the last whole
/// RGB triple count as one more pixel.
pub open spec fn pixel_count(len: int) -> int {
    (len + 2) / 3
}

/// The bytes of pixel `i`: three of them, or what is left of the buffer.
pub open spec fn pixel_at(bytes: Seq<u8>, i: int) -> Seq<u8> {
    bytes.subrange(
        3 * i,
        if 3 * i + 3 <= bytes.len() {
            3 * i + 3
        } else {
            bytes.len() as int
        },
    )
}

/// The code of pixel `i`, and 0 behind the last pixel.
pub open spec fn code_at(bytes: Seq<u8>, i: int) -> u8 {
    if 0 <= i < pixel_count(bytes.len() as int) {
        code_of(pixel_at(bytes, i))
    } else {
        0
    }
}

/// Number of bytes that a buffer of `len` bytes packs into.
pub open spec fn encoded_len(len: int) -> int {
    (pixel_count(len) + 1) / 2
}

/// The packed form of a pixel buffer: byte `j` holds the codes of pixels
/// `2j` and `2j + 1`. An odd pixel count leaves the last low half 0.
pub open spec fn spec_encode(bytes: Seq<u8>) -> Seq<u8> {
    Seq::new(
        encoded_len(bytes.len() as int) as nat,
        |j: int| spec_codes_to_byte(code_at(bytes, 2 * j), code_at(bytes, 2 * j + 1)),
    )
}

/// The pixel buffer that packed bytes stand for: six bytes for each, the
/// colour of the high code and then the colour of the low code.
pub open spec fn spec_decode(bytes: Seq<u8>) -> Seq<u8> {
    Seq::new(
        6 * bytes.len(),
        |k: int|
            {
                let byte = bytes[k / 6];
                let code = if k % 6 < 3 {
                    high_code(byte)
                } else {
                    low_code(byte)
                };
                spec_color_of(code)[k % 3]
            },
    )
}

/// Both halves of a byte are codes.
pub proof fn lemma_halves_are_codes(byte: u8)
    ensures
        high_code(byte) < 16,
        low_code(byte) < 16,
        spec_codes_to_byte(high_code(byte), low_code(byte)) == byte,
{
    assert(byte >> 4 < 16 && byte & 0x0F < 16 && ((byte >> 4) << 4) | (byte & 0x0F) == byte)
        by (bit_vector);
}

/// Splitting a byte made of two codes gives the two codes back.
pub proof fn lemma_byte_of_codes(first: u8, second: u8)
    requires
        first < 16,
        second < 16,
    ensures
        high_code(spec_codes_to_byte(first, second)) == first,
        low_code(spec_codes_to_byte(first, second)) == second,
        spec_codes_to_byte(first, second) == first * 16 + second,
{
    assert(((first << 4) | second) >> 4 == first && ((first << 4) | second) & 0x0F == second && (
    first << 4) | second == first * 16 + second) by (bit_vector)
        requires
            first < 16,
            second < 16,
    ;
}

/// Splits a byte into its two codes, the high half first.
pub fn byte_to_codes(byte: u8) -> (codes: [u8; 2])
    ensures
        codes[0] == high_code(byte),
        codes[1] == low_code(byte),
        codes[0] < 16,
        codes[1] < 16,
{
    proof {
        lemma_halves_are_codes(byte);
    }
    [byte >> 4, byte & 0x0F]
}

/// Joins two codes into a byte, the first in the high half.
pub fn codes_to_byte(first: u8, second: u8) -> (byte: u8)
    ensures
        byte == spec_codes_to_byte(first, second),
        first < 16 && second < 16 ==> byte == first * 16 + second,
{
    proof {
        if first < 16 && second < 16 {
            lemma_byte_of_codes(first, second);
        }
    }
    first << 4 | second
}

/// Packs a row-major RGB buffer, two pixels to a byte. A pixel that is not
/// in the code table is written as code 0, and so is the missing partner of
/// a last unpaired pixel.
pub fn encode(bytes: &[u8]) -> (output_bytes: Vec<u8>)
    ensures
        output_bytes@ == spec_encode(bytes@),
{
    let len = bytes.len();
    let mut output_bytes: Vec<u8> = Vec::new();
    let mut code_prev: Option<u8> = None;
    let mut start: usize = 0;
    let ghost mut i: int = 0;
    while start < len
        invariant
            len == bytes@.len(),
            start <= len,
            0 <= i <= pixel_count(len as int),
            start < len ==> start == 3 * i,
            start == len ==> i == pixel_count(len as int),
            output_bytes@.len() == i / 2,
            forall|j: int| 0 <= j < i / 2 ==> output_bytes@[j] == spec_encode(bytes@)[j],
            code_prev == if i % 2 == 1 {
                Some(code_at(bytes@, i - 1))
            } else {
                None::<u8>
            },
        decreases len - start,
    {
        let end: usize = if len - start >= 3 {
            start + 3
        } else {
            len
        };
        let code_curr = get_encode(slice_subrange(bytes, start, end));
        match code_prev {
            Some(code_prev_some) => {
                output_bytes.push(codes_to_byte(code_prev_some, code_curr));
                code_prev = None;
            },
            None => {
                code_prev = Some(code_curr);
            },
        }
        start = end;
        proof {
            i = i + 1;
        }
    }
    if let Some(code_prev_some) = code_prev {
        output_bytes.push(codes_to_byte(code_prev_some, 0));
    }
    output_bytes
}

/// Unpacks packed bytes into pixels: two for each byte, the colour of the
/// high code first.
pub fn decode(bytes: Vec<u8>) -> (pixels: Vec<u8>)
    ensures
        pixels@ == spec_decode(bytes@),
{
    let mut pixels: Vec<u8> = Vec::new();
    let mut i: usize = 0;
    while i < bytes.len()
        invariant
            i <= bytes@.len(),
            pixels@.len() == 6 * i,
            forall|k: int| 0 <= k < 6 * i ==> pixels@[k] == spec_decode(bytes@)[k],
        decreases bytes@.len() - i,
    {
        let codes = byte_to_codes(bytes[i]);
        let first = color_of(codes[0]);
        let second = color_of(codes[1]);
        pixels.push(first[0]);
        pixels.push(first[1]);
        pixels.push(first[2]);
        pixels.push(second[0]);
        pixels.push(second[1]);
        pixels.push(second[2]);
        i += 1;
    }
    pixels
}

/// Unpacking goes byte by byte: two buffers joined unpack to what each
/// unpacks to, joined.
pub proof fn lemma_decode_concat(first: Seq<u8>, second: Seq<u8>)
    ensures
        spec_decode(first + second) == spec_decode(first) + spec_decode(second),
{
}

/// Whether every pixel of a buffer is a colour of the code table.
pub open spec fn all_palette_entries(pixels: Seq<u8>) -> bool {
    forall|i: int|
        0 <= i < pixel_count(pixels.len() as int) ==> is_palette_entry(#[trigger] pixel_at(pixels, i))
}

/// Byte `k` of what the packed form of `pixels` decodes to, where `k` lies in
/// a whole pixel of the code table.
proof fn lemma_decoded_byte(pixels: Seq<u8>, k: int)
    requires
        pixels.len() % 3 == 0,
        0 <= k < pixels.len(),
        is_palette_entry(pixel_at(pixels, k / 3)),
    ensures
        k / 6 < spec_encode(pixels).len(),
        spec_decode(spec_encode(pixels))[k] == pixels[k],
{
    let j = k / 6;
    lemma_color_of_code(pixel_at(pixels, 2 * j));
    lemma_color_of_code(pixel_at(pixels, 2 * j + 1));
    lemma_byte_of_codes(code_at(pixels, 2 * j), code_at(pixels, 2 * j + 1));
}

/// Decoding the packed form of an even number of whole pixels, all of them
/// in the code table, gives the pixels back.
pub proof fn lemma_decode_encode(pixels: Seq<u8>)
    requires
        pixels.len() % 6 == 0,
        all_palette_entries(pixels),
    ensures
        spec_decode(spec_encode(pixels)) == pixels,
{
    let decoded = spec_decode(spec_encode(pixels));
    assert forall|k: int| 0 <= k < pixels.len() implies decoded[k] == pixels[k] by {
        lemma_decoded_byte(pixels, k);
    }
}

/// An odd number of whole pixels packs into half as many bytes, rounded up,
/// with 0 in the last low half. Decoding gives one pixel more than went in:
/// the pixels themselves, where all are in the code table, and then the
/// colour of code 0.
pub proof fn lemma_odd_pixel_count(pixels: Seq<u8>)
    requires
        pixels.len() % 6 == 3,
    ensures
        spec_encode(pixels).len() == (pixels.len() / 3 + 1) / 2,
        low_code(spec_encode(pixels).last()) == 0,
        spec_decode(spec_encode(pixels)).len() == pixels.len() + 3,
        spec_decode(spec_encode(pixels)).subrange(pixels.len() as int, pixels.len() as int + 3)
            == COLORS[0]@,
        all_palette_entries(pixels) ==> spec_decode(spec_encode(pixels)).subrange(
            0,
            pixels.len() as int,
        ) == pixels,
{
    let decoded = spec_decode(spec_encode(pixels));
    let len = pixels.len() as int;
    let last = spec_encode(pixels).len() - 1;
    lemma_color_of_code(pixel_at(pixels, 2 * last));
    lemma_byte_of_codes(code_at(pixels, 2 * last), 0);
    if all_palette_entries(pixels) {
        assert forall|k: int| 0 <= k < len implies decoded[k] == pixels[k] by {
            lemma_decoded_byte(pixels, k);
        }
    }
}

/// What unpacking puts behind the pixels of a packed buffer of `len` bytes
/// of whole pixels: nothing behind an even number of pixels, the colour of
/// code 0 behind an odd number.
pub open spec fn padding_pixel(len: int) -> Seq<u8> {
    if len % 6 == 3 {
        COLORS[0]@
    } else {
        Seq::empty()
    }
}

/// Decoding the packed form of whole pixels, all of them in the code table,
/// gives the pixels back, with the padding pixel behind an odd number of
/// them.
pub proof fn lemma_decode_encode_padded(pixels: Seq<u8>)
    requires
        pixels.len() % 3 == 0,
        all_palette_entries(pixels),
    ensures
        spec_decode(spec_encode(pixels)) == pixels + padding_pixel(pixels.len() as int),
{
    let decoded = spec_decode(spec_encode(pixels));
    let len = pixels.len() as int;
    if len % 6 == 0 {
        lemma_decode_encode(pixels);
        assert(decoded =~= pixels + padding_pixel(len));
    } else {
        lemma_odd_pixel_count(pixels);
        assert(decoded =~= decoded.subrange(0, len) + decoded.subrange(len, len + 3));
    }
}

/// A buffer of whole pixels holds, after quantization, colours of the code
/// table only: nothing in it falls back to code 0.
pub proof fn lemma_quantized_pixels_are_entries(pixels: Seq<u8>)
    requires
        pixels.len() % 3 == 0,
    ensures
        all_palette_entries(spec_quantization(pixels)),
{
    let mapped = spec_quantization(pixels);
    assert forall|i: int| 0 <= i < pixel_count(mapped.len() as int) implies is_palette_entry(
        #[trigger] pixel_at(mapped, i),
    ) by {
        let color = pixels.subrange(3 * i, 3 * i + 3);
        let position = nearest_index(PALETTE_COLORS@, color);
        lemma_nearest_exists(PALETTE_COLORS@, color);
        lemma_palette_in_code_table(position);
        assert(pixel_at(mapped, i) =~= PALETTE_COLORS[position]@);
    }
}

} // verus!
