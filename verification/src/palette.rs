//! The two fixed colour tables: the code table, whose order is part of the
//! stream format, and the quantization palette, which holds the same sixteen
//! colours in the order used when a picture is reduced to them.

use vstd::prelude::*;

verus! {

/// Number of colours in either table.
pub const PALETTE_SIZE: usize = 16;

/// The code table. The position of a colour in it is the colour's code, so
/// the order must never change.
pub const COLORS: [[u8; 3]; 16] = [
    [0x00, 0x00, 0x00],
    [0xFF, 0xFF, 0xFF],
    [0x00, 0x00, 0xFF],
    [0x00, 0xFF, 0x00],
    [0xFF, 0x00, 0x00],
    [0x00, 0xFF, 0xFF],
    [0xFF, 0x00, 0xFF],
    [0xFF, 0xFF, 0x00],
    [0xC0, 0xC0, 0xC0],
    [0x80, 0x80, 0x80],
    [0x80, 0x00, 0x00],
    [0x80, 0x80, 0x00],
    [0x00, 0x80, 0x00],
    [0x00, 0x80, 0x80],
    [0x00, 0x00, 0x80],
    [0x80, 0x00, 0x80],
];

/// Whether `code` is the position of `pixel` in the code table.
pub open spec fn is_code_of(pixel: Seq<u8>, code: int) -> bool {
    0 <= code < 16 && COLORS[code]@ == pixel
}

/// Whether `pixel` is one of the sixteen colours of the code table.
pub open spec fn is_palette_entry(pixel: Seq<u8>) -> bool {
    exists|code: int| is_code_of(pixel, code)
}

/// The code of a pixel: its position in the code table, and 0 for anything
/// that is not in the table.
pub open spec fn code_of(pixel: Seq<u8>) -> u8 {
    if is_palette_entry(pixel) {
        (choose|code: int| is_code_of(pixel, code)) as u8
    } else {
        0
    }
}

/// The colour that a code stands for.
pub open spec fn spec_color_of(code: u8) -> Seq<u8> {
    COLORS[code as int]@
}

/// No colour occurs twice in the code table.
pub proof fn lemma_codes_distinct(pixel: Seq<u8>, a: int, b: int)
    requires
        is_code_of(pixel, a),
        is_code_of(pixel, b),
    ensures
        a == b,
{
}

/// A colour of the code table has its own position as its code.
pub proof fn lemma_code_of_entry(code: int)
    requires
        0 <= code < 16,
    ensures
        code_of(COLORS[code]@) == code,
        is_palette_entry(COLORS[code]@),
{
    let pixel = COLORS[code]@;
    assert(is_code_of(pixel, code));
    let chosen = choose|c: int| is_code_of(pixel, c);
    lemma_codes_distinct(pixel, chosen, code);
}

/// Every code is below 16, and the colour of a table entry's code is the
/// entry itself.
pub proof fn lemma_color_of_code(pixel: Seq<u8>)
    ensures
        code_of(pixel) < 16,
        is_palette_entry(pixel) ==> spec_color_of(code_of(pixel)) == pixel,
{
}

/// Looks a pixel up in the code table. A slice that is not exactly one of
/// the sixteen colours gets code 0.
pub fn get_encode(pixel_target: &[u8]) -> (code: u8)
    ensures
        code == code_of(pixel_target@),
        code < 16,
{
    if pixel_target.len() != 3 {
        assert(!is_palette_entry(pixel_target@));
        return 0;
    }
    let mut idx: usize = 0;
    while idx < 16
        invariant
            idx <= 16,
            pixel_target@.len() == 3,
            forall|c: int| 0 <= c < idx ==> !is_code_of(pixel_target@, c),
        decreases 16 - idx,
    {
        let entry = COLORS[idx];
        if entry[0] == pixel_target[0] && entry[1] == pixel_target[1] && entry[2]
            == pixel_target[2] {
            proof {
                assert(COLORS[idx as int]@ =~= pixel_target@);
                assert(is_code_of(pixel_target@, idx as int));
                let chosen = choose|c: int| is_code_of(pixel_target@, c);
                lemma_codes_distinct(pixel_target@, chosen, idx as int);
            }
            return idx as u8;
        }
        idx += 1;
    }
    0
}

/// The colour of a code.
pub fn color_of(code: u8) -> (color: [u8; 3])
    requires
        code < 16,
    ensures
        color@ == spec_color_of(code),
{
    COLORS[code as usize]
}

/// The quantization palette: the colours of the code table in the order in
/// which a picture is matched against them.
pub const PALETTE_COLORS: [[u8; 3]; 16] = [
    [0x00, 0x00, 0x00],
    [0x80, 0x80, 0x80],
    [0xC0, 0xC0, 0xC0],
    [0xFF, 0xFF, 0xFF],
    [0x00, 0x00, 0x80],
    [0x00, 0x80, 0x00],
    [0x00, 0x80, 0x80],
    [0x80, 0x00, 0x00],
    [0x80, 0x00, 0x80],
    [0x80, 0x80, 0x00],
    [0x00, 0x00, 0xFF],
    [0x00, 0xFF, 0x00],
    [0x00, 0xFF, 0xFF],
    [0xFF, 0x00, 0x00],
    [0xFF, 0x00, 0xFF],
    [0xFF, 0xFF, 0x00],
];

/// Squared Euclidean distance between a table entry and a colour.
pub open spec fn dist2(entry: [u8; 3], color: Seq<u8>) -> int {
    (entry[0] - color[0]) * (entry[0] - color[0]) + (entry[1] - color[1]) * (entry[1] - color[1])
        + (entry[2] - color[2]) * (entry[2] - color[2])
}

/// Whether `idx` is the first entry of `table` at the least distance from
/// `color`.
pub open spec fn is_nearest(table: Seq<[u8; 3]>, color: Seq<u8>, idx: int) -> bool {
    &&& 0 <= idx < table.len()
    &&& forall|j: int| 0 <= j < table.len() ==> dist2(table[idx], color) <= #[trigger] dist2(
        table[j],
        color,
    )
    &&& forall|j: int| 0 <= j < idx ==> dist2(table[idx], color) < #[trigger] dist2(table[j], color)
}

/// The position in `table` of the entry nearest to `color`; of several at
/// the same distance, the first.
pub open spec fn nearest_index(table: Seq<[u8; 3]>, color: Seq<u8>) -> int {
    choose|idx: int| is_nearest(table, color, idx)
}

/// The entry of `table` nearest to `color`.
pub open spec fn nearest_color(table: Seq<[u8; 3]>, color: Seq<u8>) -> [u8; 3] {
    table[nearest_index(table, color)]
}

/// Only one position is the nearest.
pub proof fn lemma_nearest_unique(table: Seq<[u8; 3]>, color: Seq<u8>, a: int, b: int)
    requires
        is_nearest(table, color, a),
        is_nearest(table, color, b),
    ensures
        a == b,
{
    if a < b {
        assert(dist2(table[a], color) <= dist2(table[b], color));
    } else if b < a {
        assert(dist2(table[b], color) <= dist2(table[a], color));
    }
}

/// The first entry at the least distance among the first `n` of a table.
proof fn lemma_nearest_in_prefix(table: Seq<[u8; 3]>, color: Seq<u8>, n: int) -> (idx: int)
    requires
        1 <= n <= table.len(),
    ensures
        0 <= idx < n,
        forall|j: int| 0 <= j < n ==> dist2(table[idx], color) <= #[trigger] dist2(table[j], color),
        forall|j: int| 0 <= j < idx ==> dist2(table[idx], color) < #[trigger] dist2(table[j], color),
    decreases n,
{
    if n == 1 {
        0
    } else {
        let before = lemma_nearest_in_prefix(table, color, n - 1);
        if dist2(table[n - 1], color) < dist2(table[before], color) {
            n - 1
        } else {
            before
        }
    }
}

/// A table that is not empty has a nearest entry for every colour.
pub proof fn lemma_nearest_exists(table: Seq<[u8; 3]>, color: Seq<u8>)
    requires
        table.len() > 0,
    ensures
        is_nearest(table, color, nearest_index(table, color)),
{
    let idx = lemma_nearest_in_prefix(table, color, table.len() as int);
    assert(is_nearest(table, color, idx));
}

/// Every colour of the quantization palette is a colour of the code table.
pub proof fn lemma_palette_in_code_table(position: int)
    requires
        0 <= position < 16,
    ensures
        is_palette_entry(PALETTE_COLORS[position]@),
{
    let codes: Seq<int> = seq![0, 9, 8, 1, 14, 12, 13, 10, 15, 11, 2, 3, 5, 4, 6, 7];
    let code = codes[position];
    assert(is_code_of(PALETTE_COLORS[position]@, code));
}

/// The quantization palette, held as a value.
pub struct Palette {
    colors: [[u8; 3]; 16],
}

/// Squared distance between a table entry and a colour.
fn distance(entry: &[u8; 3], color: &[u8; 3]) -> (d: i32)
    ensures
        d == dist2(*entry, color@),
        0 <= d <= 195075,
{
    let r: i32 = entry[0] as i32 - color[0] as i32;
    let g: i32 = entry[1] as i32 - color[1] as i32;
    let b: i32 = entry[2] as i32 - color[2] as i32;
    assert(0 <= r * r <= 65025) by (nonlinear_arith)
        requires
            -255 <= r <= 255,
    ;
    assert(0 <= g * g <= 65025) by (nonlinear_arith)
        requires
            -255 <= g <= 255,
    ;
    assert(0 <= b * b <= 65025) by (nonlinear_arith)
        requires
            -255 <= b <= 255,
    ;
    r * r + g * g + b * b
}

/// Position of the first entry of `table` at the least distance from
/// `color`.
fn nearest_in(table: &[[u8; 3]; 16], color: &[u8; 3]) -> (idx: usize)
    ensures
        idx < 16,
        is_nearest(table@, color@, idx as int),
        idx == nearest_index(table@, color@),
{
    let mut best: usize = 0;
    let mut best_d: i32 = distance(&table[0], color);
    let mut j: usize = 1;
    while j < 16
        invariant
            1 <= j <= 16,
            best < j,
            best_d == dist2(table@[best as int], color@),
            forall|k: int| 0 <= k < j ==> best_d <= #[trigger] dist2(table@[k], color@),
            forall|k: int| 0 <= k < best ==> best_d < #[trigger] dist2(table@[k], color@),
        decreases 16 - j,
    {
        let d = distance(&table[j], color);
        if d < best_d {
            best = j;
            best_d = d;
        }
        j += 1;
    }
    proof {
        lemma_nearest_unique(table@, color@, best as int, nearest_index(table@, color@));
    }
    best
}

impl Palette {
    /// The colours of the palette, in order.
    pub closed spec fn view(&self) -> Seq<[u8; 3]> {
        self.colors@
    }

    /// The fixed sixteen-colour palette.
    pub fn new() -> (palette: Palette)
        ensures
            palette@ == PALETTE_COLORS@,
    {
        Palette { colors: PALETTE_COLORS }
    }

    /// The position of the palette colour nearest to `color`; of several at
    /// the same distance, the first.
    pub fn index_of(&self, color: &[u8; 3]) -> (idx: usize)
        ensures
            idx == nearest_index(self@, color@),
            is_nearest(self@, color@, idx as int),
    {
        nearest_in(&self.colors, color)
    }

    /// Replaces `color` by the palette colour nearest to it.
    pub fn map_color(&self, color: &mut [u8; 3])
        ensures
            *final(color) == nearest_color(self@, old(color)@),
    {
        let idx = nearest_in(&self.colors, color);
        *color = self.colors[idx];
    }
}

/// The colour of the quantization palette nearest to `color_to`.
pub fn closest_color(color_to: [u8; 3]) -> (color: [u8; 3])
    ensures
        color == nearest_color(PALETTE_COLORS@, color_to@),
{
    let idx = nearest_in(&PALETTE_COLORS, &color_to);
    PALETTE_COLORS[idx]
}

/// A pixel buffer after quantization: every whole RGB triple is replaced by
/// the palette colour nearest to it, and bytes behind the last whole triple
/// stay as they are.
pub open spec fn spec_quantization(pixels: Seq<u8>) -> Seq<u8> {
    Seq::new(
        pixels.len(),
        |k: int|
            if k / 3 < pixels.len() as int / 3 {
                nearest_color(PALETTE_COLORS@, pixels.subrange(3 * (k / 3), 3 * (k / 3) + 3))[k % 3]
            } else {
                pixels[k]
            },
    )
}

/// Maps every pixel of a row-major RGB buffer to the nearest palette colour.
pub fn quantization(pixels: &mut Vec<u8>)
    ensures
        final(pixels)@ == spec_quantization(old(pixels)@),
{
    let count = pixels.len() / 3;
    let ghost before = pixels@;
    let mut i: usize = 0;
    while i < count
        invariant
            i <= count,
            count == before.len() / 3,
            before.len() <= usize::MAX,
            pixels@.len() == before.len(),
            forall|k: int| 0 <= k < 3 * i ==> pixels@[k] == spec_quantization(before)[k],
            forall|k: int| 3 * i <= k < before.len() ==> pixels@[k] == before[k],
        decreases count - i,
    {
        assert(3 * i + 3 <= pixels@.len());
        let base: usize = 3 * i;
        let color = [pixels[base], pixels[base + 1], pixels[base + 2]];
        assert(color@ =~= before.subrange(3 * i, 3 * i + 3));
        let mapped = closest_color(color);
        pixels.set(base, mapped[0]);
        pixels.set(base + 1, mapped[1]);
        pixels.set(base + 2, mapped[2]);
        assert forall|k: int| 0 <= k < 3 * (i + 1) implies pixels@[k] == spec_quantization(
            before,
        )[k] by {
            if k >= 3 * i {
                assert(k / 3 == i);
            }
        }
        i += 1;
    }
}

} // verus!
