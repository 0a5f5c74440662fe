use palette_codec::palette::{
    closest_color, color_of, get_encode, quantization, Palette, COLORS, PALETTE_COLORS,
    PALETTE_SIZE,
};

#[test]
fn every_table_colour_has_its_position_as_code() {
    for code in 0..PALETTE_SIZE {
        assert_eq!(get_encode(&COLORS[code]) as usize, code);
        assert_eq!(color_of(code as u8), COLORS[code]);
    }
}

#[test]
fn known_codes() {
    assert_eq!(get_encode(&[0x00, 0x00, 0x00]), 0);
    assert_eq!(get_encode(&[0xFF, 0xFF, 0xFF]), 1);
    assert_eq!(get_encode(&[0x00, 0x00, 0xFF]), 2);
    assert_eq!(get_encode(&[0xC0, 0xC0, 0xC0]), 8);
    assert_eq!(get_encode(&[0x80, 0x00, 0x80]), 15);
    assert_eq!(color_of(9), [0x80, 0x80, 0x80]);
}

#[test]
fn a_colour_outside_the_table_gets_code_0() {
    assert_eq!(get_encode(&[1, 2, 3]), 0);
    assert_eq!(get_encode(&[0xFF, 0xFF, 0xFE]), 0);
}

#[test]
fn a_slice_of_another_length_gets_code_0() {
    assert_eq!(get_encode(&[]), 0);
    assert_eq!(get_encode(&[0xFF]), 0);
    assert_eq!(get_encode(&[0xFF, 0xFF]), 0);
    assert_eq!(get_encode(&[0xFF, 0xFF, 0xFF, 0xFF]), 0);
}

#[test]
fn both_tables_hold_the_same_colours() {
    for entry in PALETTE_COLORS.iter() {
        assert!(COLORS.contains(entry));
    }
    for entry in COLORS.iter() {
        assert!(PALETTE_COLORS.contains(entry));
    }
}

#[test]
fn closest_color_keeps_a_palette_colour() {
    for entry in PALETTE_COLORS.iter() {
        assert_eq!(closest_color(*entry), *entry);
    }
}

#[test]
fn closest_color_picks_the_least_distance() {
    assert_eq!(closest_color([10, 10, 10]), [0x00, 0x00, 0x00]);
    assert_eq!(closest_color([250, 5, 5]), [0xFF, 0x00, 0x00]);
    assert_eq!(closest_color([200, 200, 200]), [0xC0, 0xC0, 0xC0]);
    assert_eq!(closest_color([120, 130, 125]), [0x80, 0x80, 0x80]);
    assert_eq!(closest_color([0, 100, 0]), [0x00, 0x80, 0x00]);
}

#[test]
fn closest_color_takes_the_first_of_two_equally_near() {
    // (64, 0, 0) is 64 * 64 away from black and from maroon; black comes first.
    assert_eq!(closest_color([64, 0, 0]), [0x00, 0x00, 0x00]);
    // (0, 0, 64) is as far from black as from navy.
    assert_eq!(closest_color([0, 0, 64]), [0x00, 0x00, 0x00]);
}

#[test]
fn index_of_is_the_position_in_the_palette() {
    let palette = Palette::new();
    assert_eq!(palette.index_of(&[0, 0, 0]), 0);
    assert_eq!(palette.index_of(&[0x80, 0x80, 0x80]), 1);
    assert_eq!(palette.index_of(&[0xFF, 0xFF, 0x00]), 15);
    assert_eq!(palette.index_of(&[250, 250, 10]), 15);
    assert_eq!(palette.index_of(&[64, 0, 0]), 0);
    for (position, entry) in PALETTE_COLORS.iter().enumerate() {
        assert_eq!(palette.index_of(entry), position);
    }
}

#[test]
fn map_color_moves_to_the_nearest() {
    let palette = Palette::new();
    let mut color = [250, 250, 10];
    palette.map_color(&mut color);
    assert_eq!(color, [0xFF, 0xFF, 0x00]);
    let mut kept = [0x00, 0x80, 0x80];
    palette.map_color(&mut kept);
    assert_eq!(kept, [0x00, 0x80, 0x80]);
}

#[test]
fn quantization_maps_every_whole_pixel() {
    let mut pixels = vec![10, 10, 10, 250, 5, 5, 200, 200, 200];
    quantization(&mut pixels);
    assert_eq!(pixels, vec![0, 0, 0, 0xFF, 0, 0, 0xC0, 0xC0, 0xC0]);
}

#[test]
fn quantization_leaves_trailing_bytes() {
    let mut pixels = vec![250, 250, 250, 7, 9];
    quantization(&mut pixels);
    assert_eq!(pixels, vec![0xFF, 0xFF, 0xFF, 7, 9]);
    let mut empty: Vec<u8> = Vec::new();
    quantization(&mut empty);
    assert!(empty.is_empty());
}

#[test]
fn quantized_pixels_are_in_the_code_table() {
    let mut pixels: Vec<u8> = (0..=255u8).flat_map(|v| [v, v.wrapping_mul(3), v.wrapping_mul(7)]).collect();
    quantization(&mut pixels);
    for pixel in pixels.chunks(3) {
        let code = get_encode(pixel);
        assert_eq!(&color_of(code)[..], pixel);
    }
}
