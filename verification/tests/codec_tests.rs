use palette_codec::codec::{byte_to_codes, codes_to_byte, decode, encode};
use palette_codec::palette::COLORS;

fn pixels_of(codes: &[u8]) -> Vec<u8> {
    codes.iter().flat_map(|code| COLORS[*code as usize]).collect()
}

#[test]
fn codes_to_byte_puts_the_first_code_high() {
    assert_eq!(codes_to_byte(0, 1), 0x01);
    assert_eq!(codes_to_byte(1, 0), 0x10);
    assert_eq!(codes_to_byte(0xA, 0x5), 0xA5);
    assert_eq!(codes_to_byte(15, 15), 0xFF);
}

#[test]
fn byte_to_codes_splits_high_then_low() {
    assert_eq!(byte_to_codes(0x01), [0, 1]);
    assert_eq!(byte_to_codes(0xA5), [0xA, 0x5]);
    assert_eq!(byte_to_codes(0xFF), [15, 15]);
    assert_eq!(byte_to_codes(0x00), [0, 0]);
}

#[test]
fn codes_and_bytes_round_trip() {
    for byte in 0..=255u8 {
        let [first, second] = byte_to_codes(byte);
        assert!(first < 16 && second < 16);
        assert_eq!(codes_to_byte(first, second), byte);
    }
    for first in 0..16u8 {
        for second in 0..16u8 {
            assert_eq!(byte_to_codes(codes_to_byte(first, second)), [first, second]);
            assert_eq!(codes_to_byte(first, second), first * 16 + second);
        }
    }
}

#[test]
fn encode_two_pixels_into_one_byte() {
    assert_eq!(encode(&[0, 0, 0, 255, 255, 255]), vec![0x01]);
    assert_eq!(encode(&[255, 255, 255, 0, 0, 0]), vec![0x10]);
    assert_eq!(encode(&pixels_of(&[2, 3, 14, 15])), vec![0x23, 0xEF]);
}

#[test]
fn encode_nothing() {
    assert_eq!(encode(&[]), Vec::<u8>::new());
    assert_eq!(decode(Vec::new()), Vec::<u8>::new());
}

#[test]
fn decode_one_byte_into_two_pixels() {
    assert_eq!(decode(vec![0x01]), vec![0, 0, 0, 255, 255, 255]);
    assert_eq!(decode(vec![0x9F]), vec![0x80, 0x80, 0x80, 0x80, 0x00, 0x80]);
}

#[test]
fn decode_is_six_times_as_long() {
    let packed: Vec<u8> = (0..=255u8).collect();
    let pixels = decode(packed.clone());
    assert_eq!(pixels.len(), 6 * packed.len());
    for (k, byte) in packed.iter().enumerate() {
        assert_eq!(&pixels[6 * k..6 * k + 3], &COLORS[(byte >> 4) as usize][..]);
        assert_eq!(&pixels[6 * k + 3..6 * k + 6], &COLORS[(byte & 0x0F) as usize][..]);
    }
}

#[test]
fn round_trip_of_an_even_number_of_palette_pixels() {
    let codes: Vec<u8> = (0..64u8).map(|i| (i * 7 + 3) % 16).collect();
    let pixels = pixels_of(&codes);
    assert_eq!(decode(encode(&pixels)), pixels);
    let all = pixels_of(&[0, 1, 2, 3, 4, 5, 6, 7, 8, 9, 10, 11, 12, 13, 14, 15]);
    assert_eq!(encode(&all), vec![0x01, 0x23, 0x45, 0x67, 0x89, 0xAB, 0xCD, 0xEF]);
    assert_eq!(decode(encode(&all)), all);
}

#[test]
fn three_pixels_encode_to_two_bytes_and_decode_to_four() {
    let pixels = pixels_of(&[5, 9, 12]);
    let packed = encode(&pixels);
    assert_eq!(packed, vec![0x59, 0xC0]);
    assert_eq!(packed[1] & 0x0F, 0);
    let decoded = decode(packed);
    assert_eq!(decoded.len(), 12);
    assert_eq!(&decoded[..9], &pixels[..]);
    assert_eq!(&decoded[9..], &COLORS[0][..]);
}

#[test]
fn a_pixel_outside_the_table_is_packed_as_code_0() {
    assert_eq!(encode(&[1, 2, 3, 255, 255, 255]), vec![0x01]);
    assert_eq!(encode(&[255, 255, 255, 1, 2, 3]), vec![0x10]);
}

#[test]
fn bytes_behind_the_last_whole_pixel_count_as_a_pixel_of_code_0() {
    // one whole pixel and one byte: two pixels, the second one unknown
    assert_eq!(encode(&[255, 255, 255, 255]), vec![0x10]);
    // two whole pixels and two bytes: three pixels, so a padded second byte
    assert_eq!(encode(&[255, 255, 255, 0, 0, 255, 9, 9]), vec![0x12, 0x00]);
    assert_eq!(encode(&[7]), vec![0x00]);
}

#[test]
fn quantized_pixels_round_trip() {
    let mut pixels: Vec<u8> = (0..120u8).map(|i| i.wrapping_mul(53).wrapping_add(17)).collect();
    palette_codec::palette::quantization(&mut pixels);
    assert_eq!(pixels.len(), 120);
    assert_eq!(decode(encode(&pixels)), pixels);
}

#[test]
fn decoding_two_buffers_joined() {
    let first = vec![0x12, 0x34, 0x56];
    let second = vec![0x78, 0x9A];
    let mut joined = first.clone();
    joined.extend(second.iter());
    let mut expected = decode(first);
    expected.extend(decode(second));
    assert_eq!(decode(joined), expected);
}
