use palette_codec::cipher::{
    base64url_to_bytes, cipher_outcome, decode_key, decrypt, encrypt, gen_key, key_from_decoded,
    KEY_LEN,
};
use palette_codec::error::CodecError;

const ZERO_KEY: &str = "AAAAAAAAAAAAAAAAAAAAAA";
const COUNTING_KEY: &str = "AAECAwQFBgcICQoLDA0ODw";

#[test]
fn base64url_to_bytes_decodes_unpadded_url_safe_text() {
    assert_eq!(base64url_to_bytes("SGVsbG8sIHdvcmxkIQ"), Some(b"Hello, world!".to_vec()));
    assert_eq!(base64url_to_bytes(""), Some(Vec::new()));
    assert_eq!(base64url_to_bytes("-_8"), Some(vec![0xFB, 0xFF]));
    assert_eq!(base64url_to_bytes(ZERO_KEY), Some(vec![0u8; 16]));
    assert_eq!(base64url_to_bytes(COUNTING_KEY), Some((0..16u8).collect::<Vec<u8>>()));
}

#[test]
fn base64url_to_bytes_rejects_other_text() {
    assert_eq!(base64url_to_bytes("not base64!"), None);
    assert_eq!(base64url_to_bytes("+/8"), None);
    assert_eq!(base64url_to_bytes("SGVsbG8sIHdvcmxkIQ=="), None);
    assert_eq!(base64url_to_bytes("A"), None);
}

#[test]
fn key_from_decoded_wants_sixteen_bytes() {
    assert_eq!(key_from_decoded(Some(vec![7u8; 16])), Ok(vec![7u8; 16]));
    assert_eq!(key_from_decoded(Some(vec![7u8; 15])), Err(CodecError::InvalidKey));
    assert_eq!(key_from_decoded(Some(vec![7u8; 17])), Err(CodecError::InvalidKey));
    assert_eq!(key_from_decoded(Some(Vec::new())), Err(CodecError::InvalidKey));
    assert_eq!(key_from_decoded(None), Err(CodecError::InvalidKey));
}

#[test]
fn decode_key_reads_a_key_string() {
    assert_eq!(decode_key(COUNTING_KEY), Ok((0..16u8).collect::<Vec<u8>>()));
    assert_eq!(decode_key(ZERO_KEY).map(|key| key.len()), Ok(KEY_LEN));
}

#[test]
fn decode_key_rejects_bad_text_and_wrong_lengths() {
    assert_eq!(decode_key("***"), Err(CodecError::InvalidKey));
    assert_eq!(decode_key("AAAAAAAAAAAAAAAAAAAAAA=="), Err(CodecError::InvalidKey));
    assert_eq!(decode_key(""), Err(CodecError::InvalidKey));
    assert_eq!(decode_key("AAAA"), Err(CodecError::InvalidKey));
    // 32 bytes: a longer AES key is not accepted either
    assert_eq!(
        decode_key("AAAAAAAAAAAAAAAAAAAAAAAAAAAAAAAAAAAAAAAAAAA"),
        Err(CodecError::InvalidKey)
    );
}

#[test]
fn cipher_outcome_names_the_failure() {
    assert_eq!(cipher_outcome(Some(vec![1, 2, 3])), Ok(vec![1, 2, 3]));
    assert_eq!(cipher_outcome(None), Err(CodecError::CipherFailure));
}

#[test]
fn encrypt_then_decrypt_gives_the_buffer_back() {
    for len in 3..40usize {
        let buffer: Vec<u8> = (0..len).map(|i| (i * 37 + 11) as u8).collect();
        let cipher = encrypt(&buffer, COUNTING_KEY).unwrap();
        assert_eq!(cipher.len(), buffer.len());
        assert_eq!(decrypt(&cipher, COUNTING_KEY), Ok(buffer));
    }
}

#[test]
fn four_zero_bytes_come_back_under_the_same_key() {
    let cipher = encrypt(&[0, 0, 0, 0], ZERO_KEY).unwrap();
    assert_eq!(cipher.len(), 4);
    assert_ne!(cipher, vec![0, 0, 0, 0]);
    assert_eq!(decrypt(&cipher, ZERO_KEY), Ok(vec![0, 0, 0, 0]));
}

#[test]
fn decrypting_the_halves_apart_does_not_give_the_buffer_back() {
    let cipher = encrypt(&[0, 0, 0, 0], ZERO_KEY).unwrap();
    // two bytes are fewer than the cipher takes
    assert_eq!(decrypt(&cipher[..2], ZERO_KEY), Err(CodecError::CipherFailure));
    assert_eq!(decrypt(&cipher[2..], ZERO_KEY), Err(CodecError::CipherFailure));
    let cipher = encrypt(&[0; 8], ZERO_KEY).unwrap();
    let mut joined = decrypt(&cipher[..4], ZERO_KEY).unwrap();
    joined.extend(decrypt(&cipher[4..], ZERO_KEY).unwrap());
    assert_eq!(joined.len(), 8);
    assert_ne!(joined, vec![0; 8]);
}

#[test]
fn encrypt_changes_the_buffer_and_depends_on_the_key() {
    let buffer = vec![0xAB, 0xCD, 0xEF, 0x01, 0x23];
    let first = encrypt(&buffer, ZERO_KEY).unwrap();
    let second = encrypt(&buffer, COUNTING_KEY).unwrap();
    assert_ne!(first, buffer);
    assert_ne!(second, buffer);
    assert_ne!(first, second);
    assert_eq!(encrypt(&buffer, ZERO_KEY).unwrap(), first);
}

#[test]
fn decrypt_is_not_encrypt() {
    let buffer = vec![9u8; 12];
    let forwards = encrypt(&buffer, ZERO_KEY).unwrap();
    let backwards = decrypt(&buffer, ZERO_KEY).unwrap();
    assert_ne!(backwards, buffer);
    assert_ne!(forwards, backwards);
    assert_eq!(encrypt(&backwards, ZERO_KEY), Ok(buffer));
}

#[test]
fn a_wrong_key_does_not_decrypt() {
    let buffer: Vec<u8> = (0..32u8).collect();
    let cipher = encrypt(&buffer, ZERO_KEY).unwrap();
    let wrong = decrypt(&cipher, COUNTING_KEY).unwrap();
    assert_eq!(wrong.len(), buffer.len());
    assert_ne!(wrong, buffer);
}

#[test]
fn the_cipher_rejects_short_buffers() {
    assert_eq!(encrypt(&[], ZERO_KEY), Err(CodecError::CipherFailure));
    assert_eq!(encrypt(&[1], ZERO_KEY), Err(CodecError::CipherFailure));
    assert_eq!(encrypt(&[1, 2], ZERO_KEY), Err(CodecError::CipherFailure));
    assert!(encrypt(&[1, 2, 3], ZERO_KEY).is_ok());
    assert_eq!(decrypt(&[], ZERO_KEY), Err(CodecError::CipherFailure));
    assert_eq!(decrypt(&[1, 2], ZERO_KEY), Err(CodecError::CipherFailure));
    assert!(decrypt(&[1, 2, 3], ZERO_KEY).is_ok());
}

#[test]
fn a_bad_key_is_reported_before_the_cipher_is_asked() {
    assert_eq!(encrypt(&[], "AAAA"), Err(CodecError::InvalidKey));
    assert_eq!(encrypt(&[1, 2, 3, 4], "?"), Err(CodecError::InvalidKey));
    assert_eq!(decrypt(&[1, 2, 3, 4], "AAAA"), Err(CodecError::InvalidKey));
    assert_eq!(decrypt(&[], "not a key"), Err(CodecError::InvalidKey));
}

#[test]
fn gen_key_gives_a_key_that_decode_key_accepts() {
    let key = gen_key();
    assert_eq!(key.len(), 22);
    assert!(key.chars().all(|c| c.is_ascii_alphanumeric() || c == '-' || c == '_'));
    let bytes = decode_key(&key).unwrap();
    assert_eq!(bytes.len(), KEY_LEN);
    let buffer = vec![1, 2, 3, 4, 5, 6];
    let cipher = encrypt(&buffer, &key).unwrap();
    assert_eq!(decrypt(&cipher, &key), Ok(buffer));
}

#[test]
fn gen_key_gives_fresh_keys() {
    let keys: Vec<String> = (0..8).map(|_| gen_key()).collect();
    for (i, key) in keys.iter().enumerate() {
        for other in keys.iter().skip(i + 1) {
            assert_ne!(key, other);
        }
    }
}

#[test]
fn encrypt_known_answer() {
    assert_eq!(encrypt(&[0xAB, 0xCD, 0xEF], ZERO_KEY), Ok(vec![240, 126, 126]));
    assert_eq!(decrypt(&[240, 126, 126], ZERO_KEY), Ok(vec![0xAB, 0xCD, 0xEF]));
}
