//! The keyed step: format-preserving encryption of a buffer under a 16-byte
//! secret that travels as URL-safe base64 without padding.
//!
//! The encoding and the cipher themselves are the work of the `base64-url`
//! and `fpe` crates. What this module assumes of them is written on the
//! functions marked `external_body`; everything else is proved from that.

use vstd::prelude::*;
use aes::Aes128;
use fpe::ff1::{BinaryNumeralString, FF1};
use rand::Rng;
use crate::error::CodecError;

verus! {

/// Number of bytes in a secret key.
pub const KEY_LEN: usize = 16;

/// What `base64_url::decode` makes of a string: the bytes it stands for, or
/// `None` where it is not URL-safe base64 without padding.
pub uninterp spec fn base64url_decoding(code: Seq<char>) -> Option<Seq<u8>>;

/// The string that `base64_url::encode` writes for a byte sequence.
pub uninterp spec fn base64url_encoding(bytes: Seq<u8>) -> Seq<char>;

/// The FF1 ciphertext of `data` under the AES-128 key `key`, over the
/// alphabet of two numerals and with the empty tweak.
pub uninterp spec fn ff1_encryption(key: Seq<u8>, data: Seq<u8>) -> Seq<u8>;

/// The FF1 plaintext of `data` under the AES-128 key `key`, over the
/// alphabet of two numerals and with the empty tweak.
pub uninterp spec fn ff1_decryption(key: Seq<u8>, data: Seq<u8>) -> Seq<u8>;

/// Whether the cipher takes a buffer of `len` bytes: its bit string must
/// have at least 20 numerals and at most as many as a `u32` counts.
pub open spec fn cipher_accepts(len: nat) -> bool {
    20 <= 8 * len <= u32::MAX
}

/// The cipher takes buffers of 3 bytes up to 536,870,911 bytes.
pub proof fn lemma_cipher_lengths(len: nat)
    ensures
        cipher_accepts(len) <==> 3 <= len <= 0x1FFF_FFFF,
{
}

/// A byte vector, if there is one, as a sequence.
pub open spec fn option_view(v: Option<Vec<u8>>) -> Option<Seq<u8>> {
    match v {
        Some(bytes) => Some(bytes@),
        None => None,
    }
}

/// The outcome of a fallible step, with the bytes as a sequence.
pub open spec fn result_view(r: Result<Vec<u8>, CodecError>) -> Result<Seq<u8>, CodecError> {
    match r {
        Ok(bytes) => Ok(bytes@),
        Err(e) => Err(e),
    }
}

/// The key that decoded bytes make: the bytes themselves where there are
/// exactly 16 of them.
pub open spec fn spec_key_from_decoded(decoded: Option<Seq<u8>>) -> Result<Seq<u8>, CodecError> {
    match decoded {
        Some(bytes) => if bytes.len() == KEY_LEN {
            Ok(bytes)
        } else {
            Err(CodecError::InvalidKey)
        },
        None => Err(CodecError::InvalidKey),
    }
}

/// The key that a key string stands for.
pub open spec fn spec_key(code: Seq<char>) -> Result<Seq<u8>, CodecError> {
    spec_key_from_decoded(base64url_decoding(code))
}

/// What the cipher step makes of its outcome: no output is a failure of the
/// cipher.
pub open spec fn spec_cipher_outcome(produced: Option<Seq<u8>>) -> Result<Seq<u8>, CodecError> {
    match produced {
        Some(bytes) => Ok(bytes),
        None => Err(CodecError::CipherFailure),
    }
}

/// The encryption of `bytes` under the key string `code`.
pub open spec fn spec_encrypt(bytes: Seq<u8>, code: Seq<char>) -> Result<Seq<u8>, CodecError> {
    match spec_key(code) {
        Ok(key) => if cipher_accepts(bytes.len()) {
            Ok(ff1_encryption(key, bytes))
        } else {
            Err(CodecError::CipherFailure)
        },
        Err(e) => Err(e),
    }
}

/// The decryption of `cipher` under the key string `code`.
pub open spec fn spec_decrypt(cipher: Seq<u8>, code: Seq<char>) -> Result<Seq<u8>, CodecError> {
    match spec_key(code) {
        Ok(key) => if cipher_accepts(cipher.len()) {
            Ok(ff1_decryption(key, cipher))
        } else {
            Err(CodecError::CipherFailure)
        },
        Err(e) => Err(e),
    }
}

/// Decodes a key string with `base64_url::decode`.
///
/// Assumed: the result is a function of the string alone, named
/// `base64url_decoding`; a string that the decoder rejects gives `None`.
#[verifier::external_body]
pub fn base64url_to_bytes(code: &str) -> (decoded: Option<Vec<u8>>)
    ensures
        option_view(decoded) == base64url_decoding(code@),
{
    base64_url::decode(code).ok()
}

/// Encodes bytes with `base64_url::encode`.
///
/// Assumed: the result is a function of the bytes alone, named
/// `base64url_encoding`, and `base64_url::decode` reads the bytes back from
/// it, as both use the same unpadded URL-safe engine. The length bound keeps
/// the encoder's own length computation within `usize`.
#[verifier::external_body]
fn bytes_to_base64url(bytes: &[u8]) -> (code: String)
    requires
        (bytes@.len() / 3) * 4 + 3 <= usize::MAX,
    ensures
        code@ == base64url_encoding(bytes@),
        base64url_decoding(code@) == Some(bytes@),
{
    base64_url::encode(bytes)
}

/// Encrypts with `FF1::<Aes128>::encrypt` of the `fpe` crate, radix 2 and
/// empty tweak, the bytes read and written in little-endian bit order.
///
/// Assumed: the cipher gives an output exactly for the lengths that
/// `cipher_accepts` describes; the output is a function of key and data,
/// named `ff1_encryption`, as long as the data; and `FF1::decrypt` under the
/// same key gives the data back, the two being inverse permutations of the
/// bit strings of one length. The cipher always takes radix 2. A key of
/// another length than 16 makes it panic, and a bit count beyond `usize`
/// cannot be formed.
#[verifier::external_body]
fn ff1_encrypt(key: &[u8], data: &[u8]) -> (produced: Option<Vec<u8>>)
    requires
        key@.len() == KEY_LEN,
        8 * data@.len() <= usize::MAX,
    ensures
        produced is Some <==> cipher_accepts(data@.len()),
        produced matches Some(out) ==> out@ == ff1_encryption(key@, data@) && out@.len()
            == data@.len() && ff1_decryption(key@, out@) == data@,
{
    let ff1 = FF1::<Aes128>::new(key, 2).ok()?;
    let text = BinaryNumeralString::from_bytes_le(data);
    Some(ff1.encrypt(&[], &text).ok()?.to_bytes_le())
}

/// Decrypts with `FF1::<Aes128>::decrypt` of the `fpe` crate, radix 2 and
/// empty tweak, the bytes read and written in little-endian bit order.
///
/// Assumed: the cipher gives an output exactly for the lengths that
/// `cipher_accepts` describes; the output is a function of key and data,
/// named `ff1_decryption`, as long as the data; and `FF1::encrypt` under the
/// same key gives the data back, the two being inverse permutations of the
/// bit strings of one length. The cipher always takes radix 2. A key of
/// another length than 16 makes it panic, and a bit count beyond `usize`
/// cannot be formed.
#[verifier::external_body]
fn ff1_decrypt(key: &[u8], data: &[u8]) -> (produced: Option<Vec<u8>>)
    requires
        key@.len() == KEY_LEN,
        8 * data@.len() <= usize::MAX,
    ensures
        produced is Some <==> cipher_accepts(data@.len()),
        produced matches Some(out) ==> out@ == ff1_decryption(key@, data@) && out@.len()
            == data@.len() && ff1_encryption(key@, out@) == data@,
{
    let ff1 = FF1::<Aes128>::new(key, 2).ok()?;
    let text = BinaryNumeralString::from_bytes_le(data);
    Some(ff1.decrypt(&[], &text).ok()?.to_bytes_le())
}

/// One byte from the thread-local generator of the `rand` crate. Nothing is
/// assumed of its value.
#[verifier::external_body]
fn random_byte() -> u8 {
    rand::rng().random()
}

/// Turns decoded key bytes into a key: there must be exactly 16 of them.
pub fn key_from_decoded(decoded: Option<Vec<u8>>) -> (key: Result<Vec<u8>, CodecError>)
    ensures
        result_view(key) == spec_key_from_decoded(option_view(decoded)),
{
    match decoded {
        Some(bytes) => {
            if bytes.len() == KEY_LEN {
                Ok(bytes)
            } else {
                Err(CodecError::InvalidKey)
            }
        },
        None => Err(CodecError::InvalidKey),
    }
}

/// Reads the 16-byte key out of a key string.
pub fn decode_key(code: &str) -> (key: Result<Vec<u8>, CodecError>)
    ensures
        result_view(key) == spec_key(code@),
{
    key_from_decoded(base64url_to_bytes(code))
}

/// Turns what the cipher produced into the outcome of the cipher step.
pub fn cipher_outcome(produced: Option<Vec<u8>>) -> (r: Result<Vec<u8>, CodecError>)
    ensures
        result_view(r) == spec_cipher_outcome(option_view(produced)),
{
    match produced {
        Some(bytes) => Ok(bytes),
        None => Err(CodecError::CipherFailure),
    }
}

/// Encrypts `bytes` under the key string `key`. The output is as long as the
/// input, and `decrypt` under the same key string gives the input back.
pub fn encrypt(bytes: &[u8], key: &str) -> (r: Result<Vec<u8>, CodecError>)
    ensures
        result_view(r) == spec_encrypt(bytes@, key@),
        r matches Ok(out) ==> out@.len() == bytes@.len() && spec_decrypt(out@, key@) == Ok::<
            Seq<u8>,
            CodecError,
        >(bytes@),
{
    let byte_key = match decode_key(key) {
        Ok(byte_key) => byte_key,
        Err(e) => {
            return Err(e);
        },
    };
    if bytes.len() > usize::MAX / 8 {
        return Err(CodecError::CipherFailure);
    }
    cipher_outcome(ff1_encrypt(byte_key.as_slice(), bytes))
}

/// Decrypts `cipher` under the key string `key`. The output is as long as
/// the input, and `encrypt` under the same key string gives the input back.
pub fn decrypt(cipher: &[u8], key: &str) -> (r: Result<Vec<u8>, CodecError>)
    ensures
        result_view(r) == spec_decrypt(cipher@, key@),
        r matches Ok(out) ==> out@.len() == cipher@.len() && spec_encrypt(out@, key@) == Ok::<
            Seq<u8>,
            CodecError,
        >(cipher@),
{
    let byte_key = match decode_key(key) {
        Ok(byte_key) => byte_key,
        Err(e) => {
            return Err(e);
        },
    };
    if cipher.len() > usize::MAX / 8 {
        return Err(CodecError::CipherFailure);
    }
    cipher_outcome(ff1_decrypt(byte_key.as_slice(), cipher))
}

/// A fresh key string: 16 random bytes in URL-safe base64 without padding.
/// The string is one that `decode_key` accepts.
pub fn gen_key() -> (key: String)
    ensures
        spec_key(key@) is Ok,
        exists|bytes: Seq<u8>|
            bytes.len() == KEY_LEN && #[trigger] base64url_encoding(bytes) == key@ && spec_key(key@)
                == Ok::<Seq<u8>, CodecError>(bytes),
{
    let mut bytes: Vec<u8> = Vec::new();
    let mut i: usize = 0;
    while i < KEY_LEN
        invariant
            i <= KEY_LEN,
            bytes@.len() == i,
        decreases KEY_LEN - i,
    {
        bytes.push(random_byte());
        i += 1;
    }
    bytes_to_base64url(bytes.as_slice())
}

} // verus!
