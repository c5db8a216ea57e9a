//! Crypto primitives: SHA3 hashing and the ChaCha20-Poly1305 cipher, relied
//! on through openssl. The digests and the ciphertext are functions of their
//! inputs alone; they are given names here, and the contracts of the callers
//! speak of those names.

use vstd::prelude::*;

verus! {

/// The SHA3-512 digest (64 bytes) of a byte string.
pub uninterp spec fn sha3_512_of(data: Seq<u8>) -> Seq<u8>;

/// The SHA3-256 digest (32 bytes) of a byte string.
pub uninterp spec fn sha3_256_of(data: Seq<u8>) -> Seq<u8>;

/// The ChaCha20-Poly1305 ciphertext for a key, an IV and a plaintext.
pub uninterp spec fn chacha_encrypt_of(key: Seq<u8>, iv: Seq<u8>, plain: Seq<u8>) -> Seq<u8>;

/// What ChaCha20-Poly1305 decryption returns for a key, an IV and a buffer.
pub uninterp spec fn chacha_decrypt_of(key: Seq<u8>, iv: Seq<u8>, cipher: Seq<u8>) -> Seq<u8>;

/// Relies on openssl::hash::hash with MessageDigest::sha3_512: the digest is
/// 64 bytes and depends on the input bytes alone.
#[verifier::external_body]
pub(crate) fn sha3_512(data: &[u8]) -> (r: Vec<u8>)
    ensures
        r@ == sha3_512_of(data@),
        r@.len() == 64,
{
    openssl::hash::hash(openssl::hash::MessageDigest::sha3_512(), data)
        .expect("sha3-512 digest failed")
        .to_vec()
}

/// Relies on openssl::hash::hash with MessageDigest::sha3_256: the digest is
/// 32 bytes and depends on the input bytes alone.
#[verifier::external_body]
pub(crate) fn sha3_256(data: &[u8]) -> (r: Vec<u8>)
    ensures
        r@ == sha3_256_of(data@),
        r@.len() == 32,
{
    openssl::hash::hash(openssl::hash::MessageDigest::sha3_256(), data)
        .expect("sha3-256 digest failed")
        .to_vec()
}

/// Relies on openssl::symm::encrypt with Cipher::chacha20_poly1305, and on
/// openssl::rand::rand_bytes for the fresh 12-byte IV; lengths past i32::MAX
/// are refused by the underlying call, so they are excluded here. ChaCha20 is a stream
/// cipher: the ciphertext has the plaintext's length and is a function of
/// key, IV and plaintext alone, and openssl::symm::decrypt under the same
/// key and IV returns the plaintext. Returns (iv, ciphertext).
#[verifier::external_body]
pub(crate) fn encrypt_chacha20_poly1305(key: &[u8], buffer: &[u8]) -> (r: (Vec<u8>, Vec<u8>))
    requires
        key@.len() == 32,
        buffer@.len() <= 0x7fff_ffff,
    ensures
        r.0@.len() == 12,
        r.1@ == chacha_encrypt_of(key@, r.0@, buffer@),
        r.1@.len() == buffer@.len(),
        chacha_decrypt_of(key@, r.0@, r.1@) == buffer@,
{
    let mut fresh_iv = vec![0u8; 12];
    openssl::rand::rand_bytes(&mut fresh_iv).expect("failed to generate an IV");
    let encrypted = openssl::symm::encrypt(
        openssl::symm::Cipher::chacha20_poly1305(),
        key,
        Some(&fresh_iv),
        buffer,
    ).expect("failed to encrypt with chacha20-poly1305");
    (fresh_iv, encrypted)
}

/// Relies on openssl::symm::decrypt with Cipher::chacha20_poly1305: the
/// result has the input's length, depends on key, IV and input alone, and
/// inverts what openssl::symm::encrypt produced under the same key and IV.
#[verifier::external_body]
pub(crate) fn decrypt_chacha20_poly1305(key: &[u8], iv: &[u8], buffer: &[u8]) -> (r: Vec<u8>)
    requires
        key@.len() == 32,
        iv@.len() == 12,
        buffer@.len() <= 0x7fff_ffff,
    ensures
        r@ == chacha_decrypt_of(key@, iv@, buffer@),
        r@.len() == buffer@.len(),
        forall|plain: Seq<u8>| #[trigger]
            chacha_encrypt_of(key@, iv@, plain) == buffer@ ==> r@ == plain,
{
    openssl::symm::decrypt(
        openssl::symm::Cipher::chacha20_poly1305(),
        key,
        Some(iv),
        buffer,
    ).expect("failed to decrypt with chacha20-poly1305")
}

/// Relies on openssl::rand::rand_bytes: nothing is assumed of the bytes
/// beyond their count; lengths past i32::MAX are refused by the underlying
/// call, so they are excluded here.
#[verifier::external_body]
pub(crate) fn random_bytes(len: usize) -> (r: Vec<u8>)
    requires
        len <= 0x7fff_ffff,
    ensures
        r@.len() == len,
{
    let mut buf = vec![0u8; len];
    openssl::rand::rand_bytes(&mut buf).expect("failed to draw random bytes");
    buf
}

} // verus!
