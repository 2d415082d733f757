//! The two cryptographic primitives the vault seals with: SHA-256 from the
//! `sha2` crate and ChaCha20-Poly1305 from the `chacha20poly1305` crate.
//! Their outputs are named, not restated: nothing here re-derives them.
use vstd::prelude::*;
use sha2::Digest;
use chacha20poly1305::{AeadInPlace, KeyInit};

verus! {

/// The SHA-256 digest of a byte string.
pub uninterp spec fn sha256_digest(bytes: Seq<u8>) -> Seq<u8>;

/// The ChaCha20-Poly1305 sealing of `plain` under a key, a nonce and
/// associated data: the ciphertext, as long as `plain`, followed by the
/// sixteen-byte tag.
pub uninterp spec fn chacha_seal(key: Seq<u8>, nonce: Seq<u8>, aad: Seq<u8>, plain: Seq<u8>) -> Seq<u8>;

/// The ChaCha20-Poly1305 opening of a ciphertext and tag: the plaintext when
/// the tag authenticates them with the key, nonce and associated data, and
/// `None` otherwise.
pub uninterp spec fn chacha_open(key: Seq<u8>, nonce: Seq<u8>, aad: Seq<u8>, cipher: Seq<u8>, tag: Seq<u8>) -> Option<Seq<u8>>;

/// `sha2::Sha256::digest`: the result is the digest of exactly `bytes`.
#[verifier::external_body]
pub(crate) fn sha256(bytes: &[u8]) -> (r: [u8; 32])
    ensures
        r@ == sha256_digest(bytes@),
{
    sha2::Sha256::digest(bytes).into()
}

/// `ChaCha20Poly1305::encrypt_in_place_detached`: encrypts the buffer in
/// place and returns the tag. The crate refuses only buffers of 2^32 blocks
/// or more, so a 256-byte buffer is always sealed; and, as for every AEAD,
/// opening the result with the same key, nonce and associated data gives
/// the plaintext back.
#[verifier::external_body]
pub(crate) fn seal(key: &[u8; 32], nonce: &[u8; 12], aad: &[u8], buffer: &mut [u8; 256]) -> (r: Result<[u8; 16], ()>)
    ensures
        r matches Ok(tag) && final(buffer)@ + tag@ == chacha_seal(key@, nonce@, aad@, old(buffer)@),
        r matches Ok(tag) ==> chacha_open(key@, nonce@, aad@, final(buffer)@, tag@) == Some(old(buffer)@),
{
    let cipher = chacha20poly1305::ChaCha20Poly1305::new(chacha20poly1305::Key::from_slice(key));
    match cipher.encrypt_in_place_detached(chacha20poly1305::Nonce::from_slice(nonce), aad, buffer) {
        Ok(tag) => Ok(tag.into()),
        Err(_) => Err(()),
    }
}

/// `ChaCha20Poly1305::decrypt_in_place_detached`: the tag is checked before
/// anything is decrypted, so a refused buffer is left as it was.
#[verifier::external_body]
pub(crate) fn open(key: &[u8; 32], nonce: &[u8; 12], aad: &[u8], buffer: &mut [u8; 256], tag: &[u8; 16]) -> (r: Result<(), ()>)
    ensures
        match chacha_open(key@, nonce@, aad@, old(buffer)@, tag@) {
            Some(plain) => r is Ok && final(buffer)@ == plain,
            None => r is Err && final(buffer)@ == old(buffer)@,
        },
{
    let cipher = chacha20poly1305::ChaCha20Poly1305::new(chacha20poly1305::Key::from_slice(key));
    match cipher.decrypt_in_place_detached(
        chacha20poly1305::Nonce::from_slice(nonce),
        aad,
        buffer,
        chacha20poly1305::Tag::from_slice(tag),
    ) {
        Ok(()) => Ok(()),
        Err(_) => Err(()),
    }
}

} // verus!
