//! Key derivation and authenticated encryption of item content.
//!
//! Keys are 32 bytes, derived from a password and an ASCII salt by PBKDF2
//! over HMAC-SHA-256. Content is sealed with XChaCha20-Poly1305 under a
//! fresh random 24-byte nonce; the nonce is prepended to the ciphertext,
//! so a stored blob is `nonce ‖ ciphertext ‖ tag`.
//!
//! The calls into the crypto crates stand behind trusted wrappers. What
//! they compute is named by uninterpreted spec functions ([`pbkdf2_sha256`],
//! [`aead_seal`], [`aead_open`]); everything around the calls — framing,
//! length checks, UTF-8 handling and the round-trip guarantee — is verified.

use vstd::prelude::*;
use vstd::utf8::{decode_utf8, encode_utf8, valid_utf8};
use vstd::slice::slice_index_get;

use chacha20poly1305::aead::{Aead, KeyInit};
use chacha20poly1305::{XChaCha20Poly1305, XNonce};

use crate::errors::VaultError;

verus! {

/// What PBKDF2 over HMAC-SHA-256 derives from a password, a salt and an
/// iteration count: a function of its arguments alone.
pub uninterp spec fn pbkdf2_sha256(password: Seq<u8>, salt: Seq<u8>, iterations: u32) -> Seq<u8>;

/// What XChaCha20-Poly1305 produces for a key, a nonce and a plaintext:
/// a function of its arguments alone.
pub uninterp spec fn aead_seal(key: Seq<u8>, nonce: Seq<u8>, plaintext: Seq<u8>) -> Seq<u8>;

/// What XChaCha20-Poly1305 decryption returns for a key, a nonce and a
/// ciphertext: the plaintext when the tag authenticates, `None` otherwise.
pub uninterp spec fn aead_open(key: Seq<u8>, nonce: Seq<u8>, ciphertext: Seq<u8>) -> Option<Seq<u8>>;

/// Can this plaintext be sealed? The cipher's keystream runs out after
/// 2^32 - 1 blocks of 64 bytes; anything shorter always seals.
pub open spec fn sealable(plaintext: Seq<u8>) -> bool {
    plaintext.len() < 0xffff_ffff * 64
}

/// What decrypting a stored blob (nonce prefix plus ciphertext) under `key`
/// yields, as bytes.
pub open spec fn blob_opens_to(key: Seq<u8>, blob: Seq<u8>) -> Option<Seq<u8>> {
    if blob.len() >= 24 {
        aead_open(key, blob.subrange(0, 24), blob.subrange(24, blob.len() as int))
    } else {
        None
    }
}

/// What decrypting a stored blob under `key` yields, as text: the decoded
/// plaintext when the tag authenticates and the bytes are valid UTF-8.
pub open spec fn blob_plaintext(key: Seq<u8>, blob: Seq<u8>) -> Option<Seq<char>> {
    match blob_opens_to(key, blob) {
        Some(pt) => if valid_utf8(pt) {
            Some(decode_utf8(pt))
        } else {
            None
        },
        None => None,
    }
}

/// Derive a 32-byte key from a password and a salt.
///
/// Relies on `pbkdf2::pbkdf2_hmac` with `sha2::Sha256`: it fills the output
/// with PBKDF2 key material, a deterministic function of password, salt and
/// round count, and accepts any password length and any round count.
#[verifier::external_body]
pub fn derive_key_from_password(password: &str, salt: &str, iterations: u32) -> (key: Vec<u8>)
    ensures
        key@.len() == 32,
        key@ == pbkdf2_sha256(encode_utf8(password@), encode_utf8(salt@), iterations),
{
    let mut key = [0u8; 32];
    pbkdf2::pbkdf2_hmac::<sha2::Sha256>(password.as_bytes(), salt.as_bytes(), iterations, &mut key);
    key.to_vec()
}

/// Relies on `XChaCha20Poly1305::encrypt` (the `aead::Aead` trait): it seals
/// the plaintext under the key and nonce, appending the 16-byte Poly1305 tag,
/// and decrypting the result with the same key and nonce returns the
/// plaintext. It fails only when the plaintext outruns the keystream, so
/// a [`sealable`] plaintext always seals.
#[verifier::external_body]
fn xchacha_seal(key: &[u8], nonce: &[u8], plaintext: &[u8]) -> (r: Option<Vec<u8>>)
    requires
        key@.len() == 32,
        nonce@.len() == 24,
    ensures
        sealable(plaintext@) ==> r is Some,
        r matches Some(ct) ==> {
            &&& ct@ == aead_seal(key@, nonce@, plaintext@)
            &&& ct@.len() == plaintext@.len() + 16
            &&& aead_open(key@, nonce@, ct@) == Some(plaintext@)
        },
{
    let key_arr: [u8; 32] = key.try_into().unwrap();
    let nonce_arr: [u8; 24] = nonce.try_into().unwrap();
    let cipher = XChaCha20Poly1305::new(&key_arr.into());
    cipher.encrypt(&XNonce::from(nonce_arr), plaintext).ok()
}

/// Relies on `XChaCha20Poly1305::decrypt` (the `aead::Aead` trait): it
/// returns the plaintext exactly when the tag authenticates the ciphertext
/// under the key and nonce, and an error otherwise.
#[verifier::external_body]
fn xchacha_open(key: &[u8], nonce: &[u8], ciphertext: &[u8]) -> (r: Option<Vec<u8>>)
    requires
        key@.len() == 32,
        nonce@.len() == 24,
    ensures
        r matches Some(pt) ==> aead_open(key@, nonce@, ciphertext@) == Some(pt@) && pt@.len() + 16
            == ciphertext@.len(),
        r is None ==> aead_open(key@, nonce@, ciphertext@) is None,
{
    let key_arr: [u8; 32] = key.try_into().unwrap();
    let nonce_arr: [u8; 24] = nonce.try_into().unwrap();
    let cipher = XChaCha20Poly1305::new(&key_arr.into());
    cipher.decrypt(&XNonce::from(nonce_arr), ciphertext).ok()
}

/// Relies on `rand::fill` (the thread-local CSPRNG): 24 fresh random bytes.
/// Nothing is assumed of their values.
#[verifier::external_body]
fn random_nonce() -> (r: Vec<u8>)
    ensures
        r@.len() == 24,
{
    let mut arr = [0u8; 24];
    rand::fill(&mut arr[..]);
    arr.to_vec()
}

/// Relies on `String::from_utf8`: it succeeds exactly on valid UTF-8 and
/// returns the text those bytes encode.
#[verifier::external_body]
fn string_from_utf8(bytes: Vec<u8>) -> (r: Option<String>)
    ensures
        r matches Some(s) ==> valid_utf8(bytes@) && s@ == decode_utf8(bytes@),
        r is None ==> !valid_utf8(bytes@),
{
    String::from_utf8(bytes).ok()
}

/// Relies on `String::from_utf8_lossy`: on valid UTF-8 it returns exactly
/// the text those bytes encode; otherwise some replacement text.
#[verifier::external_body]
pub(crate) fn string_from_utf8_lossy(bytes: &[u8]) -> (r: String)
    ensures
        valid_utf8(bytes@) ==> r@ == decode_utf8(bytes@),
{
    String::from_utf8_lossy(bytes).to_string()
}

/// Copy `src[from..to]` into a fresh vector.
fn bytes_range(src: &[u8], from: usize, to: usize) -> (r: Vec<u8>)
    requires
        from <= to <= src@.len(),
    ensures
        r@ == src@.subrange(from as int, to as int),
{
    let mut out: Vec<u8> = Vec::new();
    let mut i: usize = from;
    while i < to
        invariant
            from <= i <= to <= src@.len(),
            out@ == src@.subrange(from as int, i as int),
        decreases to - i,
    {
        out.push(*slice_index_get(src, i));
        proof {
            assert(out@ =~= src@.subrange(from as int, i + 1 as int));
        }
        i = i + 1;
    }
    out
}

/// Encrypt `plaintext` under `key` with a fresh random nonce, returning
/// `nonce ‖ ciphertext`. A sealable plaintext always encrypts; whatever
/// nonce was drawn, decrypting the result under the same key gives the
/// plaintext back.
pub fn encrypt_content(key: &[u8], plaintext: &str) -> (r: Result<Vec<u8>, VaultError>)
    requires
        key@.len() == 32,
    ensures
        sealable(encode_utf8(plaintext@)) ==> r is Ok,
        r matches Ok(blob) ==> {
            &&& blob@.len() == 24 + encode_utf8(plaintext@).len() + 16
            &&& blob_opens_to(key@, blob@) == Some(encode_utf8(plaintext@))
            &&& blob_plaintext(key@, blob@) == Some(plaintext@)
        },
        r matches Err(e) ==> e == VaultError::CryptoFailure,
{
    let mut nonce = random_nonce();
    let pt = plaintext.as_bytes();
    match xchacha_seal(key, nonce.as_slice(), pt) {
        Some(mut ct) => {
            let ghost n = nonce@;
            let ghost c = ct@;
            nonce.append(&mut ct);
            proof {
                assert(nonce@.subrange(0, 24) =~= n);
                assert(nonce@.subrange(24, nonce@.len() as int) =~= c);
                broadcast use vstd::utf8::encode_utf8_valid_utf8;
                broadcast use vstd::utf8::encode_utf8_decode_utf8;
            }
            Ok(nonce)
        },
        None => Err(VaultError::CryptoFailure),
    }
}

/// Decrypt a stored blob (`nonce ‖ ciphertext`) under `key`.
///
/// A blob shorter than the nonce is rejected as `InvalidCiphertext`; a
/// failed authentication or malformed text is the generic `CryptoFailure`,
/// never distinguished further.
pub fn decrypt_content(key: &[u8], encrypted: &[u8]) -> (r: Result<String, VaultError>)
    requires
        key@.len() == 32,
    ensures
        r matches Ok(s) ==> blob_plaintext(key@, encrypted@) == Some(s@),
        r matches Err(e) ==> {
            &&& blob_plaintext(key@, encrypted@) is None
            &&& (e == VaultError::InvalidCiphertext || e == VaultError::CryptoFailure)
            &&& (e == VaultError::InvalidCiphertext <==> encrypted@.len() < 24)
        },
{
    if encrypted.len() < 24 {
        return Err(VaultError::InvalidCiphertext);
    }
    let nonce = bytes_range(encrypted, 0, 24);
    let ct = bytes_range(encrypted, 24, encrypted.len());
    match xchacha_open(key, nonce.as_slice(), ct.as_slice()) {
        Some(pt) => {
            let ghost ptv = pt@;
            match string_from_utf8(pt) {
                Some(s) => Ok(s),
                None => Err(VaultError::CryptoFailure),
            }
        },
        None => Err(VaultError::CryptoFailure),
    }
}

/// Encrypt the password itself as the vault's verification payload.
pub fn encrypt_password(key: &[u8], password: &str) -> (r: Result<Vec<u8>, VaultError>)
    requires
        key@.len() == 32,
    ensures
        sealable(encode_utf8(password@)) ==> r is Ok,
        r matches Ok(blob) ==> {
            &&& blob_opens_to(key@, blob@) == Some(encode_utf8(password@))
            &&& blob_plaintext(key@, blob@) == Some(password@)
        },
        r matches Err(e) ==> e == VaultError::CryptoFailure,
{
    encrypt_content(key, password)
}

} // verus!
