//! Key derivation and AEAD round trips.

use brainbox::crypto::{decrypt_content, derive_key_from_password, encrypt_content,
    encrypt_password};
use brainbox::errors::VaultError;

#[test]
fn derive_key_is_deterministic() {
    let a = derive_key_from_password("correct horse", "17", 100_000);
    let b = derive_key_from_password("correct horse", "17", 100_000);
    assert_eq!(a, b);
    assert_eq!(a.len(), 32);
}

#[test]
fn derive_key_differs_by_salt_and_password() {
    let a = derive_key_from_password("pw", "1", 10_000);
    let b = derive_key_from_password("pw", "2", 10_000);
    let c = derive_key_from_password("pw2", "1", 10_000);
    assert_ne!(a, b);
    assert_ne!(a, c);
}

#[test]
fn derive_key_matches_published_vector() {
    // PBKDF2-HMAC-SHA-256, P="password", S="salt", c=1, dkLen=32 (RFC 7914)
    let k = derive_key_from_password("password", "salt", 1);
    let expected: [u8; 32] = [
        0x12, 0x0f, 0xb6, 0xcf, 0xfc, 0xf8, 0xb3, 0x2c, 0x43, 0xe7, 0x22, 0x52, 0x56, 0xc4, 0xf8,
        0x37, 0xa8, 0x65, 0x48, 0xc9, 0x2c, 0xcc, 0x35, 0x48, 0x08, 0x05, 0x98, 0x7c, 0xb7, 0x0b,
        0xe1, 0x7b,
    ];
    assert_eq!(k.as_slice(), expected.as_slice());
}

#[test]
fn aead_round_trip_restores_plaintext() {
    let key = derive_key_from_password("pw", "1", 1_000);
    let blob = encrypt_content(key.as_slice(), "hello vault \u{00e9}\u{6ce8}").unwrap();
    let back = decrypt_content(key.as_slice(), blob.as_slice()).unwrap();
    assert_eq!(back, "hello vault \u{00e9}\u{6ce8}");
}

#[test]
fn aead_blob_is_framed_and_not_plaintext() {
    let key = derive_key_from_password("pw", "1", 1_000);
    let blob = encrypt_content(key.as_slice(), "payload").unwrap();
    // 24-byte nonce + ciphertext + 16-byte tag
    assert_eq!(blob.len(), 24 + "payload".len() + 16);
    assert!(!blob.windows(7).any(|w| w == b"payload"));
}

#[test]
fn two_encryptions_differ_but_both_decrypt() {
    let key = derive_key_from_password("pw", "1", 1_000);
    let b1 = encrypt_content(key.as_slice(), "same text").unwrap();
    let b2 = encrypt_content(key.as_slice(), "same text").unwrap();
    assert_ne!(b1, b2); // fresh random nonce per call
    assert_eq!(decrypt_content(key.as_slice(), b1.as_slice()).unwrap(), "same text");
    assert_eq!(decrypt_content(key.as_slice(), b2.as_slice()).unwrap(), "same text");
}

#[test]
fn wrong_key_fails_decryption() {
    let k1 = derive_key_from_password("pw", "1", 1_000);
    let k2 = derive_key_from_password("pw", "2", 1_000);
    let blob = encrypt_content(k1.as_slice(), "secret").unwrap();
    let r = decrypt_content(k2.as_slice(), blob.as_slice());
    assert_eq!(r, Err(VaultError::CryptoFailure));
}

#[test]
fn corrupted_tag_fails_decryption() {
    let key = derive_key_from_password("pw", "1", 1_000);
    let mut blob = encrypt_content(key.as_slice(), "secret").unwrap();
    let last = blob.len() - 1;
    blob[last] ^= 0xff;
    assert_eq!(decrypt_content(key.as_slice(), blob.as_slice()), Err(VaultError::CryptoFailure));
}

#[test]
fn short_blob_is_invalid_ciphertext() {
    let key = derive_key_from_password("pw", "1", 1_000);
    let r = decrypt_content(key.as_slice(), &[0u8; 23]);
    assert_eq!(r, Err(VaultError::InvalidCiphertext));
}

#[test]
fn password_payload_round_trips() {
    let key = derive_key_from_password("vault pw", "3", 1_000);
    let payload = encrypt_password(key.as_slice(), "vault pw").unwrap();
    assert_eq!(decrypt_content(key.as_slice(), payload.as_slice()).unwrap(), "vault pw");
}

#[test]
fn empty_plaintext_round_trips() {
    let key = derive_key_from_password("", "1", 1_000);
    let blob = encrypt_content(key.as_slice(), "").unwrap();
    assert_eq!(blob.len(), 24 + 16);
    assert_eq!(decrypt_content(key.as_slice(), blob.as_slice()).unwrap(), "");
}
