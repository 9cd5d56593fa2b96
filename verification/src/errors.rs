//! Error kinds for the vault store, the crypto layer and the sync engine.
//!
//! Every fallible operation of the library reports one of these closed
//! kinds, so callers can branch on the kind instead of parsing messages.

use vstd::prelude::*;

verus! {

/// The closed set of failures the library can report.
#[derive(Debug, Clone, Copy, PartialEq, Eq, Structural)]
pub enum VaultError {
    /// AEAD encryption or decryption failed (wrong key, corrupted tag).
    /// Never distinguished further, to avoid oracle leakage.
    CryptoFailure,
    /// A ciphertext blob shorter than the nonce prefix.
    InvalidCiphertext,
    /// A key that is not exactly 32 bytes.
    KeyLengthInvalid,
    /// No vault or item with the given local id.
    NotFound(i64),
    /// A password-protected vault was addressed without a password.
    PasswordRequired,
    /// The stored verification payload did not decrypt under the given key.
    InvalidPassword,
    /// Normalising legacy rows failed (a generated uuid collided).
    SchemaMigrationFailure,
    /// The sync file carries a format version this engine does not read.
    SyncFormatMismatch,
    /// No sync folder is configured, or it cannot be reached.
    SyncFolderUnavailable,
    /// A filesystem or storage failure outside the library's control.
    IoFailure,
    /// An inserted row would reuse a uuid that is already taken.
    DuplicateUuid,
}

} // verus!
