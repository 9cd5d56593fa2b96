//! An encrypted note store ("vault") with a file-based multi-device sync
//! protocol: key derivation, authenticated encryption of item content,
//! soft-delete tombstones, uuid-based reconciliation, conflict duplication
//! and retention purging.

pub mod backup;
pub mod capture;
pub mod crypto;
pub mod decimal;
pub mod errors;
pub mod fresh;
pub mod ops;
pub mod sync;
pub mod textorder;
pub mod vault;
