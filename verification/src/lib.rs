//! An embedded, file-backed structured persistence engine: keyed tables held
//! in an in-memory aggregate, flushed durably through an atomic staging-file
//! protocol, optionally sealed in an authenticated-encryption envelope.
//!
//! The table and store logic, the two on-disk encodings and the encryption
//! pipeline live here, verified. Raw file handling (create, sync, rename)
//! is left to the embedding application, which executes the write plans this
//! library produces.
use vstd::prelude::*;

pub mod doc;
pub mod text;
pub mod key;
pub mod table;
pub mod json;
pub mod crypto;
pub mod atomic;
pub mod encrypted;

verus! {

/// The error taxonomy of the engine.
///
/// `NotFound` is not here on purpose: an absent database file means
/// "initialize", never an error. A failed authentication check is reported as
/// one undiscriminated condition, so that a caller probing passwords learns
/// nothing about why a decryption failed.
#[derive(Clone, Copy, Debug, PartialEq, Eq, Structural)]
pub enum DbError {
    /// A staging file is already present, or a create found the path occupied.
    AlreadyExists,
    /// The bytes on disk do not decode as the expected structure.
    CorruptData,
    /// The authentication tag did not match: wrong password, tampering or rot.
    AuthenticationFailure,
    /// The key-derivation function refused its inputs.
    KeyDerivationFailure,
}

impl DbError {
    /// The human-readable description, as surfaced to an operator.
    pub fn message(&self) -> (r: &'static str)
        ensures
            *self is AlreadyExists ==> r@ == "orphaned staging file or occupied path"@,
            *self is CorruptData ==> r@ == "failed to deserialize data"@,
            *self is AuthenticationFailure ==> r@ == "decryption failed"@,
            *self is KeyDerivationFailure ==> r@ == "key derivation failed"@,
    {
        match self {
            DbError::AlreadyExists => "orphaned staging file or occupied path",
            DbError::CorruptData => "failed to deserialize data",
            DbError::AuthenticationFailure => "decryption failed",
            DbError::KeyDerivationFailure => "key derivation failed",
        }
    }
}

} // verus!
