//! The ways in which an operation on a store fails.
//!
//! The library never writes a file itself, so it never returns
//! `SecretWriteFailed`: that variant is for the caller that writes what the
//! library hands back, and reports with the library's own error types.

use vstd::prelude::*;

verus! {

/// Why `add` added nothing.
#[derive(Debug, PartialEq, Eq)]
pub enum SecretAddError {
    /// The store already holds a record of that name, which is given.
    DuplicateKey(String),
    /// The new record could not be written; the text says why.
    SecretWriteFailed(String),
    /// A line of the store, read before the name turned up, is no record.
    MalformedRecord,
}

/// Why `get` returned no secret.
#[derive(Debug, PartialEq, Eq)]
pub enum SecretGetError {
    /// The store holds no record of that name.
    KeyNotFound,
    /// The record could not be decrypted with the key given; the text says why.
    DecryptionFailed(String),
    /// A line of the store, read before the name turned up, is no record.
    MalformedRecord,
}

/// Why `delete` removed nothing.
#[derive(Debug, PartialEq, Eq)]
pub enum SecretDeleteError {
    /// The store holds no record of that name.
    KeyNotFound,
    /// The store could not be written; the text says why.
    SecretWriteFailed(String),
    /// A line of the store is no record.
    MalformedRecord,
}

/// Why `set` changed nothing.
#[derive(Debug, PartialEq, Eq)]
pub enum SecretSetError {
    /// The store could not be written; the text says why.
    SecretWriteFailed(String),
    /// A line of the store is no record.
    MalformedRecord,
}

} // verus!
