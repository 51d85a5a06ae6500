//! Error types shared across the library.
use vstd::prelude::*;

verus! {

/// Errors produced by the cryptographic core.
///
/// These are intentionally coarse: callers must not be able to distinguish
/// failure modes in a way that leaks information (no decryption oracle).
#[derive(Clone, Copy, Debug, PartialEq, Eq)]
pub enum CryptoError {
    /// A key or nonce had the wrong length.
    InvalidKeyLength,
    /// Encryption failed.
    Encrypt,
    /// Decryption or authentication failed.
    Decrypt,
    /// Signature verification failed.
    Verify,
    /// A low-order / degenerate public key was supplied.
    InvalidPublicKey,
    /// The crypto suite identifier is not supported.
    UnsupportedSuite,
}

/// Errors produced by core types and encoding.
#[derive(Debug)]
pub enum CoreError {
    /// Canonical CBOR encoding or decoding failed.
    Cbor(&'static str),
    /// A cryptographic operation failed.
    Crypto(CryptoError),
    /// A cell identifier could not be parsed or computed.
    Cell(String),
    /// A length or count did not match expectations.
    Length,
    /// A signature did not verify.
    Verify,
    /// A structurally valid object failed a semantic check.
    Invalid(&'static str),
}

/// Errors from the transparency log.
#[derive(Clone, Copy, Debug, PartialEq, Eq)]
pub enum LogError {
    /// The requested index was out of range.
    IndexOutOfRange,
    /// A proof failed to verify.
    ProofInvalid,
    /// A signed tree head failed to verify.
    TreeHeadInvalid,
}

} // verus!
