//! Versioned cryptographic suites (algorithm agility).
use vstd::prelude::*;
use crate::error::CryptoError;

verus! {


/// Identifies a concrete, versioned set of cryptographic algorithms.
#[derive(Clone, Copy, Debug, PartialEq, Eq, Hash)]
pub enum CryptoSuite {
    /// X25519 + Ed25519 + XChaCha20-Poly1305 + HKDF-SHA256 + SHA-256.
    Classical25519,
    /// X25519 + ML-KEM-768 (hybrid KEM) + Ed25519 + XChaCha20-Poly1305.
    Hybrid25519MlKem768,
}

impl CryptoSuite {
    /// The wire identifier of a suite.
    pub open spec fn spec_id(self) -> u8 {
        match self {
            CryptoSuite::Classical25519 => 1,
            CryptoSuite::Hybrid25519MlKem768 => 2,
        }
    }

    /// The wire identifier for this suite.
    pub fn id(self) -> (r: u8)
        ensures
            r == self.spec_id(),
    {
        match self {
            CryptoSuite::Classical25519 => 1,
            CryptoSuite::Hybrid25519MlKem768 => 2,
        }
    }

    /// Parse a suite identifier, rejecting anything unsupported.
    pub fn from_id(id: u8) -> (r: Result<CryptoSuite, CryptoError>)
        ensures
            match r {
                Ok(s) => s.spec_id() == id,
                Err(e) => e == CryptoError::UnsupportedSuite && id != 1 && id != 2,
            },
    {
        match id {
            1 => Ok(CryptoSuite::Classical25519),
            2 => Ok(CryptoSuite::Hybrid25519MlKem768),
            _ => Err(CryptoError::UnsupportedSuite),
        }
    }

    /// The suite that this build uses by default.
    pub fn default_suite() -> (r: CryptoSuite)
        ensures
            r == CryptoSuite::Classical25519,
    {
        CryptoSuite::Classical25519
    }
}

} // verus!
