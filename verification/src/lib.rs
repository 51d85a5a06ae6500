//! Keepstone: canonical encoding, transparency log, and cryptographic
//! framing for encrypted geospatial dead drops.
#![allow(unused_imports)]

pub mod address;
pub mod aead;
pub mod anchor;
pub mod bytes;
pub mod cbor;
pub mod error;
pub mod files;
pub mod hash;
pub mod hexcode;
pub mod http;
pub mod hybrid;
pub mod hybrid_sig;
pub mod interpolation;
pub mod kdf;
pub mod keys;
pub mod merkle;
pub mod node;
pub mod p2p;
pub mod peer;
pub mod place;
pub mod pow;
pub mod presence;
pub mod protocol;
pub mod relay;
pub mod rng;
pub mod sealed;
pub mod secret;
pub mod shamir;
pub mod sth;
pub mod store;
pub mod stream;
pub mod suite;
pub mod text;
pub mod types;
