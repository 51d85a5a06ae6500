//! Secret byte buffers that never print their contents.
use vstd::prelude::*;
use zeroize::Zeroize;
use vstd::string::*;
use crate::text::{decimal, decimal_text};

verus! {

/// The redacted rendering of a secret buffer of `len` bytes.
fn redacted_label(len: usize) -> (r: String)
    ensures
        r@ == "SecretBytes([REDACTED; "@ + decimal(len as nat) + " bytes])"@,
{
    let digits = decimal_text(len as u64);
    String::from_str("SecretBytes([REDACTED; ").concat(digits.as_str()).concat(" bytes])")
}

/// Overwrite a byte buffer with zeros.
///
/// Calls `zeroize::Zeroize::zeroize` on the vector, which zeroes every byte
/// and then clears it.
#[verifier::external_body]
fn zeroize_vec(bytes: &mut Vec<u8>)
    ensures
        final(bytes)@.len() == 0,
{
    bytes.zeroize();
}

/// An owned byte buffer holding secret material.
///
/// - Renders only a redacted description ([`SecretBytes::redacted`]).
/// - Deliberately does **not** implement `Clone` (avoid uncontrolled copies).
pub struct SecretBytes(Vec<u8>);

impl View for SecretBytes {
    type V = Seq<u8>;

    closed spec fn view(&self) -> Seq<u8> {
        self.0@
    }
}

impl SecretBytes {
    /// Wrap a vector of secret bytes.
    pub fn new(bytes: Vec<u8>) -> (r: Self)
        ensures
            r@ == bytes@,
    {
        SecretBytes(bytes)
    }

    /// View the secret bytes.
    pub fn as_bytes(&self) -> (r: &[u8])
        ensures
            r@ == self@,
    {
        self.0.as_slice()
    }

    /// Mutably view the secret bytes.
    pub fn as_mut_bytes(&mut self) -> (r: &mut [u8])
        ensures
            r@ == old(self)@,
            final(r)@ == final(self)@,
    {
        self.0.as_mut_slice()
    }

    /// Number of bytes held.
    pub fn len(&self) -> (r: usize)
        ensures
            r == self@.len(),
    {
        self.0.len()
    }

    /// Whether the buffer is empty.
    pub fn is_empty(&self) -> (r: bool)
        ensures
            r == (self@.len() == 0),
    {
        self.0.len() == 0
    }

    /// A rendering that shows the length but never the contents.
    pub fn redacted(&self) -> (r: String)
        ensures
            r@ == "SecretBytes([REDACTED; "@ + decimal(self@.len()) + " bytes])"@,
    {
        redacted_label(self.0.len())
    }

    /// Zero and release the secret bytes.
    pub fn wipe(&mut self)
        ensures
            final(self)@.len() == 0,
    {
        zeroize_vec(&mut self.0);
    }
}

} // verus!
