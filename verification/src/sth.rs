//! Signed tree heads (STHs) for the transparency log.
use vstd::prelude::*;
use vstd::string::*;
use crate::bytes::{be_u64, bytes_eq, push_all, push_u64_be};
use crate::error::LogError;
use crate::keys::{ed25519_public_spec, ed25519_sign_spec, ed25519_verify_spec, verify, Identity};

verus! {

/// Domain-separation context for STH signatures.
pub const STH_CONTEXT: &'static str = "keepstone/v1/sth";

/// A log's signed commitment to its current tree.
#[derive(Clone, Debug, PartialEq, Eq)]
pub struct SignedTreeHead {
    /// Number of leaves in the tree.
    pub tree_size: u64,
    /// Merkle Tree [u8; 32] of the tree.
    pub root: [u8; 32],
    /// Unix seconds at signing time.
    pub timestamp: u64,
    /// Log's Ed25519 public key.
    pub log_public: [u8; 32],
    /// Log's signature.
    pub signature: [u8; 64],
}

/// The exact bytes signed by a log for an STH: the context, the big-endian
/// size, the root and the big-endian timestamp.
pub open spec fn sth_input_spec(tree_size: u64, root: Seq<u8>, timestamp: u64) -> Seq<u8> {
    STH_CONTEXT.spec_bytes() + be_u64(tree_size) + root + be_u64(timestamp)
}

/// The exact bytes signed by a log for an STH.
pub fn sth_input(tree_size: u64, root: &[u8; 32], timestamp: u64) -> (r: Vec<u8>)
    ensures
        r@ == sth_input_spec(tree_size, root@, timestamp),
{
    let mut out: Vec<u8> = Vec::new();
    push_all(&mut out, STH_CONTEXT.as_bytes());
    push_u64_be(&mut out, tree_size);
    push_all(&mut out, root.as_slice());
    push_u64_be(&mut out, timestamp);
    out
}

impl SignedTreeHead {
    /// Sign a tree head with the log's identity; the result verifies.
    pub fn sign(signer: &Identity, tree_size: u64, root: [u8; 32], timestamp: u64) -> (r: Self)
        ensures
            r.tree_size == tree_size,
            r.root == root,
            r.timestamp == timestamp,
            r.log_public@ == ed25519_public_spec(signer.signing_secret()),
            r.signature@ == ed25519_sign_spec(signer.signing_secret(), sth_input_spec(tree_size, root@, timestamp)),
            ed25519_verify_spec(r.log_public@, sth_input_spec(r.tree_size, r.root@, r.timestamp), r.signature@),
    {
        let input = sth_input(tree_size, &root, timestamp);
        let signature = signer.sign(input.as_slice());
        SignedTreeHead { tree_size, root, timestamp, log_public: signer.signing_public(), signature }
    }

    /// Verify the log's signature.
    pub fn verify(&self) -> (r: Result<(), LogError>)
        ensures
            r is Ok <==> ed25519_verify_spec(
                self.log_public@,
                sth_input_spec(self.tree_size, self.root@, self.timestamp),
                self.signature@,
            ),
            r matches Err(e) ==> e == LogError::TreeHeadInvalid,
    {
        let input = sth_input(self.tree_size, &self.root, self.timestamp);
        match verify(&self.log_public, input.as_slice(), &self.signature) {
            Ok(()) => Ok(()),
            Err(_) => Err(LogError::TreeHeadInvalid),
        }
    }
}

/// Whether two signed tree heads from the same log equivocate: two
/// different roots at the **same tree size**.
pub fn detect_equivocation(a: &SignedTreeHead, b: &SignedTreeHead) -> (r: bool)
    ensures
        r == (a.tree_size == b.tree_size && a.root@ != b.root@),
{
    a.tree_size == b.tree_size && !bytes_eq(a.root.as_slice(), b.root.as_slice())
}

} // verus!
