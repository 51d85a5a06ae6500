//! Hashcash-style proof-of-work for drop creation (anti-spam).
//!
//! The work is bound to the signer and the drop's content commitment, so it
//! cannot be reused across drops.
use vstd::prelude::*;
use vstd::string::*;
use crate::bytes::{be_u64, push_all, push_u64_be};
use crate::hash::{sha256, sha256_spec};

verus! {

/// Required leading zero bits.
pub const POW_DIFFICULTY_BITS: u32 = 12;

/// Domain-separation context for PoW.
pub const POW_CONTEXT: &'static str = "keepstone/v1/pow";

/// Leading zero bits of one byte.
pub open spec fn byte_leading_zeros(b: u8) -> nat {
    if b >= 128 {
        0
    } else if b >= 64 {
        1
    } else if b >= 32 {
        2
    } else if b >= 16 {
        3
    } else if b >= 8 {
        4
    } else if b >= 4 {
        5
    } else if b >= 2 {
        6
    } else if b >= 1 {
        7
    } else {
        8
    }
}

/// Leading zero bits of a byte string read most significant bit first.
pub open spec fn leading_zeros_spec(s: Seq<u8>) -> nat
    decreases s.len(),
{
    if s.len() == 0 {
        0
    } else if s[0] == 0 {
        8 + leading_zeros_spec(s.drop_first())
    } else {
        byte_leading_zeros(s[0])
    }
}

/// The bytes hashed for a candidate nonce.
pub open spec fn pow_preimage(signer: Seq<u8>, content_root: Seq<u8>, drop_nonce: Seq<u8>, nonce: u64) -> Seq<u8> {
    POW_CONTEXT.spec_bytes() + signer + content_root + drop_nonce + be_u64(nonce)
}

/// The PoW digest for a candidate nonce.
pub open spec fn pow_digest(signer: Seq<u8>, content_root: Seq<u8>, drop_nonce: Seq<u8>, nonce: u64) -> Seq<u8> {
    sha256_spec(pow_preimage(signer, content_root, drop_nonce, nonce))
}

/// Whether `nonce` meets the difficulty target.
pub open spec fn pow_valid(signer: Seq<u8>, content_root: Seq<u8>, drop_nonce: Seq<u8>, nonce: u64) -> bool {
    leading_zeros_spec(pow_digest(signer, content_root, drop_nonce, nonce)) >= POW_DIFFICULTY_BITS
}

/// A nonce is valid exactly when its digest starts with at least 12 zero
/// bits: a zero byte, then a byte below 16. A digest with exactly 12
/// leading zero bits (`0x00, 0x08..=0x0F, ..`) is valid.
pub proof fn lemma_pow_valid_bytes(signer: Seq<u8>, content_root: Seq<u8>, drop_nonce: Seq<u8>, nonce: u64)
    ensures
        pow_valid(signer, content_root, drop_nonce, nonce) <==> {
            let d = pow_digest(signer, content_root, drop_nonce, nonce);
            d.len() >= 2 && d[0] == 0 && d[1] < 16
        },
{
    lemma_twelve_zero_bits(pow_digest(signer, content_root, drop_nonce, nonce));
}

proof fn lemma_twelve_zero_bits(d: Seq<u8>)
    ensures
        leading_zeros_spec(d) >= 12 <==> (d.len() >= 2 && d[0] == 0 && d[1] < 16),
{
    if d.len() == 0 {
    } else if d[0] != 0 {
        assert(byte_leading_zeros(d[0]) <= 7);
    } else {
        let t = d.drop_first();
        assert(leading_zeros_spec(d) == 8 + leading_zeros_spec(t));
        if t.len() == 0 {
        } else {
            assert(t[0] == d[1]);
            if t[0] == 0 {
                assert(leading_zeros_spec(t) == 8 + leading_zeros_spec(t.drop_first()));
            } else {
                assert(leading_zeros_spec(t) == byte_leading_zeros(t[0]));
            }
        }
    }
}

fn byte_leading_zeros_exec(b: u8) -> (r: u32)
    ensures
        r == byte_leading_zeros(b),
{
    if b >= 128 {
        0
    } else if b >= 64 {
        1
    } else if b >= 32 {
        2
    } else if b >= 16 {
        3
    } else if b >= 8 {
        4
    } else if b >= 4 {
        5
    } else if b >= 2 {
        6
    } else if b >= 1 {
        7
    } else {
        8
    }
}

proof fn lemma_leading_zeros_zero_prefix(s: Seq<u8>, i: int)
    requires
        0 <= i <= s.len(),
        forall|j: int| 0 <= j < i ==> s[j] == 0,
    ensures
        leading_zeros_spec(s) == 8 * i + leading_zeros_spec(s.subrange(i, s.len() as int)),
    decreases i,
{
    if i > 0 {
        lemma_leading_zeros_zero_prefix(s.drop_first(), i - 1);
        assert(s.drop_first().subrange(i - 1, s.len() - 1) =~= s.subrange(i, s.len() as int));
    } else {
        assert(s.subrange(0, s.len() as int) =~= s);
    }
}

/// Count leading zero bits of a 32-byte digest.
pub fn leading_zero_bits(bytes: &[u8; 32]) -> (r: u32)
    ensures
        r == leading_zeros_spec(bytes@),
{
    let mut count: u32 = 0;
    let mut i: usize = 0;
    while i < 32
        invariant
            i <= 32,
            bytes@.len() == 32,
            count == 8 * i,
            forall|j: int| 0 <= j < i ==> bytes@[j] == 0,
        decreases 32 - i,
    {
        if bytes[i] == 0 {
            count = count + 8;
            i = i + 1;
        } else {
            proof {
                lemma_leading_zeros_zero_prefix(bytes@, i as int);
            }
            return count + byte_leading_zeros_exec(bytes[i]);
        }
    }
    proof {
        lemma_leading_zeros_zero_prefix(bytes@, 32);
    }
    count
}

/// The PoW digest for a candidate nonce.
pub fn digest(signer: &[u8; 32], content_root: &[u8; 32], drop_nonce: &[u8; 16], nonce: u64) -> (r: [u8; 32])
    ensures
        r@ == pow_digest(signer@, content_root@, drop_nonce@, nonce),
{
    let mut buf: Vec<u8> = Vec::new();
    push_all(&mut buf, POW_CONTEXT.as_bytes());
    push_all(&mut buf, signer.as_slice());
    push_all(&mut buf, content_root.as_slice());
    push_all(&mut buf, drop_nonce.as_slice());
    push_u64_be(&mut buf, nonce);
    assert(buf@ =~= pow_preimage(signer@, content_root@, drop_nonce@, nonce));
    sha256(buf.as_slice())
}

/// Whether `nonce` satisfies the difficulty target.
pub fn is_valid(signer: &[u8; 32], content_root: &[u8; 32], drop_nonce: &[u8; 16], nonce: u64) -> (r: bool)
    ensures
        r == pow_valid(signer@, content_root@, drop_nonce@, nonce),
{
    leading_zero_bits(&digest(signer, content_root, drop_nonce, nonce)) >= POW_DIFFICULTY_BITS
}

/// Find the least nonce satisfying the difficulty target. The search never
/// ends when no `u64` nonce qualifies, so one must exist.
pub fn mine(signer: &[u8; 32], content_root: &[u8; 32], drop_nonce: &[u8; 16]) -> (r: u64)
    requires
        exists|n: u64| pow_valid(signer@, content_root@, drop_nonce@, n),
    ensures
        pow_valid(signer@, content_root@, drop_nonce@, r),
        forall|m: u64| m < r ==> !pow_valid(signer@, content_root@, drop_nonce@, m),
{
    let mut nonce: u64 = 0;
    loop
        invariant
            exists|n: u64| pow_valid(signer@, content_root@, drop_nonce@, n),
            forall|m: u64| m < nonce ==> !pow_valid(signer@, content_root@, drop_nonce@, m),
        decreases u64::MAX - nonce,
    {
        if is_valid(signer, content_root, drop_nonce, nonce) {
            return nonce;
        }
        proof {
            let n = choose|n: u64| pow_valid(signer@, content_root@, drop_nonce@, n);
            assert(n > nonce);
        }
        nonce = nonce + 1;
    }
}

/// Search the first `attempts` nonces; return the least valid one, or
/// `None` when none of them is valid.
pub fn mine_within(signer: &[u8; 32], content_root: &[u8; 32], drop_nonce: &[u8; 16], attempts: u64) -> (r: Option<u64>)
    ensures
        match r {
            Some(n) => n < attempts && pow_valid(signer@, content_root@, drop_nonce@, n)
                && forall|m: u64| m < n ==> !pow_valid(signer@, content_root@, drop_nonce@, m),
            None => forall|m: u64| m < attempts ==> !pow_valid(signer@, content_root@, drop_nonce@, m),
        },
{
    let mut nonce: u64 = 0;
    while nonce < attempts
        invariant
            forall|m: u64| m < nonce ==> !pow_valid(signer@, content_root@, drop_nonce@, m),
        decreases attempts - nonce,
    {
        if is_valid(signer, content_root, drop_nonce, nonce) {
            let least = mine(signer, content_root, drop_nonce);
            proof {
                if least < nonce {
                    assert(!pow_valid(signer@, content_root@, drop_nonce@, least));
                }
            }
            return Some(least);
        }
        nonce = nonce + 1;
    }
    None
}

} // verus!
