//! Chunked (streaming) authenticated encryption.
//!
//! Arbitrary-size payloads are split into chunks. Each chunk gets:
//!
//! - a **fresh key**: `HKDF(content_key, "chunk-key" || index)`
//! - a **unique nonce**: `random_prefix (20 bytes) || index (4 bytes, BE)`
//! - **AAD binding** a domain label, the total count and the chunk index
//!
//! Binding the total count in the AAD prevents truncation and reordering.
//! The drop itself is not in the AAD (its identity hashes the envelope, which
//! commits to the chunks); a drop's chunks are tied to it only through its
//! content key and random nonce prefix.
use vstd::prelude::*;
use vstd::string::*;
use crate::aead::{self, aead_open_spec, aead_seal_spec};
use crate::bytes::{be_u32, push_all, push_u32_be, to_array};
use crate::error::CryptoError;
use crate::kdf::{chunk_info, derive_chunk_key, hkdf_spec, DEFAULT_SALT};
use crate::rng::random_bytes;

verus! {

/// Default chunk size (64 KiB), the degenerate case for small messages.
pub const DEFAULT_CHUNK_SIZE: usize = 64 * 1024;

/// Length of the per-drop random nonce prefix.
pub const PREFIX_LEN: usize = 20;

/// Domain label at the front of every chunk's associated data.
pub const AAD_DOMAIN: &'static str = "keepstone/v1/chunk";

/// The framing material needed to decrypt a chunked payload.
#[derive(Clone, Debug, PartialEq, Eq)]
pub struct Framing {
    /// Random nonce prefix shared by all chunks of this drop.
    pub prefix: [u8; 20],
    /// Total number of chunks.
    pub total: u32,
}

/// The nonce of chunk `index`: the prefix, then the big-endian index.
pub open spec fn chunk_nonce_spec(prefix: Seq<u8>, index: u32) -> Seq<u8> {
    prefix + be_u32(index)
}

/// The associated data of chunk `index` of `total`.
pub open spec fn chunk_aad_spec(index: u32, total: u32) -> Seq<u8> {
    AAD_DOMAIN.spec_bytes() + be_u32(total) + be_u32(index)
}

/// The key of chunk `index`.
pub open spec fn chunk_key_spec(content_key: Seq<u8>, index: u32) -> Seq<u8> {
    hkdf_spec(content_key, DEFAULT_SALT.spec_bytes(), chunk_info(index), 32)
}

/// How many chunks a payload of `len` bytes takes (at least one).
pub open spec fn chunk_count(len: nat) -> nat {
    if len == 0 {
        1
    } else {
        ((len + DEFAULT_CHUNK_SIZE - 1) / (DEFAULT_CHUNK_SIZE as int)) as nat
    }
}

/// Where chunk `i` starts (or ends, for `i + 1`) in a payload of `len`
/// bytes.
pub open spec fn chunk_bound(len: nat, i: nat) -> nat {
    if i * DEFAULT_CHUNK_SIZE <= len {
        (i * DEFAULT_CHUNK_SIZE) as nat
    } else {
        len
    }
}

/// Chunk `i` of the plaintext.
pub open spec fn chunk_of(plaintext: Seq<u8>, i: nat) -> Seq<u8> {
    plaintext.subrange(
        chunk_bound(plaintext.len(), i) as int,
        chunk_bound(plaintext.len(), i + 1) as int,
    )
}

/// Whether `chunks` are the chunked encryption of `plaintext` under
/// `content_key` with the given prefix: one chunk per `DEFAULT_CHUNK_SIZE`
/// bytes, each sealed with its own key, nonce and associated data, and each
/// opening back to its plaintext chunk.
pub open spec fn encrypts(
    content_key: Seq<u8>,
    prefix: Seq<u8>,
    total: u32,
    plaintext: Seq<u8>,
    chunks: Seq<Seq<u8>>,
) -> bool {
    &&& total == chunk_count(plaintext.len())
    &&& chunks.len() == total
    &&& forall|i: int|
        0 <= i < total ==> {
            let k = chunk_key_spec(content_key, i as u32);
            let n = chunk_nonce_spec(prefix, i as u32);
            let a = chunk_aad_spec(i as u32, total);
            &&& #[trigger] chunks[i] == aead_seal_spec(k, n, a, chunk_of(plaintext, i as nat))
            &&& aead_open_spec(k, n, a, chunks[i]) == Some(chunk_of(plaintext, i as nat))
        }
}

/// The concatenated plaintext of the first `n` chunks, or `None` if one of
/// them fails to authenticate.
pub open spec fn opened(
    content_key: Seq<u8>,
    prefix: Seq<u8>,
    total: u32,
    chunks: Seq<Seq<u8>>,
    n: nat,
) -> Option<Seq<u8>>
    decreases n,
{
    if n == 0 {
        Some(Seq::empty())
    } else {
        match opened(content_key, prefix, total, chunks, (n - 1) as nat) {
            None => None,
            Some(acc) => {
                let i = (n - 1) as u32;
                match aead_open_spec(
                    chunk_key_spec(content_key, i),
                    chunk_nonce_spec(prefix, i),
                    chunk_aad_spec(i, total),
                    chunks[n - 1],
                ) {
                    None => None,
                    Some(p) => Some(acc + p),
                }
            },
        }
    }
}

/// The outcome of decrypting a chunk list: `None` if the count does not
/// match the framing or a chunk fails to authenticate.
pub open spec fn decrypt_spec(content_key: Seq<u8>, prefix: Seq<u8>, total: u32, chunks: Seq<Seq<u8>>) -> Option<Seq<u8>> {
    if chunks.len() != total {
        None
    } else {
        opened(content_key, prefix, total, chunks, total as nat)
    }
}

fn chunk_nonce(prefix: &[u8; 20], index: u32) -> (r: [u8; 24])
    ensures
        r@ == chunk_nonce_spec(prefix@, index),
{
    let mut buf: Vec<u8> = Vec::new();
    push_all(&mut buf, prefix.as_slice());
    push_u32_be(&mut buf, index);
    to_array(buf.as_slice())
}

fn chunk_aad(index: u32, total: u32) -> (r: Vec<u8>)
    ensures
        r@ == chunk_aad_spec(index, total),
{
    let mut aad: Vec<u8> = Vec::new();
    push_all(&mut aad, AAD_DOMAIN.as_bytes());
    push_u32_be(&mut aad, total);
    push_u32_be(&mut aad, index);
    assert(aad@ =~= chunk_aad_spec(index, total));
    aad
}

/// Encrypt a payload into chunks under a fresh random nonce prefix,
/// returning the framing and the ciphertexts.
///
/// Fails only when the payload needs more than `u32::MAX` chunks.
pub fn encrypt(content_key: &[u8; 32], plaintext: &[u8]) -> (r: Result<(Framing, Vec<Vec<u8>>), CryptoError>)
    ensures
        r is Ok <==> chunk_count(plaintext@.len()) <= u32::MAX,
        r matches Ok((framing, chunks)) ==> encrypts(
            content_key@,
            framing.prefix@,
            framing.total,
            plaintext@,
            chunks@.map_values(|c: Vec<u8>| c@),
        ),
        r matches Ok((framing, chunks)) ==> forall|i: int|
            0 <= i < chunks@.len() ==> (#[trigger] chunks@[i])@.len() == chunk_of(plaintext@, i as nat).len()
                + aead::TAG_LEN,
        r matches Err(e) ==> e == CryptoError::InvalidKeyLength,
{
    let random = random_bytes(PREFIX_LEN);
    let prefix: [u8; 20] = to_array(random.as_slice());
    let len = plaintext.len();
    let total: usize = if len == 0 {
        1
    } else {
        len / DEFAULT_CHUNK_SIZE + if len % DEFAULT_CHUNK_SIZE == 0 { 0 } else { 1 }
    };
    assert(total == chunk_count(len as nat));
    if total > 0xffff_ffff {
        return Err(CryptoError::InvalidKeyLength);
    }
    let total_u32 = total as u32;
    let ghost key = content_key@;
    let mut chunks: Vec<Vec<u8>> = Vec::new();
    let mut index: usize = 0;
    while index < total
        invariant
            total == chunk_count(len as nat),
            total <= u32::MAX,
            total_u32 == total,
            len == plaintext@.len(),
            key == content_key@,
            index <= total,
            chunks@.len() == index,
            forall|i: int|
                0 <= i < index ==> {
                    let k = chunk_key_spec(key, i as u32);
                    let n = chunk_nonce_spec(prefix@, i as u32);
                    let a = chunk_aad_spec(i as u32, total_u32);
                    &&& (#[trigger] chunks@[i])@ == aead_seal_spec(k, n, a, chunk_of(plaintext@, i as nat))
                    &&& aead_open_spec(k, n, a, chunks@[i]@) == Some(chunk_of(plaintext@, i as nat))
                },
            forall|i: int|
                0 <= i < index ==> (#[trigger] chunks@[i])@.len() == chunk_of(plaintext@, i as nat).len()
                    + aead::TAG_LEN,
        decreases total - index,
    {
        assert(index * DEFAULT_CHUNK_SIZE <= len) by (nonlinear_arith)
            requires
                index < total,
                total == chunk_count(len as nat),
                len > 0 || index == 0,
        ;
        let start = index * DEFAULT_CHUNK_SIZE;
        let end = if len - start > DEFAULT_CHUNK_SIZE {
            start + DEFAULT_CHUNK_SIZE
        } else {
            len
        };
        assert(end == chunk_bound(len as nat, (index + 1) as nat));
        let data = &plaintext[start..end];
        assert(data@ =~= chunk_of(plaintext@, index as nat));
        let key_i = derive_chunk_key(content_key, index as u32);
        let key_i = match key_i {
            Ok(k) => k,
            Err(e) => {
                return Err(e);
            },
        };
        let nonce = chunk_nonce(&prefix, index as u32);
        let aad = chunk_aad(index as u32, total_u32);
        let sealed = aead::seal(&key_i, &nonce, aad.as_slice(), data);
        let ct = match sealed {
            Ok(ct) => ct,
            Err(_) => {
                return Err(CryptoError::InvalidKeyLength);
            },
        };
        chunks.push(ct);
        index = index + 1;
    }
    let framing = Framing { prefix, total: total_u32 };
    proof {
        let views = chunks@.map_values(|c: Vec<u8>| c@);
        assert forall|i: int| 0 <= i < total implies #[trigger] views[i] == chunks@[i]@ by {}
    }
    Ok((framing, chunks))
}

/// Decrypt a single chunk (used for resumable fetch).
pub fn decrypt_chunk(content_key: &[u8; 32], framing: &Framing, index: u32, ciphertext: &[u8]) -> (r: Result<Vec<u8>, CryptoError>)
    ensures
        index >= framing.total ==> r == Err::<Vec<u8>, CryptoError>(CryptoError::Decrypt),
        index < framing.total ==> match aead_open_spec(
            chunk_key_spec(content_key@, index),
            chunk_nonce_spec(framing.prefix@, index),
            chunk_aad_spec(index, framing.total),
            ciphertext@,
        ) {
            Some(p) => r matches Ok(pt) && pt@ == p,
            None => r == Err::<Vec<u8>, CryptoError>(CryptoError::Decrypt),
        },
{
    if index >= framing.total {
        return Err(CryptoError::Decrypt);
    }
    let key = match derive_chunk_key(content_key, index) {
        Ok(k) => k,
        Err(e) => {
            return Err(e);
        },
    };
    let nonce = chunk_nonce(&framing.prefix, index);
    let aad = chunk_aad(index, framing.total);
    aead::open(&key, &nonce, aad.as_slice(), ciphertext)
}

/// Decrypt all chunks and concatenate them.
pub fn decrypt(content_key: &[u8; 32], framing: &Framing, chunks: &[Vec<u8>]) -> (r: Result<Vec<u8>, CryptoError>)
    ensures
        match decrypt_spec(
            content_key@,
            framing.prefix@,
            framing.total,
            chunks@.map_values(|c: Vec<u8>| c@),
        ) {
            Some(p) => r matches Ok(pt) && pt@ == p,
            None => r == Err::<Vec<u8>, CryptoError>(CryptoError::Decrypt),
        },
{
    let ghost views = chunks@.map_values(|c: Vec<u8>| c@);
    if chunks.len() as u64 != framing.total as u64 {
        return Err(CryptoError::Decrypt);
    }
    let mut out: Vec<u8> = Vec::new();
    let mut index: usize = 0;
    while index < chunks.len()
        invariant
            chunks@.len() == framing.total,
            views == chunks@.map_values(|c: Vec<u8>| c@),
            index <= chunks@.len(),
            opened(content_key@, framing.prefix@, framing.total, views, index as nat) == Some(out@),
        decreases chunks@.len() - index,
    {
        let part = decrypt_chunk(content_key, framing, index as u32, chunks[index].as_slice());
        assert(views[index as int] == chunks@[index as int]@);
        match part {
            Ok(p) => {
                push_all(&mut out, p.as_slice());
            },
            Err(e) => {
                proof {
                    lemma_opened_stays_none(content_key@, framing.prefix@, framing.total, views, (index + 1) as nat, framing.total as nat);
                }
                return Err(e);
            },
        }
        index = index + 1;
    }
    Ok(out)
}

/// Once a chunk fails to authenticate, every longer prefix fails too.
proof fn lemma_opened_stays_none(
    content_key: Seq<u8>,
    prefix: Seq<u8>,
    total: u32,
    chunks: Seq<Seq<u8>>,
    n: nat,
    m: nat,
)
    requires
        n <= m,
        opened(content_key, prefix, total, chunks, n) is None,
    ensures
        opened(content_key, prefix, total, chunks, m) is None,
    decreases m - n,
{
    if n < m {
        lemma_opened_stays_none(content_key, prefix, total, chunks, n + 1, m);
    }
}

/// Chunk bounds grow with the index and stay within the payload.
proof fn lemma_chunk_bounds(len: nat, i: nat)
    ensures
        chunk_bound(len, i) <= chunk_bound(len, i + 1) <= len,
{
}

/// Decrypting what [`encrypt`] produced gives the plaintext back.
pub proof fn lemma_stream_roundtrip(
    content_key: Seq<u8>,
    prefix: Seq<u8>,
    total: u32,
    plaintext: Seq<u8>,
    chunks: Seq<Seq<u8>>,
)
    requires
        encrypts(content_key, prefix, total, plaintext, chunks),
    ensures
        decrypt_spec(content_key, prefix, total, chunks) == Some(plaintext),
{
    lemma_opened_prefix(content_key, prefix, total, plaintext, chunks, total as nat);
    let len = plaintext.len();
    assert(chunk_bound(len, total as nat) == len) by (nonlinear_arith)
        requires
            total == chunk_count(len),
    ;
    assert(plaintext.subrange(0, len as int) =~= plaintext);
}

/// The first `n` chunks open to the first `n` plaintext chunks.
proof fn lemma_opened_prefix(
    content_key: Seq<u8>,
    prefix: Seq<u8>,
    total: u32,
    plaintext: Seq<u8>,
    chunks: Seq<Seq<u8>>,
    n: nat,
)
    requires
        encrypts(content_key, prefix, total, plaintext, chunks),
        n <= total,
    ensures
        opened(content_key, prefix, total, chunks, n) == Some(
            plaintext.subrange(0, chunk_bound(plaintext.len(), n) as int),
        ),
    decreases n,
{
    let len = plaintext.len();
    if n == 0 {
        assert(plaintext.subrange(0, 0) =~= Seq::<u8>::empty());
    } else {
        lemma_opened_prefix(content_key, prefix, total, plaintext, chunks, (n - 1) as nat);
        let i = (n - 1) as int;
        assert(chunks[i] == chunks[i]);
        lemma_chunk_bounds(len, (n - 1) as nat);
        assert(plaintext.subrange(0, chunk_bound(len, (n - 1) as nat) as int) + chunk_of(plaintext, (n - 1) as nat)
            =~= plaintext.subrange(0, chunk_bound(len, n) as int));
    }
}

} // verus!
