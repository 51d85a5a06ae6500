//! Wire types: drops, wrapped keys, and signed envelopes.
//!
//! The identity of a received object is `SHA-256` of the **exact bytes as
//! transmitted**; the canonical encoding is used only for locally
//! constructed objects.
use vstd::prelude::*;
use vstd::string::*;
use vstd::utf8::*;
use crate::bytes::{be_u32, bytes_eq, push_all, push_u32_be, to_array, to_vec};
use crate::cbor::{
    items_view, parse_token, parse_tokens, Decoder, Encoder, Item, Token, lemma_parse_token_of_bytes,
    lemma_parse_tokens_canonical, lemma_parse_tokens_of_bytes, lemma_tokens_bytes_concat,
    lemma_tokens_bytes_push, lemma_tokens_injective, lemma_tokens_prefix_more, token_bytes, token_ok,
    tokens_bytes, tokens_ok,
};
use crate::error::{CoreError, CryptoError};
use crate::hash::{sha256, sha256_spec};
use crate::hybrid::{HybridSealed, HybridSealedView};
use crate::keys::{ed25519_public_spec, ed25519_sign_spec, ed25519_verify_spec, verify, Identity};
use crate::pow;
use crate::hexcode::{self, hex_bytes, hex_text, is_hex};
use crate::presence::capped_len;
use crate::sealed::{SealedKey, SealedKeyView};

verus! {

broadcast use vstd::utf8::encode_utf8_valid_utf8;

/// Current protocol version.
pub const PROTOCOL_VERSION: u8 = 1;

/// Signing context (domain separation) for drop envelopes.
pub const DROP_CONTEXT: &'static str = "keepstone/v1/drop";

/// Minimum number of recipient tag slots per drop (real + decoys).
pub const MIN_TAGS: usize = 16;

// ---------------------------------------------------------------------------
// Identifiers
// ---------------------------------------------------------------------------

/// A content-addressed identifier: `SHA-256(exact transmitted bytes)`.
#[derive(Clone, Copy, PartialEq, Eq, Hash, Debug)]
pub struct DropId(pub [u8; 32]);

impl DropId {
    /// Construct from raw bytes.
    pub fn from_bytes(bytes: [u8; 32]) -> (r: Self)
        ensures
            r.0 == bytes,
    {
        DropId(bytes)
    }

    /// Hash `bytes` into an identifier.
    pub fn of(bytes: &[u8]) -> (r: Self)
        ensures
            r.0@ == sha256_spec(bytes@),
    {
        DropId(sha256(bytes))
    }

    /// Raw bytes.
    pub fn as_bytes(&self) -> (r: &[u8; 32])
        ensures
            r == &self.0,
    {
        &self.0
    }

    /// Lowercase hex.
    pub fn to_hex(&self) -> (r: String)
        ensures
            r@ == hex_text(self.0@),
    {
        hexcode::encode(self.0.as_slice())
    }

    /// Parse from hex: 32 bytes written as hex digits of either case.
    pub fn from_hex(text: &str) -> (r: Result<Self, CoreError>)
        ensures
            r is Ok <==> is_hex(text@) && hex_bytes(text@).len() == 32,
            r matches Ok(id) ==> id.0@ == hex_bytes(text@),
            r matches Err(e) ==> e matches CoreError::Invalid(_),
    {
        let bytes = match hexcode::decode(text) {
            Ok(v) => v,
            Err(_) => {
                return Err(CoreError::Invalid("bad hex"));
            },
        };
        if bytes.len() != 32 {
            return Err(CoreError::Invalid("bad id length"));
        }
        Ok(DropId(to_array(bytes.as_slice())))
    }
}

/// The root commitment over a drop's chunk ciphertexts.
#[derive(Clone, Copy, PartialEq, Eq, Debug)]
pub struct ContentRoot(pub [u8; 32]);

impl ContentRoot {
    /// Construct from raw bytes.
    pub fn from_bytes(bytes: [u8; 32]) -> (r: Self)
        ensures
            r.0 == bytes,
    {
        ContentRoot(bytes)
    }

    /// Raw bytes.
    pub fn as_bytes(&self) -> (r: &[u8; 32])
        ensures
            r == &self.0,
    {
        &self.0
    }

    /// Lowercase hex.
    pub fn to_hex(&self) -> (r: String)
        ensures
            r@ == hex_text(self.0@),
    {
        hexcode::encode(self.0.as_slice())
    }
}

/// How a drop's content key is released.
#[derive(Clone, Copy, Debug, PartialEq, Eq)]
pub enum Mode {
    /// The recipient key is the only lock (pure capability).
    Capability,
    /// Additionally gated by a witness presence certificate.
    PlaceLocked,
}

impl Mode {
    /// The wire identifier of a mode.
    pub open spec fn spec_id(self) -> u8 {
        match self {
            Mode::Capability => 0,
            Mode::PlaceLocked => 1,
        }
    }

    /// Wire identifier.
    pub fn id(self) -> (r: u8)
        ensures
            r == self.spec_id(),
    {
        match self {
            Mode::Capability => 0,
            Mode::PlaceLocked => 1,
        }
    }

    /// Parse a wire identifier.
    pub fn from_id(id: u8) -> (r: Result<Mode, CoreError>)
        ensures
            match r {
                Ok(m) => m.spec_id() == id,
                Err(e) => id > 1 && (e matches CoreError::Invalid(m) && m@ == "unknown mode"@),
            },
    {
        match id {
            0 => Ok(Mode::Capability),
            1 => Ok(Mode::PlaceLocked),
            _ => Err(CoreError::Invalid("unknown mode")),
        }
    }
}

// ---------------------------------------------------------------------------
// Wrapped keys
// ---------------------------------------------------------------------------

/// A content key sealed under the classical or hybrid suite.
#[derive(Clone, Debug, PartialEq, Eq)]
pub enum SealedContentKey {
    /// X25519 sealed box (suite 1).
    Classical(SealedKey),
    /// X25519 + ML-KEM-768 hybrid seal (suite 2).
    Hybrid(HybridSealed),
}

/// The abstract content of a [`SealedContentKey`].
pub ghost enum SealedContentKeyView {
    Classical(SealedKeyView),
    Hybrid(HybridSealedView),
}

impl View for SealedContentKey {
    type V = SealedContentKeyView;

    open spec fn view(&self) -> SealedContentKeyView {
        match self {
            SealedContentKey::Classical(s) => SealedContentKeyView::Classical(s@),
            SealedContentKey::Hybrid(s) => SealedContentKeyView::Hybrid(s@),
        }
    }
}

impl SealedContentKey {
    /// The crypto-suite id that produced this sealed key.
    pub fn suite_id(&self) -> (r: u8)
        ensures
            r == (if self is Classical {
                1u8
            } else {
                2u8
            }),
    {
        match self {
            SealedContentKey::Classical(_) => 1,
            SealedContentKey::Hybrid(_) => 2,
        }
    }
}

/// A content key sealed to one recipient, located by a short tag.
#[derive(Clone, Debug, PartialEq, Eq)]
pub struct WrappedKey {
    /// Recipient tag (8 bytes).
    pub tag: [u8; 8],
    /// The sealed content key (classical or hybrid).
    pub sealed: SealedContentKey,
}

/// The abstract content of a [`WrappedKey`].
pub ghost struct WrappedKeyView {
    pub tag: Seq<u8>,
    pub sealed: SealedContentKeyView,
}

impl View for WrappedKey {
    type V = WrappedKeyView;

    open spec fn view(&self) -> WrappedKeyView {
        WrappedKeyView { tag: self.tag@, sealed: self.sealed@ }
    }
}

impl WrappedKeyView {
    /// Field lengths match the wire format.
    pub open spec fn wf(self) -> bool {
        &&& self.tag.len() == 8
        &&& match self.sealed {
            SealedContentKeyView::Classical(s) => {
                &&& s.ephemeral_public.len() == 32
                &&& s.nonce.len() == 24
                &&& s.ciphertext.len() <= usize::MAX
            },
            SealedContentKeyView::Hybrid(s) => {
                &&& s.ephemeral_x25519.len() == 32
                &&& s.kem_ciphertext.len() <= usize::MAX
                &&& s.nonce.len() == 24
                &&& s.ciphertext.len() <= usize::MAX
            },
        }
    }

    /// The data items of the canonical encoding.
    pub open spec fn tokens(self) -> Seq<Token> {
        match self.sealed {
            SealedContentKeyView::Classical(s) => seq![
                Token::Array(3),
                Token::Bytes(self.tag),
                Token::Uint(1),
                Token::Array(3),
                Token::Bytes(s.ephemeral_public),
                Token::Bytes(s.nonce),
                Token::Bytes(s.ciphertext),
            ],
            SealedContentKeyView::Hybrid(s) => seq![
                Token::Array(3),
                Token::Bytes(self.tag),
                Token::Uint(2),
                Token::Array(4),
                Token::Bytes(s.ephemeral_x25519),
                Token::Bytes(s.kem_ciphertext),
                Token::Bytes(s.nonce),
                Token::Bytes(s.ciphertext),
            ],
        }
    }

    /// The canonical CBOR encoding.
    pub open spec fn encoding(self) -> Seq<u8> {
        tokens_bytes(self.tokens())
    }
}

/// The data items of a list of wrapped keys, one after another.
pub open spec fn keys_tokens(ws: Seq<WrappedKeyView>) -> Seq<Token>
    decreases ws.len(),
{
    if ws.len() == 0 {
        Seq::empty()
    } else {
        keys_tokens(ws.drop_last()) + ws.last().tokens()
    }
}

/// The encodings of a list of wrapped keys, one after another.
pub open spec fn keys_encoding(ws: Seq<WrappedKeyView>) -> Seq<u8> {
    tokens_bytes(keys_tokens(ws))
}

proof fn lemma_key_tokens_ok(k: WrappedKeyView)
    requires
        k.wf(),
    ensures
        tokens_ok(k.tokens()),
{
    assert forall|i: int| 0 <= i < k.tokens().len() implies token_ok(#[trigger] k.tokens()[i]) by {
    }
}

proof fn lemma_keys_tokens_ok(ws: Seq<WrappedKeyView>)
    requires
        forall|i: int| 0 <= i < ws.len() ==> (#[trigger] ws[i]).wf(),
    ensures
        tokens_ok(keys_tokens(ws)),
    decreases ws.len(),
{
    if ws.len() > 0 {
        lemma_keys_tokens_ok(ws.drop_last());
        lemma_key_tokens_ok(ws.last());
        crate::cbor::lemma_tokens_ok_concat(keys_tokens(ws.drop_last()), ws.last().tokens());
    }
}

/// Appending one key to a list appends its encoding.
proof fn lemma_keys_encoding_push(ws: Seq<WrappedKeyView>, k: WrappedKeyView)
    ensures
        keys_encoding(ws.push(k)) == keys_encoding(ws) + k.encoding(),
{
    assert(ws.push(k).drop_last() =~= ws);
    lemma_tokens_bytes_concat(keys_tokens(ws), k.tokens());
}

/// The encoding of a non-empty list starts with that of its first key.
proof fn lemma_keys_encoding_front(ws: Seq<WrappedKeyView>)
    requires
        ws.len() > 0,
    ensures
        keys_encoding(ws) == ws[0].encoding() + keys_encoding(ws.drop_first()),
    decreases ws.len(),
{
    if ws.len() == 1 {
        assert(ws.drop_last() =~= Seq::<WrappedKeyView>::empty());
        assert(ws.drop_first() =~= Seq::<WrappedKeyView>::empty());
        lemma_tokens_bytes_concat(keys_tokens(ws.drop_last()), ws.last().tokens());
        assert(keys_tokens(ws.drop_last()) =~= Seq::<Token>::empty());
        assert(tokens_bytes(Seq::<Token>::empty()) =~= Seq::<u8>::empty());
        assert(keys_encoding(ws) =~= ws[0].encoding() + keys_encoding(ws.drop_first()));
    } else {
        let init = ws.drop_last();
        lemma_keys_encoding_front(init);
        lemma_keys_encoding_push(init, ws.last());
        assert(init.push(ws.last()) =~= ws);
        lemma_keys_encoding_push(init.drop_first(), ws.last());
        assert(init.drop_first().push(ws.last()) =~= ws.drop_first());
        assert(init[0] == ws[0]);
    }
}

/// Wrapped-key encodings are self-delimiting: one key's encoding is never a
/// proper prefix of another's.
pub proof fn lemma_key_encoding_unique(
    a: WrappedKeyView,
    more_a: Seq<u8>,
    b: WrappedKeyView,
    more_b: Seq<u8>,
)
    requires
        a.wf(),
        b.wf(),
        a.encoding() + more_a == b.encoding() + more_b,
    ensures
        a == b,
        more_a == more_b,
{
    lemma_key_tokens_ok(a);
    lemma_key_tokens_ok(b);
    let ta = a.tokens();
    let tb = b.tokens();
    let head_b = tb.subrange(0, 3);
    let rest_b = tokens_bytes(tb.subrange(3, tb.len() as int)) + more_b;
    lemma_tokens_bytes_concat(head_b, tb.subrange(3, tb.len() as int));
    assert(head_b + tb.subrange(3, tb.len() as int) =~= tb);
    assert(tokens_ok(head_b)) by {
        assert forall|i: int| 0 <= i < head_b.len() implies token_ok(#[trigger] head_b[i]) by {
            assert(head_b[i] == tb[i]);
        }
    }
    assert(b.encoding() + more_b =~= tokens_bytes(head_b) + rest_b);
    lemma_tokens_prefix_more(ta, more_a, head_b, rest_b);
    assert(ta[2] == tb[2]);
    assert(ta.len() == tb.len());
    lemma_tokens_prefix_more(ta, more_a, tb, more_b);
    assert(ta.subrange(0, tb.len() as int) =~= ta);
    assert(ta.subrange(tb.len() as int, ta.len() as int) =~= Seq::<Token>::empty());
    assert(tokens_bytes(Seq::<Token>::empty()) + more_a =~= more_a);
    assert(ta == tb);
    assert(ta[1] == tb[1]);
    assert(ta[4] == tb[4]);
    assert(ta[5] == tb[5]);
    assert(ta[6] == tb[6]);
    if a.sealed is Hybrid {
        assert(ta[7] == tb[7]);
    }
}

/// Equal-length lists of wrapped keys with equal encodings are equal.
pub proof fn lemma_keys_encoding_unique(a: Seq<WrappedKeyView>, b: Seq<WrappedKeyView>)
    requires
        forall|i: int| 0 <= i < a.len() ==> (#[trigger] a[i]).wf(),
        forall|i: int| 0 <= i < b.len() ==> (#[trigger] b[i]).wf(),
        a.len() == b.len(),
        keys_encoding(a) == keys_encoding(b),
    ensures
        a == b,
    decreases a.len(),
{
    if a.len() > 0 {
        lemma_keys_encoding_front(a);
        lemma_keys_encoding_front(b);
        lemma_key_encoding_unique(a[0], keys_encoding(a.drop_first()), b[0], keys_encoding(b.drop_first()));
        lemma_keys_encoding_unique(a.drop_first(), b.drop_first());
        assert(a =~= seq![a[0]] + a.drop_first());
        assert(b =~= seq![b[0]] + b.drop_first());
    } else {
        assert(a =~= b);
    }
}

// ---------------------------------------------------------------------------
// Drop bodies
// ---------------------------------------------------------------------------

/// The signed body of a drop (everything except the signature).
#[derive(Clone, Debug, PartialEq, Eq)]
pub struct DropBody {
    /// Protocol version.
    pub version: u8,
    /// Crypto suite identifier.
    pub suite: u8,
    /// H3 cell (hex).
    pub cell: String,
    /// k-ring radius for delivery.
    pub ring: u32,
    /// Creation time (Unix seconds).
    pub created_at: u64,
    /// Expiry (Unix seconds; 0 = never).
    pub expiry: u64,
    /// Access mode.
    pub mode: u8,
    /// Chunk size used.
    pub chunk_size: u32,
    /// Number of chunks.
    pub chunk_count: u32,
    /// Commitment over chunk ciphertexts.
    pub content_root: [u8; 32],
    /// Nonce prefix for chunk encryption.
    pub prefix: [u8; 20],
    /// Per-drop nonce used to derive recipient tags.
    pub drop_nonce: [u8; 16],
    /// Proof-of-work nonce.
    pub pow_nonce: u64,
    /// Tagged, sealed content keys (real + decoys).
    pub wrapped_keys: Vec<WrappedKey>,
}

/// The abstract content of a [`DropBody`].
pub ghost struct DropBodyView {
    pub version: u8,
    pub suite: u8,
    pub cell: Seq<char>,
    pub ring: u32,
    pub created_at: u64,
    pub expiry: u64,
    pub mode: u8,
    pub chunk_size: u32,
    pub chunk_count: u32,
    pub content_root: Seq<u8>,
    pub prefix: Seq<u8>,
    pub drop_nonce: Seq<u8>,
    pub pow_nonce: u64,
    pub wrapped_keys: Seq<WrappedKeyView>,
}

impl View for DropBody {
    type V = DropBodyView;

    open spec fn view(&self) -> DropBodyView {
        DropBodyView {
            version: self.version,
            suite: self.suite,
            cell: self.cell@,
            ring: self.ring,
            created_at: self.created_at,
            expiry: self.expiry,
            mode: self.mode,
            chunk_size: self.chunk_size,
            chunk_count: self.chunk_count,
            content_root: self.content_root@,
            prefix: self.prefix@,
            drop_nonce: self.drop_nonce@,
            pow_nonce: self.pow_nonce,
            wrapped_keys: self.wrapped_keys@.map_values(|k: WrappedKey| k@),
        }
    }
}

impl DropBodyView {
    /// Field lengths match the wire format.
    pub open spec fn wf(self) -> bool {
        &&& self.content_root.len() == 32
        &&& self.prefix.len() == 20
        &&& self.drop_nonce.len() == 16
        &&& encode_utf8(self.cell).len() <= usize::MAX
        &&& self.wrapped_keys.len() <= usize::MAX
        &&& forall|i: int| 0 <= i < self.wrapped_keys.len() ==> (#[trigger] self.wrapped_keys[i]).wf()
    }

    /// The data items before the wrapped keys.
    pub open spec fn head_tokens(self) -> Seq<Token> {
        seq![
            Token::Array(14),
            Token::Uint(self.version as u64),
            Token::Uint(self.suite as u64),
            Token::Text(self.cell),
            Token::Uint(self.ring as u64),
            Token::Uint(self.created_at),
            Token::Uint(self.expiry),
            Token::Uint(self.mode as u64),
            Token::Uint(self.chunk_size as u64),
            Token::Uint(self.chunk_count as u64),
            Token::Bytes(self.content_root),
            Token::Bytes(self.prefix),
            Token::Bytes(self.drop_nonce),
            Token::Uint(self.pow_nonce),
            Token::Array(self.wrapped_keys.len() as u64),
        ]
    }

    /// The canonical CBOR encoding.
    pub open spec fn encoding(self) -> Seq<u8> {
        tokens_bytes(self.head_tokens()) + keys_encoding(self.wrapped_keys)
    }
}

proof fn lemma_head_tokens_ok(v: DropBodyView)
    requires
        v.wf(),
    ensures
        tokens_ok(v.head_tokens()),
{
    assert forall|i: int| 0 <= i < v.head_tokens().len() implies token_ok(
        #[trigger] v.head_tokens()[i],
    ) by {}
}

/// Different drop bodies have different encodings.
pub proof fn lemma_body_encoding_injective(a: DropBodyView, b: DropBodyView)
    requires
        a.wf(),
        b.wf(),
        a.encoding() == b.encoding(),
    ensures
        a == b,
{
    let ha = a.head_tokens();
    let hb = b.head_tokens();
    lemma_head_tokens_ok(a);
    lemma_head_tokens_ok(b);
    lemma_tokens_prefix_more(ha, keys_encoding(a.wrapped_keys), hb, keys_encoding(b.wrapped_keys));
    assert(ha.subrange(0, hb.len() as int) =~= ha);
    assert(ha.subrange(hb.len() as int, ha.len() as int) =~= Seq::<Token>::empty());
    assert(tokens_bytes(Seq::<Token>::empty()) + keys_encoding(a.wrapped_keys) =~= keys_encoding(
        a.wrapped_keys,
    ));
    assert(ha[1] == hb[1]);
    assert(ha[2] == hb[2]);
    assert(ha[3] == hb[3]);
    assert(ha[4] == hb[4]);
    assert(ha[5] == hb[5]);
    assert(ha[6] == hb[6]);
    assert(ha[7] == hb[7]);
    assert(ha[8] == hb[8]);
    assert(ha[9] == hb[9]);
    assert(ha[10] == hb[10]);
    assert(ha[11] == hb[11]);
    assert(ha[12] == hb[12]);
    assert(ha[13] == hb[13]);
    assert(ha[14] == hb[14]);
    lemma_keys_encoding_unique(a.wrapped_keys, b.wrapped_keys);
}

fn encode_wrapped_key(enc: &mut Encoder, wrapped: &WrappedKey)
    ensures
        final(enc)@ == old(enc)@ + wrapped@.encoding(),
        wrapped@.wf(),
{
    enc.array(3);
    enc.bytes(wrapped.tag.as_slice());
    match &wrapped.sealed {
        SealedContentKey::Classical(sealed) => {
            enc.uint(1);
            enc.array(3);
            enc.bytes(sealed.ephemeral_public.as_slice());
            enc.bytes(sealed.nonce.as_slice());
            enc.bytes(sealed.ciphertext.as_slice());
            let n = sealed.ciphertext.len();
            assert(n == sealed.ciphertext@.len());
        },
        SealedContentKey::Hybrid(sealed) => {
            enc.uint(2);
            enc.array(4);
            enc.bytes(sealed.ephemeral_x25519.as_slice());
            enc.bytes(sealed.kem_ciphertext.as_slice());
            enc.bytes(sealed.nonce.as_slice());
            enc.bytes(sealed.ciphertext.as_slice());
            let n = sealed.ciphertext.len();
            let k = sealed.kem_ciphertext.len();
            assert(n == sealed.ciphertext@.len() && k == sealed.kem_ciphertext@.len());
        },
    }
    proof {
        reveal_with_fuel(tokens_bytes, 9);
        assert(enc@ =~= old(enc)@ + wrapped@.encoding());
    }
}

impl DropBody {
    /// Encode this body as canonical CBOR.
    pub fn to_canonical(&self) -> (r: Vec<u8>)
        ensures
            r@ == self@.encoding(),
            self@.wf(),
    {
        let mut enc = Encoder::new();
        let ghost mut toks: Seq<Token> = Seq::empty();
        enc.array(14);
        proof { lemma_tokens_bytes_push(toks, Token::Array(14)); toks = toks.push(Token::Array(14)); }
        enc.uint(self.version as u64);
        proof { lemma_tokens_bytes_push(toks, Token::Uint(self.version as u64)); toks = toks.push(Token::Uint(self.version as u64)); }
        enc.uint(self.suite as u64);
        proof { lemma_tokens_bytes_push(toks, Token::Uint(self.suite as u64)); toks = toks.push(Token::Uint(self.suite as u64)); }
        enc.text(self.cell.as_str());
        proof { lemma_tokens_bytes_push(toks, Token::Text(self.cell@)); toks = toks.push(Token::Text(self.cell@)); }
        enc.uint(self.ring as u64);
        proof { lemma_tokens_bytes_push(toks, Token::Uint(self.ring as u64)); toks = toks.push(Token::Uint(self.ring as u64)); }
        enc.uint(self.created_at);
        proof { lemma_tokens_bytes_push(toks, Token::Uint(self.created_at)); toks = toks.push(Token::Uint(self.created_at)); }
        enc.uint(self.expiry);
        proof { lemma_tokens_bytes_push(toks, Token::Uint(self.expiry)); toks = toks.push(Token::Uint(self.expiry)); }
        enc.uint(self.mode as u64);
        proof { lemma_tokens_bytes_push(toks, Token::Uint(self.mode as u64)); toks = toks.push(Token::Uint(self.mode as u64)); }
        enc.uint(self.chunk_size as u64);
        proof { lemma_tokens_bytes_push(toks, Token::Uint(self.chunk_size as u64)); toks = toks.push(Token::Uint(self.chunk_size as u64)); }
        enc.uint(self.chunk_count as u64);
        proof { lemma_tokens_bytes_push(toks, Token::Uint(self.chunk_count as u64)); toks = toks.push(Token::Uint(self.chunk_count as u64)); }
        enc.bytes(self.content_root.as_slice());
        proof { lemma_tokens_bytes_push(toks, Token::Bytes(self.content_root@)); toks = toks.push(Token::Bytes(self.content_root@)); }
        enc.bytes(self.prefix.as_slice());
        proof { lemma_tokens_bytes_push(toks, Token::Bytes(self.prefix@)); toks = toks.push(Token::Bytes(self.prefix@)); }
        enc.bytes(self.drop_nonce.as_slice());
        proof { lemma_tokens_bytes_push(toks, Token::Bytes(self.drop_nonce@)); toks = toks.push(Token::Bytes(self.drop_nonce@)); }
        enc.uint(self.pow_nonce);
        proof { lemma_tokens_bytes_push(toks, Token::Uint(self.pow_nonce)); toks = toks.push(Token::Uint(self.pow_nonce)); }
        enc.array(self.wrapped_keys.len());
        proof { lemma_tokens_bytes_push(toks, Token::Array(self.wrapped_keys@.len() as u64)); toks = toks.push(Token::Array(self.wrapped_keys@.len() as u64)); }
        assert(toks =~= self@.head_tokens());
        let ghost keys = self@.wrapped_keys;
        let mut i: usize = 0;
        while i < self.wrapped_keys.len()
            invariant
                i <= self.wrapped_keys@.len(),
                keys == self.wrapped_keys@.map_values(|k: WrappedKey| k@),
                enc@ == tokens_bytes(self@.head_tokens()) + keys_encoding(keys.take(i as int)),
                forall|j: int| 0 <= j < i ==> (#[trigger] keys[j]).wf(),
            decreases self.wrapped_keys@.len() - i,
        {
            let ghost before = enc@;
            encode_wrapped_key(&mut enc, &self.wrapped_keys[i]);
            proof {
                lemma_keys_encoding_push(keys.take(i as int), keys[i as int]);
                assert(keys.take(i as int).push(keys[i as int]) =~= keys.take(i + 1));
            }
            i = i + 1;
        }
        assert(keys.take(i as int) =~= keys);
        let nkeys = self.wrapped_keys.len();
        assert(nkeys == keys.len());
        assert(self@.wrapped_keys == keys);
        let cell_len = self.cell.as_str().as_bytes().len();
        assert(cell_len == encode_utf8(self@.cell).len());
        enc.into_bytes()
    }

    /// Check the proof-of-work bound to `signer`.
    pub fn pow_ok(&self, signer: &[u8; 32]) -> (r: bool)
        ensures
            r == pow::pow_valid(signer@, self.content_root@, self.drop_nonce@, self.pow_nonce),
    {
        pow::is_valid(signer, &self.content_root, &self.drop_nonce, self.pow_nonce)
    }
}


/// The data items of a wrapped key split after its three leading items, and
/// how each part is read back from the key's encoding.
proof fn lemma_key_parse(w: WrappedKeyView, more: Seq<u8>)
    requires
        w.wf(),
    ensures
        ({
            let s = w.encoding() + more;
            let h = w.tokens().take(3);
            let t = w.tokens().skip(3);
            &&& parse_tokens(s, 3) == Some((h, tokens_bytes(h).len()))
            &&& s.subrange(tokens_bytes(h).len() as int, s.len() as int) == tokens_bytes(t) + more
            &&& parse_tokens(tokens_bytes(t) + more, t.len()) == Some((t, tokens_bytes(t).len()))
        }),
{
    let ts = w.tokens();
    let h = ts.take(3);
    let t = ts.skip(3);
    lemma_key_tokens_ok(w);
    assert(h + t =~= ts);
    lemma_tokens_bytes_concat(h, t);
    assert(tokens_ok(h)) by {
        assert forall|i: int| 0 <= i < h.len() implies token_ok(#[trigger] h[i]) by {
            assert(h[i] == ts[i]);
        }
    }
    assert(tokens_ok(t)) by {
        assert forall|i: int| 0 <= i < t.len() implies token_ok(#[trigger] t[i]) by {
            assert(t[i] == ts[i + 3]);
        }
    }
    let s = w.encoding() + more;
    assert(s =~= tokens_bytes(h) + (tokens_bytes(t) + more));
    lemma_parse_tokens_of_bytes(h, tokens_bytes(t) + more);
    lemma_parse_tokens_of_bytes(t, more);
    assert(s.subrange(tokens_bytes(h).len() as int, s.len() as int) =~= tokens_bytes(t) + more);
}

/// Two consecutive reads: the bytes they consumed encode their items one
/// after another.
#[verifier::spinoff_prover]
#[verifier::rlimit(40)]
proof fn lemma_two_reads(s: Seq<u8>, n1: nat, a: Seq<Token>, k1: nat, n2: nat, b: Seq<Token>, k2: nat)
    requires
        parse_tokens(s, n1) == Some((a, k1)),
        parse_tokens(s.subrange(k1 as int, s.len() as int), n2) == Some((b, k2)),
    ensures
        k1 + k2 <= s.len(),
        tokens_ok(a + b),
        s == tokens_bytes(a + b) + s.subrange((k1 + k2) as int, s.len() as int),
{
    lemma_parse_tokens_canonical(s, n1);
    let s2 = s.subrange(k1 as int, s.len() as int);
    lemma_parse_tokens_canonical(s2, n2);
    lemma_tokens_bytes_concat(a, b);
    crate::cbor::lemma_tokens_ok_concat(a, b);
    assert(s =~= s.subrange(0, k1 as int) + s2.subrange(0, k2 as int) + s.subrange(
        (k1 + k2) as int,
        s.len() as int,
    ));
}

/// Read one wrapped key; exactly the encodings of well-formed keys are
/// accepted, whatever follows them.
#[verifier::spinoff_prover]
#[verifier::rlimit(100)]
fn decode_wrapped_key<'a>(dec: &mut Decoder<'a>) -> (r: Result<WrappedKey, CoreError>)
    ensures
        final(dec).data() == old(dec).data(),
        final(dec).position() <= final(dec).data().len(),
        old(dec).position() <= old(dec).data().len(),
        r matches Ok(k) ==> k@.wf() && old(dec).rest() == k@.encoding() + final(dec).rest()
            && final(dec).position() == old(dec).position() + k@.encoding().len(),
        forall|w: WrappedKeyView, more: Seq<u8>|
            w.wf() && old(dec).rest() == #[trigger] (w.encoding() + more) ==> (r matches Ok(k)
                && k@ == w),
        r matches Err(e) ==> e matches CoreError::Cbor(_),
{
    let ghost rest0 = dec.rest();
    let ghost has_w = exists|w: WrappedKeyView, more: Seq<u8>|
        w.wf() && rest0 == #[trigger] (w.encoding() + more);
    let ghost (w, more) = choose|w: WrappedKeyView, more: Seq<u8>|
        w.wf() && rest0 == #[trigger] (w.encoding() + more);
    proof {
        if has_w {
            lemma_key_parse(w, more);
        }
    }
    let head = dec.items(3)?;
    let ghost rest1 = dec.rest();
    proof {
        lemma_parse_tokens_canonical(rest0, 3);
        let (h, k1) = parse_tokens(rest0, 3).unwrap();
        assert(rest1 =~= rest0.subrange(k1 as int, rest0.len() as int));
        assert(items_view(head@)[0] == head@[0]@);
        assert(items_view(head@)[1] == head@[1]@);
        assert(items_view(head@)[2] == head@[2]@);
        if has_w {
            let wh = w.tokens().take(3);
            assert(wh[0] == Token::Array(3));
            assert(wh[1] == Token::Bytes(w.tag));
            assert(wh[2] == Token::Uint(if w.sealed is Classical { 1 } else { 2 }));
            let wt = w.tokens().skip(3);
            match w.sealed {
                SealedContentKeyView::Classical(sk) => {
                    assert(wt =~= seq![Token::Array(3), Token::Bytes(sk.ephemeral_public), Token::Bytes(sk.nonce), Token::Bytes(sk.ciphertext)]);
                },
                SealedContentKeyView::Hybrid(sk) => {
                    assert(wt =~= seq![Token::Array(4), Token::Bytes(sk.ephemeral_x25519), Token::Bytes(sk.kem_ciphertext), Token::Bytes(sk.nonce), Token::Bytes(sk.ciphertext)]);
                },
            }
        }
    }
    let arity_ok = match &head[0] {
        Item::Array(n) => *n == 3,
        _ => false,
    };
    if !arity_ok {
        return Err(CoreError::Cbor("wrapped key arity"));
    }
    let tag: [u8; 8] = match head[1].fixed_bytes::<8>() {
        Some(a) => a,
        None => {
            return Err(CoreError::Cbor("wrapped key tag"));
        },
    };
    let kind: u64 = match &head[2] {
        Item::Uint(v) => *v,
        _ => {
            return Err(CoreError::Cbor("sealed key kind"));
        },
    };
    let ghost mut tail: Seq<Token> = Seq::empty();
    let sealed = if kind == 1 {
        let body = dec.items(4)?;
        let ok = match &body[0] {
            Item::Array(n) => *n == 3,
            _ => false,
        };
        if !ok {
            return Err(CoreError::Cbor("classical sealed arity"));
        }
        let ephemeral_public: [u8; 32] = match body[1].fixed_bytes::<32>() {
            Some(a) => a,
            None => {
                return Err(CoreError::Cbor("ephemeral public key"));
            },
        };
        let nonce: [u8; 24] = match body[2].fixed_bytes::<24>() {
            Some(a) => a,
            None => {
                return Err(CoreError::Cbor("nonce"));
            },
        };
        let ciphertext: Vec<u8> = match &body[3] {
            Item::Bytes(b) => to_vec(b.as_slice()),
            _ => {
                return Err(CoreError::Cbor("ciphertext"));
            },
        };
        proof {
            tail = items_view(body@);
        }
        SealedContentKey::Classical(SealedKey { ephemeral_public, nonce, ciphertext })
    } else if kind == 2 {
        let body = dec.items(5)?;
        let ok = match &body[0] {
            Item::Array(n) => *n == 4,
            _ => false,
        };
        if !ok {
            return Err(CoreError::Cbor("hybrid sealed arity"));
        }
        let ephemeral_x25519: [u8; 32] = match body[1].fixed_bytes::<32>() {
            Some(a) => a,
            None => {
                return Err(CoreError::Cbor("ephemeral public key"));
            },
        };
        let kem_ciphertext: Vec<u8> = match &body[2] {
            Item::Bytes(b) => to_vec(b.as_slice()),
            _ => {
                return Err(CoreError::Cbor("kem ciphertext"));
            },
        };
        let nonce: [u8; 24] = match body[3].fixed_bytes::<24>() {
            Some(a) => a,
            None => {
                return Err(CoreError::Cbor("nonce"));
            },
        };
        let ciphertext: Vec<u8> = match &body[4] {
            Item::Bytes(b) => to_vec(b.as_slice()),
            _ => {
                return Err(CoreError::Cbor("ciphertext"));
            },
        };
        proof {
            tail = items_view(body@);
        }
        SealedContentKey::Hybrid(HybridSealed { ephemeral_x25519, kem_ciphertext, nonce, ciphertext })
    } else {
        return Err(CoreError::Cbor("unknown sealed key kind"));
    };
    let out = WrappedKey { tag, sealed };
    proof {
        let h = items_view(head@);
        let (h0, k1) = parse_tokens(rest0, 3).unwrap();
        let (t0, k2) = parse_tokens(rest1, tail.len()).unwrap();
        lemma_two_reads(rest0, 3, h, k1, tail.len(), tail, k2);
        assert(out@.tokens() =~= h + tail);
        assert(dec.rest() =~= rest0.subrange((k1 + k2) as int, rest0.len() as int));
        assert forall|w2: WrappedKeyView, more2: Seq<u8>|
            w2.wf() && rest0 == #[trigger] (w2.encoding() + more2) implies out@ == w2 by {
            lemma_key_encoding_unique(w2, more2, out@, dec.rest());
        }
    }
    Ok(out)
}

/// Equal sequences with equal fronts have equal tails.
proof fn lemma_cancel_front(a: Seq<u8>, x: Seq<u8>, y: Seq<u8>)
    requires
        a + x == a + y,
    ensures
        x == y,
{
    assert(x =~= (a + x).subrange(a.len() as int, (a + x).len() as int));
    assert(y =~= (a + y).subrange(a.len() as int, (a + y).len() as int));
}

/// A body's head items, then the encodings of its keys.
proof fn lemma_body_parse(v: DropBodyView)
    requires
        v.wf(),
    ensures
        ({
            let h = v.head_tokens();
            &&& parse_tokens(v.encoding(), 15) == Some((h, tokens_bytes(h).len()))
            &&& v.encoding().subrange(tokens_bytes(h).len() as int, v.encoding().len() as int)
                == keys_encoding(v.wrapped_keys)
        }),
{
    lemma_head_tokens_ok(v);
    lemma_parse_tokens_of_bytes(v.head_tokens(), keys_encoding(v.wrapped_keys));
    let k = tokens_bytes(v.head_tokens()).len();
    assert(v.encoding().subrange(k as int, v.encoding().len() as int) =~= keys_encoding(
        v.wrapped_keys,
    ));
}

impl DropBody {
    /// Decode a body from canonical CBOR: exactly the encodings of
    /// well-formed bodies are accepted.
    #[verifier::spinoff_prover]
    #[verifier::rlimit(100)]
    pub fn from_canonical(bytes: &[u8]) -> (r: Result<DropBody, CoreError>)
        ensures
            r matches Ok(b) ==> b@.wf() && b@.encoding() == bytes@,
            forall|v: DropBodyView|
                v.wf() && #[trigger] v.encoding() == bytes@ ==> (r matches Ok(b) && b@ == v),
            r matches Err(e) ==> e matches CoreError::Cbor(_),
    {
        let ghost data = bytes@;
        let ghost has_v = exists|v: DropBodyView| v.wf() && #[trigger] v.encoding() == data;
        let ghost v = choose|v: DropBodyView| v.wf() && #[trigger] v.encoding() == data;
        proof {
            if has_v {
                lemma_body_parse(v);
            }
        }
        let mut dec = Decoder::new(bytes);
        proof {
            assert(dec.rest() =~= data);
        }
        let head = dec.items(15)?;
        let ghost p = dec.position();
        proof {
            lemma_parse_tokens_canonical(data, 15);
            assert(dec.rest() =~= data.subrange(p as int, data.len() as int));
        }
        let arity_ok = match &head[0] {
            Item::Array(n) => *n == 14,
            _ => false,
        };
        if !arity_ok {
            return Err(CoreError::Cbor("drop body arity"));
        }
        let version: u8 = match &head[1] {
            Item::Uint(x) => {
                if *x > 0xff {
                    return Err(CoreError::Cbor("version"));
                }
                *x as u8
            },
            _ => {
                return Err(CoreError::Cbor("version"));
            },
        };
        let suite: u8 = match &head[2] {
            Item::Uint(x) => {
                if *x > 0xff {
                    return Err(CoreError::Cbor("suite"));
                }
                *x as u8
            },
            _ => {
                return Err(CoreError::Cbor("suite"));
            },
        };
        let cell: String = match &head[3] {
            Item::Text(t) => t.clone(),
            _ => {
                return Err(CoreError::Cbor("cell"));
            },
        };
        let ring: u32 = match &head[4] {
            Item::Uint(x) => {
                if *x > 0xffff_ffff {
                    return Err(CoreError::Cbor("ring"));
                }
                *x as u32
            },
            _ => {
                return Err(CoreError::Cbor("ring"));
            },
        };
        let created_at: u64 = match &head[5] {
            Item::Uint(x) => *x,
            _ => {
                return Err(CoreError::Cbor("created_at"));
            },
        };
        let expiry: u64 = match &head[6] {
            Item::Uint(x) => *x,
            _ => {
                return Err(CoreError::Cbor("expiry"));
            },
        };
        let mode: u8 = match &head[7] {
            Item::Uint(x) => {
                if *x > 0xff {
                    return Err(CoreError::Cbor("mode"));
                }
                *x as u8
            },
            _ => {
                return Err(CoreError::Cbor("mode"));
            },
        };
        let chunk_size: u32 = match &head[8] {
            Item::Uint(x) => {
                if *x > 0xffff_ffff {
                    return Err(CoreError::Cbor("chunk_size"));
                }
                *x as u32
            },
            _ => {
                return Err(CoreError::Cbor("chunk_size"));
            },
        };
        let chunk_count: u32 = match &head[9] {
            Item::Uint(x) => {
                if *x > 0xffff_ffff {
                    return Err(CoreError::Cbor("chunk_count"));
                }
                *x as u32
            },
            _ => {
                return Err(CoreError::Cbor("chunk_count"));
            },
        };
        let content_root: [u8; 32] = match head[10].fixed_bytes::<32>() {
            Some(a) => a,
            None => {
                return Err(CoreError::Cbor("content_root"));
            },
        };
        let prefix: [u8; 20] = match head[11].fixed_bytes::<20>() {
            Some(a) => a,
            None => {
                return Err(CoreError::Cbor("prefix"));
            },
        };
        let drop_nonce: [u8; 16] = match head[12].fixed_bytes::<16>() {
            Some(a) => a,
            None => {
                return Err(CoreError::Cbor("drop_nonce"));
            },
        };
        let pow_nonce: u64 = match &head[13] {
            Item::Uint(x) => *x,
            _ => {
                return Err(CoreError::Cbor("pow_nonce"));
            },
        };
        let wrapped_count: u64 = match &head[14] {
            Item::Array(n) => *n,
            _ => {
                return Err(CoreError::Cbor("wrapped_keys"));
            },
        };
        proof {
            assert(token_ok(items_view(head@)[14]));
            if has_v {
                assert(v.wrapped_keys.skip(0) =~= v.wrapped_keys);
            }
        }
        let mut wrapped_keys: Vec<WrappedKey> = Vec::new();
        let mut i: u64 = 0;
        while i < wrapped_count
            invariant
                dec.data() == data,
                data == bytes@,
                has_v == exists|v: DropBodyView| v.wf() && #[trigger] v.encoding() == data,
                dec.position() <= data.len(),
                p <= dec.position(),
                i <= wrapped_count,
                wrapped_count <= usize::MAX,
                wrapped_keys@.len() == i,
                forall|j: int| 0 <= j < i ==> (#[trigger] wrapped_keys@[j])@.wf(),
                data.subrange(p as int, dec.position() as int) == keys_encoding(
                    wrapped_keys@.map_values(|k: WrappedKey| k@),
                ),
                has_v ==> v.wrapped_keys.len() == wrapped_count,
                has_v ==> v.wrapped_keys.take(i as int) == wrapped_keys@.map_values(
                    |k: WrappedKey| k@,
                ),
                has_v ==> dec.rest() == keys_encoding(v.wrapped_keys.skip(i as int)),
                has_v ==> forall|j: int|
                    0 <= j < v.wrapped_keys.len() ==> (#[trigger] v.wrapped_keys[j]).wf(),
            decreases wrapped_count - i,
        {
            let ghost before = wrapped_keys@.map_values(|k: WrappedKey| k@);
            let ghost q = dec.position();
            proof {
                if has_v {
                    let tail = v.wrapped_keys.skip(i as int);
                    lemma_keys_encoding_front(tail);
                    assert(tail.drop_first() =~= v.wrapped_keys.skip(i + 1));
                    assert(tail[0] == v.wrapped_keys[i as int]);
                }
            }
            let ghost r0 = dec.rest();
            let res = decode_wrapped_key(&mut dec);
            proof {
                if has_v {
                    let tail = v.wrapped_keys.skip(i as int);
                    assert(tail[0].wf());
                    assert(r0 == tail[0].encoding() + keys_encoding(tail.drop_first()));
                    assert(res is Ok);
                }
            }
            let k = match res {
                Ok(k) => k,
                Err(e) => {
                    return Err(e);
                },
            };
            proof {
                lemma_keys_encoding_push(before, k@);
                assert(k@.encoding() =~= data.subrange(q as int, dec.position() as int));
                assert(data.subrange(p as int, dec.position() as int) =~= data.subrange(
                    p as int,
                    q as int,
                ) + k@.encoding());
                if has_v {
                    let tail = v.wrapped_keys.skip(i as int);
                    assert(tail[0].wf());
                    assert(r0 == tail[0].encoding() + keys_encoding(tail.drop_first()));
                    assert(k@ == tail[0]);
                    lemma_cancel_front(k@.encoding(), dec.rest(), keys_encoding(tail.drop_first()));
                }
            }
            wrapped_keys.push(k);
            proof {
                assert(wrapped_keys@.map_values(|k: WrappedKey| k@) =~= before.push(k@));
                if has_v {
                    assert(v.wrapped_keys.take(i + 1) =~= v.wrapped_keys.take(i as int).push(
                        v.wrapped_keys[i as int],
                    ));
                }
            }
            i = i + 1;
        }
        proof {
            if has_v {
                assert(v.wrapped_keys.skip(i as int) =~= Seq::<WrappedKeyView>::empty());
                assert(keys_tokens(Seq::<WrappedKeyView>::empty()) =~= Seq::<Token>::empty());
                assert(v.wrapped_keys.take(i as int) =~= v.wrapped_keys);
            }
        }
        dec.finish()?;
        let out = DropBody {
            version,
            suite,
            cell,
            ring,
            created_at,
            expiry,
            mode,
            chunk_size,
            chunk_count,
            content_root,
            prefix,
            drop_nonce,
            pow_nonce,
            wrapped_keys,
        };
        proof {
            assert(items_view(head@) =~= out@.head_tokens());
            assert(data =~= data.subrange(0, p as int) + data.subrange(p as int, data.len() as int));
            assert forall|w: DropBodyView| w.wf() && #[trigger] w.encoding() == data implies out@
                == w by {
                lemma_body_encoding_injective(w, out@);
            }
        }
        Ok(out)
    }
}


// ---------------------------------------------------------------------------
// Signed envelopes
// ---------------------------------------------------------------------------

/// The exact bytes signed for a drop payload: the drop context, the
/// payload's length (big-endian, capped at `u32::MAX`) and the payload.
pub open spec fn signing_input_spec(payload: Seq<u8>) -> Seq<u8> {
    DROP_CONTEXT.spec_bytes() + be_u32(capped_len(payload.len())) + payload
}

/// The exact bytes hashed/signed for a drop payload (domain separated).
pub fn signing_input(payload: &[u8]) -> (r: Vec<u8>)
    ensures
        r@ == signing_input_spec(payload@),
{
    let mut out: Vec<u8> = Vec::new();
    push_all(&mut out, DROP_CONTEXT.as_bytes());
    let len = payload.len();
    let prefix: u32 = if len <= 0xffff_ffff {
        len as u32
    } else {
        0xffff_ffffu32
    };
    push_u32_be(&mut out, prefix);
    push_all(&mut out, payload);
    assert(out@ =~= signing_input_spec(payload@));
    out
}

/// The data items of an envelope.
pub open spec fn envelope_tokens(suite: u8, signer: Seq<u8>, payload: Seq<u8>, signature: Seq<u8>) -> Seq<Token> {
    seq![
        Token::Array(4),
        Token::Uint(suite as u64),
        Token::Bytes(signer),
        Token::Bytes(payload),
        Token::Bytes(signature),
    ]
}

/// The canonical encoding of an envelope.
pub open spec fn envelope_encoding(suite: u8, signer: Seq<u8>, payload: Seq<u8>, signature: Seq<u8>) -> Seq<u8> {
    tokens_bytes(envelope_tokens(suite, signer, payload, signature))
}

/// Encode the signed envelope for a payload and signature.
fn encode_envelope(suite: u8, signer: &[u8; 32], payload: &[u8], signature: &[u8; 64]) -> (r: Vec<u8>)
    ensures
        r@ == envelope_encoding(suite, signer@, payload@, signature@),
{
    let mut enc = Encoder::new();
    enc.array(4);
    enc.uint(suite as u64);
    enc.bytes(signer.as_slice());
    enc.bytes(payload);
    enc.bytes(signature.as_slice());
    proof {
        reveal_with_fuel(tokens_bytes, 6);
        assert(enc@ =~= envelope_encoding(suite, signer@, payload@, signature@));
    }
    enc.into_bytes()
}

/// A signed drop envelope.
///
/// The `raw` field holds the **exact transmitted bytes**; [`SignedDrop::id`]
/// is the hash of those bytes and signature verification is performed over
/// the preserved payload bytes, never a re-encoding.
#[derive(Clone, Debug, PartialEq, Eq)]
pub struct SignedDrop {
    /// Crypto suite identifier.
    pub suite: u8,
    /// Author's Ed25519 public key.
    pub signer: [u8; 32],
    /// Canonical body bytes exactly as received.
    pub payload: Vec<u8>,
    /// Author's Ed25519 signature over [`signing_input`].
    pub signature: [u8; 64],
    /// Exact transmitted bytes of the whole envelope.
    pub raw: Vec<u8>,
}

impl SignedDrop {
    /// Sign a drop body with `identity`, producing a canonical envelope
    /// whose signature verifies.
    pub fn sign(identity: &Identity, body: &DropBody) -> (r: Self)
        ensures
            r.suite == body.suite,
            r.signer@ == ed25519_public_spec(identity.signing_secret()),
            r.payload@ == body@.encoding(),
            r.signature@ == ed25519_sign_spec(identity.signing_secret(), signing_input_spec(r.payload@)),
            r.raw@ == envelope_encoding(r.suite, r.signer@, r.payload@, r.signature@),
            r.signer@.len() == 32 && r.signature@.len() == 64 && r.payload@.len() <= usize::MAX,
            ed25519_verify_spec(r.signer@, signing_input_spec(r.payload@), r.signature@),
    {
        let payload = body.to_canonical();
        let input = signing_input(payload.as_slice());
        let signature = identity.sign(input.as_slice());
        let signer = identity.signing_public();
        let raw = encode_envelope(body.suite, &signer, payload.as_slice(), &signature);
        let payload_len = payload.len();
        assert(payload_len == payload@.len());
        SignedDrop { suite: body.suite, signer, payload, signature, raw }
    }

    /// Decode an envelope from its exact transmitted bytes: exactly the
    /// encodings of envelopes are accepted, and the bytes are kept as `raw`.
    #[verifier::spinoff_prover]
    #[verifier::rlimit(50)]
    pub fn decode(bytes: &[u8]) -> (r: Result<Self, CoreError>)
        ensures
            r matches Ok(d) ==> d.raw@ == bytes@ && bytes@ == envelope_encoding(
                d.suite,
                d.signer@,
                d.payload@,
                d.signature@,
            ),
            forall|suite: u8, signer: Seq<u8>, payload: Seq<u8>, signature: Seq<u8>|
                signer.len() == 32 && signature.len() == 64 && payload.len() <= usize::MAX
                    && bytes@ == #[trigger] envelope_encoding(suite, signer, payload, signature)
                    ==> (r matches Ok(d) && d.suite == suite && d.signer@ == signer && d.payload@
                    == payload && d.signature@ == signature),
            r matches Err(e) ==> e matches CoreError::Cbor(_),
    {
        let ghost data = bytes@;
        let ghost has = exists|suite: u8, signer: Seq<u8>, payload: Seq<u8>, signature: Seq<u8>|
            signer.len() == 32 && signature.len() == 64 && payload.len() <= usize::MAX && data
                == #[trigger] envelope_encoding(suite, signer, payload, signature);
        let ghost (g_suite, g_signer, g_payload, g_signature) = choose|
            suite: u8,
            signer: Seq<u8>,
            payload: Seq<u8>,
            signature: Seq<u8>,
        |
            signer.len() == 32 && signature.len() == 64 && payload.len() <= usize::MAX && data
                == #[trigger] envelope_encoding(suite, signer, payload, signature);
        proof {
            if has {
                let ts = envelope_tokens(g_suite, g_signer, g_payload, g_signature);
                assert(tokens_ok(ts)) by {
                    assert forall|i: int| 0 <= i < ts.len() implies token_ok(#[trigger] ts[i]) by {}
                }
                lemma_parse_tokens_of_bytes(ts, Seq::<u8>::empty());
                assert(tokens_bytes(ts) + Seq::<u8>::empty() =~= data);
            }
        }
        let mut dec = Decoder::new(bytes);
        proof {
            assert(dec.rest() =~= data);
        }
        let items = dec.items(5)?;
        proof {
            lemma_parse_tokens_canonical(data, 5);
            assert(items_view(items@)[0] == items@[0]@);
            assert(items_view(items@)[1] == items@[1]@);
            assert(items_view(items@)[2] == items@[2]@);
            assert(items_view(items@)[3] == items@[3]@);
            assert(items_view(items@)[4] == items@[4]@);
        }
        let arity_ok = match &items[0] {
            Item::Array(n) => *n == 4,
            _ => false,
        };
        if !arity_ok {
            return Err(CoreError::Cbor("envelope arity"));
        }
        let suite: u8 = match &items[1] {
            Item::Uint(x) => {
                if *x > 0xff {
                    return Err(CoreError::Cbor("suite"));
                }
                *x as u8
            },
            _ => {
                return Err(CoreError::Cbor("suite"));
            },
        };
        let signer: [u8; 32] = match items[2].fixed_bytes::<32>() {
            Some(a) => a,
            None => {
                return Err(CoreError::Cbor("signer"));
            },
        };
        let payload: Vec<u8> = match &items[3] {
            Item::Bytes(b) => to_vec(b.as_slice()),
            _ => {
                return Err(CoreError::Cbor("payload"));
            },
        };
        let signature: [u8; 64] = match items[4].fixed_bytes::<64>() {
            Some(a) => a,
            None => {
                return Err(CoreError::Cbor("signature"));
            },
        };
        dec.finish()?;
        let out = SignedDrop { suite, signer, payload, signature, raw: to_vec(bytes) };
        proof {
            let mine = envelope_tokens(suite, signer@, out.payload@, signature@);
            assert(items_view(items@) =~= mine);
            assert(data =~= data.subrange(0, data.len() as int));
            assert forall|s2: u8, k2: Seq<u8>, p2: Seq<u8>, g2: Seq<u8>|
                k2.len() == 32 && g2.len() == 64 && p2.len() <= usize::MAX && data
                    == #[trigger] envelope_encoding(s2, k2, p2, g2) implies s2 == suite && k2
                == signer@ && p2 == out.payload@ && g2 == signature@ by {
                let ts = envelope_tokens(s2, k2, p2, g2);
                assert(tokens_ok(ts)) by {
                    assert forall|i: int| 0 <= i < ts.len() implies token_ok(#[trigger] ts[i]) by {}
                }
                lemma_parse_tokens_of_bytes(ts, Seq::<u8>::empty());
                assert(tokens_bytes(ts) + Seq::<u8>::empty() =~= data);
                assert(ts == mine);
                assert(ts[1] == mine[1]);
                assert(ts[2] == mine[2]);
                assert(ts[3] == mine[3]);
                assert(ts[4] == mine[4]);
            }
        }
        Ok(out)
    }

    /// The identifier: hash of the exact transmitted bytes.
    pub fn id(&self) -> (r: DropId)
        ensures
            r.0@ == sha256_spec(self.raw@),
    {
        DropId::of(self.raw.as_slice())
    }

    /// Verify the author's signature over the preserved payload bytes.
    pub fn verify(&self) -> (r: Result<(), CoreError>)
        ensures
            r is Ok <==> ed25519_verify_spec(self.signer@, signing_input_spec(self.payload@), self.signature@),
            r matches Err(e) ==> e matches CoreError::Verify,
    {
        let input = signing_input(self.payload.as_slice());
        match verify(&self.signer, input.as_slice(), &self.signature) {
            Ok(()) => Ok(()),
            Err(_) => Err(CoreError::Verify),
        }
    }

    /// Decode the preserved payload as a [`DropBody`].
    pub fn body(&self) -> (r: Result<DropBody, CoreError>)
        ensures
            r matches Ok(b) ==> b@.wf() && b@.encoding() == self.payload@,
            forall|v: DropBodyView|
                v.wf() && #[trigger] v.encoding() == self.payload@ ==> (r matches Ok(b) && b@ == v),
            r matches Err(e) ==> e matches CoreError::Cbor(_),
    {
        DropBody::from_canonical(self.payload.as_slice())
    }
}

/// The concatenated digests of the chunks, in order.
pub open spec fn chunk_digests(chunks: Seq<Seq<u8>>) -> Seq<u8>
    decreases chunks.len(),
{
    if chunks.len() == 0 {
        Seq::empty()
    } else {
        chunk_digests(chunks.drop_last()) + sha256_spec(chunks.last())
    }
}

/// The digests the content root hashes are one SHA-256 digest per chunk,
/// every chunk included, in chunk order: the concatenation of
/// `SHA-256(c_0), .., SHA-256(c_{n-1})`.
pub proof fn lemma_chunk_digests_concat(chunks: Seq<Seq<u8>>)
    ensures
        chunk_digests(chunks) == chunks.map_values(|c: Seq<u8>| sha256_spec(c)).flatten(),
    decreases chunks.len(),
{
    let m = chunks.map_values(|c: Seq<u8>| sha256_spec(c));
    m.lemma_flatten_and_flatten_alt_are_equivalent();
    if chunks.len() > 0 {
        lemma_chunk_digests_concat(chunks.drop_last());
        let md = chunks.drop_last().map_values(|c: Seq<u8>| sha256_spec(c));
        assert(m.drop_last() =~= md);
        md.lemma_flatten_and_flatten_alt_are_equivalent();
        assert(m.last() == sha256_spec(chunks.last()));
    }
}

/// Compute the content root over chunk ciphertexts:
/// `SHA-256( SHA-256(chunk_0) || SHA-256(chunk_1) || ... )`.
pub fn content_root(chunks: &[Vec<u8>]) -> (r: [u8; 32])
    ensures
        r@ == sha256_spec(chunk_digests(chunks@.map_values(|c: Vec<u8>| c@))),
{
    let ghost all = chunks@.map_values(|c: Vec<u8>| c@);
    let mut buf: Vec<u8> = Vec::new();
    let mut i: usize = 0;
    while i < chunks.len()
        invariant
            i <= chunks@.len(),
            all == chunks@.map_values(|c: Vec<u8>| c@),
            buf@ == chunk_digests(all.take(i as int)),
        decreases chunks@.len() - i,
    {
        let digest = sha256(chunks[i].as_slice());
        push_all(&mut buf, digest.as_slice());
        proof {
            assert(all.take(i + 1).drop_last() =~= all.take(i as int));
        }
        i = i + 1;
    }
    assert(all.take(i as int) =~= all);
    sha256(buf.as_slice())
}

} // verus!
