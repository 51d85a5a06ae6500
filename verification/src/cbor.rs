//! A minimal **canonical** CBOR codec.
//!
//! Only the subset Keepstone needs is supported, and canonical form is
//! enforced on decode:
//!
//! - shortest-form integer heads (RFC 8949 §4.2.1)
//! - definite lengths only (no indefinite strings/arrays/maps)
//! - no trailing bytes
//!
//! The model: every data item is a [`Token`]; [`token_bytes`] is its unique
//! canonical encoding and [`parse_token`] reads one item back. The decoder
//! accepts exactly the canonical encodings ([`lemma_parse_token_canonical`],
//! [`lemma_parse_token_of_bytes`]).
use vstd::prelude::*;
use vstd::utf8::*;
use vstd::string::*;
use crate::error::CoreError;

verus! {

broadcast use {
    vstd::utf8::encode_utf8_decode_utf8,
    vstd::utf8::encode_utf8_valid_utf8,
    vstd::seq_lib::group_seq_properties,
};

/// Major type of unsigned integers.
pub const MAJOR_UINT: u8 = 0;
/// Major type of byte strings.
pub const MAJOR_BYTES: u8 = 2;
/// Major type of UTF-8 text strings.
pub const MAJOR_TEXT: u8 = 3;
/// Major type of arrays.
pub const MAJOR_ARRAY: u8 = 4;
/// Major type of maps.
pub const MAJOR_MAP: u8 = 5;

// ---------------------------------------------------------------------------
// Byte-level model
// ---------------------------------------------------------------------------

/// Big-endian bytes of the low 16 bits of `v`.
pub open spec fn be2(v: u64) -> Seq<u8> {
    seq![(v >> 8u64) as u8, v as u8]
}

/// Big-endian bytes of the low 32 bits of `v`.
pub open spec fn be4(v: u64) -> Seq<u8> {
    seq![(v >> 24u64) as u8, (v >> 16u64) as u8, (v >> 8u64) as u8, v as u8]
}

/// Big-endian bytes of `v`.
pub open spec fn be8(v: u64) -> Seq<u8> {
    seq![
        (v >> 56u64) as u8,
        (v >> 48u64) as u8,
        (v >> 40u64) as u8,
        (v >> 32u64) as u8,
        (v >> 24u64) as u8,
        (v >> 16u64) as u8,
        (v >> 8u64) as u8,
        v as u8,
    ]
}

/// The value of two big-endian bytes.
pub open spec fn from_be2(a: u8, b: u8) -> u64 {
    ((a as u64) << 8u64) | (b as u64)
}

/// The value of four big-endian bytes.
pub open spec fn from_be4(a: u8, b: u8, c: u8, d: u8) -> u64 {
    ((a as u64) << 24u64) | ((b as u64) << 16u64) | ((c as u64) << 8u64) | (d as u64)
}

/// The value of eight big-endian bytes.
pub open spec fn from_be8(s: Seq<u8>) -> u64 {
    ((s[0] as u64) << 56u64) | ((s[1] as u64) << 48u64) | ((s[2] as u64) << 40u64) | ((
    s[3] as u64) << 32u64) | ((s[4] as u64) << 24u64) | ((s[5] as u64) << 16u64) | ((
    s[6] as u64) << 8u64) | (s[7] as u64)
}

/// The initial byte of a data item: major type in the top three bits.
pub open spec fn initial_byte(major: u8, additional: u8) -> u8 {
    (major * 32 + additional) as u8
}

/// The canonical (shortest-form) head of a data item with major type
/// `major` and argument `value`.
pub open spec fn head(major: u8, value: u64) -> Seq<u8> {
    if value < 24 {
        seq![initial_byte(major, value as u8)]
    } else if value <= 0xff {
        seq![initial_byte(major, 24), value as u8]
    } else if value <= 0xffff {
        seq![initial_byte(major, 25)] + be2(value)
    } else if value <= 0xffff_ffff {
        seq![initial_byte(major, 26)] + be4(value)
    } else {
        seq![initial_byte(major, 27)] + be8(value)
    }
}

/// Read one canonical head from the front of `s`: the major type, the
/// argument and the number of bytes the head occupies. `None` for truncated,
/// non-shortest, indefinite or reserved heads.
pub open spec fn parse_head(s: Seq<u8>) -> Option<(u8, u64, nat)> {
    if s.len() == 0 {
        None
    } else {
        let major = (s[0] / 32) as u8;
        let additional = s[0] % 32;
        if additional < 24 {
            Some((major, additional as u64, 1nat))
        } else if additional == 24 {
            if s.len() < 2 || s[1] < 24 {
                None
            } else {
                Some((major, s[1] as u64, 2nat))
            }
        } else if additional == 25 {
            if s.len() < 3 || from_be2(s[1], s[2]) <= 0xff {
                None
            } else {
                Some((major, from_be2(s[1], s[2]), 3nat))
            }
        } else if additional == 26 {
            if s.len() < 5 || from_be4(s[1], s[2], s[3], s[4]) <= 0xffff {
                None
            } else {
                Some((major, from_be4(s[1], s[2], s[3], s[4]), 5nat))
            }
        } else if additional == 27 {
            if s.len() < 9 || from_be8(s.subrange(1, 9)) <= 0xffff_ffff {
                None
            } else {
                Some((major, from_be8(s.subrange(1, 9)), 9nat))
            }
        } else {
            None
        }
    }
}

/// One CBOR data item of the supported subset.
pub ghost enum Token {
    /// An unsigned integer.
    Uint(u64),
    /// A byte string.
    Bytes(Seq<u8>),
    /// A UTF-8 text string (as characters).
    Text(Seq<char>),
    /// An array header announcing this many elements.
    Array(u64),
    /// A map header announcing this many entries.
    MapHeader(u64),
    /// A boolean.
    Bool(bool),
}

/// The canonical encoding of one data item.
pub open spec fn token_bytes(t: Token) -> Seq<u8> {
    match t {
        Token::Uint(v) => head(MAJOR_UINT, v),
        Token::Bytes(b) => head(MAJOR_BYTES, b.len() as u64) + b,
        Token::Text(c) => head(MAJOR_TEXT, encode_utf8(c).len() as u64) + encode_utf8(c),
        Token::Array(n) => head(MAJOR_ARRAY, n),
        Token::MapHeader(n) => head(MAJOR_MAP, n),
        Token::Bool(b) => seq![
            if b {
                0xF5u8
            } else {
                0xF4u8
            },
        ],
    }
}

/// Whether a data item is representable on this machine (lengths and
/// counts fit in `usize`).
pub open spec fn token_ok(t: Token) -> bool {
    match t {
        Token::Bytes(b) => b.len() <= usize::MAX,
        Token::Text(c) => encode_utf8(c).len() <= usize::MAX,
        Token::Array(n) => n <= usize::MAX,
        Token::MapHeader(n) => n <= usize::MAX,
        _ => true,
    }
}

/// Read one canonical data item from the front of `s`, with the number of
/// bytes it occupies.
pub open spec fn parse_token(s: Seq<u8>) -> Option<(Token, nat)> {
    match parse_head(s) {
        None => None,
        Some((major, v, n)) => {
            if major == MAJOR_UINT {
                Some((Token::Uint(v), n))
            } else if major == MAJOR_BYTES {
                if v <= usize::MAX && n + v <= s.len() {
                    Some((Token::Bytes(s.subrange(n as int, n + v)), (n + v) as nat))
                } else {
                    None
                }
            } else if major == MAJOR_TEXT {
                if v <= usize::MAX && n + v <= s.len() && valid_utf8(
                    s.subrange(n as int, n + v),
                ) {
                    Some(
                        (
                            Token::Text(decode_utf8(s.subrange(n as int, n + v))),
                            (n + v) as nat,
                        ),
                    )
                } else {
                    None
                }
            } else if major == MAJOR_ARRAY {
                if v <= usize::MAX {
                    Some((Token::Array(v), n))
                } else {
                    None
                }
            } else if major == MAJOR_MAP {
                if v <= usize::MAX {
                    Some((Token::MapHeader(v), n))
                } else {
                    None
                }
            } else if major == 7 && (v == 20 || v == 21) {
                Some((Token::Bool(v == 21), n))
            } else {
                None
            }
        },
    }
}

/// The concatenated encodings of a sequence of data items.
pub open spec fn tokens_bytes(ts: Seq<Token>) -> Seq<u8>
    decreases ts.len(),
{
    if ts.len() == 0 {
        Seq::empty()
    } else {
        token_bytes(ts[0]) + tokens_bytes(ts.drop_first())
    }
}

/// Whether every data item of a sequence is representable.
pub open spec fn tokens_ok(ts: Seq<Token>) -> bool {
    forall|i: int| 0 <= i < ts.len() ==> token_ok(#[trigger] ts[i])
}

// ---------------------------------------------------------------------------
// Lemmas
// ---------------------------------------------------------------------------

proof fn lemma_be2(v: u64)
    requires
        v <= 0xffff,
    ensures
        from_be2(be2(v)[0], be2(v)[1]) == v,
{
    let a = (v >> 8u64) as u8;
    let b = v as u8;
    assert(v <= 0xffff ==> ((((v >> 8u64) as u8) as u64) << 8u64) | ((v as u8) as u64) == v)
        by (bit_vector);
}

proof fn lemma_from_be2(a: u8, b: u8)
    ensures
        from_be2(a, b) <= 0xffff,
        be2(from_be2(a, b)) == seq![a, b],
{
    let v = from_be2(a, b);
    assert(((((a as u64) << 8u64) | (b as u64)) <= 0xffff) && ((((((a as u64) << 8u64) | (
    b as u64)) >> 8u64) as u8) == a) && (((((a as u64) << 8u64) | (b as u64)) as u8) == b))
        by (bit_vector);
    assert(be2(v) =~= seq![a, b]);
}

proof fn lemma_be4(v: u64)
    requires
        v <= 0xffff_ffff,
    ensures
        from_be4(be4(v)[0], be4(v)[1], be4(v)[2], be4(v)[3]) == v,
{
    assert(v <= 0xffff_ffff ==> ((((v >> 24u64) as u8) as u64) << 24u64) | ((((
    v >> 16u64) as u8) as u64) << 16u64) | ((((v >> 8u64) as u8) as u64) << 8u64) | ((
    v as u8) as u64) == v) by (bit_vector);
}

proof fn lemma_from_be4(a: u8, b: u8, c: u8, d: u8)
    ensures
        from_be4(a, b, c, d) <= 0xffff_ffff,
        be4(from_be4(a, b, c, d)) == seq![a, b, c, d],
{
    let v = from_be4(a, b, c, d);
    assert(v == ((a as u64) << 24u64) | ((b as u64) << 16u64) | ((c as u64) << 8u64) | (
    d as u64));
    assert(v == ((a as u64) << 24u64) | ((b as u64) << 16u64) | ((c as u64) << 8u64) | (
    d as u64) ==> v <= 0xffff_ffff && ((v >> 24u64) as u8) == a && ((v >> 16u64) as u8) == b
        && ((v >> 8u64) as u8) == c && (v as u8) == d) by (bit_vector);
    assert(be4(v) =~= seq![a, b, c, d]);
}

proof fn lemma_be8(v: u64)
    ensures
        be8(v).len() == 8,
        from_be8(be8(v)) == v,
{
    assert(((((v >> 56u64) as u8) as u64) << 56u64) | ((((v >> 48u64) as u8) as u64)
        << 48u64) | ((((v >> 40u64) as u8) as u64) << 40u64) | ((((v >> 32u64) as u8) as u64)
        << 32u64) | ((((v >> 24u64) as u8) as u64) << 24u64) | ((((v >> 16u64) as u8) as u64)
        << 16u64) | ((((v >> 8u64) as u8) as u64) << 8u64) | ((v as u8) as u64) == v)
        by (bit_vector);
}

proof fn lemma_from_be8(s: Seq<u8>)
    requires
        s.len() == 8,
    ensures
        be8(from_be8(s)) == s,
{
    let v = from_be8(s);
    let (s0, s1, s2, s3, s4, s5, s6, s7) = (s[0], s[1], s[2], s[3], s[4], s[5], s[6], s[7]);
    assert(v == ((s0 as u64) << 56u64) | ((s1 as u64) << 48u64) | ((s2 as u64) << 40u64) | ((
    s3 as u64) << 32u64) | ((s4 as u64) << 24u64) | ((s5 as u64) << 16u64) | ((s6 as u64)
        << 8u64) | (s7 as u64));
    assert(v == ((s0 as u64) << 56u64) | ((s1 as u64) << 48u64) | ((s2 as u64) << 40u64) | ((
    s3 as u64) << 32u64) | ((s4 as u64) << 24u64) | ((s5 as u64) << 16u64) | ((s6 as u64)
        << 8u64) | (s7 as u64) ==> ((v >> 56u64) as u8) == s0 && ((v >> 48u64) as u8) == s1
        && ((v >> 40u64) as u8) == s2 && ((v >> 32u64) as u8) == s3 && ((v >> 24u64) as u8)
        == s4 && ((v >> 16u64) as u8) == s5 && ((v >> 8u64) as u8) == s6 && (v as u8) == s7)
        by (bit_vector);
    assert(be8(v) =~= s);
}

proof fn lemma_initial_byte(major: u8, additional: u8)
    requires
        major < 8,
        additional < 32,
    ensures
        initial_byte(major, additional) == major * 32 + additional,
        initial_byte(major, additional) / 32 == major,
        initial_byte(major, additional) % 32 == additional,
{
    assert((major * 32 + additional) / 32 == major as int) by (nonlinear_arith)
        requires
            additional < 32,
    ;
    assert((major * 32 + additional) % 32 == additional as int) by (nonlinear_arith)
        requires
            additional < 32,
    ;
}

/// A canonical head is read back as the major type and argument it encodes,
/// whatever follows it.
pub proof fn lemma_parse_head_of_head(major: u8, value: u64, rest: Seq<u8>)
    requires
        major < 8,
    ensures
        parse_head(head(major, value) + rest) == Some((major, value, head(major, value).len())),
{
    let s = head(major, value) + rest;
    if value < 24 {
        lemma_initial_byte(major, value as u8);
    } else if value <= 0xff {
        lemma_initial_byte(major, 24);
    } else if value <= 0xffff {
        lemma_initial_byte(major, 25);
        lemma_be2(value);
        assert(s[1] == be2(value)[0] && s[2] == be2(value)[1]);
    } else if value <= 0xffff_ffff {
        lemma_initial_byte(major, 26);
        lemma_be4(value);
        assert(s[1] == be4(value)[0] && s[2] == be4(value)[1] && s[3] == be4(value)[2] && s[4]
            == be4(value)[3]);
    } else {
        lemma_initial_byte(major, 27);
        lemma_be8(value);
        assert(s.subrange(1, 9) =~= be8(value));
    }
}

/// Whatever the decoder accepts as a head is the canonical head of what it
/// returns.
pub proof fn lemma_parse_head_canonical(s: Seq<u8>)
    requires
        parse_head(s) is Some,
    ensures
        ({
            let (major, value, n) = parse_head(s).unwrap();
            &&& major < 8
            &&& n <= s.len()
            &&& n == head(major, value).len()
            &&& s.subrange(0, n as int) == head(major, value)
        }),
{
    let (major, value, n) = parse_head(s).unwrap();
    let b = s[0];
    let additional = (b % 32) as u8;
    assert(b == (b / 32) * 32 + b % 32);
    assert(major < 8);
    lemma_initial_byte(major, additional);
    assert(initial_byte(major, additional) == b);
    if additional < 24 {
        assert(s.subrange(0, 1) =~= head(major, value));
    } else if additional == 24 {
        assert(s.subrange(0, 2) =~= head(major, value));
    } else if additional == 25 {
        lemma_from_be2(s[1], s[2]);
        assert(s.subrange(0, 3) =~= head(major, value));
    } else if additional == 26 {
        lemma_from_be4(s[1], s[2], s[3], s[4]);
        assert(s.subrange(0, 5) =~= head(major, value));
    } else {
        lemma_from_be8(s.subrange(1, 9));
        assert(s.subrange(0, 9) =~= head(major, value));
    }
}

proof fn lemma_head_len(major: u8, value: u64)
    ensures
        1 <= head(major, value).len() <= 9,
{
}

/// A representable data item is read back from its encoding, whatever
/// follows it.
#[verifier::spinoff_prover]
#[verifier::rlimit(40)]
pub proof fn lemma_parse_token_of_bytes(t: Token, rest: Seq<u8>)
    requires
        token_ok(t),
    ensures
        parse_token(token_bytes(t) + rest) == Some((t, token_bytes(t).len())),
{
    match t {
        Token::Uint(v) => {
            lemma_parse_head_of_head(MAJOR_UINT, v, rest);
        },
        Token::Bytes(b) => {
            let h = head(MAJOR_BYTES, b.len() as u64);
            lemma_parse_head_of_head(MAJOR_BYTES, b.len() as u64, b + rest);
            assert(token_bytes(t) + rest =~= h + (b + rest));
            assert((h + (b + rest)).subrange(h.len() as int, (h.len() + b.len()) as int) =~= b);
        },
        Token::Text(c) => {
            let e = encode_utf8(c);
            let h = head(MAJOR_TEXT, e.len() as u64);
            lemma_parse_head_of_head(MAJOR_TEXT, e.len() as u64, e + rest);
            assert(token_bytes(t) + rest =~= h + (e + rest));
            assert((h + (e + rest)).subrange(h.len() as int, (h.len() + e.len()) as int) =~= e);
        },
        Token::Array(n) => {
            lemma_parse_head_of_head(MAJOR_ARRAY, n, rest);
        },
        Token::MapHeader(n) => {
            lemma_parse_head_of_head(MAJOR_MAP, n, rest);
        },
        Token::Bool(b) => {
            let s = token_bytes(t) + rest;
            assert(s[0] == (if b {
                0xF5u8
            } else {
                0xF4u8
            }));
        },
    }
}

/// Whatever the decoder accepts as one data item is that item's canonical
/// encoding.
pub proof fn lemma_parse_token_canonical(s: Seq<u8>)
    requires
        parse_token(s) is Some,
    ensures
        ({
            let (t, n) = parse_token(s).unwrap();
            &&& token_ok(t)
            &&& 0 < n <= s.len()
            &&& n == token_bytes(t).len()
            &&& s.subrange(0, n as int) == token_bytes(t)
        }),
{
    lemma_parse_head_canonical(s);
    let (major, v, n) = parse_head(s).unwrap();
    let (t, m) = parse_token(s).unwrap();
    lemma_head_len(major, v);
    if major == MAJOR_BYTES {
        let b = s.subrange(n as int, n + v);
        assert(s.subrange(0, m as int) =~= s.subrange(0, n as int) + b);
    } else if major == MAJOR_TEXT {
        let b = s.subrange(n as int, n + v);
        vstd::utf8::decode_utf8_encode_utf8(b);
        assert(s.subrange(0, m as int) =~= s.subrange(0, n as int) + b);
    } else if major == 7 {
        let b = s[0];
        assert(b == (b / 32) * 32 + b % 32);
        assert(s.subrange(0, 1) =~= token_bytes(t));
    }
}

/// The encoding of a sequence of items is the encoding of its first item
/// followed by that of the rest.
pub proof fn lemma_tokens_bytes_push(ts: Seq<Token>, t: Token)
    ensures
        tokens_bytes(ts.push(t)) == tokens_bytes(ts) + token_bytes(t),
    decreases ts.len(),
{
    if ts.len() == 0 {
        let e = ts.push(t).drop_first();
        assert(e =~= Seq::<Token>::empty());
        assert(tokens_bytes(e).len() == 0);
        assert(ts.push(t)[0] == t);
        assert(tokens_bytes(ts.push(t)) =~= token_bytes(t) + tokens_bytes(e));
        assert(tokens_bytes(ts.push(t)) =~= token_bytes(t));
        assert(tokens_bytes(ts) =~= Seq::<u8>::empty());
    } else {
        assert(ts.push(t).drop_first() =~= ts.drop_first().push(t));
        lemma_tokens_bytes_push(ts.drop_first(), t);
        assert(tokens_bytes(ts.push(t)) =~= tokens_bytes(ts) + token_bytes(t));
    }
}

/// Encoding distributes over concatenation of item sequences.
pub proof fn lemma_tokens_bytes_concat(a: Seq<Token>, b: Seq<Token>)
    ensures
        tokens_bytes(a + b) == tokens_bytes(a) + tokens_bytes(b),
    decreases a.len(),
{
    if a.len() == 0 {
        assert(a + b =~= b);
        assert(tokens_bytes(a) + tokens_bytes(b) =~= tokens_bytes(b));
    } else {
        assert((a + b).drop_first() =~= a.drop_first() + b);
        lemma_tokens_bytes_concat(a.drop_first(), b);
        assert(tokens_bytes(a + b) =~= tokens_bytes(a) + tokens_bytes(b));
    }
}

/// Item streams are self-delimiting: if the encoding of `whole` starts with
/// the encoding of `prefix`, then `whole` starts with `prefix` item by item,
/// and the remaining bytes encode the remaining items.
pub proof fn lemma_tokens_prefix(whole: Seq<Token>, prefix: Seq<Token>, rest: Seq<u8>)
    requires
        tokens_ok(whole),
        tokens_ok(prefix),
        tokens_bytes(whole) == tokens_bytes(prefix) + rest,
    ensures
        prefix.len() <= whole.len(),
        whole.subrange(0, prefix.len() as int) == prefix,
        rest == tokens_bytes(whole.subrange(prefix.len() as int, whole.len() as int)),
    decreases prefix.len(),
{
    if prefix.len() == 0 {
        assert(tokens_bytes(prefix) + rest =~= rest);
        assert(whole.subrange(0, 0) =~= prefix);
        assert(whole.subrange(0, whole.len() as int) =~= whole);
    } else {
        let p0 = prefix[0];
        lemma_head_len_of(p0);
        if whole.len() == 0 {
            assert(tokens_bytes(whole).len() == 0);
            assert(false);
        }
        let w0 = whole[0];
        assert(token_ok(w0));
        assert(token_ok(p0));
        let wrest = tokens_bytes(whole.drop_first());
        let prest = tokens_bytes(prefix.drop_first()) + rest;
        assert(tokens_bytes(prefix) + rest =~= token_bytes(p0) + prest);
        lemma_parse_token_of_bytes(w0, wrest);
        lemma_parse_token_of_bytes(p0, prest);
        assert(w0 == p0);
        let k = token_bytes(w0).len();
        assert(wrest =~= (token_bytes(w0) + wrest).subrange(k as int, (k + wrest.len()) as int));
        assert(prest =~= (token_bytes(p0) + prest).subrange(k as int, (k + prest.len()) as int));
        assert(wrest == prest);
        assert(tokens_ok(whole.drop_first()));
        assert(tokens_ok(prefix.drop_first()));
        lemma_tokens_prefix(whole.drop_first(), prefix.drop_first(), rest);
        assert(whole.subrange(0, prefix.len() as int) =~= seq![w0] + whole.drop_first().subrange(
            0,
            prefix.len() - 1,
        ));
        assert(prefix =~= seq![p0] + prefix.drop_first());
        assert(whole.drop_first().subrange(prefix.len() - 1, whole.len() - 1) =~= whole.subrange(
            prefix.len() as int,
            whole.len() as int,
        ));
    }
}

proof fn lemma_head_len_of(t: Token)
    ensures
        token_bytes(t).len() > 0,
{
    match t {
        Token::Uint(v) => lemma_head_len(MAJOR_UINT, v),
        Token::Bytes(b) => lemma_head_len(MAJOR_BYTES, b.len() as u64),
        Token::Text(c) => lemma_head_len(MAJOR_TEXT, encode_utf8(c).len() as u64),
        Token::Array(n) => lemma_head_len(MAJOR_ARRAY, n),
        Token::MapHeader(n) => lemma_head_len(MAJOR_MAP, n),
        Token::Bool(_) => {},
    }
}

/// Equal encodings mean equal item sequences.
pub proof fn lemma_tokens_injective(a: Seq<Token>, b: Seq<Token>)
    requires
        tokens_ok(a),
        tokens_ok(b),
        tokens_bytes(a) == tokens_bytes(b),
    ensures
        a == b,
{
    assert(tokens_bytes(b) + Seq::<u8>::empty() =~= tokens_bytes(b));
    lemma_tokens_prefix(a, b, Seq::<u8>::empty());
    let tail = a.subrange(b.len() as int, a.len() as int);
    if tail.len() > 0 {
        lemma_head_len_of(tail[0]);
        assert(tokens_bytes(tail).len() > 0);
    }
    assert(a =~= a.subrange(0, b.len() as int));
}


/// Decoding state: the bytes consumed so far are exactly the encoding of the
/// items read so far.
pub open spec fn stream_read(data: Seq<u8>, pos: nat, read: Seq<Token>) -> bool {
    &&& pos <= data.len()
    &&& tokens_ok(read)
    &&& data.subrange(0, pos as int) == tokens_bytes(read)
}

/// Reading one more item keeps the decoding state.
pub proof fn lemma_stream_advance(data: Seq<u8>, pos: nat, read: Seq<Token>, t: Token, n: nat)
    requires
        stream_read(data, pos, read),
        parse_token(data.subrange(pos as int, data.len() as int)) == Some((t, n)),
    ensures
        stream_read(data, pos + n, read.push(t)),
{
    let rest = data.subrange(pos as int, data.len() as int);
    lemma_parse_token_canonical(rest);
    lemma_tokens_bytes_push(read, t);
    assert(data.subrange(0, (pos + n) as int) =~= data.subrange(0, pos as int) + rest.subrange(
        0,
        n as int,
    ));
    assert(tokens_ok(read.push(t))) by {
        assert forall|i: int| 0 <= i < read.push(t).len() implies token_ok(
            #[trigger] read.push(t)[i],
        ) by {
            if i < read.len() {
                assert(read.push(t)[i] == read[i]);
            }
        }
    }
}

/// If the whole input encodes `whole`, the items read so far are a prefix
/// of `whole` and the next item in the input is the next item of `whole`.
pub proof fn lemma_stream_next(whole: Seq<Token>, data: Seq<u8>, pos: nat, read: Seq<Token>)
    requires
        tokens_ok(whole),
        tokens_bytes(whole) == data,
        stream_read(data, pos, read),
    ensures
        read.len() <= whole.len(),
        whole.subrange(0, read.len() as int) == read,
        read.len() < whole.len() ==> parse_token(data.subrange(pos as int, data.len() as int))
            == Some((whole[read.len() as int], token_bytes(whole[read.len() as int]).len())),
        read.len() == whole.len() ==> pos == data.len(),
{
    let rest = data.subrange(pos as int, data.len() as int);
    assert(data =~= data.subrange(0, pos as int) + rest);
    lemma_tokens_prefix(whole, read, rest);
    let tail = whole.subrange(read.len() as int, whole.len() as int);
    if read.len() < whole.len() {
        assert(tokens_ok(tail)) by {
            assert forall|i: int| 0 <= i < tail.len() implies token_ok(#[trigger] tail[i]) by {
                assert(tail[i] == whole[read.len() + i]);
            }
        }
        assert(token_ok(tail[0]));
        lemma_parse_token_of_bytes(tail[0], tokens_bytes(tail.drop_first()));
        assert(tail[0] == whole[read.len() as int]);
    }
}

/// Whether the tokens encode to a representable sequence.
pub proof fn lemma_tokens_ok_concat(a: Seq<Token>, b: Seq<Token>)
    requires
        tokens_ok(a),
        tokens_ok(b),
    ensures
        tokens_ok(a + b),
{
    assert forall|i: int| 0 <= i < (a + b).len() implies token_ok(#[trigger] (a + b)[i]) by {
        if i < a.len() {
            assert((a + b)[i] == a[i]);
        } else {
            assert((a + b)[i] == b[i - a.len()]);
        }
    }
}


/// Like [`lemma_tokens_prefix`], when the item stream is followed by more
/// bytes and the prefix has no more items than the stream.
pub proof fn lemma_tokens_prefix_more(whole: Seq<Token>, more: Seq<u8>, prefix: Seq<Token>, rest: Seq<u8>)
    requires
        tokens_ok(whole),
        tokens_ok(prefix),
        prefix.len() <= whole.len(),
        tokens_bytes(whole) + more == tokens_bytes(prefix) + rest,
    ensures
        whole.subrange(0, prefix.len() as int) == prefix,
        rest == tokens_bytes(whole.subrange(prefix.len() as int, whole.len() as int)) + more,
    decreases prefix.len(),
{
    if prefix.len() == 0 {
        assert(tokens_bytes(prefix) + rest =~= rest);
        assert(whole.subrange(0, 0) =~= prefix);
        assert(whole.subrange(0, whole.len() as int) =~= whole);
    } else {
        let p0 = prefix[0];
        let w0 = whole[0];
        assert(token_ok(w0));
        assert(token_ok(p0));
        let wrest = tokens_bytes(whole.drop_first()) + more;
        let prest = tokens_bytes(prefix.drop_first()) + rest;
        assert(tokens_bytes(whole) + more =~= token_bytes(w0) + wrest);
        assert(tokens_bytes(prefix) + rest =~= token_bytes(p0) + prest);
        lemma_parse_token_of_bytes(w0, wrest);
        lemma_parse_token_of_bytes(p0, prest);
        assert(w0 == p0);
        let k = token_bytes(w0).len();
        assert(wrest =~= (token_bytes(w0) + wrest).subrange(k as int, (k + wrest.len()) as int));
        assert(prest =~= (token_bytes(p0) + prest).subrange(k as int, (k + prest.len()) as int));
        assert(wrest == prest);
        assert(tokens_ok(whole.drop_first()));
        assert(tokens_ok(prefix.drop_first()));
        lemma_tokens_prefix_more(whole.drop_first(), more, prefix.drop_first(), rest);
        assert(whole.subrange(0, prefix.len() as int) =~= seq![w0] + whole.drop_first().subrange(
            0,
            prefix.len() - 1,
        ));
        assert(prefix =~= seq![p0] + prefix.drop_first());
        assert(whole.drop_first().subrange(prefix.len() - 1, whole.len() - 1) =~= whole.subrange(
            prefix.len() as int,
            whole.len() as int,
        ));
    }
}

// ---------------------------------------------------------------------------
// Encoder
// ---------------------------------------------------------------------------

/// Canonical CBOR encoder.
#[derive(Debug)]
pub struct Encoder {
    buf: Vec<u8>,
}

impl View for Encoder {
    type V = Seq<u8>;

    closed spec fn view(&self) -> Seq<u8> {
        self.buf@
    }
}

proof fn lemma_or_initial(major: u8, additional: u8)
    requires
        major < 8,
        additional < 32,
    ensures
        (major << 5u8) | additional == initial_byte(major, additional),
{
    lemma_initial_byte(major, additional);
    assert(major < 8 && additional < 32 ==> (major << 5u8) | additional == ((major * 32
        + additional) as u8)) by (bit_vector);
}

impl Encoder {
    /// Create an empty encoder.
    pub fn new() -> (e: Self)
        ensures
            e@ == Seq::<u8>::empty(),
    {
        Encoder { buf: Vec::new() }
    }

    /// Finish and return the encoded bytes.
    pub fn into_bytes(self) -> (out: Vec<u8>)
        ensures
            out@ == self@,
    {
        self.buf
    }

    fn head(&mut self, major: u8, value: u64)
        requires
            major < 8,
        ensures
            final(self)@ == old(self)@ + head(major, value),
    {
        let major_bits = major << 5u8;
        if value < 24 {
            proof {
                lemma_or_initial(major, value as u8);
            }
            self.buf.push(major_bits | (value as u8));
        } else if value <= 0xff {
            proof {
                lemma_or_initial(major, 24);
            }
            self.buf.push(major_bits | 24);
            self.buf.push(value as u8);
        } else if value <= 0xffff {
            proof {
                lemma_or_initial(major, 25);
            }
            self.buf.push(major_bits | 25);
            self.buf.push((value >> 8u64) as u8);
            self.buf.push(value as u8);
        } else if value <= 0xffff_ffff {
            proof {
                lemma_or_initial(major, 26);
            }
            self.buf.push(major_bits | 26);
            self.buf.push((value >> 24u64) as u8);
            self.buf.push((value >> 16u64) as u8);
            self.buf.push((value >> 8u64) as u8);
            self.buf.push(value as u8);
        } else {
            proof {
                lemma_or_initial(major, 27);
            }
            self.buf.push(major_bits | 27);
            self.buf.push((value >> 56u64) as u8);
            self.buf.push((value >> 48u64) as u8);
            self.buf.push((value >> 40u64) as u8);
            self.buf.push((value >> 32u64) as u8);
            self.buf.push((value >> 24u64) as u8);
            self.buf.push((value >> 16u64) as u8);
            self.buf.push((value >> 8u64) as u8);
            self.buf.push(value as u8);
        }
        assert(self@ =~= old(self)@ + head(major, value));
    }

    fn raw(&mut self, value: &[u8])
        ensures
            final(self)@ == old(self)@ + value@,
    {
        let mut i: usize = 0;
        while i < value.len()
            invariant
                i <= value@.len(),
                self@ == old(self)@ + value@.subrange(0, i as int),
            decreases value@.len() - i,
        {
            self.buf.push(value[i]);
            i = i + 1;
            assert(self@ =~= old(self)@ + value@.subrange(0, i as int));
        }
        assert(value@.subrange(0, i as int) =~= value@);
    }

    /// Encode an unsigned integer.
    pub fn uint(&mut self, value: u64)
        ensures
            final(self)@ == old(self)@ + token_bytes(Token::Uint(value)),
    {
        self.head(MAJOR_UINT, value);
    }

    /// Encode a byte string.
    pub fn bytes(&mut self, value: &[u8])
        ensures
            final(self)@ == old(self)@ + token_bytes(Token::Bytes(value@)),
    {
        self.head(MAJOR_BYTES, value.len() as u64);
        self.raw(value);
        assert(self@ =~= old(self)@ + token_bytes(Token::Bytes(value@)));
    }

    /// Encode a UTF-8 text string.
    pub fn text(&mut self, value: &str)
        ensures
            final(self)@ == old(self)@ + token_bytes(Token::Text(value@)),
    {
        let b = value.as_bytes();
        self.head(MAJOR_TEXT, b.len() as u64);
        self.raw(b);
        assert(self@ =~= old(self)@ + token_bytes(Token::Text(value@)));
    }

    /// Begin an array of `len` elements.
    pub fn array(&mut self, len: usize)
        ensures
            final(self)@ == old(self)@ + token_bytes(Token::Array(len as u64)),
    {
        self.head(MAJOR_ARRAY, len as u64);
    }

    /// Begin a map of `len` entries.
    pub fn map(&mut self, len: usize)
        ensures
            final(self)@ == old(self)@ + token_bytes(Token::MapHeader(len as u64)),
    {
        self.head(MAJOR_MAP, len as u64);
    }

    /// Encode a boolean.
    pub fn bool(&mut self, value: bool)
        ensures
            final(self)@ == old(self)@ + token_bytes(Token::Bool(value)),
    {
        self.buf.push(
            if value {
                0xF5
            } else {
                0xF4
            },
        );
        assert(self@ =~= old(self)@ + token_bytes(Token::Bool(value)));
    }
}


// ---------------------------------------------------------------------------
// Decoder
// ---------------------------------------------------------------------------

/// The UTF-8 text held by `bytes`, if they are valid UTF-8.
///
/// Calls `core::str::from_utf8`, whose documentation promises success
/// exactly for valid UTF-8 input; the returned `str` holds the decoded
/// characters.
#[verifier::external_body]
fn utf8_str<'b>(bytes: &'b [u8]) -> (r: Option<&'b str>)
    ensures
        r is Some <==> valid_utf8(bytes@),
        r matches Some(s) ==> s@ == decode_utf8(bytes@),
{
    core::str::from_utf8(bytes).ok()
}

/// One decoded data item, held in memory.
#[derive(Clone, Debug, PartialEq, Eq)]
pub enum Item {
    /// An unsigned integer.
    Uint(u64),
    /// A byte string.
    Bytes(Vec<u8>),
    /// A text string.
    Text(String),
    /// An array header with its element count.
    Array(u64),
    /// A map header with its entry count.
    MapHeader(u64),
    /// A boolean.
    Bool(bool),
}

impl View for Item {
    type V = Token;

    open spec fn view(&self) -> Token {
        match self {
            Item::Uint(v) => Token::Uint(*v),
            Item::Bytes(b) => Token::Bytes(b@),
            Item::Text(t) => Token::Text(t@),
            Item::Array(n) => Token::Array(*n),
            Item::MapHeader(n) => Token::MapHeader(*n),
            Item::Bool(b) => Token::Bool(*b),
        }
    }
}

impl Item {
    /// The bytes of a byte-string item of exactly `N` bytes.
    pub fn fixed_bytes<const N: usize>(&self) -> (r: Option<[u8; N]>)
        ensures
            r is Some <==> (self@ matches Token::Bytes(b) && b.len() == N),
            r matches Some(a) ==> self@ == Token::Bytes(a@),
    {
        match self {
            Item::Bytes(b) => {
                if b.len() == N {
                    Some(crate::bytes::to_array(b.as_slice()))
                } else {
                    None
                }
            },
            _ => None,
        }
    }
}

/// The data items that a list of decoded items stands for.
pub open spec fn items_view(v: Seq<Item>) -> Seq<Token> {
    v.map_values(|it: Item| it@)
}

/// Read `n` data items from the front of `s`, with the number of bytes
/// they occupy.
pub open spec fn parse_tokens(s: Seq<u8>, n: nat) -> Option<(Seq<Token>, nat)>
    decreases n,
{
    if n == 0 {
        Some((Seq::empty(), 0nat))
    } else {
        match parse_token(s) {
            None => None,
            Some((t, k)) => match parse_tokens(s.subrange(k as int, s.len() as int), (n - 1) as nat) {
                None => None,
                Some((ts, m)) => Some((seq![t] + ts, k + m)),
            },
        }
    }
}

/// A sequence of representable items is read back from its encoding,
/// whatever follows it.
pub proof fn lemma_parse_tokens_of_bytes(ts: Seq<Token>, more: Seq<u8>)
    requires
        tokens_ok(ts),
    ensures
        parse_tokens(tokens_bytes(ts) + more, ts.len()) == Some((ts, tokens_bytes(ts).len())),
    decreases ts.len(),
{
    if ts.len() > 0 {
        let t = ts[0];
        let tail = ts.drop_first();
        assert(token_ok(t));
        assert(tokens_ok(tail)) by {
            assert forall|i: int| 0 <= i < tail.len() implies token_ok(#[trigger] tail[i]) by {
                assert(tail[i] == ts[i + 1]);
            }
        }
        let s = tokens_bytes(ts) + more;
        assert(s =~= token_bytes(t) + (tokens_bytes(tail) + more));
        lemma_parse_token_of_bytes(t, tokens_bytes(tail) + more);
        let k = token_bytes(t).len();
        assert(s.subrange(k as int, s.len() as int) =~= tokens_bytes(tail) + more);
        lemma_parse_tokens_of_bytes(tail, more);
        assert(seq![t] + tail =~= ts);
    } else {
        assert(ts =~= Seq::<Token>::empty());
        assert(tokens_bytes(ts).len() == 0);
    }
}

/// Whatever is read as `n` items is exactly their canonical encoding.
pub proof fn lemma_parse_tokens_canonical(s: Seq<u8>, n: nat)
    requires
        parse_tokens(s, n) is Some,
    ensures
        ({
            let (ts, m) = parse_tokens(s, n).unwrap();
            &&& ts.len() == n
            &&& tokens_ok(ts)
            &&& m <= s.len()
            &&& s.subrange(0, m as int) == tokens_bytes(ts)
        }),
    decreases n,
{
    if n > 0 {
        lemma_parse_token_canonical(s);
        let (t, k) = parse_token(s).unwrap();
        let s2 = s.subrange(k as int, s.len() as int);
        lemma_parse_tokens_canonical(s2, (n - 1) as nat);
        let (ts2, m2) = parse_tokens(s2, (n - 1) as nat).unwrap();
        let ts = seq![t] + ts2;
        assert(ts.drop_first() =~= ts2);
        assert(ts[0] == t);
        assert(s.subrange(0, (k + m2) as int) =~= s.subrange(0, k as int) + s2.subrange(0, m2 as int));
        assert(tokens_ok(ts)) by {
            assert forall|i: int| 0 <= i < ts.len() implies token_ok(#[trigger] ts[i]) by {
                if i > 0 {
                    assert(ts[i] == ts2[i - 1]);
                }
            }
        }
    } else {
        assert(s.subrange(0, 0) =~= Seq::<u8>::empty());
        assert(tokens_bytes(Seq::<Token>::empty()) =~= Seq::<u8>::empty());
    }
}

/// Canonical CBOR decoder that rejects non-canonical input.
#[derive(Debug)]
pub struct Decoder<'a> {
    input: &'a [u8],
    pos: usize,
}

impl<'a> Decoder<'a> {
    #[verifier::type_invariant]
    spec fn inv(self) -> bool {
        self.pos <= self.input@.len()
    }

    /// The whole input.
    pub closed spec fn data(&self) -> Seq<u8> {
        self.input@
    }

    /// How many bytes have been consumed.
    pub closed spec fn position(&self) -> nat {
        self.pos as nat
    }

    /// The bytes not yet consumed.
    pub open spec fn rest(&self) -> Seq<u8> {
        self.data().subrange(self.position() as int, self.data().len() as int)
    }

    /// Create a decoder over `input`.
    pub fn new(input: &'a [u8]) -> (d: Self)
        ensures
            d.data() == input@,
            d.position() == 0,
    {
        Decoder { input, pos: 0 }
    }

    /// Whether all input has been consumed.
    pub fn is_finished(&self) -> (r: bool)
        ensures
            self.position() <= self.data().len(),
            r == (self.rest().len() == 0),
    {
        proof {
            use_type_invariant(self);
        }
        self.pos == self.input.len()
    }

    /// Assert that the whole input was consumed.
    pub fn finish(self) -> (r: Result<(), CoreError>)
        ensures
            self.position() <= self.data().len(),
            r is Ok <==> self.rest().len() == 0,
            r matches Err(e) ==> (e matches CoreError::Cbor(m) && m@ == "trailing bytes"@),
    {
        if self.is_finished() {
            Ok(())
        } else {
            Err(CoreError::Cbor("trailing bytes"))
        }
    }

    fn read_u8(&mut self) -> (r: Result<u8, CoreError>)
        ensures
            final(self).data() == old(self).data(),
            final(self).position() <= final(self).data().len(),
            old(self).position() <= old(self).data().len(),
            match r {
                Ok(b) => old(self).rest().len() > 0 && b == old(self).rest()[0]
                    && final(self).position() == old(self).position() + 1,
                Err(e) => old(self).rest().len() == 0 && (e matches CoreError::Cbor(m) && m@ == "unexpected end"@),
            },
    {
        proof {
            use_type_invariant(&*self);
        }
        if self.pos < self.input.len() {
            let byte = self.input[self.pos];
            self.pos = self.pos + 1;
            Ok(byte)
        } else {
            Err(CoreError::Cbor("unexpected end"))
        }
    }

    fn read_exact(&mut self, len: usize) -> (r: Result<&'a [u8], CoreError>)
        ensures
            final(self).data() == old(self).data(),
            final(self).position() <= final(self).data().len(),
            old(self).position() <= old(self).data().len(),
            match r {
                Ok(slice) => len <= old(self).rest().len() && slice@ == old(self).rest().subrange(
                    0,
                    len as int,
                ) && final(self).position() == old(self).position() + len,
                Err(e) => len > old(self).rest().len() && e matches CoreError::Cbor(_),
            },
    {
        proof {
            use_type_invariant(&*self);
        }
        if len > self.input.len() - self.pos {
            return Err(CoreError::Cbor("unexpected end"));
        }
        let end = self.pos + len;
        let slice = &self.input[self.pos..end];
        assert(slice@ =~= old(self).rest().subrange(0, len as int));
        self.pos = end;
        Ok(slice)
    }

    fn read_head(&mut self) -> (r: Result<(u8, u64), CoreError>)
        ensures
            final(self).data() == old(self).data(),
            final(self).position() <= final(self).data().len(),
            old(self).position() <= old(self).data().len(),
            match parse_head(old(self).rest()) {
                Some((major, value, n)) => r == Ok::<(u8, u64), CoreError>((major, value))
                    && final(self).position() == old(self).position() + n,
                None => r matches Err(CoreError::Cbor(_)),
            },
    {
        proof {
            use_type_invariant(&*self);
        }
        let ghost s = old(self).rest();
        let initial = self.read_u8()?;
        let major = initial >> 5u8;
        let additional = initial & 0x1Fu8;
        assert(initial >> 5u8 == initial / 32 && initial & 0x1Fu8 == initial % 32) by (bit_vector);
        let value: u64;
        if additional < 24 {
            value = additional as u64;
        } else if additional == 24 {
            let ghost mid = self.rest();
            let v = self.read_u8();
            match v {
                Ok(v) => {
                    assert(v == s[1]);
                    if v < 24 {
                        return Err(CoreError::Cbor("non-canonical integer"));
                    }
                    value = v as u64;
                },
                Err(e) => {
                    return Err(e);
                },
            }
        } else if additional == 25 {
            let bytes = self.read_exact(2)?;
            assert(bytes@[0] == s[1] && bytes@[1] == s[2]);
            let v = ((bytes[0] as u64) << 8u64) | (bytes[1] as u64);
            if v <= 0xff {
                return Err(CoreError::Cbor("non-canonical integer"));
            }
            value = v;
        } else if additional == 26 {
            let bytes = self.read_exact(4)?;
            assert(bytes@[0] == s[1] && bytes@[1] == s[2] && bytes@[2] == s[3] && bytes@[3]
                == s[4]);
            let v = ((bytes[0] as u64) << 24u64) | ((bytes[1] as u64) << 16u64) | ((
            bytes[2] as u64) << 8u64) | (bytes[3] as u64);
            if v <= 0xffff {
                return Err(CoreError::Cbor("non-canonical integer"));
            }
            value = v;
        } else if additional == 27 {
            let bytes = self.read_exact(8)?;
            assert(bytes@ =~= s.subrange(1, 9));
            let v = ((bytes[0] as u64) << 56u64) | ((bytes[1] as u64) << 48u64) | ((
            bytes[2] as u64) << 40u64) | ((bytes[3] as u64) << 32u64) | ((bytes[4] as u64)
                << 24u64) | ((bytes[5] as u64) << 16u64) | ((bytes[6] as u64) << 8u64) | (
            bytes[7] as u64);
            if v <= 0xffff_ffff {
                return Err(CoreError::Cbor("non-canonical integer"));
            }
            value = v;
        } else {
            return Err(CoreError::Cbor("indefinite or reserved length"));
        }
        Ok((major, value))
    }

    fn expect(&mut self, major: u8) -> (r: Result<u64, CoreError>)
        ensures
            final(self).data() == old(self).data(),
            final(self).position() <= final(self).data().len(),
            old(self).position() <= old(self).data().len(),
            match parse_head(old(self).rest()) {
                Some((m, value, n)) => if m == major {
                    r == Ok::<u64, CoreError>(value) && final(self).position()
                        == old(self).position() + n
                } else {
                    r matches Err(CoreError::Cbor(_))
                },
                None => r matches Err(CoreError::Cbor(_)),
            },
    {
        let (found, value) = self.read_head()?;
        if found != major {
            return Err(CoreError::Cbor("unexpected major type"));
        }
        Ok(value)
    }

    /// Decode an unsigned integer.
    pub fn uint(&mut self) -> (r: Result<u64, CoreError>)
        ensures
            final(self).data() == old(self).data(),
            final(self).position() <= final(self).data().len(),
            old(self).position() <= old(self).data().len(),
            match parse_token(old(self).rest()) {
                Some((Token::Uint(v), n)) => r == Ok::<u64, CoreError>(v) && final(self).position() == old(self).position() + n,
                _ => r matches Err(CoreError::Cbor(_)),
            },
    {
        self.expect(MAJOR_UINT)
    }

    /// Decode a byte string.
    pub fn bytes(&mut self) -> (r: Result<&'a [u8], CoreError>)
        ensures
            final(self).data() == old(self).data(),
            final(self).position() <= final(self).data().len(),
            old(self).position() <= old(self).data().len(),
            match parse_token(old(self).rest()) {
                Some((Token::Bytes(b), n)) => r matches Ok(slice) && slice@ == b && final(self).position() == old(self).position() + n,
                _ => r matches Err(CoreError::Cbor(_)),
            },
    {
        let ghost s = old(self).rest();
        let len = self.expect(MAJOR_BYTES)?;
        if len > usize::MAX as u64 {
            return Err(CoreError::Cbor("length overflow"));
        }
        let r = self.read_exact(len as usize);
        proof {
            let (m, v, n) = parse_head(s).unwrap();
            if r is Ok {
                assert(r.unwrap()@ =~= s.subrange(n as int, n + v));
            }
        }
        r
    }

    /// Decode a fixed-size byte string.
    pub fn bytes_fixed<const N: usize>(&mut self) -> (r: Result<[u8; N], CoreError>)
        ensures
            final(self).data() == old(self).data(),
            final(self).position() <= final(self).data().len(),
            old(self).position() <= old(self).data().len(),
            match parse_token(old(self).rest()) {
                Some((Token::Bytes(b), n)) => if b.len() == N {
                    r matches Ok(arr) && arr@ == b && final(self).position() == old(self).position() + n
                } else {
                    r matches Err(CoreError::Cbor(m)) && m@ == "fixed length mismatch"@
                },
                _ => r matches Err(CoreError::Cbor(_)),
            },
    {
        let slice = self.bytes()?;
        let mut out = [0u8; N];
        if slice.len() != N {
            return Err(CoreError::Cbor("fixed length mismatch"));
        }
        let mut i: usize = 0;
        while i < N
            invariant
                i <= N,
                slice@.len() == N,
                out@.len() == N,
                forall|j: int| 0 <= j < i ==> out@[j] == slice@[j],
            decreases N - i,
        {
            out[i] = slice[i];
            i = i + 1;
        }
        assert(out@ =~= slice@);
        Ok(out)
    }

    /// Decode a UTF-8 text string.
    pub fn text(&mut self) -> (r: Result<&'a str, CoreError>)
        ensures
            final(self).data() == old(self).data(),
            final(self).position() <= final(self).data().len(),
            old(self).position() <= old(self).data().len(),
            match parse_token(old(self).rest()) {
                Some((Token::Text(c), n)) => r matches Ok(text) && text@ == c && final(self).position() == old(self).position() + n,
                _ => r matches Err(CoreError::Cbor(_)),
            },
    {
        let ghost s = old(self).rest();
        let len = self.expect(MAJOR_TEXT)?;
        if len > usize::MAX as u64 {
            return Err(CoreError::Cbor("length overflow"));
        }
        let slice = self.read_exact(len as usize)?;
        proof {
            let (m, v, n) = parse_head(s).unwrap();
            assert(slice@ =~= s.subrange(n as int, n + v));
        }
        match utf8_str(slice) {
            Some(text) => Ok(text),
            None => Err(CoreError::Cbor("invalid utf-8")),
        }
    }

    /// Decode an array header, returning its length.
    pub fn array(&mut self) -> (r: Result<usize, CoreError>)
        ensures
            final(self).data() == old(self).data(),
            final(self).position() <= final(self).data().len(),
            old(self).position() <= old(self).data().len(),
            match parse_token(old(self).rest()) {
                Some((Token::Array(len), n)) => r == Ok::<usize, CoreError>(len as usize)
                    && final(self).position() == old(self).position() + n,
                _ => r matches Err(CoreError::Cbor(_)),
            },
    {
        let len = self.expect(MAJOR_ARRAY)?;
        if len > usize::MAX as u64 {
            return Err(CoreError::Cbor("length overflow"));
        }
        Ok(len as usize)
    }

    /// Decode a map header, returning its entry count.
    pub fn map(&mut self) -> (r: Result<usize, CoreError>)
        ensures
            final(self).data() == old(self).data(),
            final(self).position() <= final(self).data().len(),
            old(self).position() <= old(self).data().len(),
            match parse_token(old(self).rest()) {
                Some((Token::MapHeader(len), n)) => r == Ok::<usize, CoreError>(len as usize)
                    && final(self).position() == old(self).position() + n,
                _ => r matches Err(CoreError::Cbor(_)),
            },
    {
        let len = self.expect(MAJOR_MAP)?;
        if len > usize::MAX as u64 {
            return Err(CoreError::Cbor("length overflow"));
        }
        Ok(len as usize)
    }

    /// Decode a boolean.
    pub fn bool(&mut self) -> (r: Result<bool, CoreError>)
        ensures
            final(self).data() == old(self).data(),
            final(self).position() <= final(self).data().len(),
            old(self).position() <= old(self).data().len(),
            match parse_token(old(self).rest()) {
                Some((Token::Bool(b), n)) => r == Ok::<bool, CoreError>(b) && final(self).position() == old(self).position() + n,
                _ => r matches Err(CoreError::Cbor(m)) && m@ == (if old(self).rest().len() == 0 {
                    "unexpected end"@
                } else {
                    "expected boolean"@
                }),
            },
    {
        let ghost s = old(self).rest();
        let byte = self.read_u8()?;
        assert(byte == s[0]);
        assert(byte == (byte / 32) * 32 + byte % 32);
        if byte == 0xF4 {
            Ok(false)
        } else if byte == 0xF5 {
            Ok(true)
        } else {
            proof {
                if parse_token(s) matches Some((Token::Bool(b), n)) {
                    assert((byte / 32) == 7);
                    assert(byte % 32 == 20 || byte % 32 == 21);
                    assert(false);
                }
            }
            Err(CoreError::Cbor("expected boolean"))
        }
    }

    /// Decode the next data item, whatever its kind.
    pub fn item(&mut self) -> (r: Result<Item, CoreError>)
        ensures
            final(self).data() == old(self).data(),
            final(self).position() <= final(self).data().len(),
            old(self).position() <= old(self).data().len(),
            match parse_token(old(self).rest()) {
                Some((t, n)) => r matches Ok(it) && it@ == t && final(self).position()
                    == old(self).position() + n,
                None => r matches Err(CoreError::Cbor(_)),
            },
    {
        let ghost s = old(self).rest();
        let (major, value) = self.read_head()?;
        if major == MAJOR_UINT {
            Ok(Item::Uint(value))
        } else if major == MAJOR_BYTES || major == MAJOR_TEXT {
            if value > usize::MAX as u64 {
                return Err(CoreError::Cbor("length overflow"));
            }
            let slice = self.read_exact(value as usize)?;
            proof {
                let (m, v, n) = parse_head(s).unwrap();
                assert(slice@ =~= s.subrange(n as int, n + v));
            }
            if major == MAJOR_BYTES {
                Ok(Item::Bytes(crate::bytes::to_vec(slice)))
            } else {
                match utf8_str(slice) {
                    Some(text) => Ok(Item::Text(text.to_owned())),
                    None => Err(CoreError::Cbor("invalid utf-8")),
                }
            }
        } else if major == MAJOR_ARRAY || major == MAJOR_MAP {
            if value > usize::MAX as u64 {
                return Err(CoreError::Cbor("length overflow"));
            }
            if major == MAJOR_ARRAY {
                Ok(Item::Array(value))
            } else {
                Ok(Item::MapHeader(value))
            }
        } else if major == 7 && (value == 20 || value == 21) {
            Ok(Item::Bool(value == 21))
        } else {
            Err(CoreError::Cbor("unsupported data item"))
        }
    }

    /// Decode the next `count` data items.
    pub fn items(&mut self, count: usize) -> (r: Result<Vec<Item>, CoreError>)
        ensures
            final(self).data() == old(self).data(),
            final(self).position() <= final(self).data().len(),
            old(self).position() <= old(self).data().len(),
            match parse_tokens(old(self).rest(), count as nat) {
                Some((ts, n)) => r matches Ok(v) && items_view(v@) == ts && final(self).position()
                    == old(self).position() + n,
                None => r matches Err(CoreError::Cbor(_)),
            },
            r matches Ok(v) ==> v@.len() == count,
    {
        proof {
            use_type_invariant(&*self);
        }
        let ghost start = self.position();
        let ghost s0 = self.rest();
        let mut out: Vec<Item> = Vec::new();
        let mut i: usize = 0;
        while i < count
            invariant
                self.data() == old(self).data(),
                start == old(self).position(),
                s0 == old(self).rest(),
                start <= self.position() <= self.data().len(),
                i <= count,
                out@.len() == i,
                parse_tokens(s0, count as nat) == match parse_tokens(self.rest(), (count - i) as nat) {
                    Some((ts, n)) => Some((items_view(out@) + ts, (self.position() - start + n) as nat)),
                    None => None,
                },
            decreases count - i,
        {
            let ghost before = *self;
            let ghost left = (count - i) as nat;
            let it = self.item()?;
            proof {
                let (t, k) = parse_token(before.rest()).unwrap();
                assert(self.rest() =~= before.rest().subrange(k as int, before.rest().len() as int));
                assert(items_view(out@.push(it)) =~= items_view(out@).push(it@));
                match parse_tokens(self.rest(), (left - 1) as nat) {
                    Some((ts, m)) => {
                        assert(items_view(out@).push(it@) + ts =~= items_view(out@) + (seq![t] + ts));
                    },
                    None => {},
                }
            }
            out.push(it);
            i = i + 1;
        }
        proof {
            assert(items_view(out@) + Seq::<Token>::empty() =~= items_view(out@));
        }
        Ok(out)
    }
}

} // verus!
