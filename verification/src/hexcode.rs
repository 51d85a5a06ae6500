//! Hexadecimal text, through the `hex` crate.
use vstd::prelude::*;

verus! {

/// The lowercase hex digit of a value below 16.
pub open spec fn hex_digit(n: int) -> char {
    if n < 10 {
        (48 + n) as char
    } else {
        (87 + n) as char
    }
}

/// Lowercase hex text of a byte string: two digits per byte, high nibble
/// first.
pub open spec fn hex_text(data: Seq<u8>) -> Seq<char> {
    Seq::new(
        2 * data.len(),
        |i: int|
            if i % 2 == 0 {
                hex_digit((data[i / 2] / 16) as int)
            } else {
                hex_digit((data[i / 2] % 16) as int)
            },
    )
}

/// The value of a hex digit of either case.
pub open spec fn hex_value(c: char) -> Option<int> {
    if '0' <= c <= '9' {
        Some(c as int - 48)
    } else if 'a' <= c <= 'f' {
        Some(c as int - 87)
    } else if 'A' <= c <= 'F' {
        Some(c as int - 55)
    } else {
        None
    }
}

/// Whether text is hex: an even number of hex digits.
pub open spec fn is_hex(text: Seq<char>) -> bool {
    &&& text.len() % 2 == 0
    &&& forall|i: int| 0 <= i < text.len() ==> (#[trigger] hex_value(text[i])) is Some
}

/// The bytes that hex text stands for.
pub open spec fn hex_bytes(text: Seq<char>) -> Seq<u8> {
    Seq::new(
        text.len() / 2,
        |i: int| (16 * hex_value(text[2 * i]).unwrap() + hex_value(text[2 * i + 1]).unwrap()) as u8,
    )
}

/// The error type of `hex::decode`.
#[verifier::external_type_specification]
#[verifier::external_body]
pub struct ExFromHexError(hex::FromHexError);

/// Lowercase hex of `data`.
///
/// Calls `hex::encode`, which maps each byte to two lowercase digits, high
/// nibble first.
#[verifier::external_body]
pub(crate) fn encode(data: &[u8]) -> (r: String)
    ensures
        r@ == hex_text(data@),
{
    hex::encode(data)
}

/// Parse hex text of either case.
///
/// Calls `hex::decode`, which fails on an odd length or on a byte that is no
/// hex digit, and otherwise pairs the digits high nibble first.
#[verifier::external_body]
pub(crate) fn decode(text: &str) -> (r: Result<Vec<u8>, hex::FromHexError>)
    ensures
        r is Ok <==> is_hex(text@),
        r matches Ok(v) ==> v@ == hex_bytes(text@),
{
    hex::decode(text)
}

/// Hex text decodes back to the bytes it was made from, and holds only
/// hex digits, none of them white space or a line break.
pub proof fn lemma_hex_roundtrip(data: Seq<u8>)
    ensures
        is_hex(hex_text(data)),
        hex_bytes(hex_text(data)) == data,
        forall|i: int|
            0 <= i < hex_text(data).len() ==> {
                let c = #[trigger] hex_text(data)[i];
                &&& !crate::text::is_ws(c)
                &&& c != '\n'
                &&& c != '\r'
            },
{
    let t = hex_text(data);
    assert forall|i: int| 0 <= i < t.len() implies (#[trigger] hex_value(t[i])) is Some && hex_value(t[i]).unwrap() == (
        if i % 2 == 0 {
            data[i / 2] / 16
        } else {
            data[i / 2] % 16
        }) by {
        let n: int = if i % 2 == 0 {
            (data[i / 2] / 16) as int
        } else {
            (data[i / 2] % 16) as int
        };
        assert(t[i] == hex_digit(n));
    }
    assert(hex_bytes(t) =~= data) by {
        assert forall|k: int| 0 <= k < data.len() implies hex_bytes(t)[k] == data[k] by {
            assert(hex_value(t[2 * k]) is Some);
            assert(hex_value(t[2 * k + 1]) is Some);
            assert((2 * k) % 2 == 0 && (2 * k) / 2 == k);
            assert((2 * k + 1) % 2 == 1 && (2 * k + 1) / 2 == k);
        }
    }
    assert forall|i: int| 0 <= i < t.len() implies {
        let c = #[trigger] t[i];
        &&& !crate::text::is_ws(c)
        &&& c != '\n'
        &&& c != '\r'
    } by {
        assert(hex_value(t[i]) is Some);
    }
}

} // verus!
