//! The local daemon's HTTP/1.1 front end: reading a request's head and
//! query, choosing the handler, and writing a response head.
use vstd::prelude::*;
use vstd::string::*;
use crate::bytes::str_eq;
use crate::text::{
    chars_of, crlf_pieces, decimal, decimal_text, parse_usize, split_at_char, split_crlf,
    split_once, split_words, string_of, trim, trimmed, uint_text, words,
};

verus! {

/// Whether `needle` occurs in `haystack` at `p`.
pub open spec fn occurs_at(haystack: Seq<u8>, needle: Seq<u8>, p: int) -> bool {
    0 <= p && p + needle.len() <= haystack.len() && haystack.subrange(p, p + needle.len()) == needle
}

/// The first position of a non-empty `needle` in `haystack`.
pub fn find(haystack: &[u8], needle: &[u8]) -> (r: Option<usize>)
    requires
        needle@.len() > 0,
    ensures
        match r {
            Some(p) => occurs_at(haystack@, needle@, p as int) && forall|q: int|
                0 <= q < p ==> !occurs_at(haystack@, needle@, q),
            None => forall|q: int| !occurs_at(haystack@, needle@, q),
        },
{
    if needle.len() > haystack.len() {
        return None;
    }
    let last = haystack.len() - needle.len();
    let mut p: usize = 0;
    while p <= last
        invariant
            needle@.len() > 0,
            needle@.len() <= haystack@.len(),
            haystack@.len() <= usize::MAX,
            last == haystack@.len() - needle@.len(),
            p <= last + 1,
            forall|q: int| 0 <= q < p ==> !occurs_at(haystack@, needle@, q),
        decreases last + 1 - p,
    {
        let mut k: usize = 0;
        let mut same = true;
        while k < needle.len()
            invariant
                p <= last,
                needle@.len() <= haystack@.len(),
                haystack@.len() <= usize::MAX,
                last == haystack@.len() - needle@.len(),
                k <= needle@.len(),
                same == forall|j: int| 0 <= j < k ==> haystack@[p + j] == needle@[j],
            decreases needle@.len() - k,
        {
            if haystack[p + k] != needle[k] {
                same = false;
            }
            k = k + 1;
        }
        if same {
            assert(haystack@.subrange(p as int, p + needle@.len()) =~= needle@);
            return Some(p);
        }
        proof {
            let j = choose|j: int| 0 <= j < needle@.len() && haystack@[p + j] != needle@[j];
            assert(haystack@.subrange(p as int, p + needle@.len())[j] != needle@[j]);
        }
        p = p + 1;
    }
    None
}

/// ASCII lowercase of a character; others unchanged.
pub open spec fn ascii_lower(c: char) -> char {
    if 'A' <= c <= 'Z' {
        ((c as u32) + 32) as char
    } else {
        c
    }
}

/// Whether a header name is `Content-Length`, ignoring ASCII case.
pub open spec fn is_content_length(name: Seq<char>) -> bool {
    &&& name.len() == "content-length"@.len()
    &&& forall|i: int| 0 <= i < name.len() ==> ascii_lower(#[trigger] name[i]) == "content-length"@[i]
}

fn lower(c: char) -> (r: char)
    ensures
        r == ascii_lower(c),
{
    if 'A' <= c && c <= 'Z' {
        ((c as u32) + 32) as u8 as char
    } else {
        c
    }
}

fn content_length_name(name: &[char]) -> (r: bool)
    ensures
        r == is_content_length(name@),
{
    let expected = chars_of("content-length");
    if name.len() != expected.len() {
        return false;
    }
    let mut i: usize = 0;
    while i < name.len()
        invariant
            i <= name@.len(),
            name@.len() == expected@.len(),
            expected@ == "content-length"@,
            forall|j: int| 0 <= j < i ==> ascii_lower(#[trigger] name@[j]) == "content-length"@[j],
        decreases name@.len() - i,
    {
        if lower(name[i]) != expected[i] {
            return false;
        }
        i = i + 1;
    }
    true
}

/// The body length that header lines announce: the value of the first
/// `Content-Length` header, trimmed and read as a `usize`; zero when there
/// is none or it is no such number.
pub open spec fn announced_length(headers: Seq<Seq<char>>) -> usize
    decreases headers.len(),
{
    if headers.len() == 0 {
        0
    } else {
        match split_once(headers[0], ':') {
            Some((name, value)) => if is_content_length(name) {
                match uint_text(trim(value)) {
                    Some(v) => if v <= usize::MAX {
                        v as usize
                    } else {
                        0
                    },
                    None => 0,
                }
            } else {
                announced_length(headers.drop_first())
            },
            None => announced_length(headers.drop_first()),
        }
    }
}

/// What a request's head says: its method, its target and the length of
/// its body.
pub struct RequestHead {
    pub method: String,
    pub target: String,
    pub content_length: usize,
}

/// The method of a request line: its first word, or nothing.
pub open spec fn method_of(line: Seq<char>) -> Seq<char> {
    if words(line).len() > 0 {
        words(line)[0]
    } else {
        Seq::empty()
    }
}

/// The target of a request line: its second word, or `/`.
pub open spec fn target_of(line: Seq<char>) -> Seq<char> {
    if words(line).len() > 1 {
        words(line)[1]
    } else {
        seq!['/']
    }
}

/// Read a request's head (the text up to and including the blank line):
/// the request line is the text before the first `\r\n`, the headers the
/// pieces after it.
pub fn parse_request_head(head: &str) -> (r: RequestHead)
    ensures
        r.method@ == method_of(crlf_pieces(head@)[0]),
        r.target@ == target_of(crlf_pieces(head@)[0]),
        r.content_length == announced_length(crlf_pieces(head@).drop_first()),
{
    let chars = chars_of(head);
    let pieces = split_crlf(chars.as_slice());
    let ghost all = pieces@.map_values(|x: Vec<char>| x@);
    assert(all.len() > 0);
    assert(all[0] == pieces@[0]@);
    let ws = split_words(pieces[0].as_slice());
    let ghost wv = ws@.map_values(|x: Vec<char>| x@);
    let method = if ws.len() > 0 {
        assert(wv[0] == ws@[0]@);
        string_of(ws[0].as_slice())
    } else {
        String::new()
    };
    let target = if ws.len() > 1 {
        assert(wv[1] == ws@[1]@);
        string_of(ws[1].as_slice())
    } else {
        proof {
            reveal_strlit("/");
        }
        String::from_str("/")
    };
    let mut content_length: usize = 0;
    let mut i: usize = 1;
    let mut found = false;
    assert(all.skip(1) =~= all.drop_first());
    while i < pieces.len() && !found
        invariant
            1 <= i <= pieces@.len(),
            all == pieces@.map_values(|x: Vec<char>| x@),
            all == crlf_pieces(head@),
            found ==> content_length == announced_length(all.drop_first()),
            !found ==> content_length == 0,
            !found ==> announced_length(all.drop_first()) == announced_length(all.skip(i as int)),
        decreases pieces@.len() - i + (if found { 0int } else { 1int }),
    {
        let ghost rest = all.skip(i as int);
        assert(rest[0] == pieces@[i as int]@);
        assert(rest.drop_first() =~= all.skip(i + 1));
        match split_at_char(pieces[i].as_slice(), ':') {
            Some((name, value)) => {
                if content_length_name(name.as_slice()) {
                    let v = trimmed(value.as_slice());
                    content_length = match parse_usize(v.as_slice()) {
                        Some(n) => n,
                        None => 0,
                    };
                    found = true;
                } else {
                    i = i + 1;
                }
            },
            None => {
                i = i + 1;
            },
        }
    }
    if !found {
        assert(all.skip(i as int) =~= Seq::<Seq<char>>::empty());
    }
    RequestHead { method, target, content_length }
}

} // verus!

verus! {

/// The value of an ASCII hex digit.
pub open spec fn hex_nibble(b: u8) -> Option<u8> {
    if 48 <= b <= 57 {
        Some((b - 48) as u8)
    } else if 97 <= b <= 102 {
        Some((b - 87) as u8)
    } else if 65 <= b <= 70 {
        Some((b - 55) as u8)
    } else {
        None
    }
}

/// The byte that the two characters after a `%` stand for, as
/// `u8::from_str_radix(.., 16)` reads them: two hex digits, or `+` and one.
pub open spec fn hex_pair(b1: u8, b2: u8) -> Option<u8> {
    if b1 == 43 {
        hex_nibble(b2)
    } else {
        match (hex_nibble(b1), hex_nibble(b2)) {
            (Some(h), Some(l)) => Some((16 * h + l) as u8),
            _ => None,
        }
    }
}

/// Percent-decoding of the bytes from `i` on: `%` and two hex digits give
/// one byte, `+` gives a space, any other byte stands for itself. `None`
/// where decoding would cut the text inside a character (the two bytes
/// after a `%` are taken as a slice of the text).
pub open spec fn percent_decoded(b: Seq<u8>, i: nat) -> Option<Seq<u8>>
    decreases b.len() - i,
{
    if i >= b.len() {
        Some(Seq::empty())
    } else if b[i as int] == 37 && i + 2 < b.len() {
        if !vstd::utf8::is_char_boundary(b, i + 1int) || !vstd::utf8::is_char_boundary(b, i + 3int) {
            None
        } else {
            match hex_pair(b[i + 1int], b[i + 2int]) {
                Some(v) => match percent_decoded(b, i + 3) {
                    Some(rest) => Some(seq![v] + rest),
                    None => None,
                },
                None => match percent_decoded(b, i + 1) {
                    Some(rest) => Some(seq![37u8] + rest),
                    None => None,
                },
            }
        }
    } else {
        match percent_decoded(b, i + 1) {
            Some(rest) => Some(seq![if b[i as int] == 43 { 32u8 } else { b[i as int] }] + rest),
            None => None,
        }
    }
}

fn nibble(b: u8) -> (r: Option<u8>)
    ensures
        r == hex_nibble(b),
{
    if 48 <= b && b <= 57 {
        Some(b - 48)
    } else if 97 <= b && b <= 102 {
        Some(b - 87)
    } else if 65 <= b && b <= 70 {
        Some(b - 55)
    } else {
        None
    }
}

fn pair(b1: u8, b2: u8) -> (r: Option<u8>)
    ensures
        r == hex_pair(b1, b2),
{
    if b1 == 43 {
        nibble(b2)
    } else {
        match (nibble(b1), nibble(b2)) {
            (Some(h), Some(l)) => Some(16 * h + l),
            _ => None,
        }
    }
}

/// Whether [`percent_decode`] accepts a text (it never cuts a character).
pub fn percent_decodable(input: &str) -> (r: bool)
    ensures
        r == (percent_decoded(input.spec_bytes(), 0) is Some),
{
    percent_decode_bytes(input).is_some()
}

/// Percent-decode a text to bytes.
fn percent_decode_bytes(input: &str) -> (r: Option<Vec<u8>>)
    ensures
        match percent_decoded(input.spec_bytes(), 0) {
            Some(d) => r matches Some(v) && v@ == d,
            None => r is None,
        },
{
    let bytes = input.as_bytes();
    let ghost b = input.spec_bytes();
    let mut out: Vec<u8> = Vec::new();
    let mut index: usize = 0;
    while index < bytes.len()
        invariant
            bytes@ == b,
            b == input.spec_bytes(),
            index <= b.len(),
            percent_decoded(b, 0) == match percent_decoded(b, index as nat) {
                Some(rest) => Some(out@ + rest),
                None => None,
            },
        decreases b.len() - index,
    {
        let ghost before = out@;
        if bytes[index] == 37 && bytes.len() - index > 2 {
            if !input.is_char_boundary(index + 1) || !input.is_char_boundary(index + 3) {
                return None;
            }
            match pair(bytes[index + 1], bytes[index + 2]) {
                Some(v) => {
                    out.push(v);
                    proof {
                        if let Some(rest) = percent_decoded(b, (index + 3) as nat) {
                            assert(before + (seq![v] + rest) =~= out@ + rest);
                        }
                    }
                    index = index + 3;
                },
                None => {
                    out.push(37);
                    proof {
                        if let Some(rest) = percent_decoded(b, (index + 1) as nat) {
                            assert(before + (seq![37u8] + rest) =~= out@ + rest);
                        }
                    }
                    index = index + 1;
                },
            }
        } else {
            let c = if bytes[index] == 43 {
                32u8
            } else {
                bytes[index]
            };
            out.push(c);
            proof {
                if let Some(rest) = percent_decoded(b, (index + 1) as nat) {
                    assert(before + (seq![c] + rest) =~= out@ + rest);
                }
            }
            index = index + 1;
        }
    }
    assert(out@ + Seq::<u8>::empty() =~= out@);
    Some(out)
}

/// Text from bytes, replacing what is not UTF-8.
///
/// Calls `String::from_utf8_lossy`; only that valid UTF-8 is kept as it is
/// is stated.
#[verifier::external_body]
fn lossy_text(bytes: &[u8]) -> (r: String)
    ensures
        vstd::utf8::valid_utf8(bytes@) ==> r@ == vstd::utf8::decode_utf8(bytes@),
{
    String::from_utf8_lossy(bytes).into_owned()
}

/// Percent-decode a text; bytes that are not UTF-8 become replacement
/// characters.
pub fn percent_decode(input: &str) -> (r: String)
    requires
        percent_decoded(input.spec_bytes(), 0) is Some,
    ensures
        vstd::utf8::valid_utf8(percent_decoded(input.spec_bytes(), 0).unwrap()) ==> r@
            == vstd::utf8::decode_utf8(percent_decoded(input.spec_bytes(), 0).unwrap()),
{
    match percent_decode_bytes(input) {
        Some(v) => lossy_text(v.as_slice()),
        None => String::new(),
    }
}

} // verus!

verus! {

/// Whether a piece of a query can be percent-decoded.
pub open spec fn decodable(s: Seq<char>) -> bool {
    percent_decoded(vstd::utf8::encode_utf8(s), 0) is Some
}

/// That `r` is what percent-decoding `s` gives, wherever the decoded bytes
/// are UTF-8.
pub open spec fn decodes_to(s: Seq<char>, r: Seq<char>) -> bool {
    let d = percent_decoded(vstd::utf8::encode_utf8(s), 0).unwrap();
    vstd::utf8::valid_utf8(d) ==> r == vstd::utf8::decode_utf8(d)
}

/// The non-empty members of a list of pieces, in order.
pub open spec fn nonempty(ps: Seq<Seq<char>>) -> Seq<Seq<char>>
    decreases ps.len(),
{
    if ps.len() == 0 {
        Seq::empty()
    } else if ps.last().len() > 0 {
        nonempty(ps.drop_last()).push(ps.last())
    } else {
        nonempty(ps.drop_last())
    }
}

/// The non-empty `&`-separated items of a query.
pub open spec fn query_items(query: Seq<char>) -> Seq<Seq<char>> {
    nonempty(crate::text::pieces(query, '&'))
}

/// The key and value text of a query item: split at the first `=`, or the
/// whole item and nothing.
pub open spec fn item_parts(item: Seq<char>) -> (Seq<char>, Seq<char>) {
    match split_once(item, '=') {
        Some((k, v)) => (k, v),
        None => (item, Seq::empty()),
    }
}

/// Whether the key and value of an item can be percent-decoded.
pub open spec fn item_decodable(item: Seq<char>) -> bool {
    decodable(item_parts(item).0) && decodable(item_parts(item).1)
}

/// Whether every key and value of a query can be percent-decoded.
pub open spec fn query_decodable(query: Seq<char>) -> bool {
    forall|i: int| 0 <= i < query_items(query).len() ==> item_decodable(#[trigger] query_items(query)[i])
}

/// That a pair holds the decoded key and value of an item.
pub open spec fn item_pair(item: Seq<char>, pair: (String, String)) -> bool {
    decodes_to(item_parts(item).0, pair.0@) && decodes_to(item_parts(item).1, pair.1@)
}

/// That `pairs` are the decoded key-value pairs of `query`'s items, in
/// order.
pub open spec fn query_pairs(query: Seq<char>, pairs: Seq<(String, String)>) -> bool {
    &&& pairs.len() == query_items(query).len()
    &&& forall|i: int| 0 <= i < pairs.len() ==> item_pair(query_items(query)[i], #[trigger] pairs[i])
}

fn decodable_chars(s: &[char]) -> (r: bool)
    ensures
        r == decodable(s@),
{
    let t = string_of(s);
    percent_decodable(t.as_str())
}

fn decode_chars(s: &[char]) -> (r: String)
    requires
        decodable(s@),
    ensures
        decodes_to(s@, r@),
{
    let t = string_of(s);
    percent_decode(t.as_str())
}

fn item_split(item: &[char]) -> (r: (Vec<char>, Vec<char>))
    ensures
        (r.0@, r.1@) == item_parts(item@),
{
    match split_at_char(item, '=') {
        Some((k, v)) => (k, v),
        None => (crate::text::chars_of_slice(item), Vec::new()),
    }
}

/// Whether every key and value of a query can be decoded.
pub fn query_decodes(query: &str) -> (r: bool)
    ensures
        r == query_decodable(query@),
{
    let chars = chars_of(query);
    let ps = crate::text::split_char(chars.as_slice(), '&');
    let ghost all = ps@.map_values(|x: Vec<char>| x@);
    let mut i: usize = 0;
    let mut ok = true;
    while i < ps.len()
        invariant
            i <= ps@.len(),
            all == ps@.map_values(|x: Vec<char>| x@),
            all == crate::text::pieces(query@, '&'),
            ok == forall|k: int|
                0 <= k < nonempty(all.take(i as int)).len() ==> item_decodable(
                    #[trigger] nonempty(all.take(i as int))[k],
                ),
        decreases ps@.len() - i,
    {
        let ghost before = nonempty(all.take(i as int));
        assert(all.take(i + 1).drop_last() =~= all.take(i as int));
        assert(all.take(i + 1).last() == ps@[i as int]@);
        if ps[i].len() > 0 {
            let (k, v) = item_split(ps[i].as_slice());
            let good = decodable_chars(k.as_slice()) && decodable_chars(v.as_slice());
            let ghost item = ps@[i as int]@;
            proof {
                let after = nonempty(all.take(i + 1));
                assert(after == before.push(item));
                assert(good == item_decodable(item));
                if ok && good {
                    assert forall|m: int| 0 <= m < after.len() implies item_decodable(#[trigger] after[m]) by {
                        if m < before.len() {
                            assert(after[m] == before[m]);
                        }
                    }
                }
                if !ok {
                    let m = choose|m: int| 0 <= m < before.len() && !item_decodable(#[trigger] before[m]);
                    assert(after[m] == before[m]);
                    assert(!item_decodable(after[m]));
                }
                if !good {
                    assert(after[before.len() as int] == item);
                }
            }
            ok = ok && good;
        } else {
            assert(nonempty(all.take(i + 1)) == before);
        }
        i = i + 1;
    }
    assert(all.take(i as int) =~= all);
    ok
}

/// Split a query into decoded key-value pairs: its non-empty `&`-separated
/// items, each split at the first `=` (a missing value is empty).
pub fn parse_query(query: &str) -> (r: Vec<(String, String)>)
    requires
        query_decodable(query@),
    ensures
        query_pairs(query@, r@),
{
    let chars = chars_of(query);
    let ps = crate::text::split_char(chars.as_slice(), '&');
    let ghost all = ps@.map_values(|x: Vec<char>| x@);
    let ghost items = query_items(query@);
    let mut out: Vec<(String, String)> = Vec::new();
    let mut i: usize = 0;
    assert(all.take(ps@.len() as int) =~= all);
    while i < ps.len()
        invariant
            i <= ps@.len(),
            all == ps@.map_values(|x: Vec<char>| x@),
            all == crate::text::pieces(query@, '&'),
            items == nonempty(all),
            query_decodable(query@),
            nonempty(all.take(i as int)).len() == out@.len(),
            forall|k: int| 0 <= k < out@.len() ==> item_pair(nonempty(all.take(i as int))[k], #[trigger] out@[k]),
            forall|k: int| 0 <= k < out@.len() ==> nonempty(all.take(i as int))[k] == #[trigger] items[k],
            out@.len() <= items.len(),
        decreases ps@.len() - i,
    {
        let ghost before = nonempty(all.take(i as int));
        assert(all.take(i + 1).drop_last() =~= all.take(i as int));
        assert(all.take(i + 1).last() == ps@[i as int]@);
        if ps[i].len() > 0 {
            proof {
                crate::http::lemma_nonempty_prefix(all, i as int + 1);
                assert(nonempty(all.take(i + 1)) == before.push(ps@[i as int]@));
                assert(items[before.len() as int] == ps@[i as int]@);
                assert(query_items(query@) == items);
                assert(item_decodable(query_items(query@)[before.len() as int]));
            }
            let (k, v) = item_split(ps[i].as_slice());
            let key = decode_chars(k.as_slice());
            let value = decode_chars(v.as_slice());
            out.push((key, value));
        }
        i = i + 1;
    }
    out
}

} // verus!

verus! {

/// The non-empty members of a prefix come first among those of the whole.
pub proof fn lemma_nonempty_prefix(ps: Seq<Seq<char>>, j: int)
    requires
        0 <= j <= ps.len(),
    ensures
        nonempty(ps.take(j)).len() <= nonempty(ps).len(),
        forall|k: int| 0 <= k < nonempty(ps.take(j)).len() ==> nonempty(ps.take(j))[k] == #[trigger] nonempty(ps)[k],
    decreases ps.len() - j,
{
    if j == ps.len() {
        assert(ps.take(j) =~= ps);
    } else {
        lemma_nonempty_prefix(ps, j + 1);
        assert(ps.take(j + 1).drop_last() =~= ps.take(j));
    }
}

} // verus!

verus! {

/// Whether the query of a request target (after the first `?`) can be
/// decoded.
pub open spec fn target_decodable(target: Seq<char>) -> bool {
    match split_once(target, '?') {
        Some((_, q)) => query_decodable(q),
        None => true,
    }
}

/// Whether [`split_target`] accepts a target.
pub fn target_decodes(target: &str) -> (r: bool)
    ensures
        r == target_decodable(target@),
{
    let chars = chars_of(target);
    match split_at_char(chars.as_slice(), '?') {
        Some((_, q)) => {
            let qs = string_of(q.as_slice());
            query_decodes(qs.as_str())
        },
        None => true,
    }
}

/// Split a request target into its path (before the first `?`) and its
/// decoded query pairs.
pub fn split_target(target: &str) -> (r: (String, Vec<(String, String)>))
    requires
        target_decodable(target@),
    ensures
        match split_once(target@, '?') {
            Some((p, q)) => r.0@ == p && query_pairs(q, r.1@),
            None => r.0@ == target@ && r.1@.len() == 0,
        },
{
    let chars = chars_of(target);
    match split_at_char(chars.as_slice(), '?') {
        Some((p, q)) => {
            let qs = string_of(q.as_slice());
            (string_of(p.as_slice()), parse_query(qs.as_str()))
        },
        None => (String::from_str(target), Vec::new()),
    }
}

/// The index of the first pair with key `key`.
pub open spec fn key_index(query: Seq<(String, String)>, key: Seq<char>) -> Option<int> {
    if exists|i: int| 0 <= i < query.len() && (#[trigger] query[i]).0@ == key {
        Some(
            choose|i: int|
                0 <= i < query.len() && (#[trigger] query[i]).0@ == key && forall|j: int|
                    0 <= j < i ==> (#[trigger] query[j]).0@ != key,
        )
    } else {
        None
    }
}

/// The value of the first pair with key `key`.
pub fn query_param(query: &[(String, String)], key: &str) -> (r: Option<String>)
    ensures
        match key_index(query@, key@) {
            Some(i) => r matches Some(v) && v@ == query@[i].1@,
            None => r is None,
        },
{
    let mut i: usize = 0;
    while i < query.len()
        invariant
            i <= query@.len(),
            forall|j: int| 0 <= j < i ==> (#[trigger] query@[j]).0@ != key@,
        decreases query@.len() - i,
    {
        if crate::bytes::str_eq(query[i].0.as_str(), key) {
            let ghost k = choose|k: int|
                0 <= k < query@.len() && (#[trigger] query@[k]).0@ == key@ && forall|j: int|
                    0 <= j < k ==> (#[trigger] query@[j]).0@ != key@;
            assert(k == i) by {
                if k > i {
                    assert(query@[i as int].0@ == key@);
                }
            }
            return Some(query[i].1.clone());
        }
        i = i + 1;
    }
    None
}

/// The reason phrase sent with a status code.
pub open spec fn reason(status: u16) -> Seq<char> {
    if status == 200 {
        "OK"@
    } else if status == 201 {
        "Created"@
    } else if status == 400 {
        "Bad Request"@
    } else if status == 404 {
        "Not Found"@
    } else if status == 500 {
        "Internal Server Error"@
    } else {
        "OK"@
    }
}

/// The reason phrase for a status code.
pub fn status_reason(status: u16) -> (r: &'static str)
    ensures
        r@ == reason(status),
{
    if status == 200 {
        "OK"
    } else if status == 201 {
        "Created"
    } else if status == 400 {
        "Bad Request"
    } else if status == 404 {
        "Not Found"
    } else if status == 500 {
        "Internal Server Error"
    } else {
        "OK"
    }
}

/// The head of a response: status line, content type and length, and the
/// fixed headers (no keep-alive, open CORS), then a blank line.
pub open spec fn response_head_text(status: u16, content_type: Seq<char>, length: usize) -> Seq<char> {
    "HTTP/1.1 "@ + decimal(status as nat) + " "@ + reason(status) + "\r\nContent-Type: "@ + content_type
        + "\r\nContent-Length: "@ + decimal(length as nat)
        + "\r\nConnection: close\r\nAccess-Control-Allow-Origin: *\r\nAccess-Control-Allow-Headers: content-type\r\nAccess-Control-Allow-Methods: GET, POST, OPTIONS\r\n\r\n"@
}

/// Write a response head for a body of `length` bytes.
pub fn response_head(status: u16, content_type: &str, length: usize) -> (r: String)
    ensures
        r@ == response_head_text(status, content_type@, length),
{
    let mut out = String::from_str("HTTP/1.1 ");
    out.append(decimal_text(status as u64).as_str());
    out.append(" ");
    out.append(status_reason(status));
    out.append("\r\nContent-Type: ");
    out.append(content_type);
    out.append("\r\nContent-Length: ");
    out.append(decimal_text(length as u64).as_str());
    out.append(
        "\r\nConnection: close\r\nAccess-Control-Allow-Origin: *\r\nAccess-Control-Allow-Headers: content-type\r\nAccess-Control-Allow-Methods: GET, POST, OPTIONS\r\n\r\n",
    );
    out
}

} // verus!

verus! {

/// The handler a request goes to.
#[derive(Clone, Debug, PartialEq, Eq)]
pub enum Route {
    /// A CORS preflight (`OPTIONS`, any path).
    Preflight,
    /// The embedded browser UI.
    Index,
    /// The local public keys.
    Identity,
    /// The contacts list.
    ListContacts,
    /// Adding a contact device.
    AddContact,
    /// Listing drops.
    ListDrops,
    /// Creating a drop.
    CreateDrop,
    /// Opening the drop with this id text.
    OpenDrop(String),
    /// The metadata of the drop with this id text.
    DropMeta(String),
    /// Checking the drop with this id text against the log.
    VerifyLog(String),
    /// Anything else.
    NotFound,
}

/// A route, with its id text as characters.
pub ghost enum RouteView {
    Preflight,
    Index,
    Identity,
    ListContacts,
    AddContact,
    ListDrops,
    CreateDrop,
    OpenDrop(Seq<char>),
    DropMeta(Seq<char>),
    VerifyLog(Seq<char>),
    NotFound,
}

impl View for Route {
    type V = RouteView;

    open spec fn view(&self) -> RouteView {
        match self {
            Route::Preflight => RouteView::Preflight,
            Route::Index => RouteView::Index,
            Route::Identity => RouteView::Identity,
            Route::ListContacts => RouteView::ListContacts,
            Route::AddContact => RouteView::AddContact,
            Route::ListDrops => RouteView::ListDrops,
            Route::CreateDrop => RouteView::CreateDrop,
            Route::OpenDrop(id) => RouteView::OpenDrop(id@),
            Route::DropMeta(id) => RouteView::DropMeta(id@),
            Route::VerifyLog(id) => RouteView::VerifyLog(id@),
            Route::NotFound => RouteView::NotFound,
        }
    }
}

/// `s` without the suffix `t`, when it ends with it.
pub open spec fn without_suffix(s: Seq<char>, t: Seq<char>) -> Seq<char> {
    if t.is_suffix_of(s) {
        s.take(s.len() - t.len())
    } else {
        s
    }
}

/// The routes under `/api/drops/` and `/api/log/`, whatever the method.
pub open spec fn id_route(path: Seq<char>) -> RouteView {
    if "/api/drops/"@.is_prefix_of(path) {
        let rest = path.skip("/api/drops/"@.len() as int);
        if "/open"@.is_suffix_of(rest) {
            RouteView::OpenDrop(without_suffix(rest, "/open"@))
        } else {
            RouteView::DropMeta(rest)
        }
    } else if "/api/log/"@.is_prefix_of(path) {
        RouteView::VerifyLog(without_suffix(path.skip("/api/log/"@.len() as int), "/verify"@))
    } else {
        RouteView::NotFound
    }
}

/// The handler for a method and path.
pub open spec fn route_of(method: Seq<char>, path: Seq<char>) -> RouteView {
    if method == "OPTIONS"@ {
        RouteView::Preflight
    } else if method == "GET"@ && (path == "/"@ || path == "/index.html"@) {
        RouteView::Index
    } else if method == "GET"@ && path == "/api/id"@ {
        RouteView::Identity
    } else if method == "GET"@ && path == "/api/contacts"@ {
        RouteView::ListContacts
    } else if method == "POST"@ && path == "/api/contacts"@ {
        RouteView::AddContact
    } else if method == "GET"@ && path == "/api/drops"@ {
        RouteView::ListDrops
    } else if method == "POST"@ && path == "/api/drops"@ {
        RouteView::CreateDrop
    } else {
        id_route(path)
    }
}

fn ends_with(s: &[char], t: &[char]) -> (r: bool)
    ensures
        r == t@.is_suffix_of(s@),
{
    if t.len() > s.len() {
        return false;
    }
    let off = s.len() - t.len();
    let mut i: usize = 0;
    while i < t.len()
        invariant
            t@.len() <= s@.len(),
            s@.len() <= usize::MAX,
            off == s@.len() - t@.len(),
            i <= t@.len(),
            forall|j: int| 0 <= j < i ==> t@[j] == s@[off + j],
        decreases t@.len() - i,
    {
        if t[i] != s[off + i] {
            assert(t@[i as int] != s@.subrange(off as int, s@.len() as int)[i as int]);
            return false;
        }
        i = i + 1;
    }
    assert(t@ =~= s@.subrange(off as int, s@.len() as int));
    true
}

fn drop_suffix(s: &[char], t: &[char]) -> (r: String)
    ensures
        r@ == without_suffix(s@, t@),
{
    if ends_with(s, t) {
        let keep = s.len() - t.len();
        let mut out: Vec<char> = Vec::new();
        let mut i: usize = 0;
        while i < keep
            invariant
                keep <= s@.len(),
                i <= keep,
                out@ == s@.take(i as int),
            decreases keep - i,
        {
            out.push(s[i]);
            assert(out@ =~= s@.take(i + 1));
            i = i + 1;
        }
        string_of(out.as_slice())
    } else {
        string_of(s)
    }
}

fn skip_chars(s: &[char], n: usize) -> (r: Vec<char>)
    requires
        n <= s@.len(),
    ensures
        r@ == s@.skip(n as int),
{
    let mut out: Vec<char> = Vec::new();
    let mut i: usize = n;
    while i < s.len()
        invariant
            n <= i <= s@.len(),
            out@ == s@.subrange(n as int, i as int),
        decreases s@.len() - i,
    {
        out.push(s[i]);
        assert(out@ =~= s@.subrange(n as int, i + 1));
        i = i + 1;
    }
    assert(out@ =~= s@.skip(n as int));
    out
}

/// Choose the handler for a request.
pub fn route(method: &str, path: &str) -> (r: Route)
    ensures
        r@ == route_of(method@, path@),
{
    if str_eq(method, "OPTIONS") {
        return Route::Preflight;
    }
    let get = str_eq(method, "GET");
    let post = str_eq(method, "POST");
    if get && (str_eq(path, "/") || str_eq(path, "/index.html")) {
        return Route::Index;
    }
    if get && str_eq(path, "/api/id") {
        return Route::Identity;
    }
    if get && str_eq(path, "/api/contacts") {
        return Route::ListContacts;
    }
    if post && str_eq(path, "/api/contacts") {
        return Route::AddContact;
    }
    if get && str_eq(path, "/api/drops") {
        return Route::ListDrops;
    }
    if post && str_eq(path, "/api/drops") {
        return Route::CreateDrop;
    }
    let p = chars_of(path);
    let drops = chars_of("/api/drops/");
    let log = chars_of("/api/log/");
    let open = chars_of("/open");
    let verify = chars_of("/verify");
    if crate::files::starts_with(p.as_slice(), drops.as_slice()) {
        let rest = skip_chars(p.as_slice(), drops.len());
        if ends_with(rest.as_slice(), open.as_slice()) {
            Route::OpenDrop(drop_suffix(rest.as_slice(), open.as_slice()))
        } else {
            Route::DropMeta(string_of(rest.as_slice()))
        }
    } else if crate::files::starts_with(p.as_slice(), log.as_slice()) {
        let id = skip_chars(p.as_slice(), log.len());
        Route::VerifyLog(drop_suffix(id.as_slice(), verify.as_slice()))
    } else {
        Route::NotFound
    }
}

} // verus!
