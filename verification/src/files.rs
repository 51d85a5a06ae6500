//! The data directory's text files: key files, the contacts list and the
//! anchor receipts, each one record per line.
use vstd::prelude::*;
use vstd::string::*;
use crate::bytes::to_array;
use crate::hexcode::{self, hex_bytes, hex_text, hex_value, is_hex};
use crate::store::{Contact, ContactView, StoreError};
use crate::anchor::{AnchorReceipt, LOCAL_HASHCHAIN};
use crate::text::{
    chars_of, decimal, decimal_text, is_ws, lines, parse_u64, spaced, split_lines, split_words,
    string_of, trim, trimmed, uint_text, words,
};

verus! {

/// The bytes of hex text after trimming white space, when it has exactly
/// `n` of them.
pub open spec fn hex_exact(text: Seq<char>, n: nat) -> Option<Seq<u8>> {
    let t = trim(text);
    if is_hex(t) && hex_bytes(t).len() == n {
        Some(hex_bytes(t))
    } else {
        None
    }
}

/// Decode hex text (white space around it ignored) of exactly `N` bytes.
pub fn hex_array<const N: usize>(text: &[char]) -> (r: Result<[u8; N], StoreError>)
    ensures
        match hex_exact(text@, N as nat) {
            Some(b) => r matches Ok(a) && a@ == b,
            None => r matches Err(e) && e is Invalid,
        },
{
    let t = trimmed(text);
    let s = string_of(t.as_slice());
    let bytes = match hexcode::decode(s.as_str()) {
        Ok(b) => b,
        Err(_) => {
            return Err(StoreError::Invalid(String::from_str("hex")));
        },
    };
    if bytes.len() != N {
        return Err(StoreError::Invalid(String::from_str("wrong key length")));
    }
    Ok(to_array(bytes.as_slice()))
}

/// Decode hex text (white space around it ignored) of exactly 32 bytes.
pub fn hex32(text: &str) -> (r: Result<[u8; 32], StoreError>)
    ensures
        match hex_exact(text@, 32) {
            Some(b) => r matches Ok(a) && a@ == b,
            None => r matches Err(e) && e is Invalid,
        },
{
    let chars = chars_of(text);
    hex_array::<32>(chars.as_slice())
}

/// The views of a list of contacts.
pub open spec fn contact_views(cs: Seq<Contact>) -> Seq<ContactView> {
    cs.map_values(|c: Contact| c@)
}

/// Whether a word is the placeholder for a missing hybrid key.
pub open spec fn is_dash(w: Seq<char>) -> bool {
    w == seq!['-']
}

/// What one line of a data file holds.
pub ghost enum Line<T> {
    /// Too few words: the line is skipped.
    Skip,
    /// A malformed field: the file is refused.
    Bad,
    /// One record.
    Record(T),
}

/// What one line of the contacts file holds: nothing (fewer than three
/// words), a contact, or an error (bad hex).
pub open spec fn contact_line(w: Seq<Seq<char>>) -> Line<ContactView> {
    if w.len() < 3 {
        Line::Skip
    } else {
        let hybrid_ok = w.len() == 3 || is_dash(w[3]) || is_hex(w[3]);
        let signing = hex_exact(w[1], 32);
        let ecdh = hex_exact(w[2], 32);
        if !hybrid_ok || signing is None || ecdh is None {
            Line::Bad
        } else {
            Line::Record(
                ContactView {
                    name: w[0],
                    signing: signing.unwrap(),
                    ecdh: ecdh.unwrap(),
                    hybrid: if w.len() == 3 || is_dash(w[3]) {
                        None
                    } else {
                        Some(hex_bytes(w[3]))
                    },
                },
            )
        }
    }
}

/// The contacts that a list of lines holds; `None` when a line is bad.
pub open spec fn contacts_of(ls: Seq<Seq<char>>) -> Option<Seq<ContactView>>
    decreases ls.len(),
{
    if ls.len() == 0 {
        Some(Seq::empty())
    } else {
        match contact_line(words(ls[0])) {
            Line::Skip => contacts_of(ls.drop_first()),
            Line::Bad => None,
            Line::Record(c) => match contacts_of(ls.drop_first()) {
                Some(rest) => Some(seq![c] + rest),
                None => None,
            },
        }
    }
}

fn is_dash_word(w: &[char]) -> (r: bool)
    ensures
        r == is_dash(w@),
{
    if w.len() == 1 && w[0] == '-' {
        assert(w@ =~= seq!['-']);
        true
    } else {
        false
    }
}

/// Parse one line of the contacts file.
fn parse_contact_line(line: &[char]) -> (r: Option<Result<Contact, StoreError>>)
    ensures
        match contact_line(words(line@)) {
            Line::Skip => r is None,
            Line::Bad => r matches Some(Err(e)) && e is Invalid,
            Line::Record(c) => r matches Some(Ok(x)) && x@ == c,
        },
{
    let w = split_words(line);
    let ghost ws = w@.map_values(|x: Vec<char>| x@);
    assert(ws.len() == w@.len());
    if w.len() < 3 {
        return None;
    }
    assert(ws[0] == w@[0]@ && ws[1] == w@[1]@ && ws[2] == w@[2]@);
    let hybrid: Option<Vec<u8>> = if w.len() == 3 || is_dash_word(w[3].as_slice()) {
        None
    } else {
        assert(ws[3] == w@[3]@);
        let s = string_of(w[3].as_slice());
        match hexcode::decode(s.as_str()) {
            Ok(b) => Some(b),
            Err(_) => {
                return Some(Err(StoreError::Invalid(String::from_str("contact hybrid"))));
            },
        }
    };
    let signing = match hex_array::<32>(w[1].as_slice()) {
        Ok(a) => a,
        Err(e) => {
            return Some(Err(e));
        },
    };
    let ecdh = match hex_array::<32>(w[2].as_slice()) {
        Ok(a) => a,
        Err(e) => {
            return Some(Err(e));
        },
    };
    let name = string_of(w[0].as_slice());
    let c = Contact { name, signing, ecdh, hybrid };
    assert(contact_line(ws) == Line::Record(c@));
    Some(Ok(c))
}

/// Parse the contacts file: one device per line as `name signing ecdh
/// hybrid` (hex keys, `-` or nothing for no hybrid key). Lines with fewer
/// than three words are skipped; a bad key is an error.
pub fn parse_contacts(text: &str) -> (r: Result<Vec<Contact>, StoreError>)
    ensures
        match contacts_of(lines(text@)) {
            Some(cs) => r matches Ok(v) && contact_views(v@) == cs,
            None => r matches Err(e) && e is Invalid,
        },
{
    let chars = chars_of(text);
    let ls = split_lines(chars.as_slice());
    let ghost all = ls@.map_values(|x: Vec<char>| x@);
    let mut out: Vec<Contact> = Vec::new();
    let mut i: usize = 0;
    assert(all.skip(0) =~= all);
    proof {
        let cv = contact_views(out@);
        assert(cv =~= Seq::<ContactView>::empty());
        if let Some(rest) = contacts_of(all) {
            assert(cv + rest =~= rest);
        }
    }
    while i < ls.len()
        invariant
            i <= ls@.len(),
            all == ls@.map_values(|x: Vec<char>| x@),
            all == lines(text@),
            contacts_of(all) == match contacts_of(all.skip(i as int)) {
                Some(rest) => Some(contact_views(out@) + rest),
                None => None,
            },
        decreases ls@.len() - i,
    {
        let ghost tail = all.skip(i as int);
        assert(tail.drop_first() =~= all.skip(i + 1));
        assert(tail[0] == ls@[i as int]@);
        let ghost before = contact_views(out@);
        match parse_contact_line(ls[i].as_slice()) {
            None => {},
            Some(Err(e)) => {
                return Err(e);
            },
            Some(Ok(c)) => {
                out.push(c);
                proof {
                    let cv = c@;
                    assert(contact_views(out@) =~= before.push(cv));
                    if let Some(rest) = contacts_of(all.skip(i + 1)) {
                        assert(before + (seq![cv] + rest) =~= before.push(cv) + rest);
                    }
                }
            },
        }
        i = i + 1;
    }
    assert(all.skip(i as int) =~= Seq::<Seq<char>>::empty());
    assert(contact_views(out@) + Seq::<ContactView>::empty() =~= contact_views(out@));
    Ok(out)
}

} // verus!

verus! {

/// The start of a device's line in the contacts file:
/// `name signing ecdh ` with the keys in lowercase hex.
pub open spec fn device_prefix(name: Seq<char>, signing: Seq<u8>, ecdh: Seq<u8>) -> Seq<char> {
    name + seq![' '] + hex_text(signing) + seq![' '] + hex_text(ecdh) + seq![' ']
}

/// A device's whole line: the prefix, the hybrid key in hex or `-`, and a
/// newline.
pub open spec fn device_record(name: Seq<char>, signing: Seq<u8>, ecdh: Seq<u8>, hybrid: Option<Seq<u8>>) -> Seq<char> {
    device_prefix(name, signing, ecdh) + match hybrid {
        Some(h) => hex_text(h),
        None => seq!['-'],
    } + seq!['\n']
}

/// Whether a line of the file starts with `prefix`.
pub open spec fn has_line_starting(text: Seq<char>, prefix: Seq<char>) -> bool {
    exists|i: int| 0 <= i < lines(text).len() && prefix.is_prefix_of(#[trigger] lines(text)[i])
}

/// The contacts file after adding a device, or `None` when the name is
/// empty or holds white space, a key is not hex of the right length, or
/// the file already lists the device under that name.
pub open spec fn with_contact(
    existing: Seq<char>,
    name: Seq<char>,
    signing: Seq<char>,
    ecdh: Seq<char>,
    hybrid: Option<Seq<char>>,
) -> Option<Seq<char>> {
    if name.len() == 0 || crate::text::has_ws(name) {
        None
    } else {
        match (hex_exact(signing, 32), hex_exact(ecdh, 32)) {
            (Some(s), Some(e)) => {
                if hybrid matches Some(h) && !is_hex(h) {
                    None
                } else if has_line_starting(existing, device_prefix(name, s, e)) {
                    None
                } else {
                    Some(
                        existing + device_record(
                            name,
                            s,
                            e,
                            match hybrid {
                                Some(h) => Some(hex_bytes(h)),
                                None => None,
                            },
                        ),
                    )
                }
            },
            _ => None,
        }
    }
}

/// Whether `p` is a prefix of `s`.
pub fn starts_with(s: &[char], p: &[char]) -> (r: bool)
    ensures
        r == p@.is_prefix_of(s@),
{
    if p.len() > s.len() {
        return false;
    }
    let mut i: usize = 0;
    while i < p.len()
        invariant
            i <= p@.len() <= s@.len(),
            forall|j: int| 0 <= j < i ==> p@[j] == s@[j],
        decreases p@.len() - i,
    {
        if p[i] != s[i] {
            assert(p@[i as int] != s@.subrange(0, p@.len() as int)[i as int]);
            return false;
        }
        i = i + 1;
    }
    assert(p@ =~= s@.subrange(0, p@.len() as int));
    true
}

/// Whether some line of `text` starts with `prefix`.
pub fn any_line_starts_with(text: &[char], prefix: &[char]) -> (r: bool)
    ensures
        r == has_line_starting(text@, prefix@),
{
    let ls = split_lines(text);
    let ghost all = ls@.map_values(|x: Vec<char>| x@);
    let mut i: usize = 0;
    while i < ls.len()
        invariant
            i <= ls@.len(),
            all == ls@.map_values(|x: Vec<char>| x@),
            all == lines(text@),
            forall|j: int| 0 <= j < i ==> !prefix@.is_prefix_of(#[trigger] all[j]),
        decreases ls@.len() - i,
    {
        assert(all[i as int] == ls@[i as int]@);
        if starts_with(ls[i].as_slice(), prefix) {
            return true;
        }
        i = i + 1;
    }
    false
}

/// Add a device to the contacts file's text, refusing a bad name or key or
/// a device already listed under that name.
pub fn add_contact_text(existing: &str, name: &str, signing: &str, ecdh: &str, hybrid: Option<&str>) -> (r: Result<String, StoreError>)
    ensures
        match with_contact(
            existing@,
            name@,
            signing@,
            ecdh@,
            match hybrid {
                Some(h) => Some(h@),
                None => None,
            },
        ) {
            Some(t) => r matches Ok(s) && s@ == t,
            None => r matches Err(e) && e is Invalid,
        },
{
    let name_chars = chars_of(name);
    if name_chars.len() == 0 || crate::text::contains_whitespace(name_chars.as_slice()) {
        return Err(StoreError::Invalid(String::from_str("contact name must be non-empty and have no whitespace")));
    }
    let signing_key = hex32(signing)?;
    let ecdh_key = hex32(ecdh)?;
    let hybrid_key: Option<Vec<u8>> = match hybrid {
        Some(h) => match hexcode::decode(h) {
            Ok(b) => Some(b),
            Err(_) => {
                return Err(StoreError::Invalid(String::from_str("hybrid hex")));
            },
        },
        None => None,
    };
    let mut prefix = String::from_str(name);
    prefix.append(" ");
    prefix.append(hexcode::encode(signing_key.as_slice()).as_str());
    prefix.append(" ");
    prefix.append(hexcode::encode(ecdh_key.as_slice()).as_str());
    prefix.append(" ");
    proof {
        reveal_strlit(" ");
    }
    assert(prefix@ =~= device_prefix(name@, signing_key@, ecdh_key@));
    let existing_chars = chars_of(existing);
    let prefix_chars = chars_of(prefix.as_str());
    if any_line_starts_with(existing_chars.as_slice(), prefix_chars.as_slice()) {
        return Err(StoreError::Invalid(String::from_str("contact already has this device")));
    }
    let mut out = String::from_str(existing);
    out.append(prefix.as_str());
    match &hybrid_key {
        Some(h) => out.append(hexcode::encode(h.as_slice()).as_str()),
        None => out.append("-"),
    }
    out.append("\n");
    proof {
        reveal_strlit("-");
        reveal_strlit("\n");
    }
    assert(out@ =~= existing@ + device_record(
        name@,
        signing_key@,
        ecdh_key@,
        match hybrid_key {
            Some(h) => Some(h@),
            None => None,
        },
    ));
    Ok(out)
}

} // verus!

verus! {

/// Line `n` of a file, or nothing when it has fewer lines.
pub open spec fn nth_line(text: Seq<char>, n: int) -> Seq<char> {
    if 0 <= n < lines(text).len() {
        lines(text)[n]
    } else {
        Seq::empty()
    }
}

/// The two 32-byte keys of a key file: hex on its first and second lines.
pub open spec fn key_pair_of(text: Seq<char>) -> Option<(Seq<u8>, Seq<u8>)> {
    match (hex_exact(nth_line(text, 0), 32), hex_exact(nth_line(text, 1), 32)) {
        (Some(a), Some(b)) => Some((a, b)),
        _ => None,
    }
}

/// The text of a key file holding two 32-byte keys.
pub open spec fn key_pair_file(a: Seq<u8>, b: Seq<u8>) -> Seq<char> {
    hex_text(a) + seq!['\n'] + hex_text(b) + seq!['\n']
}

/// Read a key file of two 32-byte keys (an identity's signing and ECDH
/// secrets), one hex line each.
pub fn parse_key_pair(text: &str) -> (r: Result<([u8; 32], [u8; 32]), StoreError>)
    ensures
        match key_pair_of(text@) {
            Some((a, b)) => r matches Ok((x, y)) && x@ == a && y@ == b,
            None => r matches Err(e) && e is Invalid,
        },
{
    let chars = chars_of(text);
    let ls = split_lines(chars.as_slice());
    let ghost all = ls@.map_values(|x: Vec<char>| x@);
    let empty: Vec<char> = Vec::new();
    let first: &[char] = if ls.len() > 0 {
        ls[0].as_slice()
    } else {
        empty.as_slice()
    };
    let second: &[char] = if ls.len() > 1 {
        ls[1].as_slice()
    } else {
        empty.as_slice()
    };
    assert(first@ == nth_line(text@, 0));
    assert(second@ == nth_line(text@, 1));
    let a = hex_array::<32>(first)?;
    let b = hex_array::<32>(second)?;
    Ok((a, b))
}

/// Write a key file of two 32-byte keys.
pub fn key_pair_text(a: &[u8; 32], b: &[u8; 32]) -> (r: String)
    ensures
        r@ == key_pair_file(a@, b@),
{
    let mut out = hexcode::encode(a.as_slice());
    out.append("\n");
    out.append(hexcode::encode(b.as_slice()).as_str());
    out.append("\n");
    proof {
        reveal_strlit("\n");
    }
    assert(out@ =~= key_pair_file(a@, b@));
    out
}

/// Read a key file holding one key of `N` bytes in hex.
pub fn parse_key<const N: usize>(text: &str) -> (r: Result<[u8; N], StoreError>)
    ensures
        match hex_exact(text@, N as nat) {
            Some(b) => r matches Ok(a) && a@ == b,
            None => r matches Err(e) && e is Invalid,
        },
{
    let chars = chars_of(text);
    hex_array::<N>(chars.as_slice())
}

} // verus!

verus! {

/// Hex of a key, trimmed, is that key again.
proof fn lemma_hex_exact_of_text(data: Seq<u8>)
    ensures
        hex_exact(hex_text(data), data.len()) == Some(data),
{
    crate::hexcode::lemma_hex_roundtrip(data);
    crate::text::lemma_trim_plain(hex_text(data));
}

/// A key file written for two keys reads back as those two keys.
pub proof fn lemma_key_pair_roundtrip(a: Seq<u8>, b: Seq<u8>)
    requires
        a.len() == 32,
        b.len() == 32,
    ensures
        key_pair_of(key_pair_file(a, b)) == Some((a, b)),
{
    crate::hexcode::lemma_hex_roundtrip(a);
    crate::hexcode::lemma_hex_roundtrip(b);
    crate::text::lemma_two_lines(hex_text(a), hex_text(b));
    lemma_hex_exact_of_text(a);
    lemma_hex_exact_of_text(b);
    let f = key_pair_file(a, b);
    assert(lines(f) == seq![hex_text(a), hex_text(b)]);
    assert(nth_line(f, 0) == hex_text(a));
    assert(nth_line(f, 1) == hex_text(b));
}

} // verus!

verus! {

/// The `u64` a word holds, as `u64::from_str` reads it.
pub open spec fn u64_of(w: Seq<char>) -> Option<u64> {
    match uint_text(w) {
        Some(v) => if v <= u64::MAX {
            Some(v as u64)
        } else {
            None
        },
        None => None,
    }
}

/// What a line of the anchors file records.
pub ghost struct ReceiptFields {
    pub tree_size: u64,
    pub root: Seq<u8>,
    pub anchored_at: u64,
    pub previous: Seq<u8>,
    pub link: Seq<u8>,
}

/// The recorded fields of a receipt.
pub open spec fn fields_of(r: AnchorReceipt) -> ReceiptFields {
    ReceiptFields {
        tree_size: r.tree_size,
        root: r.root@,
        anchored_at: r.anchored_at,
        previous: r.previous@,
        link: r.link@,
    }
}

/// What one line of the anchors file holds: `size root time previous
/// link`, the size and time in decimal and the hashes in hex.
pub open spec fn receipt_line(w: Seq<Seq<char>>) -> Line<ReceiptFields> {
    if w.len() < 5 {
        Line::Skip
    } else {
        match (u64_of(w[0]), hex_exact(w[1], 32), u64_of(w[2]), hex_exact(w[3], 32), hex_exact(w[4], 32)) {
            (Some(size), Some(root), Some(time), Some(previous), Some(link)) => Line::Record(
                ReceiptFields { tree_size: size, root, anchored_at: time, previous, link },
            ),
            _ => Line::Bad,
        }
    }
}

/// The receipts that a list of lines records; `None` when a line is bad.
pub open spec fn receipts_of(ls: Seq<Seq<char>>) -> Option<Seq<ReceiptFields>>
    decreases ls.len(),
{
    if ls.len() == 0 {
        Some(Seq::empty())
    } else {
        match receipt_line(words(ls[0])) {
            Line::Skip => receipts_of(ls.drop_first()),
            Line::Bad => None,
            Line::Record(f) => match receipts_of(ls.drop_first()) {
                Some(rest) => Some(seq![f] + rest),
                None => None,
            },
        }
    }
}

/// The recorded fields of a list of receipts.
pub open spec fn receipt_fields(rs: Seq<AnchorReceipt>) -> Seq<ReceiptFields> {
    rs.map_values(|r: AnchorReceipt| fields_of(r))
}

fn parse_receipt_line(line: &[char]) -> (r: Option<Result<AnchorReceipt, StoreError>>)
    ensures
        match receipt_line(words(line@)) {
            Line::Skip => r is None,
            Line::Bad => r matches Some(Err(e)) && e is Invalid,
            Line::Record(f) => r matches Some(Ok(x)) && fields_of(x) == f && x.anchor@ == LOCAL_HASHCHAIN@,
        },
{
    let w = split_words(line);
    let ghost ws = w@.map_values(|x: Vec<char>| x@);
    assert(ws.len() == w@.len());
    if w.len() < 5 {
        return None;
    }
    assert(ws[0] == w@[0]@ && ws[1] == w@[1]@ && ws[2] == w@[2]@ && ws[3] == w@[3]@ && ws[4] == w@[4]@);
    let tree_size = match parse_u64(w[0].as_slice()) {
        Some(v) => v,
        None => {
            return Some(Err(StoreError::Invalid(String::from_str("anchor tree size"))));
        },
    };
    let root = match hex_array::<32>(w[1].as_slice()) {
        Ok(a) => a,
        Err(e) => {
            return Some(Err(e));
        },
    };
    let anchored_at = match parse_u64(w[2].as_slice()) {
        Some(v) => v,
        None => {
            return Some(Err(StoreError::Invalid(String::from_str("anchor timestamp"))));
        },
    };
    let previous = match hex_array::<32>(w[3].as_slice()) {
        Ok(a) => a,
        Err(e) => {
            return Some(Err(e));
        },
    };
    let link = match hex_array::<32>(w[4].as_slice()) {
        Ok(a) => a,
        Err(e) => {
            return Some(Err(e));
        },
    };
    let r = AnchorReceipt { anchor: String::from_str(LOCAL_HASHCHAIN), tree_size, root, anchored_at, previous, link };
    Some(Ok(r))
}

/// Parse the anchors file: one receipt per line; lines with fewer than five
/// words are skipped, a bad field is an error. Every receipt names the
/// local hash chain.
pub fn parse_receipts(text: &str) -> (r: Result<Vec<AnchorReceipt>, StoreError>)
    ensures
        match receipts_of(lines(text@)) {
            Some(fs) => r matches Ok(v) && receipt_fields(v@) == fs && forall|i: int|
                0 <= i < v@.len() ==> (#[trigger] v@[i]).anchor@ == LOCAL_HASHCHAIN@,
            None => r matches Err(e) && e is Invalid,
        },
{
    let chars = chars_of(text);
    let ls = split_lines(chars.as_slice());
    let ghost all = ls@.map_values(|x: Vec<char>| x@);
    let mut out: Vec<AnchorReceipt> = Vec::new();
    let mut i: usize = 0;
    assert(all.skip(0) =~= all);
    proof {
        let fv = receipt_fields(out@);
        assert(fv =~= Seq::<ReceiptFields>::empty());
        if let Some(rest) = receipts_of(all) {
            assert(fv + rest =~= rest);
        }
    }
    while i < ls.len()
        invariant
            i <= ls@.len(),
            all == ls@.map_values(|x: Vec<char>| x@),
            all == lines(text@),
            receipts_of(all) == match receipts_of(all.skip(i as int)) {
                Some(rest) => Some(receipt_fields(out@) + rest),
                None => None,
            },
            forall|k: int| 0 <= k < out@.len() ==> (#[trigger] out@[k]).anchor@ == LOCAL_HASHCHAIN@,
        decreases ls@.len() - i,
    {
        let ghost tail = all.skip(i as int);
        assert(tail.drop_first() =~= all.skip(i + 1));
        assert(tail[0] == ls@[i as int]@);
        let ghost before = receipt_fields(out@);
        match parse_receipt_line(ls[i].as_slice()) {
            None => {},
            Some(Err(e)) => {
                return Err(e);
            },
            Some(Ok(rec)) => {
                let ghost fv = fields_of(rec);
                out.push(rec);
                proof {
                    assert(receipt_fields(out@) =~= before.push(fv));
                    if let Some(rest) = receipts_of(all.skip(i + 1)) {
                        assert(before + (seq![fv] + rest) =~= before.push(fv) + rest);
                    }
                }
            },
        }
        i = i + 1;
    }
    assert(all.skip(i as int) =~= Seq::<Seq<char>>::empty());
    assert(receipt_fields(out@) + Seq::<ReceiptFields>::empty() =~= receipt_fields(out@));
    Ok(out)
}

/// One line of the anchors file.
pub open spec fn receipt_record(f: ReceiptFields) -> Seq<char> {
    decimal(f.tree_size as nat) + seq![' '] + hex_text(f.root) + seq![' '] + decimal(f.anchored_at as nat)
        + seq![' '] + hex_text(f.previous) + seq![' '] + hex_text(f.link) + seq!['\n']
}

/// The anchors file for a list of receipts: one line each, in order.
pub open spec fn receipts_file(fs: Seq<ReceiptFields>) -> Seq<char>
    decreases fs.len(),
{
    if fs.len() == 0 {
        Seq::empty()
    } else {
        receipts_file(fs.drop_last()) + receipt_record(fs.last())
    }
}

/// Write the anchors file.
pub fn receipts_text(receipts: &[AnchorReceipt]) -> (r: String)
    ensures
        r@ == receipts_file(receipt_fields(receipts@)),
{
    let mut out = String::new();
    let mut i: usize = 0;
    proof {
        reveal_strlit(" ");
        reveal_strlit("\n");
        assert(receipt_fields(receipts@).take(0) =~= Seq::<ReceiptFields>::empty());
    }
    while i < receipts.len()
        invariant
            i <= receipts@.len(),
            out@ == receipts_file(receipt_fields(receipts@).take(i as int)),
            " "@ == seq![' '],
            "\n"@ == seq!['\n'],
        decreases receipts@.len() - i,
    {
        let r = &receipts[i];
        out.append(decimal_text(r.tree_size).as_str());
        out.append(" ");
        out.append(hexcode::encode(r.root.as_slice()).as_str());
        out.append(" ");
        out.append(decimal_text(r.anchored_at).as_str());
        out.append(" ");
        out.append(hexcode::encode(r.previous.as_slice()).as_str());
        out.append(" ");
        out.append(hexcode::encode(r.link.as_slice()).as_str());
        out.append("\n");
        proof {
            let fs = receipt_fields(receipts@);
            assert(fs.take(i + 1).drop_last() =~= fs.take(i as int));
            assert(fs.take(i + 1).last() == fields_of(*r));
        }
        i = i + 1;
    }
    assert(receipt_fields(receipts@).take(i as int) =~= receipt_fields(receipts@));
    out
}

} // verus!

verus! {

/// The contacts file after appending a device line without checking the
/// name or looking for the device: `None` when a key is not hex of the
/// right length.
pub open spec fn with_device_line(
    existing: Seq<char>,
    name: Seq<char>,
    signing: Seq<char>,
    ecdh: Seq<char>,
    hybrid: Option<Seq<char>>,
) -> Option<Seq<char>> {
    match (hex_exact(signing, 32), hex_exact(ecdh, 32)) {
        (Some(s), Some(e)) => {
            if hybrid matches Some(h) && !is_hex(h) {
                None
            } else {
                Some(
                    existing + device_record(
                        name,
                        s,
                        e,
                        match hybrid {
                            Some(h) => Some(hex_bytes(h)),
                            None => None,
                        },
                    ),
                )
            }
        },
        _ => None,
    }
}

/// Append a device line to the contacts file's text (the daemon's form:
/// keys are checked, the name and duplicates are not).
pub fn append_contact_text(existing: &str, name: &str, signing: &str, ecdh: &str, hybrid: Option<&str>) -> (r: Result<String, StoreError>)
    ensures
        match with_device_line(
            existing@,
            name@,
            signing@,
            ecdh@,
            match hybrid {
                Some(h) => Some(h@),
                None => None,
            },
        ) {
            Some(t) => r matches Ok(s) && s@ == t,
            None => r matches Err(e) && e is Invalid,
        },
{
    let signing_key = hex32(signing)?;
    let ecdh_key = hex32(ecdh)?;
    let hybrid_key: Option<Vec<u8>> = match hybrid {
        Some(h) => match hexcode::decode(h) {
            Ok(b) => Some(b),
            Err(_) => {
                return Err(StoreError::Invalid(String::from_str("hybrid hex")));
            },
        },
        None => None,
    };
    let mut out = String::from_str(existing);
    out.append(name);
    out.append(" ");
    out.append(hexcode::encode(signing_key.as_slice()).as_str());
    out.append(" ");
    out.append(hexcode::encode(ecdh_key.as_slice()).as_str());
    out.append(" ");
    match &hybrid_key {
        Some(h) => out.append(hexcode::encode(h.as_slice()).as_str()),
        None => out.append("-"),
    }
    out.append("\n");
    proof {
        reveal_strlit(" ");
        reveal_strlit("-");
        reveal_strlit("\n");
    }
    assert(out@ =~= existing@ + device_record(
        name@,
        signing_key@,
        ecdh_key@,
        match hybrid_key {
            Some(h) => Some(h@),
            None => None,
        },
    ));
    Ok(out)
}

} // verus!

verus! {

/// The contacts of lines with one more line at the end.
pub proof fn lemma_contacts_push(ls: Seq<Seq<char>>, l: Seq<char>)
    ensures
        contacts_of(ls.push(l)) == match contacts_of(ls) {
            Some(cs) => match contact_line(words(l)) {
                Line::Skip => Some(cs),
                Line::Bad => None,
                Line::Record(c) => Some(cs.push(c)),
            },
            None => None,
        },
    decreases ls.len(),
{
    let a = ls.push(l);
    if ls.len() == 0 {
        assert(a.drop_first() =~= Seq::<Seq<char>>::empty());
        assert(a[0] == l);
        assert(contacts_of(a.drop_first()) == Some(Seq::<ContactView>::empty()));
        assert(contacts_of(ls) == Some(Seq::<ContactView>::empty()));
        match contact_line(words(l)) {
            Line::Skip => {},
            Line::Bad => {},
            Line::Record(c) => {
                assert(seq![c] + Seq::<ContactView>::empty() =~= Seq::<ContactView>::empty().push(c));
            },
        }
    } else {
        lemma_contacts_push(ls.drop_first(), l);
        assert(a.drop_first() =~= ls.drop_first().push(l));
        assert(a[0] == ls[0]);
        match contact_line(words(ls[0])) {
            Line::Skip => {},
            Line::Bad => {},
            Line::Record(c) => {
                match contacts_of(ls.drop_first()) {
                    Some(rest) => {
                        match contact_line(words(l)) {
                            Line::Skip => {},
                            Line::Bad => {},
                            Line::Record(d) => {
                                assert(seq![c] + rest.push(d) =~= (seq![c] + rest).push(d));
                            },
                        }
                    },
                    None => {},
                }
            },
        }
    }
}

/// The word for a hybrid key in a device line.
pub open spec fn hybrid_word(hybrid: Option<Seq<u8>>) -> Seq<char> {
    match hybrid {
        Some(h) => hex_text(h),
        None => seq!['-'],
    }
}

/// The words of a device line.
pub open spec fn device_words(name: Seq<char>, s: Seq<u8>, e: Seq<u8>, hybrid: Option<Seq<u8>>) -> Seq<Seq<char>> {
    seq![name, hex_text(s), hex_text(e), hybrid_word(hybrid)]
}

proof fn lemma_device_words_plain(name: Seq<char>, s: Seq<u8>, e: Seq<u8>, hybrid: Option<Seq<u8>>)
    requires
        name.len() > 0,
        !crate::text::has_ws(name),
        s.len() == 32,
        e.len() == 32,
        hybrid matches Some(h) ==> h.len() > 0,
    ensures
        forall|k: int, i: int|
            0 <= k < device_words(name, s, e, hybrid).len() && 0 <= i < device_words(name, s, e, hybrid)[k].len()
                ==> !is_ws(#[trigger] device_words(name, s, e, hybrid)[k][i]),
        forall|k: int| 0 <= k < device_words(name, s, e, hybrid).len() ==> (#[trigger] device_words(name, s, e, hybrid)[k]).len() > 0,
{
    let ws = device_words(name, s, e, hybrid);
    let ht = hybrid_word(hybrid);
    crate::hexcode::lemma_hex_roundtrip(s);
    crate::hexcode::lemma_hex_roundtrip(e);
    if let Some(h) = hybrid {
        crate::hexcode::lemma_hex_roundtrip(h);
    }
    assert forall|k: int, i: int| 0 <= k < ws.len() && 0 <= i < ws[k].len() implies !is_ws(#[trigger] ws[k][i]) by {
        if k == 0 {
            assert(ws[0] == name);
        } else if k == 1 {
            assert(ws[1] == hex_text(s));
        } else if k == 2 {
            assert(ws[2] == hex_text(e));
        } else {
            assert(ws[3] == ht);
            if let Some(h) = hybrid {
                assert(ht[i] == hex_text(h)[i]);
            } else {
                assert(ht[i] == '-');
            }
        }
    }
    assert forall|k: int| 0 <= k < ws.len() implies (#[trigger] ws[k]).len() > 0 by {
        if k == 3 {
            if let Some(h) = hybrid {
                assert(hex_text(h).len() == 2 * h.len());
            }
        }
    }
}

proof fn lemma_device_line(name: Seq<char>, s: Seq<u8>, e: Seq<u8>, hybrid: Option<Seq<u8>>)
    requires
        name.len() > 0,
        !crate::text::has_ws(name),
        s.len() == 32,
        e.len() == 32,
        hybrid matches Some(h) ==> h.len() > 0,
    ensures
        device_record(name, s, e, hybrid) == spaced(device_words(name, s, e, hybrid)) + seq!['\n'],
        words(spaced(device_words(name, s, e, hybrid))) == device_words(name, s, e, hybrid),
        forall|i: int|
            0 <= i < spaced(device_words(name, s, e, hybrid)).len() ==> #[trigger] spaced(
                device_words(name, s, e, hybrid),
            )[i] != '\n',
        spaced(device_words(name, s, e, hybrid)).last() != '\r',
{
    let ws = device_words(name, s, e, hybrid);
    lemma_device_words_plain(name, s, e, hybrid);
    crate::text::lemma_words_spaced(ws);
    crate::text::lemma_spaced_chars(ws);
    let line = spaced(ws);
    assert(line =~= name + seq![' '] + hex_text(s) + seq![' '] + hex_text(e) + seq![' '] + hybrid_word(hybrid)) by {
        reveal_with_fuel(spaced, 4);
        assert(ws.drop_last().drop_last().drop_last() =~= seq![name]);
        assert(ws.drop_last().drop_last() =~= seq![name, hex_text(s)]);
        assert(ws.drop_last() =~= seq![name, hex_text(s), hex_text(e)]);
    }
    assert(device_record(name, s, e, hybrid) =~= line + seq!['\n']);
    assert forall|i: int| 0 <= i < line.len() implies #[trigger] line[i] != '\n' by {
        assert(line[i] == ' ' || !is_ws(line[i]));
    }
    assert(line[line.len() - 1] == ' ' || !is_ws(line[line.len() - 1]));
    assert(ws[3].len() > 0);
    assert(line.last() == ws[3].last());
    assert(!is_ws(ws[3][ws[3].len() - 1]));
}

proof fn lemma_device_contact(name: Seq<char>, s: Seq<u8>, e: Seq<u8>, hybrid: Option<Seq<u8>>)
    requires
        s.len() == 32,
        e.len() == 32,
        hybrid matches Some(h) ==> h.len() > 0,
    ensures
        contact_line(device_words(name, s, e, hybrid)) == Line::Record(ContactView { name, signing: s, ecdh: e, hybrid }),
{
    let ws = device_words(name, s, e, hybrid);
    lemma_hex_exact_of_text(s);
    lemma_hex_exact_of_text(e);
    if let Some(h) = hybrid {
        crate::hexcode::lemma_hex_roundtrip(h);
        assert(hex_text(h)[0] != '-') by {
            assert(hex_value(hex_text(h)[0]) is Some);
        }
        assert(!is_dash(ws[3]));
    } else {
        assert(is_dash(ws[3]));
    }
}

/// A device line appended to a contacts file that ends a line reads back as
/// one more contact with those keys, provided the name is a single word and
/// a hybrid key, if any, is not empty.
pub proof fn lemma_device_record_reads_back(existing: Seq<char>, name: Seq<char>, s: Seq<u8>, e: Seq<u8>, hybrid: Option<Seq<u8>>)
    requires
        existing.len() == 0 || existing.last() == '\n',
        name.len() > 0,
        !crate::text::has_ws(name),
        s.len() == 32,
        e.len() == 32,
        hybrid matches Some(h) ==> h.len() > 0,
    ensures
        contacts_of(lines(existing + device_record(name, s, e, hybrid))) == match contacts_of(lines(existing)) {
            Some(cs) => Some(cs.push(ContactView { name, signing: s, ecdh: e, hybrid })),
            None => None,
        },
{
    let line = spaced(device_words(name, s, e, hybrid));
    lemma_device_line(name, s, e, hybrid);
    lemma_device_contact(name, s, e, hybrid);
    crate::text::lemma_lines_append(existing, line);
    assert(existing + device_record(name, s, e, hybrid) =~= existing + line + seq!['\n']);
    lemma_contacts_push(lines(existing), line);
}

/// A contact added to a contacts file that ends a line is read back as the
/// file's contacts followed by the new one (with a non-empty hybrid key, if
/// any).
pub proof fn lemma_contact_roundtrip(existing: Seq<char>, name: Seq<char>, signing: Seq<char>, ecdh: Seq<char>, hybrid: Option<Seq<char>>)
    requires
        existing.len() == 0 || existing.last() == '\n',
        with_contact(existing, name, signing, ecdh, hybrid) is Some,
        hybrid matches Some(h) ==> h.len() > 0,
    ensures
        contacts_of(lines(with_contact(existing, name, signing, ecdh, hybrid).unwrap())) == match contacts_of(
            lines(existing),
        ) {
            Some(cs) => Some(
                cs.push(
                    ContactView {
                        name,
                        signing: hex_exact(signing, 32).unwrap(),
                        ecdh: hex_exact(ecdh, 32).unwrap(),
                        hybrid: match hybrid {
                            Some(h) => Some(hex_bytes(h)),
                            None => None,
                        },
                    },
                ),
            ),
            None => None,
        },
{
    let hb = match hybrid {
        Some(h) => Some(hex_bytes(h)),
        None => None,
    };
    if let Some(h) = hybrid {
        assert(is_hex(h));
        assert(hex_bytes(h).len() == h.len() / 2);
    }
    lemma_device_record_reads_back(existing, name, hex_exact(signing, 32).unwrap(), hex_exact(ecdh, 32).unwrap(), hb);
}

} // verus!

verus! {

/// A device line appended by the daemon's form reads back as one more
/// contact, when the name is a single word and a hybrid key, if any, is not
/// empty.
pub proof fn lemma_device_line_roundtrip(existing: Seq<char>, name: Seq<char>, signing: Seq<char>, ecdh: Seq<char>, hybrid: Option<Seq<char>>)
    requires
        existing.len() == 0 || existing.last() == '\n',
        with_device_line(existing, name, signing, ecdh, hybrid) is Some,
        name.len() > 0,
        !crate::text::has_ws(name),
        hybrid matches Some(h) ==> h.len() > 0,
    ensures
        contacts_of(lines(with_device_line(existing, name, signing, ecdh, hybrid).unwrap())) == match contacts_of(
            lines(existing),
        ) {
            Some(cs) => Some(
                cs.push(
                    ContactView {
                        name,
                        signing: hex_exact(signing, 32).unwrap(),
                        ecdh: hex_exact(ecdh, 32).unwrap(),
                        hybrid: match hybrid {
                            Some(h) => Some(hex_bytes(h)),
                            None => None,
                        },
                    },
                ),
            ),
            None => None,
        },
{
    let hb = match hybrid {
        Some(h) => Some(hex_bytes(h)),
        None => None,
    };
    if let Some(h) = hybrid {
        assert(is_hex(h));
        assert(hex_bytes(h).len() == h.len() / 2);
    }
    lemma_device_record_reads_back(existing, name, hex_exact(signing, 32).unwrap(), hex_exact(ecdh, 32).unwrap(), hb);
}

/// The receipts of lines with one more line at the end.
pub proof fn lemma_receipts_push(ls: Seq<Seq<char>>, l: Seq<char>)
    ensures
        receipts_of(ls.push(l)) == match receipts_of(ls) {
            Some(fs) => match receipt_line(words(l)) {
                Line::Skip => Some(fs),
                Line::Bad => None,
                Line::Record(f) => Some(fs.push(f)),
            },
            None => None,
        },
    decreases ls.len(),
{
    let a = ls.push(l);
    if ls.len() == 0 {
        assert(a.drop_first() =~= Seq::<Seq<char>>::empty());
        assert(a[0] == l);
        assert(receipts_of(a.drop_first()) == Some(Seq::<ReceiptFields>::empty()));
        assert(receipts_of(ls) == Some(Seq::<ReceiptFields>::empty()));
        match receipt_line(words(l)) {
            Line::Skip => {},
            Line::Bad => {},
            Line::Record(f) => {
                assert(seq![f] + Seq::<ReceiptFields>::empty() =~= Seq::<ReceiptFields>::empty().push(f));
            },
        }
    } else {
        lemma_receipts_push(ls.drop_first(), l);
        assert(a.drop_first() =~= ls.drop_first().push(l));
        assert(a[0] == ls[0]);
        match receipt_line(words(ls[0])) {
            Line::Skip => {},
            Line::Bad => {},
            Line::Record(f) => {
                match receipts_of(ls.drop_first()) {
                    Some(rest) => {
                        match receipt_line(words(l)) {
                            Line::Skip => {},
                            Line::Bad => {},
                            Line::Record(g) => {
                                assert(seq![f] + rest.push(g) =~= (seq![f] + rest).push(g));
                            },
                        }
                    },
                    None => {},
                }
            },
        }
    }
}

/// The words of a receipt line.
pub open spec fn receipt_words(f: ReceiptFields) -> Seq<Seq<char>> {
    seq![
        decimal(f.tree_size as nat),
        hex_text(f.root),
        decimal(f.anchored_at as nat),
        hex_text(f.previous),
        hex_text(f.link),
    ]
}

/// Whether a receipt's hashes have the recorded length.
pub open spec fn receipt_fields_wf(f: ReceiptFields) -> bool {
    f.root.len() == 32 && f.previous.len() == 32 && f.link.len() == 32
}

proof fn lemma_receipt_words_plain(f: ReceiptFields)
    requires
        receipt_fields_wf(f),
    ensures
        forall|k: int, i: int|
            0 <= k < receipt_words(f).len() && 0 <= i < receipt_words(f)[k].len() ==> !is_ws(#[trigger] receipt_words(f)[k][i]),
        forall|k: int| 0 <= k < receipt_words(f).len() ==> (#[trigger] receipt_words(f)[k]).len() > 0,
{
    let ws = receipt_words(f);
    crate::text::lemma_decimal_reads_back(f.tree_size as nat);
    crate::text::lemma_decimal_reads_back(f.anchored_at as nat);
    crate::hexcode::lemma_hex_roundtrip(f.root);
    crate::hexcode::lemma_hex_roundtrip(f.previous);
    crate::hexcode::lemma_hex_roundtrip(f.link);
    assert forall|k: int, i: int| 0 <= k < ws.len() && 0 <= i < ws[k].len() implies !is_ws(#[trigger] ws[k][i]) by {
        if k == 0 {
            assert(ws[0] == decimal(f.tree_size as nat));
        } else if k == 1 {
            assert(ws[1] == hex_text(f.root));
        } else if k == 2 {
            assert(ws[2] == decimal(f.anchored_at as nat));
        } else if k == 3 {
            assert(ws[3] == hex_text(f.previous));
        } else {
            assert(ws[4] == hex_text(f.link));
        }
    }
}

#[verifier::spinoff_prover]
proof fn lemma_receipt_spaced(f: ReceiptFields)
    requires
        receipt_fields_wf(f),
    ensures
        receipt_record(f) == spaced(receipt_words(f)) + seq!['\n'],
        words(spaced(receipt_words(f))) == receipt_words(f),
        forall|i: int| 0 <= i < spaced(receipt_words(f)).len() ==> #[trigger] spaced(receipt_words(f))[i] != '\n',
        spaced(receipt_words(f)).last() != '\r',
{
    let ws = receipt_words(f);
    lemma_receipt_words_plain(f);
    crate::text::lemma_words_spaced(ws);
    crate::text::lemma_spaced_chars(ws);
    let line = spaced(ws);
    assert(line =~= ws[0] + seq![' '] + ws[1] + seq![' '] + ws[2] + seq![' '] + ws[3] + seq![' '] + ws[4]) by {
        reveal_with_fuel(spaced, 5);
        assert(ws.drop_last().drop_last().drop_last().drop_last() =~= seq![ws[0]]);
        assert(ws.drop_last().drop_last().drop_last() =~= seq![ws[0], ws[1]]);
        assert(ws.drop_last().drop_last() =~= seq![ws[0], ws[1], ws[2]]);
        assert(ws.drop_last() =~= seq![ws[0], ws[1], ws[2], ws[3]]);
    }
    assert(receipt_record(f) =~= line + seq!['\n']);
    assert forall|i: int| 0 <= i < line.len() implies #[trigger] line[i] != '\n' by {
        assert(line[i] == ' ' || !is_ws(line[i]));
    }
    assert(line[line.len() - 1] == ' ' || !is_ws(line[line.len() - 1]));
    assert(ws[4].len() > 0);
    assert(line.last() == ws[4].last());
    assert(!is_ws(ws[4][ws[4].len() - 1]));
}

proof fn lemma_receipt_record(f: ReceiptFields)
    requires
        receipt_fields_wf(f),
    ensures
        receipt_line(receipt_words(f)) == Line::Record(f),
{
    let ws = receipt_words(f);
    crate::text::lemma_decimal_reads_back(f.tree_size as nat);
    crate::text::lemma_decimal_reads_back(f.anchored_at as nat);
    lemma_hex_exact_of_text(f.root);
    lemma_hex_exact_of_text(f.previous);
    lemma_hex_exact_of_text(f.link);
    assert(u64_of(ws[0]) == Some(f.tree_size));
    assert(u64_of(ws[2]) == Some(f.anchored_at));
}

proof fn lemma_receipt_line(f: ReceiptFields)
    requires
        receipt_fields_wf(f),
    ensures
        receipt_record(f) == spaced(receipt_words(f)) + seq!['\n'],
        receipt_line(words(spaced(receipt_words(f)))) == Line::Record(f),
        forall|i: int| 0 <= i < spaced(receipt_words(f)).len() ==> #[trigger] spaced(receipt_words(f))[i] != '\n',
        spaced(receipt_words(f)).last() != '\r',
{
    lemma_receipt_spaced(f);
    lemma_receipt_record(f);
}

/// The anchors file written for some receipts reads back as those receipts.
pub proof fn lemma_receipts_roundtrip(fs: Seq<ReceiptFields>)
    requires
        forall|i: int| 0 <= i < fs.len() ==> receipt_fields_wf(#[trigger] fs[i]),
    ensures
        receipts_of(lines(receipts_file(fs))) == Some(fs),
    decreases fs.len(),
{
    if fs.len() == 0 {
        assert(lines(receipts_file(fs)) =~= Seq::<Seq<char>>::empty()) by {
            assert(receipts_file(fs) == Seq::<char>::empty());
            crate::text::lemma_lines_closed(Seq::<char>::empty());
        }
    } else {
        let init = fs.drop_last();
        let f = fs.last();
        assert forall|i: int| 0 <= i < init.len() implies receipt_fields_wf(#[trigger] init[i]) by {
            assert(init[i] == fs[i]);
        }
        lemma_receipts_roundtrip(init);
        assert(receipt_fields_wf(fs[fs.len() - 1]));
        lemma_receipt_line(f);
        let pre = receipts_file(init);
        let line = spaced(receipt_words(f));
        assert(pre.len() == 0 || pre.last() == '\n') by {
            if init.len() > 0 {
                lemma_receipt_line(init.last());
                assert(init.last() == fs[init.len() - 1]);
                assert(receipts_file(init) == receipts_file(init.drop_last()) + receipt_record(init.last()));
            }
        }
        crate::text::lemma_lines_append(pre, line);
        assert(receipts_file(fs) =~= pre + line + seq!['\n']);
        lemma_receipts_push(lines(pre), line);
        assert(init.push(f) =~= fs);
    }
}

} // verus!
