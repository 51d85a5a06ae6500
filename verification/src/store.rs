//! The data-directory logic shared by the command line and the browser
//! client daemon: the log file format, contacts, recipient selection, drop
//! assembly and opening, and log verification. Reading and writing the
//! files happens outside the library.
use vstd::prelude::*;
use vstd::string::*;
use rand::seq::SliceRandom;
use crate::bytes::{be_u32, lemma_u32_be_roundtrip, push_all, push_u32_be, read_u32_be, to_array, to_vec, u32_from_be};
use crate::error::{CoreError, CryptoError, LogError};
use crate::hash::{sha256, sha256_spec};
use crate::hybrid::{HybridPublic, KEM_PUBLIC_LEN};
use crate::keys::{ed25519_public_spec, ed25519_verify_spec, Identity};
use crate::merkle::{
    hash_seq, inclusion_holds, inclusion_proof, leaf_hash, leaf_hash_spec, lemma_inclusion_complete,
    mth, mth_spec, path_spec, verify_inclusion,
};
use crate::sth::{sth_input_spec, SignedTreeHead};
use crate::types::{
    chunk_digests, content_root, envelope_encoding, signing_input_spec, DropBody, DropBodyView, DropId, Mode, SealedContentKey,
    SealedContentKeyView, SignedDrop, WrappedKey, WrappedKeyView, MIN_TAGS, PROTOCOL_VERSION,
};
use crate::bytes::concat_str;
use crate::hybrid::{self, hybrid_open_outcome, hybrid_seals, mlkem_key_accepted, HybridKeypair};
use crate::kdf::{derive_tag, tag_spec};
use crate::keys::{ed25519_sign_spec, x25519_public_spec};
use crate::pow::{is_valid, mine_within, pow_valid};
use crate::rng::{random_32, random_bytes};
use crate::sealed::{open_outcome, seals, SealedKey};
use crate::stream::{self, chunk_count, encrypts, decrypt_spec, Framing, DEFAULT_CHUNK_SIZE};
use crate::suite::CryptoSuite;

verus! {

/// Errors from store operations.
#[derive(Debug)]
pub enum StoreError {
    /// No identity is present in the data directory.
    NoIdentity,
    /// No hybrid key is present.
    NoHybrid,
    /// No ML-DSA key is present.
    NoMlDsa,
    /// A named item was not found.
    NotFound(String),
    /// Input was malformed.
    Invalid(String),
    /// A cryptographic operation failed.
    Crypto(CryptoError),
    /// A core (encoding/addressing) operation failed.
    Core(CoreError),
    /// An I/O operation failed (its message).
    Io(String),
    /// A log operation failed.
    Log(LogError),
}

/// A contact device.
#[derive(Clone, Debug, PartialEq, Eq)]
pub struct Contact {
    /// Petname.
    pub name: String,
    /// Ed25519 public key.
    pub signing: [u8; 32],
    /// X25519 public key.
    pub ecdh: [u8; 32],
    /// Hybrid public key bytes (`x25519 || ml-kem ek`), if known.
    pub hybrid: Option<Vec<u8>>,
}

/// The result of verifying a drop against the local log.
#[derive(Clone, Debug)]
pub struct Verification {
    /// Signature valid.
    pub signature: bool,
    /// Included in the local log.
    pub inclusion: bool,
    /// The freshly signed tree head verifies.
    pub sth: bool,
    /// Tree size.
    pub tree_size: usize,
    /// Leaf index.
    pub leaf_index: usize,
    /// Merkle root.
    pub root: [u8; 32],
}

/// A node's data directory.
#[derive(Clone, Debug)]
pub struct Store {
    root: String,
}

impl Store {
    /// A data directory rooted at `root` (the directory itself is created
    /// by the caller).
    pub fn at(root: String) -> (r: Self)
        ensures
            r.root_spec() == root@,
    {
        Store { root }
    }

    /// The data-directory root.
    pub closed spec fn root_spec(&self) -> Seq<char> {
        self.root@
    }

    /// The data-directory root.
    pub fn root(&self) -> (r: &str)
        ensures
            r@ == self.root_spec(),
    {
        self.root.as_str()
    }
}

// ---------------------------------------------------------------------------
// The log file: length-prefixed entries
// ---------------------------------------------------------------------------

/// One log record: the entry's big-endian 32-bit length, then the entry.
pub open spec fn entry_record(entry: Seq<u8>) -> Seq<u8> {
    be_u32(entry.len() as u32) + entry
}

/// A log file holding `entries`, in order.
pub open spec fn log_file(entries: Seq<Seq<u8>>) -> Seq<u8>
    decreases entries.len(),
{
    if entries.len() == 0 {
        Seq::empty()
    } else {
        log_file(entries.drop_last()) + entry_record(entries.last())
    }
}

/// The entries read from a log file: records are read while a whole one
/// remains; a trailing partial record is ignored.
pub open spec fn log_entries_of(bytes: Seq<u8>) -> Seq<Seq<u8>>
    decreases bytes.len(),
{
    if bytes.len() < 4 {
        Seq::empty()
    } else {
        let n = u32_from_be(bytes.take(4)) as int;
        if 4 + n > bytes.len() {
            Seq::empty()
        } else {
            seq![bytes.subrange(4, 4 + n)] + log_entries_of(bytes.skip(4 + n))
        }
    }
}

/// Encode one log record; entries of 4 GiB or more are refused.
pub fn encode_log_entry(raw: &[u8]) -> (r: Result<Vec<u8>, StoreError>)
    ensures
        raw@.len() <= u32::MAX ==> (r matches Ok(v) && v@ == entry_record(raw@)),
        raw@.len() > u32::MAX ==> (r matches Err(e) && e is Invalid),
{
    if raw.len() > 0xffff_ffff {
        return Err(StoreError::Invalid(String::from_str("entry length")));
    }
    let mut out: Vec<u8> = Vec::new();
    push_u32_be(&mut out, raw.len() as u32);
    push_all(&mut out, raw);
    Ok(out)
}

/// Read the entries of a log file.
pub fn parse_log_entries(bytes: &[u8]) -> (r: Vec<Vec<u8>>)
    ensures
        r@.map_values(|e: Vec<u8>| e@) == log_entries_of(bytes@),
{
    let mut entries: Vec<Vec<u8>> = Vec::new();
    let mut cursor: usize = 0;
    proof {
        assert(bytes@.skip(0) =~= bytes@);
        assert(entries@.map_values(|e: Vec<u8>| e@) + log_entries_of(bytes@) =~= log_entries_of(bytes@));
    }
    while bytes.len() - cursor >= 4
        invariant
            cursor <= bytes@.len(),
            entries@.map_values(|e: Vec<u8>| e@) + log_entries_of(bytes@.skip(cursor as int))
                == log_entries_of(bytes@),
        decreases bytes@.len() - cursor,
    {
        let ghost rest = bytes@.skip(cursor as int);
        let len = read_u32_be(bytes, cursor) as usize;
        proof {
            assert(bytes@.subrange(cursor as int, cursor + 4) =~= rest.take(4));
        }
        if len > bytes.len() - cursor - 4 {
            proof {
                assert(log_entries_of(rest) =~= Seq::<Seq<u8>>::empty());
                assert(bytes@.skip(bytes@.len() as int) =~= Seq::<u8>::empty());
            }
            cursor = bytes.len();
        } else {
        let start = cursor + 4;
        let entry = to_vec(&bytes[start..start + len]);
        let ghost before = entries@.map_values(|e: Vec<u8>| e@);
        entries.push(entry);
        proof {
            assert(entry@ =~= rest.subrange(4, 4 + len as int));
            assert(rest.skip(4 + len as int) =~= bytes@.skip(start + len));
            assert(entries@.map_values(|e: Vec<u8>| e@) =~= before.push(entry@));
            assert(before.push(entry@) + log_entries_of(bytes@.skip(start + len)) =~= before + (seq![entry@] + log_entries_of(bytes@.skip(start + len))));
        }
        cursor = start + len;
        }
    }
    proof {
        assert(log_entries_of(bytes@.skip(cursor as int)) =~= Seq::<Seq<u8>>::empty());
        assert(entries@.map_values(|e: Vec<u8>| e@) + Seq::<Seq<u8>>::empty() =~= entries@.map_values(|e: Vec<u8>| e@));
    }
    entries
}

/// Reading a log file built from records gives back its entries, whatever
/// follows the last whole record as long as it is shorter than a header.
pub proof fn lemma_log_roundtrip(entries: Seq<Seq<u8>>)
    requires
        forall|i: int| 0 <= i < entries.len() ==> (#[trigger] entries[i]).len() <= u32::MAX,
    ensures
        log_entries_of(log_file(entries)) == entries,
    decreases entries.len(),
{
    lemma_log_front(entries, Seq::empty());
    assert(log_file(entries) + Seq::<u8>::empty() =~= log_file(entries));
}

/// Reading records followed by a short tail gives the records' entries.
proof fn lemma_log_front(entries: Seq<Seq<u8>>, tail: Seq<u8>)
    requires
        forall|i: int| 0 <= i < entries.len() ==> (#[trigger] entries[i]).len() <= u32::MAX,
        tail.len() < 4,
    ensures
        log_entries_of(log_file(entries) + tail) == entries,
    decreases entries.len(),
{
    if entries.len() == 0 {
        assert(log_file(entries) + tail =~= tail);
    } else {
        let first = entries[0];
        let rest = entries.drop_first();
        lemma_log_file_front(entries);
        lemma_log_front(rest, tail);
        let s = log_file(entries) + tail;
        lemma_u32_be_roundtrip(first.len() as u32);
        assert(s =~= be_u32(first.len() as u32) + first + (log_file(rest) + tail));
        assert(s.take(4) =~= be_u32(first.len() as u32));
        assert(s.subrange(4, 4 + first.len() as int) =~= first);
        assert(s.skip(4 + first.len() as int) =~= log_file(rest) + tail);
        assert(seq![first] + rest =~= entries);
    }
}

/// A log file starts with the record of its first entry.
proof fn lemma_log_file_front(entries: Seq<Seq<u8>>)
    requires
        entries.len() > 0,
    ensures
        log_file(entries) == entry_record(entries[0]) + log_file(entries.drop_first()),
    decreases entries.len(),
{
    if entries.len() == 1 {
        assert(entries.drop_last() =~= Seq::<Seq<u8>>::empty());
        assert(entries.drop_first() =~= Seq::<Seq<u8>>::empty());
        assert(log_file(entries) =~= entry_record(entries[0]) + log_file(entries.drop_first()));
    } else {
        lemma_log_file_front(entries.drop_last());
        assert(entries.drop_last().drop_first() =~= entries.drop_first().drop_last());
        assert(entries.drop_first().last() == entries.last());
        assert(log_file(entries) =~= entry_record(entries[0]) + log_file(entries.drop_first()));
    }
}

// ---------------------------------------------------------------------------
// Hybrid public keys as bytes
// ---------------------------------------------------------------------------

/// The bytes of a hybrid public key: the X25519 key, then the ML-KEM key.
pub fn hybrid_public_bytes(public: &HybridPublic) -> (r: Vec<u8>)
    ensures
        r@ == public.x25519@ + public.kem@,
{
    let mut out = to_vec(public.x25519.as_slice());
    push_all(&mut out, public.kem.as_slice());
    out
}

/// Split hybrid public key bytes into their X25519 and ML-KEM halves.
pub fn hybrid_public_from_bytes(bytes: &[u8]) -> (r: Result<HybridPublic, StoreError>)
    ensures
        bytes@.len() == 32 + KEM_PUBLIC_LEN ==> (r matches Ok(p) && p.x25519@ == bytes@.take(32)
            && p.kem@ == bytes@.skip(32)),
        bytes@.len() != 32 + KEM_PUBLIC_LEN ==> (r matches Err(e) && e is Invalid),
{
    if bytes.len() != 32 + KEM_PUBLIC_LEN {
        return Err(StoreError::Invalid(String::from_str("hybrid public key must be 32 + 1184 bytes")));
    }
    let x25519: [u8; 32] = to_array(&bytes[0..32]);
    let kem = to_vec(&bytes[32..bytes.len()]);
    assert(x25519@ =~= bytes@.take(32));
    assert(kem@ =~= bytes@.skip(32));
    Ok(HybridPublic { x25519, kem })
}

/// Hybrid public key bytes split back into the key they came from.
pub proof fn lemma_hybrid_public_roundtrip(x25519: Seq<u8>, kem: Seq<u8>)
    requires
        x25519.len() == 32,
    ensures
        (x25519 + kem).take(32) == x25519,
        (x25519 + kem).skip(32) == kem,
{
    assert((x25519 + kem).take(32) =~= x25519);
    assert((x25519 + kem).skip(32) =~= kem);
}

// ---------------------------------------------------------------------------
// The local log: tree heads and verification
// ---------------------------------------------------------------------------

/// The leaf hashes of log entries.
pub open spec fn entry_leaves(entries: Seq<Seq<u8>>) -> Seq<Seq<u8>> {
    entries.map_values(|e: Seq<u8>| leaf_hash_spec(e))
}

fn leaves_of(entries: &[Vec<u8>]) -> (r: Vec<[u8; 32]>)
    ensures
        hash_seq(r@) == entry_leaves(entries@.map_values(|e: Vec<u8>| e@)),
{
    let mut leaves: Vec<[u8; 32]> = Vec::new();
    let mut i: usize = 0;
    while i < entries.len()
        invariant
            i <= entries@.len(),
            leaves@.len() == i,
            forall|j: int| 0 <= j < i ==> (#[trigger] leaves@[j])@ == leaf_hash_spec(entries@[j]@),
        decreases entries@.len() - i,
    {
        leaves.push(leaf_hash(entries[i].as_slice()));
        i = i + 1;
    }
    assert(hash_seq(leaves@) =~= entry_leaves(entries@.map_values(|e: Vec<u8>| e@)));
    leaves
}

/// The log's signed tree head over its entries at time `now`.
pub fn signed_tree_head(entries: &[Vec<u8>], log: &Identity, now: u64) -> (r: SignedTreeHead)
    ensures
        r.tree_size == (if entries@.len() <= u64::MAX { entries@.len() as u64 } else { u64::MAX }),
        r.root@ == mth_spec(entry_leaves(entries@.map_values(|e: Vec<u8>| e@))),
        r.timestamp == now,
        r.log_public@ == ed25519_public_spec(log.signing_secret()),
        ed25519_verify_spec(r.log_public@, sth_input_spec(r.tree_size, r.root@, r.timestamp), r.signature@),
{
    let leaves = leaves_of(entries);
    let root = mth(leaves.as_slice());
    let size: u64 = if leaves.len() as u128 <= 0xffff_ffff_ffff_ffffu128 {
        leaves.len() as u64
    } else {
        0xffff_ffff_ffff_ffffu64
    };
    SignedTreeHead::sign(log, size, root, now)
}

/// The position of the first entry whose SHA-256 is `id`.
pub open spec fn entry_index(entries: Seq<Seq<u8>>, id: Seq<u8>) -> Option<int> {
    if exists|i: int| 0 <= i < entries.len() && sha256_spec(#[trigger] entries[i]) == id {
        Some(choose|i: int| 0 <= i < entries.len() && sha256_spec(#[trigger] entries[i]) == id
            && forall|j: int| 0 <= j < i ==> sha256_spec(#[trigger] entries[j]) != id)
    } else {
        None
    }
}

/// Check a drop against the local log: find its envelope among the log's
/// entries by hash, prove and check its inclusion, and sign and check a
/// fresh tree head. `signature` says whether the drop's own signature
/// verified.
pub fn verify_in_log(entries: &[Vec<u8>], id: &DropId, signature: bool, log: &Identity, now: u64) -> (r: Result<Verification, StoreError>)
    ensures
        (forall|i: int| 0 <= i < entries@.len() ==> sha256_spec(#[trigger] entries@[i]@) != id.0@) ==> (r matches Err(e) && e is NotFound),
        r matches Ok(v) ==> {
            &&& v.signature == signature
            &&& v.inclusion
            &&& v.sth
            &&& v.tree_size == entries@.len()
            &&& v.leaf_index < entries@.len()
            &&& sha256_spec(entries@[v.leaf_index as int]@) == id.0@
            &&& forall|j: int| 0 <= j < v.leaf_index ==> sha256_spec(#[trigger] entries@[j]@) != id.0@
            &&& v.root@ == mth_spec(entry_leaves(entries@.map_values(|e: Vec<u8>| e@)))
        },
        (exists|i: int| 0 <= i < entries@.len() && sha256_spec(#[trigger] entries@[i]@) == id.0@) ==> r is Ok,
{
    let leaves = leaves_of(entries);
    let mut index: usize = 0;
    let mut found = false;
    while index < entries.len() && !found
        invariant
            index <= entries@.len(),
            forall|j: int| 0 <= j < index ==> sha256_spec(#[trigger] entries@[j]@) != id.0@,
            found ==> index < entries@.len() && sha256_spec(entries@[index as int]@) == id.0@,
        decreases entries@.len() - index + (if found { 0int } else { 1int }),
    {
        let h = sha256(entries[index].as_slice());
        if crate::bytes::bytes_eq(h.as_slice(), id.0.as_slice()) {
            found = true;
        } else {
            index = index + 1;
        }
    }
    if !found {
        return Err(StoreError::NotFound(String::from_str("drop is not in the local log")));
    }
    let tree_size = leaves.len();
    let root = mth(leaves.as_slice());
    let proof = match inclusion_proof(leaves.as_slice(), index) {
        Ok(p) => p,
        Err(e) => {
            return Err(StoreError::Log(e));
        },
    };
    let inclusion = verify_inclusion(&leaves[index], index, tree_size, proof.as_slice(), &root);
    proof {
        let ls = hash_seq(leaves@);
        lemma_inclusion_complete(ls, index as nat);
        assert(ls[index as int] == leaves@[index as int]@);
    }
    let size: u64 = tree_size as u64;
    let sth = SignedTreeHead::sign(log, size, root, now);
    let sth_ok = match sth.verify() {
        Ok(()) => true,
        Err(_) => false,
    };
    Ok(Verification { signature, inclusion, sth: sth_ok, tree_size, leaf_index: index, root })
}


// ---------------------------------------------------------------------------
// Creating drops
// ---------------------------------------------------------------------------

/// The abstract content of a [`Contact`].
pub ghost struct ContactView {
    pub name: Seq<char>,
    pub signing: Seq<u8>,
    pub ecdh: Seq<u8>,
    pub hybrid: Option<Seq<u8>>,
}

impl View for Contact {
    type V = ContactView;

    open spec fn view(&self) -> ContactView {
        ContactView {
            name: self.name@,
            signing: self.signing@,
            ecdh: self.ecdh@,
            hybrid: match &self.hybrid {
                Some(h) => Some(h@),
                None => None,
            },
        }
    }
}

/// A recipient device: its X25519 key and, if known, its hybrid key bytes.
pub open spec fn recipient_of(c: ContactView) -> (Seq<u8>, Option<Seq<u8>>) {
    (c.ecdh, c.hybrid)
}

/// The devices of every named contact, name by name, each name's devices
/// in the order they are listed.
pub open spec fn recipients_of(contacts: Seq<ContactView>, names: Seq<Seq<char>>) -> Seq<(Seq<u8>, Option<Seq<u8>>)>
    decreases names.len(),
{
    if names.len() == 0 {
        Seq::empty()
    } else {
        recipients_of(contacts, names.drop_last()) + contacts.filter(|c: ContactView| c.name == names.last()).map_values(
            |c: ContactView| recipient_of(c),
        )
    }
}

/// The number of contact entries named `name`.
pub open spec fn count_named(contacts: Seq<ContactView>, name: Seq<char>) -> nat
    decreases contacts.len(),
{
    if contacts.len() == 0 {
        0
    } else {
        count_named(contacts.drop_last(), name) + if contacts.last().name == name { 1nat } else { 0nat }
    }
}

/// The number of contact entries matching each name, summed over the names
/// (a name given twice counts its entries twice).
pub open spec fn total_named(contacts: Seq<ContactView>, names: Seq<Seq<char>>) -> nat
    decreases names.len(),
{
    if names.len() == 0 {
        0
    } else {
        total_named(contacts, names.drop_last()) + count_named(contacts, names.last())
    }
}

proof fn lemma_filter_count(contacts: Seq<ContactView>, name: Seq<char>)
    ensures
        contacts.filter(|c: ContactView| c.name == name).len() == count_named(contacts, name),
    decreases contacts.len(),
{
    reveal(Seq::filter);
    if contacts.len() > 0 {
        lemma_filter_count(contacts.drop_last(), name);
    }
}

/// Resolving names gives every device of every named contact: one entry
/// per contact line whose name is asked for (per time it is asked for), and
/// each such line's key agreement key and hybrid key are among the
/// recipients.
pub proof fn lemma_recipients_cover(contacts: Seq<ContactView>, names: Seq<Seq<char>>)
    ensures
        recipients_of(contacts, names).len() == total_named(contacts, names),
        forall|j: int, k: int|
            #![trigger names[j], contacts[k]]
            0 <= j < names.len() && 0 <= k < contacts.len() && contacts[k].name == names[j]
                ==> recipients_of(contacts, names).contains((contacts[k].ecdh, contacts[k].hybrid)),
    decreases names.len(),
{
    if names.len() > 0 {
        let init = names.drop_last();
        let name = names.last();
        lemma_recipients_cover(contacts, init);
        let pred = |c: ContactView| c.name == name;
        let f = contacts.filter(pred);
        let part = f.map_values(|c: ContactView| recipient_of(c));
        let prefix = recipients_of(contacts, init);
        assert(recipients_of(contacts, names) == prefix + part);
        lemma_filter_count(contacts, name);
        assert forall|j: int, k: int|
            #![trigger names[j], contacts[k]]
            0 <= j < names.len() && 0 <= k < contacts.len() && contacts[k].name == names[j]
                implies recipients_of(contacts, names).contains((contacts[k].ecdh, contacts[k].hybrid)) by {
            let x = (contacts[k].ecdh, contacts[k].hybrid);
            if j < names.len() - 1 {
                assert(init[j] == names[j]);
                assert(prefix.contains(x));
                let m = choose|m: int| 0 <= m < prefix.len() && prefix[m] == x;
                assert((prefix + part)[m] == x);
            } else {
                contacts.lemma_filter_contains(pred, k);
                let m = choose|m: int| 0 <= m < f.len() && f[m] == contacts[k];
                assert(part[m] == x);
                assert((prefix + part)[prefix.len() + m] == x);
            }
        }
    }
}

/// Whether the suite name asks for hybrid sealing (`Some(true)`), classical
/// sealing (`Some(false)`), or neither, ignoring ASCII case.
pub open spec fn suite_choice(suite: Seq<u8>) -> Option<bool> {
    if ascii_eq_ignore_case(suite, "classical".spec_bytes()) {
        Some(false)
    } else if ascii_eq_ignore_case(suite, "hybrid".spec_bytes()) {
        Some(true)
    } else {
        None
    }
}

/// ASCII lowercase of a byte.
pub open spec fn ascii_lower(c: u8) -> u8 {
    if 65 <= c <= 90 {
        (c + 32) as u8
    } else {
        c
    }
}

/// Equality of byte strings ignoring ASCII case.
pub open spec fn ascii_eq_ignore_case(a: Seq<u8>, b: Seq<u8>) -> bool {
    a.len() == b.len() && forall|i: int| 0 <= i < a.len() ==> ascii_lower(#[trigger] a[i]) == ascii_lower(b[i])
}

fn lower_byte(c: u8) -> (r: u8)
    ensures
        r == ascii_lower(c),
{
    if 65 <= c && c <= 90 {
        c + 32
    } else {
        c
    }
}

/// Compare two strings byte by byte ignoring ASCII case.
pub fn eq_ignore_ascii_case(a: &str, b: &str) -> (r: bool)
    ensures
        r == ascii_eq_ignore_case(a.spec_bytes(), b.spec_bytes()),
{
    let av = a.as_bytes();
    let bv = b.as_bytes();
    if av.len() != bv.len() {
        return false;
    }
    let mut i: usize = 0;
    while i < av.len()
        invariant
            av@ == a.spec_bytes(),
            bv@ == b.spec_bytes(),
            av@.len() == bv@.len(),
            i <= av@.len(),
            forall|j: int| 0 <= j < i ==> ascii_lower(#[trigger] av@[j]) == ascii_lower(bv@[j]),
        decreases av@.len() - i,
    {
        if lower_byte(av[i]) != lower_byte(bv[i]) {
            return false;
        }
        i = i + 1;
    }
    true
}

/// Read the suite name: `classical` or `hybrid`, in any ASCII case.
pub fn parse_suite(suite: &str) -> (r: Result<bool, StoreError>)
    ensures
        match suite_choice(suite.spec_bytes()) {
            Some(h) => r matches Ok(x) && x == h,
            None => r matches Err(StoreError::Invalid(m)) && m@ == "unknown suite `"@ + suite@ + "`"@,
        },
{
    if eq_ignore_ascii_case(suite, "classical") {
        Ok(false)
    } else if eq_ignore_ascii_case(suite, "hybrid") {
        Ok(true)
    } else {
        let msg = concat_str("unknown suite `", suite);
        Err(StoreError::Invalid(concat_str(msg.as_str(), "`")))
    }
}

/// Check a drop request: at least one recipient name, and a known suite;
/// gives whether the suite is hybrid.
pub fn drop_mode(to: &[String], suite: &str) -> (r: Result<bool, StoreError>)
    ensures
        to@.len() == 0 ==> (r matches Err(StoreError::Invalid(m)) && m@
            == "at least one recipient is required"@),
        to@.len() > 0 ==> match suite_choice(suite.spec_bytes()) {
            Some(h) => r matches Ok(x) && x == h,
            None => r matches Err(StoreError::Invalid(m)) && m@ == "unknown suite `"@ + suite@ + "`"@,
        },
{
    if to.len() == 0 {
        return Err(StoreError::Invalid(String::from_str("at least one recipient is required")));
    }
    parse_suite(suite)
}

fn copy_hybrid(h: &Option<Vec<u8>>) -> (r: Option<Vec<u8>>)
    ensures
        match h {
            Some(v) => r matches Some(w) && w@ == v@,
            None => r is None,
        },
{
    match h {
        Some(v) => Some(to_vec(v.as_slice())),
        None => None,
    }
}

/// The recipient tuples as views.
pub open spec fn recipient_views(rs: Seq<([u8; 32], Option<Vec<u8>>)>) -> Seq<(Seq<u8>, Option<Seq<u8>>)> {
    rs.map_values(|r: ([u8; 32], Option<Vec<u8>>)| (r.0@, match r.1 { Some(h) => Some(h@), None => None }))
}

/// Collect the devices of the named contacts. Every name must match at
/// least one contact, and for hybrid sealing every device needs a hybrid
/// key.
pub fn select_recipients(contacts: &[Contact], to: &[String], hybrid_mode: bool) -> (r: Result<Vec<([u8; 32], Option<Vec<u8>>)>, StoreError>)
    ensures
        r matches Ok(rs) ==> recipient_views(rs@) == recipients_of(
            contacts@.map_values(|c: Contact| c@),
            to@.map_values(|n: String| n@),
        ),
        r matches Ok(rs) ==> (hybrid_mode ==> forall|i: int| 0 <= i < rs@.len() ==> (#[trigger] rs@[i]).1 is Some),
        r is Err <==> exists|i: int| 0 <= i < to@.len() && {
            let matching = contacts@.map_values(|c: Contact| c@).filter(|c: ContactView| c.name == (#[trigger] to@[i])@);
            matching.len() == 0 || (hybrid_mode && exists|j: int| 0 <= j < matching.len() && matching[j].hybrid is None)
        },
        r matches Err(e) ==> e is Invalid,
{
    let ghost cs = contacts@.map_values(|c: Contact| c@);
    let ghost names = to@.map_values(|n: String| n@);
    let mut out: Vec<([u8; 32], Option<Vec<u8>>)> = Vec::new();
    let mut n: usize = 0;
    while n < to.len()
        invariant
            cs == contacts@.map_values(|c: Contact| c@),
            names == to@.map_values(|n: String| n@),
            n <= to@.len(),
            recipient_views(out@) == recipients_of(cs, names.take(n as int)),
            hybrid_mode ==> forall|i: int| 0 <= i < out@.len() ==> (#[trigger] out@[i]).1 is Some,
            forall|i: int| 0 <= i < n ==> {
                let matching = cs.filter(|c: ContactView| c.name == (#[trigger] to@[i])@);
                !(matching.len() == 0 || (hybrid_mode && exists|j: int| 0 <= j < matching.len() && matching[j].hybrid is None))
            },
        decreases to@.len() - n,
    {
        let name = &to[n];
        let ghost pred = |c: ContactView| c.name == name@;
        let ghost before = out@;
        let mut found: usize = 0;
        let mut k: usize = 0;
        while k < contacts.len()
            invariant
                cs == contacts@.map_values(|c: Contact| c@),
                k <= contacts@.len(),
                recipient_views(out@) == recipient_views(before) + cs.take(k as int).filter(pred).map_values(
                    |c: ContactView| recipient_of(c),
                ),
                found == cs.take(k as int).filter(pred).len(),
                hybrid_mode ==> forall|i: int| 0 <= i < out@.len() ==> (#[trigger] out@[i]).1 is Some,
                hybrid_mode ==> forall|j: int| 0 <= j < cs.take(k as int).filter(pred).len() ==> (#[trigger] cs.take(k as int).filter(pred)[j]).hybrid is Some,
                pred == |c: ContactView| c.name == name@,
                hybrid_mode ==> forall|i: int| 0 <= i < before.len() ==> (#[trigger] before[i]).1 is Some,
                n < to@.len(),
                *name == to@[n as int],
            decreases contacts@.len() - k,
        {
            proof {
                assert(cs.take(k + 1) =~= cs.take(k as int).push(cs[k as int]));
                cs.take(k as int).lemma_filter_push(cs[k as int], pred);
                assert(cs[k as int] == contacts@[k as int]@);
            }
            if crate::bytes::str_eq(contacts[k].name.as_str(), name.as_str()) {
                if hybrid_mode && contacts[k].hybrid.is_none() {
                    proof {
                        broadcast use vstd::seq_lib::group_filter_ensures;
                        assert(pred(cs[k as int]));
                        assert(cs.filter(pred).contains(cs[k as int]));
                        assert(to@[n as int]@ == name@);
                    }
                    let msg = concat_str("device for `", name.as_str());
                    return Err(StoreError::Invalid(concat_str(msg.as_str(), "` has no hybrid key")));
                }
                let h = copy_hybrid(&contacts[k].hybrid);
                let ghost old_out = out@;
                out.push((contacts[k].ecdh, h));
                found = found + 1;
                proof {
                    let f = cs.take(k as int).filter(pred);
                    assert(recipient_views(out@) =~= recipient_views(old_out).push(recipient_of(cs[k as int])));
                    assert(f.push(cs[k as int]).map_values(|c: ContactView| recipient_of(c)) =~= f.map_values(
                        |c: ContactView| recipient_of(c),
                    ).push(recipient_of(cs[k as int])));
                    assert(recipient_views(out@) =~= recipient_views(before) + cs.take(k + 1).filter(pred).map_values(
                        |c: ContactView| recipient_of(c),
                    ));
                    assert forall|j: int| 0 <= j < cs.take(k + 1).filter(pred).len() implies (#[trigger] cs.take(k + 1).filter(pred)[j]).hybrid is Some || !hybrid_mode by {
                        if j < f.len() {
                            assert(cs.take(k + 1).filter(pred)[j] == f[j]);
                        }
                    }
                }
            } else {
                proof {
                    assert(recipient_views(out@) =~= recipient_views(before) + cs.take(k + 1).filter(pred).map_values(
                        |c: ContactView| recipient_of(c),
                    ));
                }
            }
            k = k + 1;
        }
        proof {
            assert(cs.take(contacts@.len() as int) =~= cs);
            assert(to@[n as int]@ == name@);
            assert(names.take(n + 1).drop_last() =~= names.take(n as int));
            assert(names.take(n + 1).last() == name@);
        }
        if found == 0 {
            let msg = concat_str("unknown contact `", name.as_str());
            return Err(StoreError::Invalid(concat_str(msg.as_str(), "`")));
        }
        n = n + 1;
    }
    proof {
        assert(names.take(to@.len() as int) =~= names);
    }
    Ok(out)
}


/// Shuffle a list in place with the operating system CSPRNG.
///
/// Calls `rand::seq::SliceRandom::shuffle` with `OsRng`; only that the
/// result is a permutation is stated.
#[verifier::external_body]
fn shuffle<T>(v: &mut Vec<T>)
    ensures
        final(v)@.to_multiset() == old(v)@.to_multiset(),
{
    v.shuffle(&mut rand::rngs::OsRng);
}

/// `k` wraps the content key for a recipient: its tag is the recipient's
/// tag for this drop, and it seals the key to the recipient's hybrid key
/// (hybrid suite) or X25519 key (classical suite).
pub open spec fn wraps_for(
    k: WrappedKeyView,
    content_key: Seq<u8>,
    drop_nonce: Seq<u8>,
    recipient: (Seq<u8>, Option<Seq<u8>>),
    hybrid_mode: bool,
) -> bool {
    &&& k.tag == tag_spec(recipient.0, drop_nonce)
    &&& if hybrid_mode {
        &&& recipient.1 is Some
        &&& k.sealed matches SealedContentKeyView::Hybrid(s) && hybrid_seals(
            s,
            content_key,
            recipient.1->0.take(32),
            recipient.1->0.skip(32),
        )
    } else {
        k.sealed matches SealedContentKeyView::Classical(s) && seals(s, content_key, recipient.0)
    }
}

/// Seal the content key to every recipient, each under its own tag.
/// A recipient that can be sealed to in hybrid mode: it has hybrid public
/// key bytes of the right length whose ML-KEM part the library accepts.
pub open spec fn hybrid_ready(recipient: (Seq<u8>, Option<Seq<u8>>)) -> bool {
    &&& recipient.1 is Some
    &&& recipient.1->0.len() == 32 + KEM_PUBLIC_LEN
    &&& mlkem_key_accepted(recipient.1->0.skip(32))
}

/// Every recipient can be sealed to in hybrid mode.
pub open spec fn all_hybrid_ready(recipients: Seq<(Seq<u8>, Option<Seq<u8>>)>) -> bool {
    forall|i: int| 0 <= i < recipients.len() ==> hybrid_ready(#[trigger] recipients[i])
}

pub fn seal_for_recipients(
    content_key: &[u8; 32],
    recipients: &[([u8; 32], Option<Vec<u8>>)],
    drop_nonce: &[u8; 16],
    hybrid_mode: bool,
) -> (r: Result<Vec<WrappedKey>, StoreError>)
    ensures
        r is Ok <==> (!hybrid_mode || all_hybrid_ready(recipient_views(recipients@))),
        r matches Err(e) ==> (e is Invalid || (e matches StoreError::Crypto(c) && c == CryptoError::InvalidPublicKey)),
        r matches Ok(keys) ==> keys@.len() == recipients@.len() && forall|i: int|
            0 <= i < keys@.len() ==> wraps_for(
                (#[trigger] keys@[i])@,
                content_key@,
                drop_nonce@,
                recipient_views(recipients@)[i],
                hybrid_mode,
            ),
{
    let ghost rv = recipient_views(recipients@);
    let mut out: Vec<WrappedKey> = Vec::new();
    let mut i: usize = 0;
    while i < recipients.len()
        invariant
            rv == recipient_views(recipients@),
            i <= recipients@.len(),
            out@.len() == i,
            forall|j: int| 0 <= j < i ==> wraps_for((#[trigger] out@[j])@, content_key@, drop_nonce@, rv[j], hybrid_mode),
            hybrid_mode ==> forall|j: int| 0 <= j < i ==> hybrid_ready(#[trigger] rv[j]),
        decreases recipients@.len() - i,
    {
        let ecdh = &recipients[i].0;
        proof {
            assert(rv[i as int].0 == recipients@[i as int].0@);
            assert(rv[i as int].1 == match recipients@[i as int].1 { Some(h) => Some(h@), None => None::<Seq<u8>> });
        }
        let sealed = if hybrid_mode {
            let bytes = match &recipients[i].1 {
                Some(b) => b,
                None => {
                    return Err(StoreError::Invalid(String::from_str("recipient has no hybrid key")));
                },
            };
            let public = match hybrid_public_from_bytes(bytes.as_slice()) {
                Ok(p) => p,
                Err(e) => {
                    return Err(e);
                },
            };
            match hybrid::seal(content_key, &public) {
                Ok(s) => SealedContentKey::Hybrid(s),
                Err(e) => {
                    return Err(StoreError::Crypto(e));
                },
            }
        } else {
            match SealedKey::seal(content_key, ecdh) {
                Ok(s) => SealedContentKey::Classical(s),
                Err(e) => {
                    return Err(StoreError::Crypto(e));
                },
            }
        };
        let tag = match derive_tag(ecdh, drop_nonce) {
            Ok(t) => t,
            Err(e) => {
                return Err(StoreError::Crypto(e));
            },
        };
        out.push(WrappedKey { tag, sealed });
        i = i + 1;
    }
    Ok(out)
}

/// A decoy slot: a random tag and a random classical sealed key.
pub open spec fn is_decoy(k: WrappedKeyView) -> bool {
    &&& k.tag.len() == 8
    &&& k.sealed matches SealedContentKeyView::Classical(s) && s.ephemeral_public.len() == 32
        && s.nonce.len() == 24 && s.ciphertext.len() == 48
}

fn decoy() -> (r: WrappedKey)
    ensures
        is_decoy(r@),
{
    let tag: [u8; 8] = to_array(random_bytes(8).as_slice());
    let ephemeral_public: [u8; 32] = to_array(random_bytes(32).as_slice());
    let nonce: [u8; 24] = to_array(random_bytes(24).as_slice());
    let ciphertext = random_bytes(48);
    WrappedKey { tag, sealed: SealedContentKey::Classical(SealedKey { ephemeral_public, nonce, ciphertext }) }
}

/// Pad the wrapped keys with random decoys up to [`MIN_TAGS`] slots, then
/// shuffle them, hiding how many real recipients there are.
pub fn pad_and_shuffle(keys: &mut Vec<WrappedKey>)
    ensures
        final(keys)@.len() == if old(keys)@.len() < MIN_TAGS { MIN_TAGS as nat } else { old(keys)@.len() },
        exists|decoys: Seq<WrappedKey>|
            (forall|i: int| 0 <= i < decoys.len() ==> is_decoy((#[trigger] decoys[i])@)) && final(keys)@.to_multiset()
                == #[trigger] (old(keys)@ + decoys).to_multiset(),
{
    let ghost given = keys@;
    let ghost mut decoys: Seq<WrappedKey> = Seq::empty();
    assert(keys@ =~= given + decoys);
    while keys.len() < MIN_TAGS
        invariant
            keys@ == given + decoys,
            forall|i: int| 0 <= i < decoys.len() ==> is_decoy((#[trigger] decoys[i])@),
            keys@.len() <= if given.len() < MIN_TAGS { MIN_TAGS as nat } else { given.len() },
            keys@.len() >= given.len(),
        decreases MIN_TAGS - keys@.len(),
    {
        let d = decoy();
        keys.push(d);
        proof {
            decoys = decoys.push(d);
            assert(keys@ =~= given + decoys);
        }
    }
    let ghost unshuffled = keys@;
    shuffle(keys);
    proof {
        keys@.to_multiset_ensures();
        unshuffled.to_multiset_ensures();
    }
    assert(keys@.to_multiset() == (given + decoys).to_multiset());
}

/// Some key of the list wraps the content key for the recipient.
pub open spec fn covered(
    keys: Seq<WrappedKeyView>,
    content_key: Seq<u8>,
    drop_nonce: Seq<u8>,
    recipient: (Seq<u8>, Option<Seq<u8>>),
    hybrid_mode: bool,
) -> bool {
    exists|j: int| 0 <= j < keys.len() && wraps_for(#[trigger] keys[j], content_key, drop_nonce, recipient, hybrid_mode)
}

/// The pieces of a freshly created drop.
pub struct DropParts {
    /// The signed envelope.
    pub signed: SignedDrop,
    /// Its body.
    pub body: DropBody,
    /// The ciphertext chunks.
    pub chunks: Vec<Vec<u8>>,
}

/// The result of creating a drop.
#[derive(Clone, Debug)]
pub struct CreatedDrop {
    /// Drop id.
    pub id: DropId,
    /// H3 cell (hex).
    pub cell: String,
    /// Number of chunks.
    pub chunks: u32,
    /// Plaintext length.
    pub bytes: usize,
    /// Crypto suite id.
    pub suite: u8,
}

/// The expiry of a drop created at `now` that lives `ttl` seconds (zero:
/// never expires).
pub open spec fn expiry_of(now: u64, ttl: u64) -> u64 {
    if ttl == 0 {
        0
    } else if now + ttl > u64::MAX {
        u64::MAX
    } else {
        (now + ttl) as u64
    }
}

/// Assemble and sign a drop for the given recipients: encrypt the
/// plaintext under a fresh content key, commit to the chunks, seal the key
/// to every recipient, pad with decoys, and mine the proof of work.
#[verifier::spinoff_prover]
#[verifier::rlimit(50)]
pub fn create_drop_parts(
    identity: &Identity,
    recipients: &[([u8; 32], Option<Vec<u8>>)],
    hybrid_mode: bool,
    plaintext: &[u8],
    cell: String,
    ring: u32,
    ttl: u64,
    now: u64,
) -> (r: Result<DropParts, StoreError>)
    ensures
        (chunk_count(plaintext@.len()) > u32::MAX) <==> (r matches Err(StoreError::Crypto(c)) && c
            == CryptoError::InvalidKeyLength),
        chunk_count(plaintext@.len()) <= u32::MAX && hybrid_mode && !all_hybrid_ready(
            recipient_views(recipients@),
        ) ==> (r matches Err(e) && (e is Invalid || (e matches StoreError::Crypto(c) && c
            == CryptoError::InvalidPublicKey))),
        chunk_count(plaintext@.len()) <= u32::MAX && (!hybrid_mode || all_hybrid_ready(
            recipient_views(recipients@),
        )) && r is Err ==> {
            &&& r matches Err(StoreError::Invalid(m)) && m@ == "proof-of-work"@
            &&& exists|root: Seq<u8>, nonce: Seq<u8>|
                #![trigger root.len(), nonce.len()]
                root.len() == 32 && nonce.len() == 16 && forall|m: u64|
                    !pow_valid(ed25519_public_spec(identity.signing_secret()), root, nonce, m)
        },
        r matches Ok(p) ==> {
            let b = p.body@;
            let chunks = chunk_views(p.chunks@);
            &&& b.version == PROTOCOL_VERSION
            &&& b.suite == (if hybrid_mode { 2u8 } else { 1u8 })
            &&& b.cell == cell@
            &&& b.ring == ring
            &&& b.created_at == now
            &&& b.expiry == expiry_of(now, ttl)
            &&& b.mode == 0
            &&& b.chunk_size == DEFAULT_CHUNK_SIZE
            &&& b.chunk_count == chunks.len()
            &&& b.content_root == sha256_spec(chunk_digests(chunks))
            &&& b.wrapped_keys.len() == if recipients@.len() < MIN_TAGS { MIN_TAGS as nat } else { recipients@.len() }
            &&& pow_valid(ed25519_public_spec(identity.signing_secret()), b.content_root, b.drop_nonce, b.pow_nonce)
            &&& exists|content_key: Seq<u8>| #![trigger encrypts(content_key, b.prefix, b.chunk_count, plaintext@, chunks)]
                {
                    &&& content_key.len() == 32
                    &&& encrypts(content_key, b.prefix, b.chunk_count, plaintext@, chunks)
                    &&& forall|i: int| 0 <= i < recipients@.len() ==> covered(b.wrapped_keys, content_key, b.drop_nonce, #[trigger] recipient_views(recipients@)[i], hybrid_mode)
                }
            &&& p.signed.suite == b.suite
            &&& p.signed.payload@ == b.encoding()
            &&& p.signed.signer@ == ed25519_public_spec(identity.signing_secret())
            &&& ed25519_verify_spec(p.signed.signer@, signing_input_spec(p.signed.payload@), p.signed.signature@)
        },
{
    let content_key = random_32();
    let (framing, chunks) = match stream::encrypt(&content_key, plaintext) {
        Ok(pair) => pair,
        Err(e) => {
            return Err(StoreError::Crypto(e));
        },
    };
    let root = content_root(chunks.as_slice());
    let drop_nonce: [u8; 16] = to_array(random_bytes(16).as_slice());
    let suite_id: u8 = if hybrid_mode {
        CryptoSuite::Hybrid25519MlKem768.id()
    } else {
        CryptoSuite::Classical25519.id()
    };
    let mut wrapped_keys = match seal_for_recipients(&content_key, recipients, &drop_nonce, hybrid_mode) {
        Ok(k) => k,
        Err(e) => {
            return Err(e);
        },
    };
    let ghost sealed_keys = wrapped_keys@;
    pad_and_shuffle(&mut wrapped_keys);
    let signer = identity.signing_public();
    let pow_nonce = match mine_within(&signer, &root, &drop_nonce, 0xffff_ffff_ffff_ffffu64) {
        Some(n) => n,
        None => {
            if is_valid(&signer, &root, &drop_nonce, 0xffff_ffff_ffff_ffffu64) {
                0xffff_ffff_ffff_ffffu64
            } else {
                proof {
                    assert forall|m: u64| !pow_valid(signer@, root@, drop_nonce@, m) by {
                        if m < 0xffff_ffff_ffff_ffffu64 {
                        }
                    }
                    assert(root@.len() == 32 && drop_nonce@.len() == 16);
                }
                return Err(StoreError::Invalid(String::from_str("proof-of-work")));
            }
        },
    };
    let ghost views = chunks@.map_values(|c: Vec<u8>| c@);
    let body = DropBody {
        version: PROTOCOL_VERSION,
        suite: suite_id,
        cell,
        ring,
        created_at: now,
        expiry: if ttl == 0 {
            0
        } else {
            now.saturating_add(ttl)
        },
        mode: Mode::Capability.id(),
        chunk_size: DEFAULT_CHUNK_SIZE as u32,
        chunk_count: framing.total,
        content_root: root,
        prefix: framing.prefix,
        drop_nonce,
        pow_nonce,
        wrapped_keys,
    };
    proof {
        let b = body@;
        let decoys = choose|decoys: Seq<WrappedKey>|
            (forall|i: int| 0 <= i < decoys.len() ==> is_decoy((#[trigger] decoys[i])@)) && body.wrapped_keys@.to_multiset()
                == #[trigger] (sealed_keys + decoys).to_multiset();
        assert forall|i: int| 0 <= i < recipients@.len() implies covered(b.wrapped_keys, content_key@, b.drop_nonce, #[trigger] recipient_views(recipients@)[i], hybrid_mode) by {
            let k = sealed_keys[i];
            assert((sealed_keys + decoys)[i] == k);
            assert((sealed_keys + decoys).contains(k));
            (sealed_keys + decoys).to_multiset_ensures();
            body.wrapped_keys@.to_multiset_ensures();
            assert((sealed_keys + decoys).to_multiset().count(k) > 0);
            assert(body.wrapped_keys@.to_multiset().count(k) > 0);
            assert(body.wrapped_keys@.contains(k));
            let j = choose|j: int| 0 <= j < body.wrapped_keys@.len() && body.wrapped_keys@[j] == k;
            assert(b.wrapped_keys[j] == k@);
        }
        assert(encrypts(content_key@, b.prefix, b.chunk_count, plaintext@, views));
    }
    let signed = SignedDrop::sign(identity, &body);
    let out = DropParts { signed, body, chunks };
    proof {
        let b = out.body@;
        let cv = chunk_views(out.chunks@);
        assert(cv =~= views);
        assert(encrypts(content_key@, b.prefix, b.chunk_count, plaintext@, cv));
        assert(forall|i: int| 0 <= i < recipients@.len() ==> covered(b.wrapped_keys, content_key@, b.drop_nonce, #[trigger] recipient_views(recipients@)[i], hybrid_mode));
    }
    Ok(out)
}

impl DropParts {
    /// The summary of the created drop.
    pub fn created(&self, bytes: usize) -> (r: CreatedDrop)
        ensures
            r.id.0@ == sha256_spec(self.signed.raw@),
            r.cell@ == self.body.cell@,
            r.chunks == self.body.chunk_count,
            r.bytes == bytes,
            r.suite == self.signed.suite,
    {
        CreatedDrop {
            id: self.signed.id(),
            cell: self.body.cell.clone(),
            chunks: self.body.chunk_count,
            bytes,
            suite: self.signed.suite,
        }
    }
}


// ---------------------------------------------------------------------------
// Opening drops
// ---------------------------------------------------------------------------

/// `raw` is the envelope of a well-formed body `v` with these envelope
/// fields.
pub open spec fn envelope_of(
    raw: Seq<u8>,
    suite: u8,
    signer: Seq<u8>,
    payload: Seq<u8>,
    signature: Seq<u8>,
    v: DropBodyView,
) -> bool {
    &&& signer.len() == 32
    &&& signature.len() == 64
    &&& payload.len() <= usize::MAX
    &&& raw == envelope_encoding(suite, signer, payload, signature)
    &&& v.wf()
    &&& v.encoding() == payload
}

/// Decode an envelope and its body without checking them.
pub fn read_envelope(raw: &[u8]) -> (r: Result<(SignedDrop, DropBody), StoreError>)
    ensures
        r matches Ok((signed, body)) ==> signed.raw@ == raw@ && body@.wf() && body@.encoding() == signed.payload@,
        forall|suite: u8, signer: Seq<u8>, payload: Seq<u8>, signature: Seq<u8>, v: DropBodyView|
            #![trigger envelope_encoding(suite, signer, payload, signature), v.encoding()]
            envelope_of(raw@, suite, signer, payload, signature, v) ==> (r matches Ok((signed, body))
                && signed.suite == suite && signed.signer@ == signer && signed.payload@ == payload
                && signed.signature@ == signature && body@ == v),
        r matches Err(e) ==> (e matches StoreError::Core(CoreError::Cbor(_))),
{
    let signed = match SignedDrop::decode(raw) {
        Ok(s) => s,
        Err(e) => {
            return Err(StoreError::Core(e));
        },
    };
    let body = match signed.body() {
        Ok(b) => b,
        Err(e) => {
            return Err(StoreError::Core(e));
        },
    };
    Ok((signed, body))
}

/// Decode an envelope, then check its signature and its proof of work.
pub fn open_envelope(raw: &[u8]) -> (r: Result<(SignedDrop, DropBody), StoreError>)
    ensures
        r matches Ok((signed, body)) ==> {
            &&& signed.raw@ == raw@
            &&& body@.wf()
            &&& body@.encoding() == signed.payload@
            &&& ed25519_verify_spec(signed.signer@, signing_input_spec(signed.payload@), signed.signature@)
            &&& pow_valid(signed.signer@, body@.content_root, body@.drop_nonce, body@.pow_nonce)
        },
        forall|suite: u8, signer: Seq<u8>, payload: Seq<u8>, signature: Seq<u8>, v: DropBodyView|
            #![trigger envelope_encoding(suite, signer, payload, signature), v.encoding()]
            envelope_of(raw@, suite, signer, payload, signature, v) ==> if !ed25519_verify_spec(
                signer,
                signing_input_spec(payload),
                signature,
            ) || !pow_valid(signer, v.content_root, v.drop_nonce, v.pow_nonce) {
                r matches Err(e) && e is Invalid
            } else {
                r matches Ok((signed, body)) && signed.suite == suite && signed.signer@ == signer
                    && signed.payload@ == payload && signed.signature@ == signature && body@ == v
            },
        r matches Err(e) ==> (e matches StoreError::Core(CoreError::Cbor(_)) || e is Invalid),
{
    let signed = match SignedDrop::decode(raw) {
        Ok(s) => s,
        Err(e) => {
            return Err(StoreError::Core(e));
        },
    };
    match signed.verify() {
        Ok(()) => {},
        Err(_) => {
            return Err(StoreError::Invalid(String::from_str("signature invalid")));
        },
    }
    let body = match signed.body() {
        Ok(b) => b,
        Err(e) => {
            return Err(StoreError::Core(e));
        },
    };
    if !body.pow_ok(&signed.signer) {
        return Err(StoreError::Invalid(String::from_str("proof-of-work invalid")));
    }
    Ok((signed, body))
}

/// How the search for this device's content key ends.
pub ghost enum KeySearch {
    /// A key with our tag opened.
    Found(Seq<u8>),
    /// A hybrid key with our tag came up and no hybrid keypair is at hand.
    NeedHybrid,
    /// No key with our tag opened.
    Missing,
}

/// Search the wrapped keys from position `i` on, in order, for one that
/// carries our tag and opens with our secrets.
pub open spec fn key_search(
    keys: Seq<WrappedKeyView>,
    i: int,
    our_tag: Seq<u8>,
    ecdh_secret: Seq<u8>,
    hybrid: Option<(Seq<u8>, Seq<u8>)>,
) -> KeySearch
    decreases keys.len() - i,
{
    if i < 0 || i >= keys.len() {
        KeySearch::Missing
    } else if keys[i].tag != our_tag {
        key_search(keys, i + 1, our_tag, ecdh_secret, hybrid)
    } else {
        match keys[i].sealed {
            SealedContentKeyView::Classical(s) => match open_outcome(s, ecdh_secret) {
                Ok(k) => KeySearch::Found(k),
                Err(_) => key_search(keys, i + 1, our_tag, ecdh_secret, hybrid),
            },
            SealedContentKeyView::Hybrid(s) => match hybrid {
                None => KeySearch::NeedHybrid,
                Some((x, seed)) => match hybrid_open_outcome(s, x, seed) {
                    Ok(k) => KeySearch::Found(k),
                    Err(_) => key_search(keys, i + 1, our_tag, ecdh_secret, hybrid),
                },
            },
        }
    }
}

/// A wrapped key seals `content_key` classically to the public half of
/// `secret`, with a shared secret that is not degenerate.
pub open spec fn sealed_to(k: WrappedKeyView, content_key: Seq<u8>, drop_nonce: Seq<u8>, secret: Seq<u8>) -> bool {
    &&& wraps_for(k, content_key, drop_nonce, (x25519_public_spec(secret), None), false)
    &&& content_key.len() == 32
    &&& k.sealed matches SealedContentKeyView::Classical(s) && !crate::sealed::all_zero(
        crate::keys::x25519_shared_spec(secret, s.ephemeral_public),
    )
}

/// No wrapped key before position `j` that carries `tag` opens with
/// `secret` (each is classical and fails to open).
pub open spec fn none_opens_before(keys: Seq<WrappedKeyView>, j: int, tag: Seq<u8>, secret: Seq<u8>) -> bool {
    forall|i: int|
        0 <= i < j && (#[trigger] keys[i]).tag == tag ==> (keys[i].sealed matches SealedContentKeyView::Classical(s)
            && open_outcome(s, secret) is Err)
}

/// From position `i` on, a key sealed to `secret` at position `j`, with no
/// same-tag key between that opens, is the one the search finds.
proof fn lemma_search_finds(
    keys: Seq<WrappedKeyView>,
    i: int,
    j: int,
    content_key: Seq<u8>,
    drop_nonce: Seq<u8>,
    secret: Seq<u8>,
    hybrid: Option<(Seq<u8>, Seq<u8>)>,
)
    requires
        0 <= i <= j < keys.len(),
        secret.len() == 32,
        sealed_to(keys[j], content_key, drop_nonce, secret),
        none_opens_before(keys, j, tag_spec(x25519_public_spec(secret), drop_nonce), secret),
    ensures
        key_search(keys, i, tag_spec(x25519_public_spec(secret), drop_nonce), secret, hybrid)
            == KeySearch::Found(content_key),
    decreases j - i,
{
    let tag = tag_spec(x25519_public_spec(secret), drop_nonce);
    if i == j {
        let s = keys[j].sealed->Classical_0;
        crate::sealed::lemma_sealed_opens(s, content_key, secret);
    } else {
        lemma_search_finds(keys, i + 1, j, content_key, drop_nonce, secret, hybrid);
        if keys[i].tag == tag {
            assert(keys[i].sealed matches SealedContentKeyView::Classical(s) && open_outcome(s, secret) is Err);
        }
    }
}

/// A created drop opens for a recipient it was sealed to: the search for
/// the recipient's key finds the content key (unless a same-tag key before
/// it opens too, or the shared secret is degenerate), and the chunks
/// decrypt with it to the message.
pub proof fn lemma_created_drop_opens(
    body: DropBodyView,
    chunks: Seq<Seq<u8>>,
    plaintext: Seq<u8>,
    content_key: Seq<u8>,
    secret: Seq<u8>,
    j: int,
    hybrid: Option<(Seq<u8>, Seq<u8>)>,
)
    requires
        encrypts(content_key, body.prefix, body.chunk_count, plaintext, chunks),
        0 <= j < body.wrapped_keys.len(),
        secret.len() == 32,
        sealed_to(body.wrapped_keys[j], content_key, body.drop_nonce, secret),
        none_opens_before(
            body.wrapped_keys,
            j,
            tag_spec(x25519_public_spec(secret), body.drop_nonce),
            secret,
        ),
    ensures
        key_search(
            body.wrapped_keys,
            0,
            tag_spec(x25519_public_spec(secret), body.drop_nonce),
            secret,
            hybrid,
        ) == KeySearch::Found(content_key),
        decrypt_spec(content_key, body.prefix, body.chunk_count, chunks) == Some(plaintext),
{
    lemma_search_finds(body.wrapped_keys, 0, j, content_key, body.drop_nonce, secret, hybrid);
    crate::stream::lemma_stream_roundtrip(content_key, body.prefix, body.chunk_count, plaintext, chunks);
}

/// Find the content key this device can open: the first wrapped key (in
/// order) that carries this device's tag and opens with its secrets. A key
/// sealed to this device is found, unless a key before it with the same
/// tag opens too.
pub fn find_content_key(body: &DropBody, identity: &Identity, hybrid: Option<&HybridKeypair>) -> (r: Result<[u8; 32], StoreError>)
    requires
        hybrid matches Some(h) ==> h.wf(),
    ensures
        match key_search(
            body@.wrapped_keys,
            0,
            tag_spec(x25519_public_spec(identity.ecdh_secret()), body@.drop_nonce),
            identity.ecdh_secret(),
            match hybrid {
                Some(h) => Some((h.x25519_secret(), h.kem_seed())),
                None => None,
            },
        ) {
            KeySearch::Found(k) => r matches Ok(key) && key@ == k,
            KeySearch::NeedHybrid => r matches Err(e) && e is NoHybrid,
            KeySearch::Missing => r matches Err(e) && e is Invalid,
        },
        forall|j: int, ck: Seq<u8>|
            0 <= j < body@.wrapped_keys.len() && #[trigger] sealed_to(
                body@.wrapped_keys[j],
                ck,
                body@.drop_nonce,
                identity.ecdh_secret(),
            ) && none_opens_before(
                body@.wrapped_keys,
                j,
                tag_spec(x25519_public_spec(identity.ecdh_secret()), body@.drop_nonce),
                identity.ecdh_secret(),
            ) ==> (r matches Ok(key) && key@ == ck),
{
    let ghost keys = body@.wrapped_keys;
    let ghost hy = match hybrid {
        Some(h) => Some((h.x25519_secret(), h.kem_seed())),
        None => None,
    };
    let our_tag = match derive_tag(&identity.ecdh_public(), &body.drop_nonce) {
        Ok(t) => t,
        Err(e) => {
            return Err(StoreError::Crypto(e));
        },
    };
    let ecdh_secret = identity.ecdh_secret_bytes();
    let mut i: usize = 0;
    while i < body.wrapped_keys.len()
        invariant
            keys == body@.wrapped_keys,
            i <= keys.len(),
            our_tag@ == tag_spec(x25519_public_spec(identity.ecdh_secret()), body@.drop_nonce),
            ecdh_secret@ == identity.ecdh_secret(),
            hy == match hybrid {
                Some(h) => Some((h.x25519_secret(), h.kem_seed())),
                None => None,
            },
            key_search(keys, 0, our_tag@, ecdh_secret@, hy) == key_search(keys, i as int, our_tag@, ecdh_secret@, hy),
            forall|j: int, ck: Seq<u8>|
                0 <= j < keys.len() && #[trigger] sealed_to(keys[j], ck, body@.drop_nonce, ecdh_secret@)
                    && none_opens_before(keys, j, our_tag@, ecdh_secret@) ==> i <= j,
        decreases keys.len() - i,
    {
        let wrapped = &body.wrapped_keys[i];
        proof {
            assert(keys[i as int] == wrapped@);
        }
        if crate::bytes::bytes_eq(wrapped.tag.as_slice(), our_tag.as_slice()) {
            match &wrapped.sealed {
                SealedContentKey::Classical(sealed) => {
                    match sealed.open(&ecdh_secret) {
                        Ok(key) => {
                            return Ok(key);
                        },
                        Err(_) => {},
                    }
                },
                SealedContentKey::Hybrid(sealed) => {
                    match hybrid {
                        None => {
                            return Err(StoreError::NoHybrid);
                        },
                        Some(keypair) => {
                            match keypair.open(sealed) {
                                Ok(key) => {
                                    return Ok(key);
                                },
                                Err(_) => {},
                            }
                        },
                    }
                },
            }
        }
        i = i + 1;
    }
    Err(StoreError::Invalid(String::from_str("drop is not addressed to this device")))
}

/// The contents of the ciphertext chunks.
pub open spec fn chunk_views(chunks: Seq<Vec<u8>>) -> Seq<Seq<u8>> {
    chunks.map_values(|c: Vec<u8>| c@)
}

/// Decrypt a drop's chunks with its content key.
pub fn decrypt_drop(body: &DropBody, content_key: &[u8; 32], chunks: &[Vec<u8>]) -> (r: Result<Vec<u8>, StoreError>)
    ensures
        match decrypt_spec(content_key@, body@.prefix, body@.chunk_count, chunk_views(chunks@)) {
            Some(p) => r matches Ok(v) && v@ == p,
            None => r matches Err(e) && e is Invalid,
        },
        forall|plaintext: Seq<u8>|
            #[trigger] encrypts(
                content_key@,
                body@.prefix,
                body@.chunk_count,
                plaintext,
                chunk_views(chunks@),
            ) ==> (r matches Ok(v) && v@ == plaintext),
{
    proof {
        assert forall|plaintext: Seq<u8>|
            #[trigger] encrypts(
                content_key@,
                body@.prefix,
                body@.chunk_count,
                plaintext,
                chunk_views(chunks@),
            ) implies decrypt_spec(
                content_key@,
                body@.prefix,
                body@.chunk_count,
                chunk_views(chunks@),
            ) == Some(plaintext) by {
            crate::stream::lemma_stream_roundtrip(
                content_key@,
                body@.prefix,
                body@.chunk_count,
                plaintext,
                chunk_views(chunks@),
            );
        }
    }
    let framing = Framing { prefix: body.prefix, total: body.chunk_count };
    match stream::decrypt(content_key, &framing, chunks) {
        Ok(p) => Ok(p),
        Err(_) => Err(StoreError::Invalid(String::from_str("decryption failed"))),
    }
}

} // verus!
