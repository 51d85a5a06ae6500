//! Witness presence certificates for place-locked drops.
//!
//! Location is **best-effort defense in depth**, never a confidentiality
//! guarantee. A claimant asks nearby witnesses to attest that they observed
//! the claimant in a cell; a threshold of distinct, valid attestations forms
//! a [`PresenceCert`].
use vstd::prelude::*;
use vstd::string::*;
use vstd::utf8::*;
use crate::bytes::{be_u32, be_u64, bytes_eq, push_all, push_u32_be, push_u64_be};
use crate::cbor::{Decoder, Encoder, Token, lemma_stream_advance, lemma_stream_next, lemma_tokens_injective, token_ok, tokens_bytes, tokens_ok};
use crate::error::CoreError;
use crate::keys::{ed25519_sign_spec, ed25519_public_spec, ed25519_verify_spec, verify, Identity};

verus! {

broadcast use vstd::utf8::encode_utf8_valid_utf8;

/// Domain-separation context for presence attestations.
pub const PRESENCE_CONTEXT: &'static str = "keepstone/v1/presence";

/// Default number of witness attestations required.
pub const DEFAULT_THRESHOLD: usize = 3;

/// A claimant's request to be witnessed in a cell.
#[derive(Clone, Debug, PartialEq, Eq)]
pub struct PresenceRequest {
    /// H3 cell (hex).
    pub cell: String,
    /// Random nonce (replay protection).
    pub nonce: [u8; 16],
    /// Claimant's Ed25519 public key.
    pub claimant: [u8; 32],
    /// Expiry (Unix seconds; 0 = no expiry).
    pub expiry: u64,
}

/// The abstract content of a [`PresenceRequest`].
pub ghost struct RequestView {
    pub cell: Seq<char>,
    pub nonce: Seq<u8>,
    pub claimant: Seq<u8>,
    pub expiry: u64,
}

impl View for PresenceRequest {
    type V = RequestView;

    open spec fn view(&self) -> RequestView {
        RequestView {
            cell: self.cell@,
            nonce: self.nonce@,
            claimant: self.claimant@,
            expiry: self.expiry,
        }
    }
}

impl RequestView {
    /// Field lengths match the wire format.
    pub open spec fn wf(self) -> bool {
        &&& self.nonce.len() == 16
        &&& self.claimant.len() == 32
        &&& encode_utf8(self.cell).len() <= usize::MAX
    }

    /// The data items of the canonical encoding.
    pub open spec fn tokens(self) -> Seq<Token> {
        seq![
            Token::Array(4),
            Token::Text(self.cell),
            Token::Bytes(self.nonce),
            Token::Bytes(self.claimant),
            Token::Uint(self.expiry),
        ]
    }

    /// The canonical CBOR encoding.
    pub open spec fn encoding(self) -> Seq<u8> {
        tokens_bytes(self.tokens())
    }
}

proof fn lemma_request_tokens_ok(v: RequestView)
    requires
        v.wf(),
    ensures
        tokens_ok(v.tokens()),
{
    assert forall|i: int| 0 <= i < v.tokens().len() implies token_ok(#[trigger] v.tokens()[i]) by {
    }
}

/// Different requests have different encodings.
pub proof fn lemma_request_encoding_injective(a: RequestView, b: RequestView)
    requires
        a.wf(),
        b.wf(),
        a.encoding() == b.encoding(),
    ensures
        a == b,
{
    lemma_request_tokens_ok(a);
    lemma_request_tokens_ok(b);
    lemma_tokens_injective(a.tokens(), b.tokens());
    assert(a.tokens()[1] == b.tokens()[1]);
    assert(a.tokens()[2] == b.tokens()[2]);
    assert(a.tokens()[3] == b.tokens()[3]);
    assert(a.tokens()[4] == b.tokens()[4]);
}

impl PresenceRequest {
    /// Decode from canonical CBOR: exactly the encodings of well-formed
    /// requests are accepted.
    #[verifier::spinoff_prover]
    #[verifier::rlimit(100)]
    pub fn from_canonical(bytes: &[u8]) -> (r: Result<Self, CoreError>)
        ensures
            r matches Ok(x) ==> x@.wf() && x@.encoding() == bytes@,
            forall|v: RequestView|
                v.wf() && #[trigger] v.encoding() == bytes@ ==> (r matches Ok(x) && x@ == v),
            r matches Err(e) ==> e matches CoreError::Cbor(_),
    {
        let ghost data = bytes@;
        let ghost has_v = exists|v: RequestView| v.wf() && #[trigger] v.encoding() == data;
        let ghost v = choose|v: RequestView| v.wf() && #[trigger] v.encoding() == data;
        let ghost whole = v.tokens();
        proof {
            if has_v {
                lemma_request_tokens_ok(v);
            }
        }
        let mut dec = Decoder::new(bytes);
        let ghost mut read: Seq<Token> = Seq::empty();
        assert(data.subrange(0, 0) =~= tokens_bytes(read));

        let ghost p = dec.position();
        proof { if has_v { lemma_stream_next(whole, data, p, read); } }
        let arity = dec.array()?;
        proof {
            lemma_stream_advance(data, p, read, Token::Array(arity as u64), (dec.position() - p) as nat);
            read = read.push(Token::Array(arity as u64));
        }
        let ghost p = dec.position();
        proof { if has_v { lemma_stream_next(whole, data, p, read); assert(whole[0] == read[0]); } }
        if arity != 4 {
            return Err(CoreError::Cbor("presence request arity"));
        }
        let cell = dec.text()?.to_owned();
        proof {
            lemma_stream_advance(data, p, read, Token::Text(cell@), (dec.position() - p) as nat);
            read = read.push(Token::Text(cell@));
        }
        let ghost p = dec.position();
        proof { if has_v { lemma_stream_next(whole, data, p, read); } }
        let nonce = dec.bytes_fixed::<16>()?;
        proof {
            lemma_stream_advance(data, p, read, Token::Bytes(nonce@), (dec.position() - p) as nat);
            read = read.push(Token::Bytes(nonce@));
        }
        let ghost p = dec.position();
        proof { if has_v { lemma_stream_next(whole, data, p, read); } }
        let claimant = dec.bytes_fixed::<32>()?;
        proof {
            lemma_stream_advance(data, p, read, Token::Bytes(claimant@), (dec.position() - p) as nat);
            read = read.push(Token::Bytes(claimant@));
        }
        let ghost p = dec.position();
        proof { if has_v { lemma_stream_next(whole, data, p, read); } }
        let expiry = dec.uint()?;
        proof {
            lemma_stream_advance(data, p, read, Token::Uint(expiry), (dec.position() - p) as nat);
            read = read.push(Token::Uint(expiry));
        }
        let ghost p = dec.position();
        proof { if has_v { lemma_stream_next(whole, data, p, read); } }
        dec.finish()?;
        let out = PresenceRequest { cell, nonce, claimant, expiry };
        proof {
            assert(read =~= out@.tokens());
            assert(data.subrange(0, data.len() as int) =~= data);
            assert(token_ok(read[1]));
            assert forall|w: RequestView| w.wf() && #[trigger] w.encoding() == data implies out@
                == w by {
                lemma_request_encoding_injective(w, out@);
            }
        }
        Ok(out)
    }

    /// Encode as canonical CBOR.
    pub fn to_canonical(&self) -> (r: Vec<u8>)
        ensures
            r@ == self@.encoding(),
            self@.wf(),
    {
        let mut enc = Encoder::new();
        enc.array(4);
        enc.text(self.cell.as_str());
        enc.bytes(self.nonce.as_slice());
        enc.bytes(self.claimant.as_slice());
        enc.uint(self.expiry);
        let r = enc.into_bytes();
        let cell_len = self.cell.as_str().as_bytes().len();
        proof {
            reveal_with_fuel(tokens_bytes, 6);
            assert(r@ =~= self@.encoding());
            assert(cell_len == encode_utf8(self@.cell).len());
        }
        r
    }
}

/// One witness's attestation that the claimant was present.
#[derive(Clone, Debug, PartialEq, Eq)]
pub struct PresenceAttestation {
    /// H3 cell (hex).
    pub cell: String,
    /// The request nonce.
    pub nonce: [u8; 16],
    /// Claimant's Ed25519 public key.
    pub claimant: [u8; 32],
    /// Coarse round-trip-time bucket (weak evidence over IP).
    pub rtt_bucket: u8,
    /// Witness's Unix timestamp.
    pub timestamp: u64,
    /// Witness's Ed25519 public key.
    pub witness: [u8; 32],
    /// Witness's signature over the attestation input.
    pub signature: [u8; 64],
}

/// The abstract content of a [`PresenceAttestation`].
pub ghost struct AttestationView {
    pub cell: Seq<char>,
    pub nonce: Seq<u8>,
    pub claimant: Seq<u8>,
    pub rtt_bucket: u8,
    pub timestamp: u64,
    pub witness: Seq<u8>,
    pub signature: Seq<u8>,
}

impl View for PresenceAttestation {
    type V = AttestationView;

    open spec fn view(&self) -> AttestationView {
        AttestationView {
            cell: self.cell@,
            nonce: self.nonce@,
            claimant: self.claimant@,
            rtt_bucket: self.rtt_bucket,
            timestamp: self.timestamp,
            witness: self.witness@,
            signature: self.signature@,
        }
    }
}

impl AttestationView {
    /// Field lengths match the wire format.
    pub open spec fn wf(self) -> bool {
        &&& self.nonce.len() == 16
        &&& self.claimant.len() == 32
        &&& self.witness.len() == 32
        &&& self.signature.len() == 64
        &&& encode_utf8(self.cell).len() <= usize::MAX
    }

    /// The data items of the canonical encoding.
    pub open spec fn tokens(self) -> Seq<Token> {
        seq![
            Token::Array(7),
            Token::Text(self.cell),
            Token::Bytes(self.nonce),
            Token::Bytes(self.claimant),
            Token::Uint(self.rtt_bucket as u64),
            Token::Uint(self.timestamp),
            Token::Bytes(self.witness),
            Token::Bytes(self.signature),
        ]
    }

    /// The canonical CBOR encoding.
    pub open spec fn encoding(self) -> Seq<u8> {
        tokens_bytes(self.tokens())
    }

    /// The bytes the witness signs.
    pub open spec fn signed_input(self) -> Seq<u8> {
        attestation_input_spec(self.cell, self.nonce, self.claimant, self.rtt_bucket, self.timestamp)
    }

    /// The witness signature verifies over the attestation input.
    pub open spec fn signature_ok(self) -> bool {
        ed25519_verify_spec(self.witness, self.signed_input(), self.signature)
    }
}

proof fn lemma_attestation_tokens_ok(v: AttestationView)
    requires
        v.wf(),
    ensures
        tokens_ok(v.tokens()),
{
    assert forall|i: int| 0 <= i < v.tokens().len() implies token_ok(#[trigger] v.tokens()[i]) by {
    }
}

/// Different attestations have different encodings.
pub proof fn lemma_attestation_encoding_injective(a: AttestationView, b: AttestationView)
    requires
        a.wf(),
        b.wf(),
        a.encoding() == b.encoding(),
    ensures
        a == b,
{
    lemma_attestation_tokens_ok(a);
    lemma_attestation_tokens_ok(b);
    lemma_tokens_injective(a.tokens(), b.tokens());
    assert(a.tokens()[1] == b.tokens()[1]);
    assert(a.tokens()[2] == b.tokens()[2]);
    assert(a.tokens()[3] == b.tokens()[3]);
    assert(a.tokens()[4] == b.tokens()[4]);
    assert(a.tokens()[5] == b.tokens()[5]);
    assert(a.tokens()[6] == b.tokens()[6]);
    assert(a.tokens()[7] == b.tokens()[7]);
}

/// The length prefix of a string in signed inputs: its byte length, capped
/// at `u32::MAX`.
pub open spec fn capped_len(len: nat) -> u32 {
    if len <= u32::MAX {
        len as u32
    } else {
        u32::MAX
    }
}

/// The exact bytes a witness signs: the presence context, the cell's
/// length and bytes, the nonce, the claimant, the RTT bucket and the
/// big-endian timestamp.
pub open spec fn attestation_input_spec(
    cell: Seq<char>,
    nonce: Seq<u8>,
    claimant: Seq<u8>,
    rtt_bucket: u8,
    timestamp: u64,
) -> Seq<u8> {
    PRESENCE_CONTEXT.spec_bytes() + be_u32(capped_len(encode_utf8(cell).len())) + encode_utf8(cell)
        + nonce + claimant + seq![rtt_bucket] + be_u64(timestamp)
}

/// The exact bytes a witness signs.
pub fn attestation_input(
    cell: &str,
    nonce: &[u8; 16],
    claimant: &[u8; 32],
    rtt_bucket: u8,
    timestamp: u64,
) -> (r: Vec<u8>)
    ensures
        r@ == attestation_input_spec(cell@, nonce@, claimant@, rtt_bucket, timestamp),
{
    let mut out: Vec<u8> = Vec::new();
    push_all(&mut out, PRESENCE_CONTEXT.as_bytes());
    let len = cell.as_bytes().len();
    let prefix: u32 = if len <= 0xffff_ffff { len as u32 } else { 0xffff_ffffu32 };
    push_u32_be(&mut out, prefix);
    push_all(&mut out, cell.as_bytes());
    push_all(&mut out, nonce.as_slice());
    push_all(&mut out, claimant.as_slice());
    out.push(rtt_bucket);
    push_u64_be(&mut out, timestamp);
    assert(out@ =~= attestation_input_spec(cell@, nonce@, claimant@, rtt_bucket, timestamp));
    out
}

impl PresenceAttestation {
    /// A witness signs a request.
    pub fn sign(witness: &Identity, request: &PresenceRequest, rtt_bucket: u8, timestamp: u64) -> (r: Self)
        ensures
            r@.cell == request@.cell,
            r@.nonce == request@.nonce,
            r@.claimant == request@.claimant,
            r.rtt_bucket == rtt_bucket,
            r.timestamp == timestamp,
            r@.witness == ed25519_public_spec(witness.signing_secret()),
            r@.signature == ed25519_sign_spec(witness.signing_secret(), r@.signed_input()),
            r@.signature_ok(),
    {
        let input = attestation_input(
            request.cell.as_str(),
            &request.nonce,
            &request.claimant,
            rtt_bucket,
            timestamp,
        );
        PresenceAttestation {
            cell: request.cell.clone(),
            nonce: request.nonce,
            claimant: request.claimant,
            rtt_bucket,
            timestamp,
            witness: witness.signing_public(),
            signature: witness.sign(input.as_slice()),
        }
    }

    /// Verify the witness signature.
    pub fn verify(&self) -> (r: Result<(), CoreError>)
        ensures
            r is Ok <==> self@.signature_ok(),
            r matches Err(e) ==> e matches CoreError::Verify,
    {
        let input = attestation_input(
            self.cell.as_str(),
            &self.nonce,
            &self.claimant,
            self.rtt_bucket,
            self.timestamp,
        );
        match verify(&self.witness, input.as_slice(), &self.signature) {
            Ok(()) => Ok(()),
            Err(_) => Err(CoreError::Verify),
        }
    }

    /// Encode as canonical CBOR.
    pub fn to_canonical(&self) -> (r: Vec<u8>)
        ensures
            r@ == self@.encoding(),
            self@.wf(),
    {
        let mut enc = Encoder::new();
        enc.array(7);
        enc.text(self.cell.as_str());
        enc.bytes(self.nonce.as_slice());
        enc.bytes(self.claimant.as_slice());
        enc.uint(self.rtt_bucket as u64);
        enc.uint(self.timestamp);
        enc.bytes(self.witness.as_slice());
        enc.bytes(self.signature.as_slice());
        let r = enc.into_bytes();
        let cell_len = self.cell.as_str().as_bytes().len();
        proof {
            reveal_with_fuel(tokens_bytes, 9);
            assert(r@ =~= self@.encoding());
            assert(cell_len == encode_utf8(self@.cell).len());
        }
        r
    }

    /// Decode from canonical CBOR: exactly the encodings of well-formed
    /// attestations are accepted.
    #[verifier::spinoff_prover]
    #[verifier::rlimit(100)]
    pub fn from_canonical(bytes: &[u8]) -> (r: Result<Self, CoreError>)
        ensures
            r matches Ok(x) ==> x@.wf() && x@.encoding() == bytes@,
            forall|v: AttestationView|
                v.wf() && #[trigger] v.encoding() == bytes@ ==> (r matches Ok(x) && x@ == v),
            r matches Err(e) ==> e matches CoreError::Cbor(_),
    {
        let ghost data = bytes@;
        let ghost has_v = exists|v: AttestationView| v.wf() && #[trigger] v.encoding() == data;
        let ghost v = choose|v: AttestationView| v.wf() && #[trigger] v.encoding() == data;
        let ghost whole = v.tokens();
        proof {
            if has_v {
                lemma_attestation_tokens_ok(v);
            }
        }
        let mut dec = Decoder::new(bytes);
        let ghost mut read: Seq<Token> = Seq::empty();
        assert(data.subrange(0, 0) =~= tokens_bytes(read));

        let ghost p = dec.position();
        proof { if has_v { lemma_stream_next(whole, data, p, read); } }
        let arity = dec.array()?;
        proof {
            lemma_stream_advance(data, p, read, Token::Array(arity as u64), (dec.position() - p) as nat);
            read = read.push(Token::Array(arity as u64));
        }
        let ghost p = dec.position();
        proof { if has_v { lemma_stream_next(whole, data, p, read); assert(whole[0] == read[0]); } }
        if arity != 7 {
            return Err(CoreError::Cbor("attestation arity"));
        }
        let cell = dec.text()?.to_owned();
        proof {
            lemma_stream_advance(data, p, read, Token::Text(cell@), (dec.position() - p) as nat);
            read = read.push(Token::Text(cell@));
        }
        let ghost p = dec.position();
        proof { if has_v { lemma_stream_next(whole, data, p, read); } }
        let nonce = dec.bytes_fixed::<16>()?;
        proof {
            lemma_stream_advance(data, p, read, Token::Bytes(nonce@), (dec.position() - p) as nat);
            read = read.push(Token::Bytes(nonce@));
        }
        let ghost p = dec.position();
        proof { if has_v { lemma_stream_next(whole, data, p, read); } }
        let claimant = dec.bytes_fixed::<32>()?;
        proof {
            lemma_stream_advance(data, p, read, Token::Bytes(claimant@), (dec.position() - p) as nat);
            read = read.push(Token::Bytes(claimant@));
        }
        let ghost p = dec.position();
        proof { if has_v { lemma_stream_next(whole, data, p, read); } }
        let rtt = dec.uint()?;
        proof {
            lemma_stream_advance(data, p, read, Token::Uint(rtt), (dec.position() - p) as nat);
            read = read.push(Token::Uint(rtt));
        }
        let ghost p = dec.position();
        proof { if has_v { lemma_stream_next(whole, data, p, read); assert(whole[4] == read[4]); } }
        if rtt > 0xff {
            return Err(CoreError::Cbor("rtt"));
        }
        let rtt_bucket = rtt as u8;
        let timestamp = dec.uint()?;
        proof {
            lemma_stream_advance(data, p, read, Token::Uint(timestamp), (dec.position() - p) as nat);
            read = read.push(Token::Uint(timestamp));
        }
        let ghost p = dec.position();
        proof { if has_v { lemma_stream_next(whole, data, p, read); } }
        let witness = dec.bytes_fixed::<32>()?;
        proof {
            lemma_stream_advance(data, p, read, Token::Bytes(witness@), (dec.position() - p) as nat);
            read = read.push(Token::Bytes(witness@));
        }
        let ghost p = dec.position();
        proof { if has_v { lemma_stream_next(whole, data, p, read); } }
        let signature = dec.bytes_fixed::<64>()?;
        proof {
            lemma_stream_advance(data, p, read, Token::Bytes(signature@), (dec.position() - p) as nat);
            read = read.push(Token::Bytes(signature@));
        }
        let ghost p = dec.position();
        proof { if has_v { lemma_stream_next(whole, data, p, read); } }
        dec.finish()?;
        let out = PresenceAttestation {
            cell,
            nonce,
            claimant,
            rtt_bucket,
            timestamp,
            witness,
            signature,
        };
        proof {
            assert(read =~= out@.tokens());
            assert(data.subrange(0, data.len() as int) =~= data);
            assert(token_ok(read[1]));
            assert forall|w: AttestationView| w.wf() && #[trigger] w.encoding() == data implies out@
                == w by {
                lemma_attestation_encoding_injective(w, out@);
            }
        }
        Ok(out)
    }
}

/// A certificate: a request plus a set of witness attestations.
#[derive(Clone, Debug, PartialEq, Eq)]
pub struct PresenceCert {
    /// The request the witnesses attest to.
    pub request: PresenceRequest,
    /// Witness attestations.
    pub attestations: Vec<PresenceAttestation>,
}

/// Why a certificate check failed, for the first attestation that fails.
pub enum CertFault {
    /// Fewer attestations than the threshold, or a zero threshold.
    Insufficient,
    /// An attestation names another cell, nonce or claimant.
    Mismatch,
    /// An attestation's signature does not verify.
    BadSignature,
    /// A witness attests twice.
    DuplicateWitness,
    /// The request has expired.
    Expired,
}

/// Whether an attestation is about `request`.
pub open spec fn attests_request(a: AttestationView, request: RequestView) -> bool {
    &&& a.cell == request.cell
    &&& a.nonce == request.nonce
    &&& a.claimant == request.claimant
}

/// Whether the witness of attestation `i` already attested earlier.
pub open spec fn witness_repeats(atts: Seq<PresenceAttestation>, i: int) -> bool {
    exists|j: int| 0 <= j < i && (#[trigger] atts[j]).witness@ == atts[i].witness@
}

/// The first failing check among attestations `i..`, in the order the
/// checks are made: request match, signature, distinct witness.
pub open spec fn first_fault(
    atts: Seq<PresenceAttestation>,
    request: RequestView,
    i: nat,
) -> Option<CertFault>
    decreases atts.len() - i,
{
    if i >= atts.len() {
        None
    } else if !attests_request(atts[i as int]@, request) {
        Some(CertFault::Mismatch)
    } else if !atts[i as int]@.signature_ok() {
        Some(CertFault::BadSignature)
    } else if witness_repeats(atts, i as int) {
        Some(CertFault::DuplicateWitness)
    } else {
        first_fault(atts, request, i + 1)
    }
}

/// The outcome of checking a certificate against a threshold.
pub open spec fn cert_fault(cert: PresenceCert, threshold: nat) -> Option<CertFault> {
    if cert.attestations@.len() < threshold || threshold == 0 {
        Some(CertFault::Insufficient)
    } else {
        first_fault(cert.attestations@, cert.request@, 0)
    }
}

/// The error a certificate fault is reported as.
pub open spec fn fault_error(fault: CertFault, e: CoreError) -> bool {
    match fault {
        CertFault::BadSignature => e matches CoreError::Verify,
        CertFault::Insufficient => e matches CoreError::Invalid(m) && m@ == "insufficient attestations"@,
        CertFault::Mismatch => e matches CoreError::Invalid(m) && m@ == "attestation does not match request"@,
        CertFault::DuplicateWitness => e matches CoreError::Invalid(m) && m@ == "duplicate witness"@,
        CertFault::Expired => e matches CoreError::Invalid(m) && m@ == "presence request expired"@,
    }
}

/// A certificate that `verify` accepts (one without faults) holds only
/// attestations for the request's own cell, nonce and claimant, field by
/// field.
pub proof fn lemma_accepted_cert_matches(cert: PresenceCert, threshold: nat)
    requires
        cert_fault(cert, threshold) is None,
    ensures
        forall|i: int|
            0 <= i < cert.attestations@.len() ==> {
                &&& (#[trigger] cert.attestations@[i]).cell@ == cert.request.cell@
                &&& cert.attestations@[i].nonce@ == cert.request.nonce@
                &&& cert.attestations@[i].claimant@ == cert.request.claimant@
            },
{
    lemma_valid_cert(cert, threshold);
    assert forall|i: int| 0 <= i < cert.attestations@.len() implies {
        &&& (#[trigger] cert.attestations@[i]).cell@ == cert.request.cell@
        &&& cert.attestations@[i].nonce@ == cert.request.nonce@
        &&& cert.attestations@[i].claimant@ == cert.request.claimant@
    } by {
        assert(attests_request(cert.attestations@[i]@, cert.request@));
    }
}

/// A certificate without faults: at least `threshold` attestations, each
/// about the request, each validly signed, each by a different witness.
pub proof fn lemma_valid_cert(cert: PresenceCert, threshold: nat)
    requires
        cert_fault(cert, threshold) is None,
    ensures
        threshold >= 1,
        cert.attestations@.len() >= threshold,
        forall|i: int|
            0 <= i < cert.attestations@.len() ==> attests_request(
                #[trigger] cert.attestations@[i]@,
                cert.request@,
            ) && cert.attestations@[i]@.signature_ok(),
        forall|i: int, j: int|
            0 <= i < j < cert.attestations@.len() ==> (#[trigger] cert.attestations@[i]).witness@
                != (#[trigger] cert.attestations@[j]).witness@,
{
    let atts = cert.attestations@;
    lemma_first_fault_none(atts, cert.request@, 0);
    assert forall|i: int, j: int| 0 <= i < j < atts.len() implies (#[trigger] atts[i]).witness@
        != (#[trigger] atts[j]).witness@ by {
        assert(attests_request(atts[j]@, cert.request@));
        assert(!witness_repeats(atts, j));
    }
    assert forall|i: int| 0 <= i < atts.len() implies attests_request(
        #[trigger] atts[i]@,
        cert.request@,
    ) && atts[i]@.signature_ok() by {
        assert(attests_request(atts[i]@, cert.request@));
    }
}

proof fn lemma_first_fault_none(atts: Seq<PresenceAttestation>, request: RequestView, k: nat)
    requires
        k <= atts.len(),
    ensures
        first_fault(atts, request, k) is None ==> forall|i: int|
            k <= i < atts.len() ==> attests_request(#[trigger] atts[i]@, request)
                && atts[i]@.signature_ok() && !witness_repeats(atts, i),
    decreases atts.len() - k,
{
    if k < atts.len() && first_fault(atts, request, k) is None {
        lemma_first_fault_none(atts, request, k + 1);
        assert forall|i: int| k <= i < atts.len() implies attests_request(
            #[trigger] atts[i]@,
            request,
        ) && atts[i]@.signature_ok() && !witness_repeats(atts, i) by {
            if i > k {
                assert(k + 1 <= i);
            }
        }
    }
}

fn contains_key(seen: &Vec<[u8; 32]>, key: &[u8; 32]) -> (r: bool)
    ensures
        r == exists|j: int| 0 <= j < seen@.len() && (#[trigger] seen@[j])@ == key@,
{
    let mut i: usize = 0;
    while i < seen.len()
        invariant
            i <= seen@.len(),
            forall|j: int| 0 <= j < i ==> (#[trigger] seen@[j])@ != key@,
        decreases seen@.len() - i,
    {
        if bytes_eq(seen[i].as_slice(), key.as_slice()) {
            return true;
        }
        i = i + 1;
    }
    false
}

impl PresenceCert {
    /// Verify the certificate: every attestation matches the request, has a
    /// valid signature, and has a distinct witness; the count must meet
    /// `threshold`.
    pub fn verify(&self, threshold: usize) -> (r: Result<(), CoreError>)
        ensures
            match cert_fault(*self, threshold as nat) {
                None => r is Ok,
                Some(f) => r matches Err(e) && fault_error(f, e),
            },
    {
        if self.attestations.len() < threshold || threshold == 0 {
            return Err(CoreError::Invalid("insufficient attestations"));
        }
        let mut seen: Vec<[u8; 32]> = Vec::new();
        let mut i: usize = 0;
        while i < self.attestations.len()
            invariant
                i <= self.attestations@.len(),
                self.attestations@.len() >= threshold,
                threshold > 0,
                seen@.len() == i,
                forall|j: int| 0 <= j < i ==> (#[trigger] seen@[j])@ == self.attestations@[j].witness@,
                first_fault(self.attestations@, self.request@, 0) == first_fault(
                    self.attestations@,
                    self.request@,
                    i as nat,
                ),
            decreases self.attestations@.len() - i,
        {
            let attestation = &self.attestations[i];
            if !(attestation.cell == self.request.cell) || !bytes_eq(
                attestation.nonce.as_slice(),
                self.request.nonce.as_slice(),
            ) || !bytes_eq(attestation.claimant.as_slice(), self.request.claimant.as_slice()) {
                return Err(CoreError::Invalid("attestation does not match request"));
            }
            match attestation.verify() {
                Ok(()) => {},
                Err(e) => {
                    assert(attests_request(self.attestations@[i as int]@, self.request@));
                    assert(!self.attestations@[i as int]@.signature_ok());
                    assert(first_fault(self.attestations@, self.request@, i as nat) == Some(CertFault::BadSignature));
                    assert(cert_fault(*self, threshold as nat) == Some(CertFault::BadSignature));
                    assert(e matches CoreError::Verify);
                    return Err(e);
                },
            }
            if contains_key(&seen, &attestation.witness) {
                proof {
                    let j = choose|j: int| 0 <= j < seen@.len() && (#[trigger] seen@[j])@ == attestation.witness@;
                    assert(self.attestations@[j].witness@ == self.attestations@[i as int].witness@);
                    assert(witness_repeats(self.attestations@, i as int));
                }
                return Err(CoreError::Invalid("duplicate witness"));
            }
            proof {
                if witness_repeats(self.attestations@, i as int) {
                    let j = choose|j: int| 0 <= j < i && (#[trigger] self.attestations@[j]).witness@ == self.attestations@[i as int].witness@;
                    assert(seen@[j]@ == attestation.witness@);
                }
            }
            seen.push(attestation.witness);
            i = i + 1;
        }
        Ok(())
    }

    /// Verify and additionally check that the request has not expired at `now`.
    pub fn verify_at(&self, threshold: usize, now: u64) -> (r: Result<(), CoreError>)
        ensures
            if self.request.expiry != 0 && now > self.request.expiry {
                r matches Err(e) && fault_error(CertFault::Expired, e)
            } else {
                match cert_fault(*self, threshold as nat) {
                    None => r is Ok,
                    Some(f) => r matches Err(e) && fault_error(f, e),
                }
            },
    {
        if self.request.expiry != 0 && now > self.request.expiry {
            return Err(CoreError::Invalid("presence request expired"));
        }
        self.verify(threshold)
    }

    /// The number of distinct witnesses.
    pub fn witness_count(&self) -> (r: usize)
        ensures
            r == distinct_witnesses(self.attestations@, self.attestations@.len() as nat),
    {
        let n = self.attestations.len();
        let mut count: usize = 0;
        let mut i: usize = 0;
        while i < n
            invariant
                n == self.attestations@.len(),
                i <= n,
                count == distinct_witnesses(self.attestations@, i as nat),
                count <= i,
            decreases n - i,
        {
            let mut seen = false;
            let mut j: usize = 0;
            while j < i
                invariant
                    n == self.attestations@.len(),
                    i < n,
                    j <= i,
                    seen == exists|k: int| 0 <= k < j && self.attestations@[k].witness@
                        == self.attestations@[i as int].witness@,
                decreases i - j,
            {
                if bytes_eq(self.attestations[j].witness.as_slice(), self.attestations[i].witness.as_slice()) {
                    seen = true;
                }
                j = j + 1;
            }
            if !seen {
                count = count + 1;
            }
            i = i + 1;
        }
        count
    }
}

/// The number of distinct witness keys among the first `n` attestations:
/// each key counts at its first occurrence.
pub open spec fn distinct_witnesses(atts: Seq<PresenceAttestation>, n: nat) -> nat
    decreases n,
{
    if n == 0 {
        0
    } else {
        let i = n - 1;
        distinct_witnesses(atts, (n - 1) as nat) + if exists|k: int| 0 <= k < i && atts[k].witness@ == atts[i].witness@ {
            0nat
        } else {
            1nat
        }
    }
}

} // verus!
