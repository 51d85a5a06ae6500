//! What a node answers on a peer connection, one message at a time; the
//! transport reads each message, sends the reply and stops when told.
use vstd::prelude::*;
use vstd::string::*;
use crate::bytes::str_eq;
use crate::hash::sha256_spec;
use crate::keys::{ed25519_public_spec, ed25519_sign_spec, Identity};
use crate::node::{MemoryStore, Storage};
use crate::p2p::respond;
use crate::presence::{attestation_input_spec, AttestationView, PresenceAttestation, PresenceRequest, RequestView};
use crate::protocol::{Message, MessageView};
use crate::types::DropId;

verus! {

/// What a drop-serving peer answers to one message, and whether the
/// connection goes on: a greeting is echoed, requests for drops and chunks
/// are answered from the store, anything else ends the exchange with `Bye`.
pub open spec fn peer_reply_spec(store: MemoryStore, m: MessageView) -> (MessageView, bool) {
    match m {
        MessageView::Hello(v) => (MessageView::Hello(v), true),
        MessageView::Want(id) => (
            if store.drops().dom().contains(id) {
                MessageView::Drop(store.drops()[id])
            } else {
                MessageView::Missing(id)
            },
            true,
        ),
        MessageView::WantChunk(id, index) => (
            if store.chunks().dom().contains((id, index)) {
                MessageView::Chunk(id, index, store.chunks()[(id, index)])
            } else {
                MessageView::Missing(id)
            },
            true,
        ),
        _ => (MessageView::Bye, false),
    }
}

/// Answer one message on a drop-serving connection.
pub fn peer_reply(store: &MemoryStore, message: Message) -> (r: (Message, bool))
    requires
        store.wf(),
    ensures
        (r.0@, r.1) == peer_reply_spec(*store, message@),
{
    match message {
        Message::Hello(v) => (Message::Hello(v), true),
        Message::Want(id) => (respond(store, Message::Want(id)), true),
        Message::WantChunk(id, index) => (respond(store, Message::WantChunk(id, index)), true),
        _ => (Message::Bye, false),
    }
}

/// The text whose hash marks a presence request for another cell.
pub const CELL_MISMATCH: &'static str = "cell";

/// The attestation a witness gives for a request: bucket zero, stamped at
/// `now`, signed with the witness key.
pub open spec fn witness_attestation(secret: Seq<u8>, req: RequestView, now: u64) -> AttestationView {
    AttestationView {
        cell: req.cell,
        nonce: req.nonce,
        claimant: req.claimant,
        rtt_bucket: 0,
        timestamp: now,
        witness: ed25519_public_spec(secret),
        signature: ed25519_sign_spec(secret, attestation_input_spec(req.cell, req.nonce, req.claimant, 0, now)),
    }
}

/// What a witness for `cell` answers to one message, and whether the
/// connection goes on: a greeting is echoed; a presence request for the
/// cell is attested, one for another cell is answered with a miss, and a
/// malformed one ends the exchange; anything else ends it too.
pub open spec fn witness_reply_spec(secret: Seq<u8>, cell: Seq<char>, m: MessageView, now: u64) -> (MessageView, bool) {
    match m {
        MessageView::Hello(v) => (MessageView::Hello(v), true),
        MessageView::Presence(b) => if exists|v: RequestView| v.wf() && #[trigger] v.encoding() == b {
            let v = choose|v: RequestView| v.wf() && #[trigger] v.encoding() == b;
            if v.cell == cell {
                (MessageView::Attestation(witness_attestation(secret, v, now).encoding()), true)
            } else {
                (MessageView::Missing(sha256_spec(CELL_MISMATCH.spec_bytes())), true)
            }
        } else {
            (MessageView::Bye, false)
        },
        _ => (MessageView::Bye, false),
    }
}

/// Answer one message on a witness connection at time `now`.
pub fn witness_reply(witness: &Identity, cell: &str, message: Message, now: u64) -> (r: (Message, bool))
    ensures
        (r.0@, r.1) == witness_reply_spec(witness.signing_secret(), cell@, message@, now),
{
    match message {
        Message::Hello(v) => (Message::Hello(v), true),
        Message::Presence(bytes) => {
            let request = match PresenceRequest::from_canonical(bytes.as_slice()) {
                Ok(r) => r,
                Err(_) => {
                    return (Message::Bye, false);
                },
            };
            proof {
                let b = bytes@;
                assert(exists|v: RequestView| v.wf() && #[trigger] v.encoding() == b) by {
                    assert(request@.wf() && request@.encoding() == b);
                }
                let v = choose|v: RequestView| v.wf() && #[trigger] v.encoding() == b;
                crate::presence::lemma_request_encoding_injective(v, request@);
            }
            if !str_eq(request.cell.as_str(), cell) {
                return (Message::Missing(DropId::of(CELL_MISMATCH.as_bytes())), true);
            }
            let attestation = PresenceAttestation::sign(witness, &request, 0, now);
            assert(attestation@ == witness_attestation(witness.signing_secret(), request@, now));
            (Message::Attestation(attestation.to_canonical()), true)
        },
        _ => (Message::Bye, false),
    }
}

} // verus!
