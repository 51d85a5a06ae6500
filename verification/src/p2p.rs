//! The decisions of the peer-to-peer transport: what a node answers to a
//! request, what it keeps from gossip, and what a reply means.
//!
//! The transport itself (dialling, streams, gossip meshes, the DHT) runs
//! outside the library; it hands the library plain messages and bytes.
use vstd::prelude::*;
use crate::bytes::concat_str;
use crate::hash::sha256_spec;
use crate::keys::ed25519_verify_spec;
use crate::node::{MemoryStore, Storage};
use crate::protocol::{Message, MessageView, MAX_FRAME};
use crate::types::{envelope_encoding, signing_input_spec, DropId, SignedDrop};

verus! {

/// The request/response protocol identifier.
pub const DROP_PROTOCOL: &'static str = "/keepstone/drop/1";

/// Prefix of every cell's gossip topic.
pub const CELL_TOPIC_PREFIX: &'static str = "keepstone/drops/v1/cell/";

/// The gossipsub topic for a cell.
pub fn cell_topic(cell: &str) -> (r: String)
    ensures
        r@ == CELL_TOPIC_PREFIX@ + cell@,
{
    concat_str(CELL_TOPIC_PREFIX, cell)
}

/// Errors from the p2p transport.
#[derive(Debug)]
pub enum P2pError {
    /// Transport construction failed.
    Transport(String),
    /// The peer could not be reached.
    Connection,
    /// The peer sent something malformed.
    Protocol,
    /// No reply arrived before the deadline.
    Timeout,
}

/// A codec that frames [`Message`] values using the canonical encoding.
#[derive(Debug, Default, Clone, Copy)]
pub struct MessageCodec;

impl MessageCodec {
    /// Whether a stream that has delivered `received` bytes so far may keep
    /// going: nothing above [`MAX_FRAME`] is buffered.
    pub fn within_limit(&self, received: usize) -> (r: bool)
        ensures
            r == (received <= MAX_FRAME),
    {
        received <= MAX_FRAME
    }
}

/// What a node answers to a request: the envelope or chunk it holds, a miss
/// otherwise; any other message is echoed back.
pub open spec fn response_spec(store: MemoryStore, request: MessageView) -> MessageView {
    match request {
        MessageView::Want(id) => if store.drops().dom().contains(id) {
            MessageView::Drop(store.drops()[id])
        } else {
            MessageView::Missing(id)
        },
        MessageView::WantChunk(id, index) => if store.chunks().dom().contains((id, index)) {
            MessageView::Chunk(id, index, store.chunks()[(id, index)])
        } else {
            MessageView::Missing(id)
        },
        other => other,
    }
}

/// Answer a request from the store.
pub fn respond(store: &MemoryStore, request: Message) -> (r: Message)
    requires
        store.wf(),
    ensures
        r@ == response_spec(*store, request@),
{
    match request {
        Message::Want(id) => match store.get_drop(&id) {
            Some(bytes) => Message::Drop(crate::bytes::to_vec(bytes)),
            None => Message::Missing(id),
        },
        Message::WantChunk(id, index) => match store.get_chunk(&id, index) {
            Some(bytes) => Message::Chunk(id, index, crate::bytes::to_vec(bytes)),
            None => Message::Missing(id),
        },
        other => other,
    }
}

/// Whether gossiped bytes are a signed drop whose signature verifies.
pub open spec fn gossip_acceptable(data: Seq<u8>) -> bool {
    exists|suite: u8, signer: Seq<u8>, payload: Seq<u8>, signature: Seq<u8>|
        signer.len() == 32 && signature.len() == 64 && payload.len() <= usize::MAX && data
            == #[trigger] envelope_encoding(suite, signer, payload, signature) && ed25519_verify_spec(
            signer,
            signing_input_spec(payload),
            signature,
        )
}

/// Keep a gossiped drop only if it decodes and its signature verifies; it is
/// stored under the hash of its exact bytes. Returns whether it was kept.
pub fn accept_gossip(store: &mut MemoryStore, data: &[u8]) -> (r: bool)
    requires
        old(store).wf(),
    ensures
        final(store).wf(),
        r == gossip_acceptable(data@),
        r ==> final(store).drops() == old(store).drops().insert(sha256_spec(data@), data@),
        !r ==> final(store).drops() == old(store).drops(),
        final(store).chunks() == old(store).chunks(),
{
    let signed = match SignedDrop::decode(data) {
        Ok(s) => s,
        Err(_) => {
            return false;
        },
    };
    match signed.verify() {
        Ok(()) => {},
        Err(_) => {
            proof {
                assert(!gossip_acceptable(data@));
            }
            return false;
        },
    }
    let id = signed.id();
    let payload_len = signed.payload.len();
    proof {
        assert(data@ == envelope_encoding(signed.suite, signed.signer@, signed.payload@, signed.signature@));
        assert(signed.payload@.len() <= usize::MAX);
        assert(gossip_acceptable(data@));
    }
    store.put_drop(id, crate::bytes::to_vec(data));
    true
}

/// What a reply to a drop request means: the envelope, a miss, or a
/// protocol error.
pub fn drop_reply(reply: Message) -> (r: Result<Option<Vec<u8>>, P2pError>)
    ensures
        match reply@ {
            MessageView::Drop(bytes) => r matches Ok(Some(v)) && v@ == bytes,
            MessageView::Missing(_) => r matches Ok(None),
            _ => r matches Err(P2pError::Protocol),
        },
{
    match reply {
        Message::Drop(bytes) => Ok(Some(bytes)),
        Message::Missing(_) => Ok(None),
        _ => Err(P2pError::Protocol),
    }
}

/// What a reply to a chunk request means: the chunk, a miss, or a protocol
/// error.
pub fn chunk_reply(reply: Message) -> (r: Result<Option<Vec<u8>>, P2pError>)
    ensures
        match reply@ {
            MessageView::Chunk(_, _, bytes) => r matches Ok(Some(v)) && v@ == bytes,
            MessageView::Missing(_) => r matches Ok(None),
            _ => r matches Err(P2pError::Protocol),
        },
{
    match reply {
        Message::Chunk(_, _, bytes) => Ok(Some(bytes)),
        Message::Missing(_) => Ok(None),
        _ => Err(P2pError::Protocol),
    }
}

} // verus!
