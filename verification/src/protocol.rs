//! Peer-to-peer wire protocol for drop exchange.
//!
//! Messages are encoded with canonical CBOR as `[tag, payload-bytes]` and
//! framed with a big-endian length prefix, so the same framing works over
//! any byte stream. Only ciphertext envelopes ever cross the wire.
use vstd::prelude::*;
use crate::bytes::{be_u32, lemma_u32_be_roundtrip, push_all, push_u32_be, read_u32_be, to_array, to_vec, u32_from_be};
use crate::cbor::{
    items_view, lemma_parse_tokens_canonical, lemma_parse_tokens_of_bytes, Decoder, Encoder, Item,
    Token, token_ok, tokens_bytes, tokens_ok,
};
use crate::node::NodeError;
use crate::types::DropId;

verus! {

/// Maximum accepted frame size (8 MiB) to bound memory use.
pub const MAX_FRAME: usize = 8 * 1024 * 1024;

/// Protocol version.
pub const PROTOCOL_VERSION: u8 = 1;

/// Tag of [`Message::Hello`].
pub const TAG_HELLO: u64 = 0;
/// Tag of [`Message::Want`].
pub const TAG_WANT: u64 = 1;
/// Tag of [`Message::Drop`].
pub const TAG_DROP: u64 = 2;
/// Tag of [`Message::Missing`].
pub const TAG_MISSING: u64 = 3;
/// Tag of [`Message::Bye`].
pub const TAG_BYE: u64 = 4;
/// Tag of [`Message::WantChunk`].
pub const TAG_WANT_CHUNK: u64 = 5;
/// Tag of [`Message::Chunk`].
pub const TAG_CHUNK: u64 = 6;
/// Tag of [`Message::Presence`].
pub const TAG_PRESENCE: u64 = 7;
/// Tag of [`Message::Attestation`].
pub const TAG_ATTESTATION: u64 = 8;

/// A peer protocol message.
#[derive(Clone, Debug, PartialEq, Eq)]
pub enum Message {
    /// Greeting carrying the sender's protocol version.
    Hello(u8),
    /// Ask a peer for a drop by id.
    Want(DropId),
    /// Reply containing the raw signed envelope.
    Drop(Vec<u8>),
    /// Reply indicating the drop is not held.
    Missing(DropId),
    /// Ask a peer for one ciphertext chunk.
    WantChunk(DropId, u32),
    /// Reply containing one ciphertext chunk.
    Chunk(DropId, u32, Vec<u8>),
    /// A presence request (encoded `PresenceRequest`).
    Presence(Vec<u8>),
    /// A witness attestation (encoded `PresenceAttestation`).
    Attestation(Vec<u8>),
    /// Polite close.
    Bye,
}

/// The abstract content of a [`Message`].
pub ghost enum MessageView {
    Hello(u8),
    Want(Seq<u8>),
    Drop(Seq<u8>),
    Missing(Seq<u8>),
    WantChunk(Seq<u8>, u32),
    Chunk(Seq<u8>, u32, Seq<u8>),
    Presence(Seq<u8>),
    Attestation(Seq<u8>),
    Bye,
}

impl View for Message {
    type V = MessageView;

    open spec fn view(&self) -> MessageView {
        match self {
            Message::Hello(v) => MessageView::Hello(*v),
            Message::Want(id) => MessageView::Want(id.0@),
            Message::Drop(raw) => MessageView::Drop(raw@),
            Message::Missing(id) => MessageView::Missing(id.0@),
            Message::WantChunk(id, i) => MessageView::WantChunk(id.0@, *i),
            Message::Chunk(id, i, data) => MessageView::Chunk(id.0@, *i, data@),
            Message::Presence(b) => MessageView::Presence(b@),
            Message::Attestation(b) => MessageView::Attestation(b@),
            Message::Bye => MessageView::Bye,
        }
    }
}

/// The tag of a message.
pub open spec fn message_tag(m: MessageView) -> u64 {
    match m {
        MessageView::Hello(_) => TAG_HELLO,
        MessageView::Want(_) => TAG_WANT,
        MessageView::Drop(_) => TAG_DROP,
        MessageView::Missing(_) => TAG_MISSING,
        MessageView::WantChunk(_, _) => TAG_WANT_CHUNK,
        MessageView::Chunk(_, _, _) => TAG_CHUNK,
        MessageView::Presence(_) => TAG_PRESENCE,
        MessageView::Attestation(_) => TAG_ATTESTATION,
        MessageView::Bye => TAG_BYE,
    }
}

/// The payload bytes of a message: ids are 32 bytes, chunk indices four
/// big-endian bytes after the id.
pub open spec fn message_payload(m: MessageView) -> Seq<u8> {
    match m {
        MessageView::Hello(v) => seq![v],
        MessageView::Want(id) => id,
        MessageView::Drop(raw) => raw,
        MessageView::Missing(id) => id,
        MessageView::WantChunk(id, i) => id + be_u32(i),
        MessageView::Chunk(id, i, data) => id + be_u32(i) + data,
        MessageView::Presence(b) => b,
        MessageView::Attestation(b) => b,
        MessageView::Bye => Seq::empty(),
    }
}

/// The data items of a `[tag, payload]` pair.
pub open spec fn frame_tokens(tag: u64, payload: Seq<u8>) -> Seq<Token> {
    seq![Token::Array(2), Token::Uint(tag), Token::Bytes(payload)]
}

/// The canonical encoding of a message.
pub open spec fn message_encoding(m: MessageView) -> Seq<u8> {
    tokens_bytes(frame_tokens(message_tag(m), message_payload(m)))
}

/// The message a tag and payload stand for, if any. A greeting uses the
/// first payload byte; chunk messages need at least an id and an index.
pub open spec fn payload_message(tag: u64, p: Seq<u8>) -> Option<MessageView> {
    if tag == TAG_HELLO {
        if p.len() >= 1 {
            Some(MessageView::Hello(p[0]))
        } else {
            None
        }
    } else if tag == TAG_WANT {
        if p.len() == 32 {
            Some(MessageView::Want(p))
        } else {
            None
        }
    } else if tag == TAG_DROP {
        Some(MessageView::Drop(p))
    } else if tag == TAG_MISSING {
        if p.len() == 32 {
            Some(MessageView::Missing(p))
        } else {
            None
        }
    } else if tag == TAG_WANT_CHUNK {
        if p.len() >= 36 {
            Some(MessageView::WantChunk(p.take(32), u32_from_be(p.subrange(32, 36))))
        } else {
            None
        }
    } else if tag == TAG_CHUNK {
        if p.len() >= 36 {
            Some(MessageView::Chunk(p.take(32), u32_from_be(p.subrange(32, 36)), p.skip(36)))
        } else {
            None
        }
    } else if tag == TAG_PRESENCE {
        Some(MessageView::Presence(p))
    } else if tag == TAG_ATTESTATION {
        Some(MessageView::Attestation(p))
    } else if tag == TAG_BYE {
        Some(MessageView::Bye)
    } else {
        None
    }
}

/// Whether `bytes` is the encoding of some `[tag, payload]` pair.
pub open spec fn is_frame(bytes: Seq<u8>) -> bool {
    exists|tag: u64, p: Seq<u8>| p.len() <= usize::MAX && bytes == #[trigger] tokens_bytes(frame_tokens(tag, p))
}

/// The message that `bytes` decodes to, if any.
pub open spec fn decoded(bytes: Seq<u8>) -> Option<MessageView> {
    if is_frame(bytes) {
        let (tag, p) = choose|tag: u64, p: Seq<u8>|
            p.len() <= usize::MAX && bytes == #[trigger] tokens_bytes(frame_tokens(tag, p));
        payload_message(tag, p)
    } else {
        None
    }
}

/// The frame items are representable, and read back from their encoding.
proof fn lemma_frame_parse(tag: u64, p: Seq<u8>)
    requires
        p.len() <= usize::MAX,
    ensures
        crate::cbor::parse_tokens(tokens_bytes(frame_tokens(tag, p)), 3) == Some(
            (frame_tokens(tag, p), tokens_bytes(frame_tokens(tag, p)).len()),
        ),
{
    let ts = frame_tokens(tag, p);
    assert(tokens_ok(ts)) by {
        assert forall|i: int| 0 <= i < ts.len() implies token_ok(#[trigger] ts[i]) by {}
    }
    lemma_parse_tokens_of_bytes(ts, Seq::<u8>::empty());
    assert(tokens_bytes(ts) + Seq::<u8>::empty() =~= tokens_bytes(ts));
}

/// Different `[tag, payload]` pairs have different encodings.
proof fn lemma_frame_injective(t1: u64, p1: Seq<u8>, t2: u64, p2: Seq<u8>)
    requires
        p1.len() <= usize::MAX,
        p2.len() <= usize::MAX,
        tokens_bytes(frame_tokens(t1, p1)) == tokens_bytes(frame_tokens(t2, p2)),
    ensures
        t1 == t2,
        p1 == p2,
{
    lemma_frame_parse(t1, p1);
    lemma_frame_parse(t2, p2);
    assert(frame_tokens(t1, p1)[1] == frame_tokens(t2, p2)[1]);
    assert(frame_tokens(t1, p1)[2] == frame_tokens(t2, p2)[2]);
}

/// A payload read back as the message it was made from.
proof fn lemma_payload_roundtrip(m: MessageView)
    requires
        message_wf(m),
    ensures
        payload_message(message_tag(m), message_payload(m)) == Some(m),
{
    match m {
        MessageView::WantChunk(id, i) => {
            let p = message_payload(m);
            lemma_u32_be_roundtrip(i);
            assert(p.take(32) =~= id);
            assert(p.subrange(32, 36) =~= be_u32(i));
        },
        MessageView::Chunk(id, i, data) => {
            let p = message_payload(m);
            lemma_u32_be_roundtrip(i);
            assert(p.take(32) =~= id);
            assert(p.subrange(32, 36) =~= be_u32(i));
            assert(p.skip(36) =~= data);
        },
        _ => {},
    }
}

/// Ids are 32 bytes and every payload fits in memory.
pub open spec fn message_wf(m: MessageView) -> bool {
    &&& message_payload(m).len() <= usize::MAX
    &&& match m {
        MessageView::Want(id) => id.len() == 32,
        MessageView::Missing(id) => id.len() == 32,
        MessageView::WantChunk(id, _) => id.len() == 32,
        MessageView::Chunk(id, _, _) => id.len() == 32,
        _ => true,
    }
}

/// Every well-formed message decodes from its encoding back to itself.
pub proof fn lemma_message_roundtrip(m: MessageView)
    requires
        message_wf(m),
    ensures
        decoded(message_encoding(m)) == Some(m),
{
    let t = message_tag(m);
    let p = message_payload(m);
    let bytes = message_encoding(m);
    assert(is_frame(bytes));
    let (t2, p2) = choose|tag: u64, q: Seq<u8>|
        q.len() <= usize::MAX && bytes == #[trigger] tokens_bytes(frame_tokens(tag, q));
    lemma_frame_injective(t, p, t2, p2);
    lemma_payload_roundtrip(m);
}

impl Message {
    /// Encode the message as canonical CBOR (without framing).
    pub fn encode(&self) -> (r: Vec<u8>)
        ensures
            r@ == message_encoding(self@),
    {
        let mut enc = Encoder::new();
        enc.array(2);
        let mut payload: Vec<u8> = Vec::new();
        let tag: u64 = match self {
            Message::Hello(version) => {
                payload.push(*version);
                TAG_HELLO
            },
            Message::Want(id) => {
                push_all(&mut payload, id.0.as_slice());
                TAG_WANT
            },
            Message::Drop(raw) => {
                push_all(&mut payload, raw.as_slice());
                TAG_DROP
            },
            Message::Missing(id) => {
                push_all(&mut payload, id.0.as_slice());
                TAG_MISSING
            },
            Message::WantChunk(id, index) => {
                push_all(&mut payload, id.0.as_slice());
                push_u32_be(&mut payload, *index);
                TAG_WANT_CHUNK
            },
            Message::Chunk(id, index, data) => {
                push_all(&mut payload, id.0.as_slice());
                push_u32_be(&mut payload, *index);
                push_all(&mut payload, data.as_slice());
                TAG_CHUNK
            },
            Message::Presence(bytes) => {
                push_all(&mut payload, bytes.as_slice());
                TAG_PRESENCE
            },
            Message::Attestation(bytes) => {
                push_all(&mut payload, bytes.as_slice());
                TAG_ATTESTATION
            },
            Message::Bye => TAG_BYE,
        };
        assert(payload@ =~= message_payload(self@));
        enc.uint(tag);
        enc.bytes(payload.as_slice());
        proof {
            reveal_with_fuel(tokens_bytes, 4);
            assert(enc@ =~= message_encoding(self@));
        }
        enc.into_bytes()
    }

    /// Decode a message from canonical CBOR: exactly the encodings of
    /// `[tag, payload]` pairs whose payload fits the tag are accepted.
    #[verifier::spinoff_prover]
    #[verifier::rlimit(50)]
    pub fn decode(bytes: &[u8]) -> (r: Result<Message, NodeError>)
        ensures
            match decoded(bytes@) {
                Some(m) => r matches Ok(x) && x@ == m,
                None => r matches Err(e) && e is Protocol,
            },
    {
        let ghost data = bytes@;
        let ghost (gt, gp) = choose|tag: u64, p: Seq<u8>|
            p.len() <= usize::MAX && data == #[trigger] tokens_bytes(frame_tokens(tag, p));
        proof {
            if is_frame(data) {
                lemma_frame_parse(gt, gp);
            }
        }
        let mut dec = Decoder::new(bytes);
        proof {
            assert(dec.rest() =~= data);
        }
        let items = match dec.items(3) {
            Ok(v) => v,
            Err(_) => {
                return Err(NodeError::Protocol("malformed"));
            },
        };
        proof {
            lemma_parse_tokens_canonical(data, 3);
            assert(items_view(items@)[0] == items@[0]@);
            assert(items_view(items@)[1] == items@[1]@);
            assert(items_view(items@)[2] == items@[2]@);
        }
        let arity_ok = match &items[0] {
            Item::Array(n) => *n == 2,
            _ => false,
        };
        if !arity_ok {
            return Err(NodeError::Protocol("arity"));
        }
        let tag: u64 = match &items[1] {
            Item::Uint(t) => *t,
            _ => {
                return Err(NodeError::Protocol("tag"));
            },
        };
        let payload: &Vec<u8> = match &items[2] {
            Item::Bytes(b) => b,
            _ => {
                return Err(NodeError::Protocol("payload"));
            },
        };
        match dec.finish() {
            Ok(()) => {},
            Err(_) => {
                return Err(NodeError::Protocol("trailing"));
            },
        }
        proof {
            assert(items_view(items@) =~= frame_tokens(tag, payload@));
            assert(data =~= data.subrange(0, data.len() as int));
            assert(is_frame(data));
            lemma_frame_injective(tag, payload@, gt, gp);
        }
        let p = payload.as_slice();
        if tag == TAG_HELLO {
            if p.len() < 1 {
                return Err(NodeError::Protocol("hello"));
            }
            Ok(Message::Hello(p[0]))
        } else if tag == TAG_WANT {
            if p.len() != 32 {
                return Err(NodeError::Protocol("id length"));
            }
            Ok(Message::Want(DropId(to_array(p))))
        } else if tag == TAG_DROP {
            Ok(Message::Drop(to_vec(p)))
        } else if tag == TAG_MISSING {
            if p.len() != 32 {
                return Err(NodeError::Protocol("id length"));
            }
            Ok(Message::Missing(DropId(to_array(p))))
        } else if tag == TAG_WANT_CHUNK || tag == TAG_CHUNK {
            if p.len() < 36 {
                return Err(NodeError::Protocol("chunk header"));
            }
            let id = DropId(to_array(&p[0..32]));
            let index = read_u32_be(p, 32);
            proof {
                assert(p@.subrange(0, 32) =~= p@.take(32));
            }
            if tag == TAG_WANT_CHUNK {
                Ok(Message::WantChunk(id, index))
            } else {
                let rest = to_vec(&p[36..p.len()]);
                assert(rest@ =~= p@.skip(36));
                Ok(Message::Chunk(id, index, rest))
            }
        } else if tag == TAG_PRESENCE {
            Ok(Message::Presence(to_vec(p)))
        } else if tag == TAG_ATTESTATION {
            Ok(Message::Attestation(to_vec(p)))
        } else if tag == TAG_BYE {
            Ok(Message::Bye)
        } else {
            Err(NodeError::Protocol("unknown tag"))
        }
    }
}

/// A framed message: the big-endian length of the encoding, then the
/// encoding.
pub open spec fn framed(m: MessageView) -> Seq<u8> {
    be_u32(message_encoding(m).len() as u32) + message_encoding(m)
}

/// Prefix a message with its big-endian length, enforcing [`MAX_FRAME`].
pub fn frame(message: &Message) -> (r: Result<Vec<u8>, NodeError>)
    ensures
        message_encoding(message@).len() > MAX_FRAME ==> (r matches Err(e) && e is Protocol),
        message_encoding(message@).len() <= MAX_FRAME ==> (r matches Ok(v) && v@ == framed(message@)),
{
    let body = message.encode();
    if body.len() > MAX_FRAME {
        return Err(NodeError::Protocol("frame too large"));
    }
    let mut out: Vec<u8> = Vec::new();
    push_u32_be(&mut out, body.len() as u32);
    push_all(&mut out, body.as_slice());
    Ok(out)
}

} // verus!
