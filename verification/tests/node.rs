use keepstone::keys::Identity;
use keepstone::node::{Clock, FixedClock, MemoryStore, NodeError, Storage, SystemClock};
use keepstone::p2p::{
    accept_gossip, cell_topic, chunk_reply, drop_reply, respond, MessageCodec, P2pError,
};
use keepstone::protocol::{frame, Message, MAX_FRAME};
use keepstone::relay::{Relay, RelayError};
use keepstone::types::{DropBody, DropId, SignedDrop};

#[test]
fn memory_store_round_trips() {
    let mut store = MemoryStore::new();
    let id = DropId::of(b"drop");
    store.put_drop(id, b"envelope".to_vec());
    store.put_chunk(id, 1, b"one".to_vec());
    store.put_chunk(id, 0, b"zero".to_vec());
    assert_eq!(store.get_drop(&id), Some(&b"envelope"[..]));
    assert_eq!(store.get_chunk(&id, 0), Some(&b"zero"[..]));
    assert_eq!(store.chunk_indices(&id), vec![0, 1]);
}

#[test]
fn memory_store_replaces_and_separates_entries() {
    let mut store = MemoryStore::new();
    let a = DropId::of(b"a");
    let b = DropId::of(b"b");
    store.put_drop(a, b"first".to_vec());
    store.put_drop(a, b"second".to_vec());
    store.put_chunk(a, 5, b"x".to_vec());
    store.put_chunk(a, 5, b"y".to_vec());
    store.put_chunk(a, 2, b"z".to_vec());
    store.put_chunk(b, 3, b"w".to_vec());
    assert_eq!(store.get_drop(&a), Some(&b"second"[..]));
    assert_eq!(store.get_drop(&b), None);
    assert_eq!(store.get_chunk(&a, 5), Some(&b"y"[..]));
    assert_eq!(store.get_chunk(&a, 3), None);
    assert_eq!(store.chunk_indices(&a), vec![2, 5]);
    assert_eq!(store.chunk_indices(&b), vec![3]);
    assert!(store.chunk_indices(&DropId::of(b"c")).is_empty());
}

#[test]
fn fixed_clock_is_stable() {
    assert_eq!(FixedClock(42).now_unix(), 42);
}

#[test]
fn system_clock_is_after_2023() {
    assert!(SystemClock.now_unix() > 1_700_000_000);
}

// ---- protocol ----

fn round_trip(message: Message) {
    let encoded = message.encode();
    assert_eq!(Message::decode(&encoded).unwrap(), message);
}

#[test]
fn messages_round_trip() {
    round_trip(Message::Hello(1));
    round_trip(Message::Want(DropId::of(b"a")));
    round_trip(Message::Drop(vec![1, 2, 3]));
    round_trip(Message::Missing(DropId::of(b"b")));
    round_trip(Message::WantChunk(DropId::of(b"c"), 7));
    round_trip(Message::Chunk(DropId::of(b"d"), 2, vec![9, 8, 7]));
    round_trip(Message::Presence(vec![1, 2, 3]));
    round_trip(Message::Attestation(vec![4, 5, 6]));
    round_trip(Message::Bye);
}

#[test]
fn framing_prefixes_length() {
    let framed = frame(&Message::Bye).unwrap();
    let len = u32::from_be_bytes(framed[..4].try_into().unwrap()) as usize;
    assert_eq!(len, framed.len() - 4);
    assert_eq!(Message::decode(&framed[4..]).unwrap(), Message::Bye);
}

#[test]
fn rejects_garbage() {
    assert!(Message::decode(&[0xFF, 0xFF]).is_err());
}

#[test]
fn message_encodings_are_tag_payload_pairs() {
    // Each message is the array [tag, payload bytes].
    assert_eq!(Message::Bye.encode(), vec![0x82, 0x04, 0x40]);
    assert_eq!(Message::Hello(1).encode(), vec![0x82, 0x00, 0x41, 0x01]);
    assert_eq!(Message::Drop(vec![7]).encode(), vec![0x82, 0x02, 0x41, 0x07]);
    // Unknown tag, trailing byte, and a payload of the wrong size are refused.
    assert!(matches!(Message::decode(&[0x82, 0x09, 0x40]), Err(NodeError::Protocol(_))));
    assert!(Message::decode(&[0x82, 0x04, 0x40, 0x00]).is_err());
    assert!(Message::decode(&[0x82, 0x00, 0x40]).is_err());
    assert!(Message::decode(&[0x82, 0x01, 0x41, 0x00]).is_err());
}

#[test]
fn oversized_frames_are_refused() {
    let big = Message::Drop(vec![0u8; MAX_FRAME]);
    assert!(matches!(frame(&big), Err(NodeError::Protocol(_))));
    assert!(MessageCodec.within_limit(MAX_FRAME));
    assert!(!MessageCodec.within_limit(MAX_FRAME + 1));
}

// ---- relay ----

#[test]
fn stores_and_returns_opaque_bytes() {
    let mut relay = Relay::new();
    let id = DropId::of(b"drop");
    relay.store(id, 0, vec![0xDE, 0xAD, 0xBE, 0xEF]);
    assert_eq!(relay.fetch(&id, 0).unwrap(), &[0xDE, 0xAD, 0xBE, 0xEF]);
    assert_eq!(relay.fetch(&id, 1), Err(RelayError::NotFound));
}

#[test]
fn relay_replaces_and_counts_chunks() {
    let mut relay = Relay::new();
    assert!(relay.is_empty());
    let id = DropId::of(b"drop");
    relay.store(id, 0, vec![1]);
    relay.store(id, 0, vec![2]);
    relay.store(id, 1, vec![3]);
    assert_eq!(relay.len(), 2);
    assert_eq!(relay.fetch(&id, 0).unwrap(), &[2]);
    assert_eq!(relay.fetch(&DropId::of(b"other"), 0), Err(RelayError::NotFound));
}

// ---- p2p ----

fn sample_body() -> DropBody {
    DropBody {
        version: 1,
        suite: 1,
        cell: "8928308280fffff".to_owned(),
        ring: 1,
        created_at: 1,
        expiry: 0,
        mode: 0,
        chunk_size: 65536,
        chunk_count: 1,
        content_root: [1u8; 32],
        prefix: [2u8; 20],
        drop_nonce: [3u8; 16],
        pow_nonce: 0,
        wrapped_keys: vec![],
    }
}

#[test]
fn responder_serves_drops_chunks_and_misses() {
    let mut store = MemoryStore::new();
    let id = DropId::of(b"x");
    store.put_drop(id, vec![1, 2]);
    store.put_chunk(id, 4, vec![5]);
    assert_eq!(respond(&store, Message::Want(id)), Message::Drop(vec![1, 2]));
    assert_eq!(respond(&store, Message::WantChunk(id, 4)), Message::Chunk(id, 4, vec![5]));
    let other = DropId::of(b"y");
    assert_eq!(respond(&store, Message::Want(other)), Message::Missing(other));
    assert_eq!(respond(&store, Message::WantChunk(id, 0)), Message::Missing(id));
    assert_eq!(respond(&store, Message::Bye), Message::Bye);
}

#[test]
fn gossip_accepts_only_signed_envelopes() {
    let identity = Identity::generate();
    let drop = SignedDrop::sign(&identity, &sample_body());
    let mut store = MemoryStore::new();
    assert!(accept_gossip(&mut store, &drop.raw));
    assert_eq!(store.get_drop(&drop.id()), Some(&drop.raw[..]));
    let mut tampered = SignedDrop::sign(&identity, &sample_body());
    tampered.payload.push(0);
    let mut other = MemoryStore::new();
    assert!(!accept_gossip(&mut other, &[1, 2, 3]));
    assert!(other.get_drop(&DropId::of(&[1, 2, 3])).is_none());
}

#[test]
fn replies_are_interpreted() {
    assert_eq!(drop_reply(Message::Drop(vec![1])).unwrap(), Some(vec![1]));
    assert_eq!(drop_reply(Message::Missing(DropId::of(b"a"))).unwrap(), None);
    assert!(matches!(drop_reply(Message::Bye), Err(P2pError::Protocol)));
    let id = DropId::of(b"a");
    assert_eq!(chunk_reply(Message::Chunk(id, 0, vec![2])).unwrap(), Some(vec![2]));
    assert_eq!(chunk_reply(Message::Missing(id)).unwrap(), None);
    assert!(matches!(chunk_reply(Message::Drop(vec![])), Err(P2pError::Protocol)));
}

#[test]
fn cell_topics_are_prefixed() {
    assert_eq!(cell_topic("8928308280fffff"), "keepstone/drops/v1/cell/8928308280fffff");
}
