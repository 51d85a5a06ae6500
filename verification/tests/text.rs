use keepstone::anchor::{Anchor, HashChainAnchor};
use keepstone::files::{
    add_contact_text, append_contact_text, hex32, key_pair_text, parse_contacts, parse_key,
    parse_key_pair, parse_receipts, receipts_text,
};
use keepstone::http::{
    find, parse_query, parse_request_head, percent_decodable, percent_decode, query_decodes,
    query_param, response_head, route, split_target, status_reason, target_decodes, Route,
};
use keepstone::keys::Identity;
use keepstone::node::{MemoryStore, Storage};
use keepstone::peer::{peer_reply, witness_reply};
use keepstone::presence::{PresenceAttestation, PresenceRequest};
use keepstone::protocol::Message;
use keepstone::store::StoreError;
use keepstone::text::{
    chars_of, decimal_text, parse_u64, parse_usize, split_crlf, split_lines, split_words,
    trimmed,
};
use keepstone::types::DropId;

fn strings(v: Vec<Vec<char>>) -> Vec<String> {
    v.into_iter().map(|w| w.into_iter().collect()).collect()
}

// ---- text ----

#[test]
fn words_lines_and_pieces_follow_std() {
    let text = " a\u{a0}bc\t\nd  \u{2003}e ";
    let c = chars_of(text);
    assert_eq!(strings(split_words(&c)), text.split_whitespace().collect::<Vec<_>>());
    let text = "x\r\ny\n\nz\r";
    let c = chars_of(text);
    assert_eq!(strings(split_lines(&c)), text.lines().collect::<Vec<_>>());
    let text = "a\r\nb\r\r\n\r\n";
    let c = chars_of(text);
    assert_eq!(strings(split_crlf(&c)), text.split("\r\n").collect::<Vec<_>>());
    let text = "\u{3000} padded \n";
    let t: String = trimmed(&chars_of(text)).into_iter().collect();
    assert_eq!(t, text.trim());
}

#[test]
fn numbers_parse_like_from_str() {
    for s in ["0", "+7", "18446744073709551615", "18446744073709551616", "", "+", "-1", "1a", " 1"] {
        assert_eq!(parse_u64(&chars_of(s)), s.parse::<u64>().ok(), "{s}");
        assert_eq!(parse_usize(&chars_of(s)), s.parse::<usize>().ok(), "{s}");
    }
    assert_eq!(decimal_text(0), "0");
    assert_eq!(decimal_text(1_700_000_000), "1700000000");
    assert_eq!(decimal_text(u64::MAX), u64::MAX.to_string());
}

// ---- files ----

#[test]
fn key_files_round_trip() {
    let text = key_pair_text(&[1u8; 32], &[2u8; 32]);
    assert_eq!(text, format!("{}\n{}\n", hex::encode([1u8; 32]), hex::encode([2u8; 32])));
    assert_eq!(parse_key_pair(&text).unwrap(), ([1u8; 32], [2u8; 32]));
    assert!(matches!(parse_key_pair("abcd\n"), Err(StoreError::Invalid(_))));
    assert!(parse_key_pair("").is_err());
    let k: [u8; 4] = parse_key::<4>("  0a0B0c0d \n").unwrap();
    assert_eq!(k, [0x0a, 0x0b, 0x0c, 0x0d]);
    assert!(parse_key::<4>("0a0b0c").is_err());
    assert_eq!(hex32(&format!(" {} ", hex::encode([9u8; 32]))).unwrap(), [9u8; 32]);
    assert!(hex32("zz").is_err());
}

#[test]
fn contacts_are_added_and_read_back() {
    let s = hex::encode([1u8; 32]);
    let e = hex::encode([2u8; 32]);
    let text = add_contact_text("", "alice", &s, &e, None).unwrap();
    assert_eq!(text, format!("alice {s} {e} -\n"));
    let text = add_contact_text(&text, "bob", &s, &e, Some("abcd")).unwrap();
    let contacts = parse_contacts(&text).unwrap();
    assert_eq!(contacts.len(), 2);
    assert_eq!(contacts[0].name, "alice");
    assert_eq!(contacts[0].signing, [1u8; 32]);
    assert_eq!(contacts[0].hybrid, None);
    assert_eq!(contacts[1].hybrid, Some(vec![0xab, 0xcd]));
    // The same device under the same name is refused; bad names and keys too.
    assert!(matches!(add_contact_text(&text, "alice", &s, &e, None), Err(StoreError::Invalid(_))));
    let accented = add_contact_text("", "zoë", &s, &e, None).unwrap();
    assert_eq!(parse_contacts(&accented).unwrap()[0].name, "zoë");
    assert!(add_contact_text(&text, "carol smith", &s, &e, None).is_err());
    assert!(add_contact_text(&text, "", &s, &e, None).is_err());
    assert!(add_contact_text(&text, "carol", "00", &e, None).is_err());
    assert!(add_contact_text(&text, "carol", &s, &e, Some("xyz")).is_err());
    // The daemon's form appends without those checks.
    let again = append_contact_text(&text, "alice", &s, &e, None).unwrap();
    assert_eq!(parse_contacts(&again).unwrap().len(), 3);
    // Short lines are skipped; bad keys are refused.
    assert_eq!(parse_contacts("just two\n\n").unwrap().len(), 0);
    assert!(parse_contacts("x 00 11\n").is_err());
}

#[test]
fn receipts_are_written_and_read_back() {
    let mut anchor = HashChainAnchor::new();
    let r0 = anchor.submit(1, &[1u8; 32], 100);
    let r1 = anchor.submit(2, &[2u8; 32], 200);
    let text = receipts_text(&[r0.clone(), r1.clone()]);
    assert!(text.starts_with(&format!("1 {} 100 ", hex::encode([1u8; 32]))));
    assert_eq!(parse_receipts(&text).unwrap(), vec![r0, r1]);
    assert_eq!(parse_receipts("too few words\n").unwrap(), vec![]);
    assert!(parse_receipts(&format!("x {} 1 {} {}\n", "00".repeat(32), "00".repeat(32), "00".repeat(32))).is_err());
}

// ---- http ----

#[test]
fn request_heads_are_parsed() {
    let head = "POST /api/drops?x=1 HTTP/1.1\r\nHost: a\r\ncontent-LENGTH:  12 \r\n\r\n";
    let r = parse_request_head(head);
    assert_eq!(r.method, "POST");
    assert_eq!(r.target, "/api/drops?x=1");
    assert_eq!(r.content_length, 12);
    let r = parse_request_head("GET\r\nContent-Length: nope\r\nContent-Length: 5\r\n\r\n");
    assert_eq!(r.target, "/");
    assert_eq!(r.content_length, 0);
    let r = parse_request_head("");
    assert_eq!(r.method, "");
    assert_eq!(find(b"ab\r\n\r\nc", b"\r\n\r\n"), Some(2));
    assert_eq!(find(b"ab", b"abc"), None);
}

#[test]
fn queries_are_split_and_decoded() {
    assert!(target_decodes("/api/drops?lat=51.5&lng=-0.12&&ring"));
    let (path, query) = split_target("/api/drops?lat=51.5&lng=-0.12&&ring");
    assert_eq!(path, "/api/drops");
    assert_eq!(
        query,
        vec![
            ("lat".to_owned(), "51.5".to_owned()),
            ("lng".to_owned(), "-0.12".to_owned()),
            ("ring".to_owned(), String::new()),
        ]
    );
    assert_eq!(query_param(&query, "lng"), Some("-0.12".to_owned()));
    assert_eq!(query_param(&query, "res"), None);
    assert!(query_decodes("a=%41%2b+b&c=%zz%+f"));
    let pairs = parse_query("a=%41%2b+b&c=%zz%+f");
    assert_eq!(pairs[0], ("a".to_owned(), "A+ b".to_owned()));
    assert_eq!(pairs[1], ("c".to_owned(), "%zz\u{f}".to_owned()));
    assert_eq!(percent_decode("100%"), "100%");
    // A `%` whose two following bytes end inside a character cannot be decoded.
    assert!(!percent_decodable("%aé"));
    assert!(!target_decodes("/x?k=%aé"));
    assert!(percent_decodable("%é"));
}

#[test]
fn routes_and_response_heads() {
    assert_eq!(route("OPTIONS", "/anything"), Route::Preflight);
    assert_eq!(route("GET", "/"), Route::Index);
    assert_eq!(route("GET", "/index.html"), Route::Index);
    assert_eq!(route("GET", "/api/id"), Route::Identity);
    assert_eq!(route("GET", "/api/contacts"), Route::ListContacts);
    assert_eq!(route("POST", "/api/contacts"), Route::AddContact);
    assert_eq!(route("GET", "/api/drops"), Route::ListDrops);
    assert_eq!(route("POST", "/api/drops"), Route::CreateDrop);
    assert_eq!(route("POST", "/api/drops/ab/open"), Route::OpenDrop("ab".to_owned()));
    assert_eq!(route("GET", "/api/drops/ab"), Route::DropMeta("ab".to_owned()));
    assert_eq!(route("GET", "/api/log/ab/verify"), Route::VerifyLog("ab".to_owned()));
    assert_eq!(route("GET", "/api/log/ab"), Route::VerifyLog("ab".to_owned()));
    assert_eq!(route("DELETE", "/api/id"), Route::NotFound);
    assert_eq!(route("get", "/"), Route::NotFound);
    assert_eq!(status_reason(404), "Not Found");
    assert_eq!(status_reason(418), "OK");
    let head = response_head(201, "application/json", 7);
    assert!(head.starts_with("HTTP/1.1 201 Created\r\nContent-Type: application/json\r\nContent-Length: 7\r\n"));
    assert!(head.ends_with("\r\n\r\n"));
}

// ---- peer ----

#[test]
fn peers_answer_one_message_at_a_time() {
    let mut store = MemoryStore::new();
    let id = DropId::of(b"d");
    store.put_drop(id, vec![7]);
    assert_eq!(peer_reply(&store, Message::Hello(1)), (Message::Hello(1), true));
    assert_eq!(peer_reply(&store, Message::Want(id)), (Message::Drop(vec![7]), true));
    assert_eq!(peer_reply(&store, Message::WantChunk(id, 0)), (Message::Missing(id), true));
    assert_eq!(peer_reply(&store, Message::Bye), (Message::Bye, false));
    assert_eq!(peer_reply(&store, Message::Drop(vec![])), (Message::Bye, false));
}

#[test]
fn witnesses_attest_only_their_cell() {
    let witness = Identity::generate();
    let request = PresenceRequest {
        cell: "8928308280fffff".to_owned(),
        nonce: [1u8; 16],
        claimant: [2u8; 32],
        expiry: 0,
    };
    let (reply, go_on) = witness_reply(&witness, "8928308280fffff", Message::Presence(request.to_canonical()), 42);
    assert!(go_on);
    let Message::Attestation(bytes) = reply else { panic!("expected an attestation") };
    let attestation = PresenceAttestation::from_canonical(&bytes).unwrap();
    attestation.verify().unwrap();
    assert_eq!(attestation.timestamp, 42);
    assert_eq!(attestation.witness, witness.signing_public());
    assert_eq!(
        witness_reply(&witness, "other", Message::Presence(request.to_canonical()), 1),
        (Message::Missing(DropId::of(b"cell")), true)
    );
    assert_eq!(witness_reply(&witness, "c", Message::Presence(vec![1, 2]), 1), (Message::Bye, false));
    assert_eq!(witness_reply(&witness, "c", Message::Hello(3), 1), (Message::Hello(3), true));
    assert_eq!(witness_reply(&witness, "c", Message::Bye, 1), (Message::Bye, false));
}
