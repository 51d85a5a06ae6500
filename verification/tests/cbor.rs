use keepstone::cbor::{Decoder, Encoder, Item};
use keepstone::error::CoreError;

fn enc(f: impl FnOnce(&mut Encoder)) -> Vec<u8> {
    let mut e = Encoder::new();
    f(&mut e);
    e.into_bytes()
}

#[test]
fn integers_use_shortest_form() {
    assert_eq!(enc(|e| e.uint(0)), vec![0x00]);
    assert_eq!(enc(|e| e.uint(23)), vec![0x17]);
    assert_eq!(enc(|e| e.uint(24)), vec![0x18, 0x18]);
    assert_eq!(enc(|e| e.uint(255)), vec![0x18, 0xFF]);
    assert_eq!(enc(|e| e.uint(256)), vec![0x19, 0x01, 0x00]);
    assert_eq!(enc(|e| e.uint(65535)), vec![0x19, 0xFF, 0xFF]);
    assert_eq!(enc(|e| e.uint(65536)), vec![0x1A, 0x00, 0x01, 0x00, 0x00]);
}

#[test]
fn round_trips_strings() {
    let bytes = enc(|e| {
        e.array(2);
        e.text("hi");
        e.bytes(&[1, 2, 3]);
    });
    assert_eq!(bytes, vec![0x82, 0x62, b'h', b'i', 0x43, 1, 2, 3]);

    let mut d = Decoder::new(&bytes);
    assert_eq!(d.array().unwrap(), 2);
    assert_eq!(d.text().unwrap(), "hi");
    assert_eq!(d.bytes().unwrap(), &[1, 2, 3]);
    d.finish().unwrap();
}

#[test]
fn rejects_non_canonical_integer() {
    // 0 encoded as 0x18 0x00 is valid CBOR but not canonical.
    let mut d = Decoder::new(&[0x18, 0x00]);
    assert!(d.uint().is_err());
}

#[test]
fn rejects_indefinite_length() {
    let mut d = Decoder::new(&[0x5F]);
    assert!(d.bytes().is_err());
}

#[test]
fn rejects_trailing_bytes() {
    let d = Decoder::new(&[0x00, 0x00]);
    assert!(d.finish().is_err());
}

#[test]
fn large_integers_use_eight_bytes() {
    assert_eq!(
        enc(|e| e.uint(u64::MAX)),
        vec![0x1B, 0xFF, 0xFF, 0xFF, 0xFF, 0xFF, 0xFF, 0xFF, 0xFF]
    );
    assert_eq!(enc(|e| e.uint(0x1_0000_0000)), vec![0x1B, 0, 0, 0, 1, 0, 0, 0, 0]);
    let bytes = enc(|e| e.uint(0x1_0000_0000));
    let mut d = Decoder::new(&bytes);
    assert_eq!(d.uint().unwrap(), 0x1_0000_0000);
    d.finish().unwrap();
}

#[test]
fn booleans_and_maps_round_trip() {
    let bytes = enc(|e| {
        e.map(1);
        e.text("ok");
        e.bool(true);
        e.bool(false);
    });
    assert_eq!(bytes, vec![0xA1, 0x62, b'o', b'k', 0xF5, 0xF4]);
    let mut d = Decoder::new(&bytes);
    assert_eq!(d.map().unwrap(), 1);
    assert_eq!(d.text().unwrap(), "ok");
    assert!(d.bool().unwrap());
    assert!(!d.bool().unwrap());
    assert!(d.is_finished());
    d.finish().unwrap();
}

#[test]
fn decoder_rejects_wrong_major_type_and_truncation() {
    let mut d = Decoder::new(&[0x62, b'h']);
    assert!(d.text().is_err());
    let mut d = Decoder::new(&[0x01]);
    assert!(d.bytes().is_err());
    let mut d = Decoder::new(&[]);
    assert!(d.uint().is_err());
    // Non-canonical two-byte length for a short value.
    let mut d = Decoder::new(&[0x19, 0x00, 0x10]);
    assert!(d.uint().is_err());
    // Invalid UTF-8 text is refused.
    let mut d = Decoder::new(&[0x61, 0xFF]);
    assert!(d.text().is_err());
}

#[test]
fn fixed_width_bytes_are_checked() {
    let bytes = enc(|e| e.bytes(&[7u8; 4]));
    let mut d = Decoder::new(&bytes);
    assert_eq!(d.bytes_fixed::<4>().unwrap(), [7u8; 4]);
    let mut d = Decoder::new(&bytes);
    assert!(d.bytes_fixed::<5>().is_err());
}

#[test]
fn items_read_a_run_of_tokens() {
    let bytes = enc(|e| {
        e.uint(5);
        e.text("x");
        e.bytes(&[1, 2]);
        e.bool(true);
    });
    let mut d = Decoder::new(&bytes);
    let items = d.items(4).unwrap();
    assert_eq!(items.len(), 4);
    assert_eq!(items[0], Item::Uint(5));
    assert_eq!(items[2].fixed_bytes::<2>(), Some([1, 2]));
    assert_eq!(items[2].fixed_bytes::<3>(), None);
    d.finish().unwrap();
    let mut d = Decoder::new(&bytes);
    assert!(d.items(5).is_err());
}

#[test]
fn decoder_errors_carry_their_messages() {
    let bytes = [0x00u8, 0x00];
    let d = Decoder::new(&bytes);
    assert!(matches!(d.finish(), Err(CoreError::Cbor("trailing bytes"))));
    let mut d = Decoder::new(&[]);
    assert!(matches!(d.bool(), Err(CoreError::Cbor("unexpected end"))));
    let mut d = Decoder::new(&[0x01]);
    assert!(matches!(d.bool(), Err(CoreError::Cbor("expected boolean"))));
    let mut d = Decoder::new(&[0xF5]);
    assert!(matches!(d.bool(), Ok(true)));
    let mut d = Decoder::new(&[0x42, 1, 2]);
    assert!(matches!(d.bytes_fixed::<3>(), Err(CoreError::Cbor("fixed length mismatch"))));
}
