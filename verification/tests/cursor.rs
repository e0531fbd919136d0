use facetql::cursor::{base64url_decode, base64url_encode, Cursor, CursorError};
use facetql::json::{quoted, value};

#[test]
fn base64url_roundtrips_all_lengths() {
    for len in 0..40usize {
        let bytes: Vec<u8> = (0..len).map(|i| (i as u8).wrapping_mul(37)).collect();
        let enc = base64url_encode(&bytes);
        assert!(!enc.contains('='), "must be unpadded");
        let dec = base64url_decode(&enc).expect("decode");
        assert_eq!(dec, bytes, "roundtrip failed at len {len}");
    }
}

#[test]
fn base64url_rejects_bad_input() {
    assert!(base64url_decode("!!!!").is_err());
    assert!(base64url_decode("A").is_err());
}

#[test]
fn base64url_uses_the_url_alphabet() {
    assert_eq!(base64url_encode(&[0xfb, 0xff, 0xfe]), "-__-");
    assert_eq!(base64url_encode(b"f"), "Zg");
    assert_eq!(base64url_encode(b"fo"), "Zm8");
    assert_eq!(base64url_encode(b"foo"), "Zm9v");
}

#[test]
fn a_cursor_is_read_back() {
    let cursor = Cursor { o: Some(quoted("a \"b\"")), a: "post:1".to_string() };
    let back = Cursor::decode(&cursor.encode()).expect("decode");
    assert_eq!(back.a, "post:1");
    assert_eq!(back.o.expect("order value").text, "\"a \\\"b\\\"\"");

    let plain = Cursor { o: None, a: "post:2".to_string() };
    let back = Cursor::decode(&plain.encode()).expect("decode");
    assert_eq!(back.a, "post:2");
    assert!(back.o.is_none());

    let number = Cursor { o: value("12.5"), a: "post:3".to_string() };
    let back = Cursor::decode(&number.encode()).expect("decode");
    assert_eq!(back.o.expect("order value").text, "12.5");
}

#[test]
fn what_is_no_cursor_is_refused() {
    assert!(matches!(Cursor::decode("not-valid-base64!!"), Err(CursorError::Letters)));
    assert!(Cursor::decode(&base64url_encode(b"not json")).is_err());
    assert!(Cursor::decode(&base64url_encode(&[0xff, 0xff])).is_err());
}

#[test]
fn a_nested_order_value_is_read_back() {
    let cursor = Cursor { o: value("{\"k\": [1, {\"z\": null}], \"f\": 0.1}"), a: "post:4".to_string() };
    let text = cursor.encode();
    assert!(!text.is_empty());
    let back = Cursor::decode(&text).expect("decode");
    assert_eq!(back.a, "post:4");
    assert_eq!(back.o.expect("order value").text, cursor.o.expect("order value").text);

    let long = Cursor { o: None, a: "p".repeat(4096) };
    assert!(matches!(Cursor::decode(&long.encode()), Err(CursorError::TooLong { .. })));
}
