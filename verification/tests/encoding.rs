use zense::{decode, decode_text, encode, Kind};

#[test]
fn encode_escapes_path_significant_bytes() {
    assert_eq!(encode(b"a b", Kind::Path), b"a%20b".to_vec());
    assert_eq!(encode(b"a?b", Kind::Path), b"a%3Fb".to_vec());
    assert_eq!(encode(b"100%", Kind::Path), b"100%25".to_vec());
    assert_eq!(encode(b"plain-path_1.txt", Kind::Path), b"plain-path_1.txt".to_vec());
}

#[test]
fn encode_query_keeps_question_mark() {
    assert_eq!(encode(b"a?b", Kind::Query), b"a?b".to_vec());
    assert_eq!(encode(b"a b", Kind::Query), b"a%20b".to_vec());
}

#[test]
fn encode_escapes_controls() {
    assert_eq!(encode(b"\x00", Kind::Path), b"%00".to_vec());
    assert_eq!(encode(b"\x1f\x7f", Kind::Path), b"%1F%7F".to_vec());
}

#[test]
fn decode_is_total_on_arbitrary_percent_sequences() {
    assert_eq!(decode(b"%41"), b"A".to_vec());
    assert_eq!(decode(b"%zz"), b"%zz".to_vec());
    assert_eq!(decode(b"%"), b"%".to_vec());
    assert_eq!(decode(b"%4"), b"%4".to_vec());
    assert_eq!(decode(b"a%20b%3f"), b"a b?".to_vec());
}

#[test]
fn decode_inverts_encode_for_paths() {
    let cases: Vec<&[u8]> = vec![
        b"",
        b"/plain",
        b"has space and ? and %",
        b"\x00\x01binary\xff\xfe",
        b"unicode caf\xc3\xa9",
    ];
    for s in cases {
        assert_eq!(decode(&encode(s, Kind::Path)), s.to_vec());
        assert_eq!(decode(&encode(s, Kind::Query)), s.to_vec());
    }
}

#[test]
fn decode_text_reassembles_utf8_across_escapes() {
    assert_eq!(decode_text(b"caf%C3%A9"), "café");
    assert_eq!(decode_text(b"%E2%82%AC"), "€");
}

#[test]
fn decode_text_replaces_invalid_sequences() {
    assert_eq!(decode_text(b"%FF"), "\u{FFFD}");
    assert_eq!(decode_text(b"ok%C3"), "ok\u{FFFD}");
}
