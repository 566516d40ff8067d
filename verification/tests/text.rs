use dome::text::{
    bytes_precede, same_bytes, same_text, text_from_bytes, text_from_utf8, text_precedes,
};

#[test]
fn bytes_are_ordered_lexicographically() {
    assert!(bytes_precede(b"", b"a"));
    assert!(bytes_precede(b"a", b"ab"));
    assert!(bytes_precede(b"ab", b"b"));
    assert!(bytes_precede(&[1, 2, 3], &[1, 2, 4]));
    assert!(bytes_precede(&[0x7f], &[0x80]));
    assert!(!bytes_precede(b"", b""));
    assert!(!bytes_precede(b"a", b"a"));
    assert!(!bytes_precede(b"b", b"ab"));
    assert!(!bytes_precede(b"ab", b"a"));
    assert!(!bytes_precede(&[0xff], &[0x00, 0xff]));
}

#[test]
fn byte_order_agrees_with_slices() {
    let samples: [&[u8]; 7] = [b"", b"a", b"ab", b"abc", b"b", &[0xff], &[0, 0]];
    for a in samples {
        for b in samples {
            assert_eq!(bytes_precede(a, b), a < b);
            assert_eq!(same_bytes(a, b), a == b);
        }
    }
}

#[test]
fn texts_are_ordered_by_their_bytes() {
    assert!(text_precedes("Z", "a"));
    assert!(text_precedes("adobe", "facebook"));
    assert!(text_precedes("gmail", "google"));
    assert!(text_precedes("z", "é"));
    assert!(!text_precedes("google", "gmail"));
    assert!(!text_precedes("gmail", "gmail"));
}

#[test]
fn texts_are_equal_when_their_characters_are() {
    assert!(same_text("", ""));
    assert!(same_text("gmail", "gmail"));
    assert!(!same_text("gmail", "gmail "));
    assert!(!same_text("gmail", "Gmail"));
    assert!(!same_text("e\u{301}", "é"));
}

#[test]
fn valid_bytes_become_their_text() {
    assert_eq!(text_from_bytes(b""), "");
    assert_eq!(text_from_bytes("grüße".as_bytes()), "grüße");
    assert_eq!(text_from_bytes(&[0, 65]), "\0A");
    assert_eq!(text_from_utf8("grüße".as_bytes().to_vec()), Some("grüße".to_string()));
    assert_eq!(text_from_utf8(Vec::new()), Some(String::new()));
}

#[test]
fn invalid_bytes_are_replaced_or_refused() {
    assert_eq!(text_from_bytes(&[b'a', 0xff, b'b']), "a\u{fffd}b");
    assert_eq!(text_from_bytes(&[0xc3]), "\u{fffd}");
    assert_eq!(text_from_utf8(vec![b'a', 0xff, b'b']), None);
    assert_eq!(text_from_utf8(vec![0xc3]), None);
    assert_eq!(text_from_utf8(vec![0xed, 0xa0, 0x80]), None);
}

#[test]
fn text_order_agrees_with_the_order_of_strings() {
    let samples = ["", "a", "A", "ab", "b", "é", "e\u{301}", "z", "zz", "\0", "a\0", "日本", "\u{10ffff}", "~"];
    for a in samples {
        for b in samples {
            assert_eq!(text_precedes(a, b), a < b);
            assert_eq!(same_text(a, b), a == b);
        }
    }
}
