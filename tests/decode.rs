use code_minimap::{decode_line, Encoding};

#[test]
fn strict_decoding_drops_line_breaks() {
    assert_eq!(decode_line(b"abc\n", Encoding::UTF8), Some(String::from("abc")));
    assert_eq!(decode_line(b"abc\r\n", Encoding::UTF8), Some(String::from("abc")));
    assert_eq!(decode_line(b"abc", Encoding::UTF8), Some(String::from("abc")));
    assert_eq!(decode_line(b"\n", Encoding::UTF8), Some(String::new()));
}

#[test]
fn carriage_return_without_line_feed_stays() {
    assert_eq!(decode_line(b"a\r", Encoding::UTF8), Some(String::from("a\r")));
}

#[test]
fn strict_decoding_reads_multibyte_characters() {
    assert_eq!(decode_line("é日\n".as_bytes(), Encoding::UTF8), Some(String::from("é日")));
}

#[test]
fn strict_decoding_rejects_invalid_bytes() {
    assert_eq!(decode_line(b"a\xffb\n", Encoding::UTF8), None);
    assert_eq!(decode_line(b"\xe2\x82\n", Encoding::UTF8), None);
}

#[test]
fn lossy_decoding_replaces_invalid_bytes() {
    assert_eq!(decode_line(b"a\xffb\n", Encoding::UTF8Lossy), Some(String::from("a\u{FFFD}b")));
    assert_eq!(decode_line(b"\xe2\x82\r\n", Encoding::UTF8Lossy), Some(String::from("\u{FFFD}")));
}

#[test]
fn lossy_decoding_keeps_valid_text() {
    assert_eq!(decode_line("  é x\n".as_bytes(), Encoding::UTF8Lossy), Some(String::from("  é x")));
}
