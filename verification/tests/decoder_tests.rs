use line_index::decoder::{decode_lines_from_blob, decode_utf8_line_slice};

#[test]
fn decode_plain_ascii_lines() {
    let blob = b"hello\nworld";
    let lines = decode_lines_from_blob(blob, &[6, 11]);
    assert_eq!(lines, ["hello\n", "world"]);
}

#[test]
fn decode_keeps_crlf_bytes() {
    let blob = b"a\r\nb\r\n";
    let lines = decode_lines_from_blob(blob, &[3, 6]);
    assert_eq!(lines, ["a\r\n", "b\r\n"]);
}

#[test]
fn decode_multibyte_characters_whole() {
    // "héllo" has a two-byte character; nothing is cut, so nothing is lost.
    let blob = "h\u{e9}llo\nx".as_bytes();
    let lines = decode_lines_from_blob(blob, &[7, 8]);
    assert_eq!(lines, ["h\u{e9}llo\n", "x"]);
}

#[test]
fn decode_drops_trailing_incomplete_character() {
    // 0xC3 starts a two-byte sequence; the blob ends before its second byte,
    // so the trailing half character is dropped, not replaced.
    let blob: &[u8] = &[b'a', b'b', 0xC3];
    let lines = decode_lines_from_blob(blob, &[3]);
    assert_eq!(lines, ["ab"]);
}

#[test]
fn decode_line_slice_drops_only_trailing_fragment() {
    let cut: &[u8] = &[b'h', b'i', 0xE2, 0x82];
    assert_eq!(decode_utf8_line_slice(cut), "hi");
    let whole: &[u8] = "caf\u{e9}".as_bytes();
    assert_eq!(decode_utf8_line_slice(whole), "caf\u{e9}");
    assert_eq!(decode_utf8_line_slice(b""), "");
}

#[test]
fn decode_replaces_interior_invalid_bytes() {
    // A genuinely invalid byte decodes as the replacement character; the
    // text after it is kept.
    let bad: &[u8] = &[0xFF, b'o', b'k'];
    assert_eq!(decode_utf8_line_slice(bad), "\u{fffd}ok");
    // A lone continuation byte at the end completes nothing and is invalid,
    // not incomplete.
    let lone: &[u8] = &[b'a', 0x82];
    assert_eq!(decode_utf8_line_slice(lone), "a\u{fffd}");
}

#[test]
fn decode_end_past_blob_is_clamped() {
    let blob = b"tail";
    let lines = decode_lines_from_blob(blob, &[99]);
    assert_eq!(lines, ["tail"]);
    // Several boundaries past the blob clamp too; the extra lines are empty.
    let lines = decode_lines_from_blob(b"ab", &[1, 5, 9]);
    assert_eq!(lines, ["a", "b", ""]);
}

#[test]
fn decode_empty_boundaries() {
    let blob = b"irrelevant";
    let lines = decode_lines_from_blob(blob, &[]);
    assert!(lines.is_empty());
}

#[test]
fn decode_idempotent() {
    let blob = b"one\ntwo\n";
    let l1 = decode_lines_from_blob(blob, &[4, 8]);
    let l2 = decode_lines_from_blob(blob, &[4, 8]);
    assert_eq!(l1, l2);
}
