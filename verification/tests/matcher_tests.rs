use line_index::matcher::match_lines;

#[test]
fn match_lines_basic() {
    let buf = b"hello\nworld\nfoo bar\n";
    let offsets = vec![0, 6, 12, 20];
    let r = match_lines(buf, &offsets, b"world");
    assert_eq!(r, [1]);
    let r = match_lines(buf, &offsets, b"o");
    assert_eq!(r, [0, 1, 2]);
}

#[test]
fn match_lines_empty_needle_matches_every_line() {
    let buf = b"hello\nworld\nfoo bar\n";
    let offsets = vec![0, 6, 12, 20];
    let r = match_lines(buf, &offsets, b"");
    assert_eq!(r, [0, 1, 2, 3]);
}

#[test]
fn match_lines_no_occurrence() {
    let buf = b"hello\nworld\n";
    let offsets = vec![0, 6];
    let r = match_lines(buf, &offsets, b"zebra");
    assert!(r.is_empty());
}

#[test]
fn match_lines_needle_longer_than_buffer() {
    let buf = b"hi";
    let offsets = vec![0];
    let r = match_lines(buf, &offsets, b"hello world");
    assert!(r.is_empty());
}

#[test]
fn match_lines_reports_line_once() {
    let buf = b"aaa\nbbb\n";
    let offsets = vec![0, 4];
    let r = match_lines(buf, &offsets, b"a");
    assert_eq!(r, [0]);
}

#[test]
fn match_lines_across_line_boundary() {
    // An occurrence that spans a newline belongs to the line where it starts.
    let buf = b"xa\nby\n";
    let offsets = vec![0, 3];
    let r = match_lines(buf, &offsets, b"a\nb");
    assert_eq!(r, [0]);
}

#[test]
fn match_lines_idempotent() {
    let buf = b"hello\nworld\nfoo bar\n";
    let offsets = vec![0, 6, 12, 20];
    let r1 = match_lines(buf, &offsets, b"o");
    let r2 = match_lines(buf, &offsets, b"o");
    assert_eq!(r1, r2);
}
