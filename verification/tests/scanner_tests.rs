use line_index::scanner::scan_chunk;

#[test]
fn scan_simple_newlines() {
    let chunk = b"a\nb\nc\n";
    let mut starts = Vec::new();
    let ends = scan_chunk(chunk, 0, &mut starts, true);
    assert!(ends);
    assert_eq!(starts, [0, 2, 4, 6]);
}

#[test]
fn scan_crlf() {
    let chunk = b"a\r\nb\r\n";
    let mut starts = Vec::new();
    let ends = scan_chunk(chunk, 0, &mut starts, true);
    assert!(ends);
    assert_eq!(starts, [0, 3, 6]);
}

#[test]
fn boundary_no_leading_newline() {
    // Chunk does not end with newline; \n at index 6 (\r\n)
    let chunk = b"middle\r\nend";
    let mut starts = Vec::new();
    let ends = scan_chunk(chunk, 10, &mut starts, false);
    assert!(!ends);
    assert_eq!(starts, [18]); // line start after \n (base 10 + 7 + 1)
}

#[test]
fn scan_empty_chunk_reports_boundary() {
    // An empty chunk emits nothing and reports a boundary, even when the
    // stream stood mid-line.
    let mut starts = Vec::new();
    let ends = scan_chunk(b"", 7, &mut starts, false);
    assert!(ends);
    assert!(starts.is_empty());
}

#[test]
fn scan_appends_to_existing_starts() {
    let mut starts = vec![0u64, 4];
    let ends = scan_chunk(b"xy\nz", 9, &mut starts, false);
    assert!(!ends);
    assert_eq!(starts, [0, 4, 12]);
}

#[test]
fn scan_no_newline_keeps_flag_off() {
    let mut starts = Vec::new();
    let ends = scan_chunk(b"abc", 3, &mut starts, false);
    assert!(!ends);
    assert!(starts.is_empty());
}

#[test]
fn scan_threaded_flags_match_whole_scan() {
    // Three-way split, no chunk ending in a newline except the last: the
    // threaded scans emit the same starts as scanning the whole stream.
    let parts: [&[u8]; 3] = [b"one", b" two\nthr", b"ee\nfour\n"];
    let mut threaded = Vec::new();
    let mut base = 0u64;
    let mut begins = true;
    for part in parts {
        begins = scan_chunk(part, base, &mut threaded, begins);
        base += part.len() as u64;
    }
    let mut whole = Vec::new();
    let ends = scan_chunk(b"one two\nthree\nfour\n", 0, &mut whole, true);
    assert_eq!(threaded, whole);
    assert_eq!(whole, [0, 8, 14, 19]);
    assert!(begins);
    assert!(ends);
}
