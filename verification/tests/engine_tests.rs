use line_index::engine::{EngineError, LogEngine};

fn ingest(engine: &mut LogEngine, chunk: &[u8]) {
    engine.reserve(chunk.len());
    engine.commit(chunk).expect("commit within reservation");
    engine.index_chunk();
}

#[test]
fn engine_single_chunk() {
    let mut engine = LogEngine::new();
    ingest(&mut engine, b"hello world\nfoo\n");
    assert_eq!(engine.line_count(), 3);
    assert_eq!(engine.offsets(), &[0, 12, 16]);
    assert_eq!(engine.total_bytes_indexed(), 16);
    assert!(engine.last_chunk_ended_with_newline());
    assert_eq!(engine.buffer_len(), 0);
}

#[test]
fn engine_chunk_split_invariance() {
    // Splitting mid-line yields the same index as one big chunk.
    let mut split = LogEngine::new();
    ingest(&mut split, b"hello wo");
    ingest(&mut split, b"rld\nfoo\n");
    let mut whole = LogEngine::new();
    ingest(&mut whole, b"hello world\nfoo\n");
    assert_eq!(split.offsets(), whole.offsets());
    assert_eq!(split.total_bytes_indexed(), whole.total_bytes_indexed());
    assert_eq!(
        split.last_chunk_ended_with_newline(),
        whole.last_chunk_ended_with_newline()
    );
}

#[test]
fn engine_line_split_across_chunks() {
    let mut engine = LogEngine::new();
    ingest(&mut engine, b"0123456789");
    assert_eq!(engine.offsets(), &[0]);
    assert!(!engine.last_chunk_ended_with_newline());
    ingest(&mut engine, b"middle\r\nend");
    assert_eq!(engine.offsets(), &[0, 18]);
    assert_eq!(engine.total_bytes_indexed(), 21);
}

#[test]
fn engine_commit_overflow_is_recoverable() {
    let mut engine = LogEngine::new();
    engine.reserve(2);
    let r = engine.commit(b"abc");
    assert_eq!(r, Err(EngineError::BufferOverflow));
    assert_eq!(engine.buffer_len(), 0);
    // A large enough reservation lets the same chunk through.
    engine.reserve(3);
    assert_eq!(engine.commit(b"abc"), Ok(()));
    assert_eq!(engine.buffer_len(), 3);
}

#[test]
fn engine_buffer_slice_retains_committed_bytes() {
    let mut engine = LogEngine::new();
    engine.reserve(7);
    engine.commit(b"abc\ndef").expect("commit");
    assert_eq!(engine.buffer_slice(0, 7), b"abc\ndef");
    assert_eq!(engine.buffer_slice(4, 7), b"def");
    // A range past the retained bytes yields the empty slice.
    assert_eq!(engine.buffer_slice(0, 8), b"");
    engine.index_chunk();
    // Indexing discards the buffer; only offsets remain.
    assert_eq!(engine.buffer_len(), 0);
    assert_eq!(engine.offsets(), &[0, 4]);
}

#[test]
fn get_line_ranges_returns_half_open_ranges() {
    let mut engine = LogEngine::new();
    ingest(&mut engine, b"hello\nworld\nfoo bar");
    assert_eq!(engine.line_count(), 3);
    let ranges = engine.get_line_ranges(0, 3);
    assert_eq!(ranges, [(0, 6), (6, 12), (12, 19)]);
    let ranges = engine.get_line_ranges(1, 2);
    assert_eq!(ranges, [(6, 12)]);
}

#[test]
fn get_line_ranges_last_line_grows() {
    let mut engine = LogEngine::new();
    ingest(&mut engine, b"abc\nde");
    assert_eq!(engine.get_line_ranges(1, 2), [(4, 6)]);
    ingest(&mut engine, b"fgh");
    assert_eq!(engine.get_line_ranges(1, 2), [(4, 9)]);
}

#[test]
fn get_line_ranges_clamps_out_of_range_indices() {
    let mut engine = LogEngine::new();
    ingest(&mut engine, b"a\nb\n");
    // end beyond line_count is clamped.
    assert_eq!(engine.get_line_ranges(0, 1000).len(), 3);
    // start > end yields nothing rather than an error.
    assert!(engine.get_line_ranges(5, 2).is_empty());
    assert!(engine.get_line_ranges(100, 200).is_empty());
    assert!(engine.get_line_ranges(2, 2).is_empty());
}

#[test]
fn get_line_ranges_idempotent() {
    let mut engine = LogEngine::new();
    ingest(&mut engine, b"a\nbc\ndef\n");
    let r1 = engine.get_line_ranges(0, 4);
    let r2 = engine.get_line_ranges(0, 4);
    assert_eq!(r1, r2);
}

#[test]
fn engine_empty_chunk_preserves_boundary_quirk() {
    // An empty chunk forces the boundary flag on, the behavior the scanner
    // documents for empty input.
    let mut engine = LogEngine::new();
    ingest(&mut engine, b"abc");
    assert!(!engine.last_chunk_ended_with_newline());
    ingest(&mut engine, b"");
    assert!(engine.last_chunk_ended_with_newline());
    assert_eq!(engine.total_bytes_indexed(), 3);
}

#[test]
fn clear_restores_fresh_state() {
    let mut engine = LogEngine::new();
    ingest(&mut engine, b"some\nlines\nhere\n");
    engine.reserve(4);
    engine.commit(b"tail").expect("commit");
    engine.clear();

    let fresh = LogEngine::new();
    assert_eq!(engine.line_count(), fresh.line_count());
    assert_eq!(engine.total_bytes_indexed(), fresh.total_bytes_indexed());
    assert_eq!(
        engine.last_chunk_ended_with_newline(),
        fresh.last_chunk_ended_with_newline()
    );
    assert_eq!(engine.buffer_len(), fresh.buffer_len());
    assert_eq!(engine.get_line_ranges(0, 10), fresh.get_line_ranges(0, 10));

    // The cleared engine indexes a new session exactly like a fresh one.
    ingest(&mut engine, b"x\ny\n");
    assert_eq!(engine.offsets(), &[0, 2, 4]);
}

#[test]
fn clear_is_idempotent() {
    let mut engine = LogEngine::new();
    ingest(&mut engine, b"a\n");
    engine.clear();
    engine.clear();
    assert_eq!(engine.line_count(), 0);
    assert_eq!(engine.total_bytes_indexed(), 0);
}

#[test]
fn engine_default_is_fresh() {
    let engine = LogEngine::default();
    assert_eq!(engine.line_count(), 0);
    assert_eq!(engine.total_bytes_indexed(), 0);
    assert!(engine.last_chunk_ended_with_newline());
    assert_eq!(engine.buffer_len(), 0);
}

#[test]
fn append_offsets_and_advance_compose() {
    let mut engine = LogEngine::new();
    engine.append_offsets(&[0, 5]);
    engine.advance_after_chunk(9, false);
    assert_eq!(engine.offsets(), &[0, 5]);
    assert_eq!(engine.total_bytes_indexed(), 9);
    assert!(!engine.last_chunk_ended_with_newline());
    engine.discard_buffer_after_indexing();
    assert_eq!(engine.buffer_len(), 0);
}

#[test]
fn engine_split_after_newline_stays_invariant() {
    // A chunk ending in a newline already emits the next line start; the
    // engine suppresses the boundary start of the following chunk, so the
    // index matches the whole-stream scan and stays strictly increasing.
    let mut engine = LogEngine::new();
    ingest(&mut engine, b"a\n");
    assert_eq!(engine.offsets(), &[0, 2]);
    ingest(&mut engine, b"b");
    assert_eq!(engine.offsets(), &[0, 2]);
    assert_eq!(engine.total_bytes_indexed(), 3);

    let mut whole = LogEngine::new();
    ingest(&mut whole, b"a\nb");
    assert_eq!(engine.offsets(), whole.offsets());
}

#[test]
fn engine_split_inside_crlf_stays_invariant() {
    let mut split = LogEngine::new();
    ingest(&mut split, b"one\r");
    ingest(&mut split, b"\ntwo\r\n");
    let mut whole = LogEngine::new();
    ingest(&mut whole, b"one\r\ntwo\r\n");
    assert_eq!(split.offsets(), whole.offsets());
    assert_eq!(whole.offsets(), &[0, 5, 10]);
}
