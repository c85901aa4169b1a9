//! Newline scanner: finds line boundaries in a chunk of raw bytes.
//!
//! A chunk is scanned together with the boundary state carried from the
//! previous chunk, so a line split across two chunks is still indexed at the
//! correct position.

use vstd::prelude::*;

verus! {

/// The line feed byte; every line terminator ends with it (`\n` and `\r\n`).
pub const LINE_FEED: u8 = 10;

/// A sequence of `u64` offsets, read as mathematical integers.
pub open spec fn seq_u64_as_ints(s: Seq<u64>) -> Seq<int> {
    s.map_values(|v: u64| v as int)
}

/// Line starts contributed by the newline bytes of `chunk`: for every line
/// feed at chunk-relative position `p`, the absolute offset `base + p + 1`,
/// in increasing position order.
pub open spec fn newline_starts(chunk: Seq<u8>, base: int) -> Seq<int>
    decreases chunk.len(),
{
    if chunk.len() == 0 {
        Seq::empty()
    } else if chunk[0] == LINE_FEED {
        seq![base + 1] + newline_starts(chunk.skip(1), base + 1)
    } else {
        newline_starts(chunk.skip(1), base + 1)
    }
}

/// All line starts that scanning `chunk` at absolute offset `base` emits:
/// `base` itself when the chunk begins a new line, then one start after each
/// line feed byte. An empty chunk emits nothing.
pub open spec fn scan_starts(chunk: Seq<u8>, base: int, begins_new_line: bool) -> Seq<int> {
    if chunk.len() == 0 {
        Seq::empty()
    } else if begins_new_line {
        seq![base] + newline_starts(chunk, base)
    } else {
        newline_starts(chunk, base)
    }
}

/// The boundary flag after scanning `chunk`: an empty chunk reports a
/// boundary, otherwise the chunk ends on one exactly when its last byte is a
/// line feed.
pub open spec fn scan_ends_on_boundary(chunk: Seq<u8>) -> bool {
    chunk.len() == 0 || chunk.last() == LINE_FEED
}

/// Appending one element commutes with reading a `u64` sequence as integers.
pub proof fn lemma_seq_u64_as_ints_push(s: Seq<u64>, v: u64)
    ensures
        seq_u64_as_ints(s.push(v)) == seq_u64_as_ints(s).push(v as int),
{
    assert(seq_u64_as_ints(s.push(v)) =~= seq_u64_as_ints(s).push(v as int));
}

/// `newline_starts` distributes over concatenation of the scanned bytes.
pub proof fn lemma_newline_starts_split(s1: Seq<u8>, s2: Seq<u8>, base: int)
    ensures
        newline_starts(s1 + s2, base) == newline_starts(s1, base) + newline_starts(
            s2,
            base + s1.len(),
        ),
    decreases s1.len(),
{
    if s1.len() == 0 {
        assert(s1 + s2 =~= s2);
        assert(newline_starts(s1, base) + newline_starts(s2, base + s1.len()) =~= newline_starts(
            s2,
            base,
        ));
    } else {
        assert((s1 + s2).skip(1) =~= s1.skip(1) + s2);
        lemma_newline_starts_split(s1.skip(1), s2, base + 1);
        assert((s1 + s2)[0] == s1[0]);
        if s1[0] == LINE_FEED {
            assert(seq![base + 1] + (newline_starts(s1.skip(1), base + 1) + newline_starts(
                s2,
                base + s1.len(),
            )) =~= (seq![base + 1] + newline_starts(s1.skip(1), base + 1)) + newline_starts(
                s2,
                base + s1.len(),
            ));
        }
    }
}

/// A stretch of bytes without a line feed contributes no line starts.
pub proof fn lemma_newline_starts_none(s: Seq<u8>, base: int)
    requires
        forall|j: int| 0 <= j < s.len() ==> s[j] != LINE_FEED,
    ensures
        newline_starts(s, base) == Seq::<int>::empty(),
    decreases s.len(),
{
    if s.len() > 0 {
        lemma_newline_starts_none(s.skip(1), base + 1);
    }
}

/// A stretch whose only line feed is its last byte contributes exactly the
/// offset just past that byte.
pub proof fn lemma_newline_starts_last_only(s: Seq<u8>, base: int)
    requires
        s.len() > 0,
        s.last() == LINE_FEED,
        forall|j: int| 0 <= j < s.len() - 1 ==> s[j] != LINE_FEED,
    ensures
        newline_starts(s, base) == seq![base + s.len()],
{
    let head = s.drop_last();
    let tail = seq![s.last()];
    assert(s =~= head + tail);
    lemma_newline_starts_split(head, tail, base);
    lemma_newline_starts_none(head, base);
    let tbase = base + head.len();
    assert(tail.skip(1) =~= Seq::<u8>::empty());
    assert(newline_starts(tail.skip(1), tbase + 1) =~= Seq::<int>::empty());
    assert(tail[0] == LINE_FEED);
    assert(newline_starts(tail, tbase) =~= seq![tbase + 1] + Seq::<int>::empty());
    assert(seq![tbase + 1] + Seq::<int>::empty() =~= seq![tbase + 1]);
    assert(Seq::<int>::empty() + seq![tbase + 1] =~= seq![tbase + 1]);
}

/// A stretch that ends with a line feed contributes the offset just past
/// its end as its last line start.
pub proof fn lemma_newline_starts_last(s: Seq<u8>, base: int)
    requires
        s.len() > 0,
        s.last() == LINE_FEED,
    ensures
        newline_starts(s, base).len() > 0,
        newline_starts(s, base).last() == base + s.len(),
{
    let head = s.drop_last();
    let tail = seq![s.last()];
    assert(s =~= head + tail);
    lemma_newline_starts_split(head, tail, base);
    let tbase = base + head.len();
    assert(tail.skip(1) =~= Seq::<u8>::empty());
    assert(newline_starts(tail.skip(1), tbase + 1) =~= Seq::<int>::empty());
    assert(tail[0] == LINE_FEED);
    assert(newline_starts(tail, tbase) =~= seq![tbase + 1] + Seq::<int>::empty());
    assert(newline_starts(tail, tbase) =~= seq![tbase + 1]);
    assert(newline_starts(s, base) =~= newline_starts(head, base) + seq![tbase + 1]);
}

/// Every emitted line start lies in `(base, base + chunk.len()]`, and the
/// emitted sequence is strictly increasing.
pub proof fn lemma_newline_starts_bounds(chunk: Seq<u8>, base: int)
    ensures
        forall|k: int| #![trigger newline_starts(chunk, base)[k]]
            0 <= k < newline_starts(chunk, base).len() ==> base + 1 <= newline_starts(chunk, base)[k]
                <= base + chunk.len(),
        forall|k1: int, k2: int|
            0 <= k1 < k2 < newline_starts(chunk, base).len() ==> newline_starts(chunk, base)[k1]
                < newline_starts(chunk, base)[k2],
    decreases chunk.len(),
{
    if chunk.len() > 0 {
        lemma_newline_starts_bounds(chunk.skip(1), base + 1);
        let rest = newline_starts(chunk.skip(1), base + 1);
        let whole = newline_starts(chunk, base);
        if chunk[0] == LINE_FEED {
            assert(whole == seq![base + 1] + rest);
            assert forall|k: int| 0 <= k < whole.len() implies base + 1 <= #[trigger] whole[k]
                <= base + chunk.len() by {
                if k == 0 {
                    assert(whole[0] == base + 1);
                } else {
                    assert(whole[k] == rest[k - 1]);
                }
            }
            assert forall|k1: int, k2: int| 0 <= k1 < k2 < whole.len() implies whole[k1]
                < whole[k2] by {
                assert(whole[k2] == rest[k2 - 1]);
                if k1 == 0 {
                    assert(whole[0] == base + 1);
                } else {
                    assert(whole[k1] == rest[k1 - 1]);
                }
            }
        } else {
            assert(whole == rest);
            assert forall|k: int| 0 <= k < whole.len() implies base + 1 <= #[trigger] whole[k]
                <= base + chunk.len() by {
                assert(whole[k] == rest[k]);
            }
        }
    }
}

/// Every line start that scanning a chunk emits lies in
/// `[base, base + chunk.len()]`, and the emitted sequence is strictly
/// increasing.
pub proof fn lemma_scan_starts_bounds(chunk: Seq<u8>, base: int, begins_new_line: bool)
    ensures
        forall|k: int| #![trigger scan_starts(chunk, base, begins_new_line)[k]]
            0 <= k < scan_starts(chunk, base, begins_new_line).len() ==> base <= scan_starts(
                chunk,
                base,
                begins_new_line,
            )[k] <= base + chunk.len(),
        forall|k1: int, k2: int|
            0 <= k1 < k2 < scan_starts(chunk, base, begins_new_line).len() ==> scan_starts(
                chunk,
                base,
                begins_new_line,
            )[k1] < scan_starts(chunk, base, begins_new_line)[k2],
{
    lemma_newline_starts_bounds(chunk, base);
}

/// The concatenation of a sequence of chunks, in submission order.
pub open spec fn concat_chunks(chunks: Seq<Seq<u8>>) -> Seq<u8>
    decreases chunks.len(),
{
    if chunks.len() == 0 {
        Seq::empty()
    } else {
        chunks[0] + concat_chunks(chunks.skip(1))
    }
}

/// Scanning a concatenation splits at any cut, provided the second part is
/// scanned as not beginning a new line.
pub proof fn lemma_scan_starts_split(s1: Seq<u8>, s2: Seq<u8>, base: int, begins_new_line: bool)
    requires
        s1.len() > 0,
        s2.len() > 0,
    ensures
        scan_starts(s1 + s2, base, begins_new_line) == scan_starts(s1, base, begins_new_line)
            + scan_starts(s2, base + s1.len(), false),
{
    lemma_newline_starts_split(s1, s2, base);
    if begins_new_line {
        assert(seq![base] + (newline_starts(s1, base) + newline_starts(s2, base + s1.len()))
            =~= (seq![base] + newline_starts(s1, base)) + newline_starts(s2, base + s1.len()));
    }
}

/// Relies on `memchr::memchr`: returns the index of the first occurrence of
/// `byte` in `haystack`, or `None` when the byte does not occur at all.
#[verifier::external_body]
pub(crate) fn find_byte(byte: u8, haystack: &[u8]) -> (r: Option<usize>)
    ensures
        match r {
            Some(i) => i < haystack@.len() && haystack@[i as int] == byte && forall|j: int|
                0 <= j < i ==> haystack@[j] != byte,
            None => forall|j: int| 0 <= j < haystack@.len() ==> haystack@[j] != byte,
        },
{
    memchr::memchr(byte, haystack)
}

/// Scans `chunk` for line feeds and appends the absolute file offset of each
/// new line start to `line_starts`: `base_offset` itself when the chunk
/// begins a new line, then the offset just past each line feed. A `\r\n`
/// terminator needs no special case, the `\r` simply stays on the previous
/// line. Returns whether the chunk ends on a line boundary, the flag the
/// caller carries to the next chunk.
pub fn scan_chunk(
    chunk: &[u8],
    base_offset: u64,
    line_starts: &mut Vec<u64>,
    chunk_starts_new_line: bool,
) -> (ends_on_boundary: bool)
    requires
        base_offset + chunk@.len() <= u64::MAX,
    ensures
        seq_u64_as_ints(final(line_starts)@) == seq_u64_as_ints(old(line_starts)@) + scan_starts(
            chunk@,
            base_offset as int,
            chunk_starts_new_line,
        ),
        ends_on_boundary == scan_ends_on_boundary(chunk@),
{
    let ghost initial = line_starts@;
    let ghost base_i = base_offset as int;
    if chunk.len() == 0 {
        proof {
            assert(seq_u64_as_ints(line_starts@) =~= seq_u64_as_ints(initial) + scan_starts(
                chunk@,
                base_i,
                chunk_starts_new_line,
            ));
        }
        return true;
    }
    if chunk_starts_new_line {
        line_starts.push(base_offset);
        proof {
            lemma_seq_u64_as_ints_push(initial, base_offset);
        }
    }
    let ghost head = (if chunk_starts_new_line {
        seq![base_i]
    } else {
        Seq::<int>::empty()
    });
    proof {
        assert(seq_u64_as_ints(line_starts@) =~= seq_u64_as_ints(initial) + head);
        assert(chunk@.take(0) =~= Seq::<u8>::empty());
        assert(seq_u64_as_ints(line_starts@) =~= seq_u64_as_ints(initial) + head + newline_starts(
            chunk@.take(0),
            base_i,
        ));
    }
    let mut search_from: usize = 0;
    while search_from < chunk.len()
        invariant
            search_from <= chunk@.len(),
            base_offset + chunk@.len() <= u64::MAX,
            base_i == base_offset as int,
            seq_u64_as_ints(line_starts@) == seq_u64_as_ints(initial) + head + newline_starts(
                chunk@.take(search_from as int),
                base_i,
            ),
        decreases chunk@.len() - search_from,
    {
        let window = vstd::slice::slice_subrange(chunk, search_from, chunk.len());
        match find_byte(LINE_FEED, window) {
            Some(i) => {
                let pos = search_from + i;
                let ghost before = line_starts@;
                line_starts.push(base_offset + (pos as u64) + 1);
                proof {
                    lemma_seq_u64_as_ints_push(before, (base_offset + (pos as u64) + 1) as u64);
                    let done = chunk@.take(search_from as int);
                    let seg = chunk@.subrange(search_from as int, pos + 1);
                    assert(chunk@.take(pos + 1) =~= done + seg);
                    lemma_newline_starts_split(done, seg, base_i);
                    assert(seg.last() == chunk@[pos as int]);
                    assert(chunk@[pos as int] == window@[i as int]);
                    assert(forall|j: int| 0 <= j < seg.len() - 1 ==> seg[j] != LINE_FEED);
                    lemma_newline_starts_last_only(seg, base_i + search_from);
                    assert(newline_starts(chunk@.take(pos + 1), base_i) =~= newline_starts(
                        done,
                        base_i,
                    ) + seq![base_i + pos + 1]);
                    assert(seq_u64_as_ints(line_starts@) =~= seq_u64_as_ints(initial) + head
                        + newline_starts(chunk@.take(pos + 1), base_i));
                }
                search_from = pos + 1;
            },
            None => {
                proof {
                    let done = chunk@.take(search_from as int);
                    let rest = chunk@.subrange(search_from as int, chunk@.len() as int);
                    assert(chunk@.take(chunk@.len() as int) =~= done + rest);
                    lemma_newline_starts_split(done, rest, base_i);
                    lemma_newline_starts_none(rest, base_i + search_from);
                    assert(newline_starts(chunk@.take(chunk@.len() as int), base_i)
                        =~= newline_starts(done, base_i));
                }
                search_from = chunk.len();
            },
        }
    }
    proof {
        assert(chunk@.take(chunk@.len() as int) =~= chunk@);
        assert(head + newline_starts(chunk@, base_i) =~= scan_starts(
            chunk@,
            base_i,
            chunk_starts_new_line,
        ));
        assert(seq_u64_as_ints(line_starts@) =~= seq_u64_as_ints(initial) + scan_starts(
            chunk@,
            base_i,
            chunk_starts_new_line,
        ));
    }
    let last = chunk[chunk.len() - 1];
    last == LINE_FEED
}

} // verus!
