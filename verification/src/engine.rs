//! The index engine: owns the cumulative line-offset index, the streaming
//! boundary state, and the working buffer for incoming chunks.
//!
//! Retention policy: the working buffer holds only the bytes committed since
//! the last `index_chunk` call, and `index_chunk` discards them once their
//! line starts are extracted. Memory therefore stays bounded by the chunk
//! size, and content queries (substring search over the buffer) only see the
//! currently retained window; content beyond it must be re-supplied by the
//! caller from the original source.

use crate::scanner;
use crate::scanner::{concat_chunks, newline_starts, scan_ends_on_boundary, scan_starts, seq_u64_as_ints};
use vstd::prelude::*;

verus! {

/// An error surfaced to the caller; the engine itself never panics.
#[derive(Clone, Copy, PartialEq, Eq, Structural, Debug)]
pub enum EngineError {
    /// `commit` was handed more bytes than the most recent `reserve` made
    /// room for.
    BufferOverflow,
}

/// The half-open byte ranges of the lines `[start, end)`, after clamping both
/// bounds into `[0, offsets.len()]`. Line `k` starts at `offsets[k]`; it ends
/// where the next line starts, and the last line ends at `total`, the number
/// of bytes indexed so far.
pub open spec fn spec_line_ranges(offsets: Seq<u64>, total: u64, start: int, end: int) -> Seq<
    (u64, u64),
> {
    let e = if end <= offsets.len() {
        end
    } else {
        offsets.len() as int
    };
    let s = if start <= e {
        start
    } else {
        e
    };
    Seq::new(
        (e - s) as nat,
        |k: int|
            (
                offsets[s + k],
                if s + k + 1 < offsets.len() {
                    offsets[s + k + 1]
                } else {
                    total
                },
            ),
    )
}

/// Chunked line-index engine for one log-viewing session: line-start offsets,
/// cumulative position, boundary flag, and the working buffer.
pub struct LogEngine {
    buffer: Vec<u8>,
    offsets: Vec<u64>,
    total_bytes_indexed: u64,
    last_chunk_ended_with_newline: bool,
    reserved: usize,
}

impl LogEngine {
    /// The working buffer: bytes committed and not yet indexed.
    pub closed spec fn buffer_view(self) -> Seq<u8> {
        self.buffer@
    }

    /// The line-start offsets indexed so far.
    pub closed spec fn offsets_view(self) -> Seq<u64> {
        self.offsets@
    }

    /// Total logical bytes indexed so far; also the file offset of the next
    /// byte to be indexed.
    pub closed spec fn total_indexed(self) -> u64 {
        self.total_bytes_indexed
    }

    /// Whether the next committed chunk begins a new line.
    pub closed spec fn boundary_flag(self) -> bool {
        self.last_chunk_ended_with_newline
    }

    /// The size of the most recent reservation, not yet consumed by `commit`.
    pub closed spec fn reserved_size(self) -> usize {
        self.reserved
    }

    /// The flag the engine actually scans with: the carried boundary flag,
    /// except when the index already ends with a line start at the current
    /// position. A chunk that ends with a line feed emits the offset just
    /// past itself, so scanning the next chunk with the flag on would record
    /// that same start twice.
    pub open spec fn effective_begins_new_line(self) -> bool {
        self.boundary_flag() && (self.offsets_view().len() == 0 || self.offsets_view().last()
            != self.total_indexed())
    }

    /// The state every session starts from: nothing indexed, nothing
    /// retained, and the start of the stream counts as a line boundary.
    pub open spec fn is_initial(self) -> bool {
        &&& self.buffer_view() == Seq::<u8>::empty()
        &&& self.offsets_view() == Seq::<u64>::empty()
        &&& self.total_indexed() == 0
        &&& self.boundary_flag() == true
        &&& self.reserved_size() == 0
    }

    /// The engine invariant: line-start offsets strictly increase, and none
    /// passes the cumulative number of indexed bytes.
    pub open spec fn wf(self) -> bool {
        &&& forall|i: int, j: int|
            0 <= i < j < self.offsets_view().len() ==> self.offsets_view()[i]
                < self.offsets_view()[j]
        &&& forall|i: int|
            0 <= i < self.offsets_view().len() ==> self.offsets_view()[i] <= self.total_indexed()
    }

    pub fn new() -> (engine: Self)
        ensures
            engine.is_initial(),
            engine.wf(),
    {
        LogEngine {
            buffer: Vec::new(),
            offsets: Vec::new(),
            total_bytes_indexed: 0,
            last_chunk_ended_with_newline: true,
            reserved: 0,
        }
    }

    /// Makes room at the end of the working buffer for a chunk of at most
    /// `size` bytes without changing the buffer's logical length. Each
    /// reservation replaces the previous one; only `commit` extends the
    /// buffer.
    pub fn reserve(&mut self, size: usize)
        ensures
            final(self).reserved_size() == size,
            final(self).buffer_view() == old(self).buffer_view(),
            final(self).offsets_view() == old(self).offsets_view(),
            final(self).total_indexed() == old(self).total_indexed(),
            final(self).boundary_flag() == old(self).boundary_flag(),
    {
        self.buffer.reserve(size);
        self.reserved = size;
    }

    /// Appends `chunk` to the working buffer, consuming the most recent
    /// reservation. Fails with `BufferOverflow`, leaving the engine
    /// unchanged, exactly when the chunk is longer than that reservation.
    /// The newly committed bytes stay readable through `buffer_slice` until
    /// `index_chunk` discards them.
    pub fn commit(&mut self, chunk: &[u8]) -> (result: Result<(), EngineError>)
        ensures
            match result {
                Ok(()) => chunk@.len() <= old(self).reserved_size() && final(self).buffer_view()
                    == old(self).buffer_view() + chunk@ && final(self).reserved_size() == 0,
                Err(e) => e == EngineError::BufferOverflow && chunk@.len() > old(self).reserved_size()
                    && final(self).buffer_view() == old(self).buffer_view()
                    && final(self).reserved_size() == old(self).reserved_size(),
            },
            final(self).offsets_view() == old(self).offsets_view(),
            final(self).total_indexed() == old(self).total_indexed(),
            final(self).boundary_flag() == old(self).boundary_flag(),
    {
        if chunk.len() > self.reserved {
            return Err(EngineError::BufferOverflow);
        }
        self.reserved = 0;
        let ghost committed = self.buffer@;
        let ghost offsets_snap = self.offsets@;
        let ghost total_snap = self.total_bytes_indexed;
        let ghost flag_snap = self.last_chunk_ended_with_newline;
        let mut k: usize = 0;
        while k < chunk.len()
            invariant
                k <= chunk@.len(),
                self.buffer@ == committed + chunk@.take(k as int),
                self.offsets@ == offsets_snap,
                self.total_bytes_indexed == total_snap,
                self.last_chunk_ended_with_newline == flag_snap,
                self.reserved == 0,
            decreases chunk@.len() - k,
        {
            let ghost before = self.buffer@;
            self.buffer.push(chunk[k]);
            proof {
                assert(before.push(chunk@[k as int]) =~= committed + chunk@.take(k + 1));
            }
            k = k + 1;
        }
        proof {
            assert(chunk@.take(chunk@.len() as int) =~= chunk@);
        }
        Ok(())
    }

    /// Appends line-start offsets produced by the scanner to the index.
    pub fn append_offsets(&mut self, new_offsets: &[u64])
        ensures
            final(self).offsets_view() == old(self).offsets_view() + new_offsets@,
            final(self).buffer_view() == old(self).buffer_view(),
            final(self).total_indexed() == old(self).total_indexed(),
            final(self).boundary_flag() == old(self).boundary_flag(),
            final(self).reserved_size() == old(self).reserved_size(),
    {
        let ghost appended = self.offsets@;
        let ghost buffer_snap = self.buffer@;
        let ghost total_snap = self.total_bytes_indexed;
        let ghost flag_snap = self.last_chunk_ended_with_newline;
        let ghost reserved_snap = self.reserved;
        let mut k: usize = 0;
        while k < new_offsets.len()
            invariant
                k <= new_offsets@.len(),
                self.offsets@ == appended + new_offsets@.take(k as int),
                self.buffer@ == buffer_snap,
                self.total_bytes_indexed == total_snap,
                self.last_chunk_ended_with_newline == flag_snap,
                self.reserved == reserved_snap,
            decreases new_offsets@.len() - k,
        {
            let ghost before = self.offsets@;
            self.offsets.push(new_offsets[k]);
            proof {
                assert(before.push(new_offsets@[k as int]) =~= appended + new_offsets@.take(k + 1));
            }
            k = k + 1;
        }
        proof {
            assert(new_offsets@.take(new_offsets@.len() as int) =~= new_offsets@);
        }
    }

    /// Advances the cumulative byte count and records whether the chunk ended
    /// on a line boundary.
    pub fn advance_after_chunk(&mut self, chunk_len: usize, ended_with_newline: bool)
        requires
            old(self).total_indexed() + chunk_len <= u64::MAX,
        ensures
            final(self).total_indexed() == old(self).total_indexed() + chunk_len,
            final(self).boundary_flag() == ended_with_newline,
            final(self).buffer_view() == old(self).buffer_view(),
            final(self).offsets_view() == old(self).offsets_view(),
            final(self).reserved_size() == old(self).reserved_size(),
    {
        self.total_bytes_indexed = self.total_bytes_indexed + (chunk_len as u64);
        self.last_chunk_ended_with_newline = ended_with_newline;
    }

    /// Discards the working buffer while keeping the line-offset index, so
    /// that the full stream never accumulates in memory.
    pub fn discard_buffer_after_indexing(&mut self)
        ensures
            final(self).buffer_view() == Seq::<u8>::empty(),
            final(self).offsets_view() == old(self).offsets_view(),
            final(self).total_indexed() == old(self).total_indexed(),
            final(self).boundary_flag() == old(self).boundary_flag(),
            final(self).reserved_size() == old(self).reserved_size(),
    {
        self.buffer.clear();
    }

    /// Indexes the committed, not yet indexed bytes of the working buffer:
    /// scans them at the current cumulative position, appends the discovered
    /// line starts to the index, advances the cumulative position by the
    /// buffer length, records the new boundary flag, and discards the
    /// buffer. The chunk is scanned with the effective boundary flag, so a
    /// line start the previous chunk already emitted is never recorded a
    /// second time and the index stays strictly increasing.
    pub fn index_chunk(&mut self)
        requires
            old(self).total_indexed() + old(self).buffer_view().len() <= u64::MAX,
        ensures
            seq_u64_as_ints(final(self).offsets_view()) == seq_u64_as_ints(
                old(self).offsets_view(),
            ) + scan_starts(
                old(self).buffer_view(),
                old(self).total_indexed() as int,
                old(self).effective_begins_new_line(),
            ),
            final(self).total_indexed() == old(self).total_indexed()
                + old(self).buffer_view().len(),
            final(self).boundary_flag() == scan_ends_on_boundary(old(self).buffer_view()),
            final(self).buffer_view() == Seq::<u8>::empty(),
            final(self).reserved_size() == old(self).reserved_size(),
            old(self).wf() ==> final(self).wf(),
    {
        let ghost chunk = self.buffer@;
        let ghost base = self.total_bytes_indexed as int;
        let begins = self.last_chunk_ended_with_newline && (self.offsets.len() == 0
            || self.offsets[self.offsets.len() - 1] != self.total_bytes_indexed);
        let chunk_len = self.buffer.len();
        let mut line_starts: Vec<u64> = Vec::new();
        let ends_with_newline = scanner::scan_chunk(
            self.buffer.as_slice(),
            self.total_bytes_indexed,
            &mut line_starts,
            begins,
        );
        self.append_offsets(line_starts.as_slice());
        self.advance_after_chunk(chunk_len, ends_with_newline);
        self.discard_buffer_after_indexing();
        proof {
            assert(begins == old(self).effective_begins_new_line());
            let scanned = scan_starts(chunk, base, begins);
            assert(seq_u64_as_ints(line_starts@) =~= scanned);
            lemma_seq_u64_as_ints_split(old(self).offsets_view(), line_starts@);
            if old(self).wf() {
                scanner::lemma_scan_starts_bounds(chunk, base, begins);
                scanner::lemma_newline_starts_bounds(chunk, base);
                let all = self.offsets@;
                let n0 = old(self).offsets_view().len() as int;
                assert forall|i: int, j: int| 0 <= i < j < all.len() implies all[i] < all[j] by {
                    if j >= n0 {
                        assert(all[j] as int == scanned[j - n0]);
                    }
                    if i >= n0 && j >= n0 {
                        assert(all[i] as int == scanned[i - n0]);
                        assert(scanned[i - n0] < scanned[j - n0]);
                    }
                    if i < n0 {
                        assert(all[i] == old(self).offsets_view()[i]);
                        if i < n0 - 1 {
                            assert(old(self).offsets_view()[i]
                                < old(self).offsets_view()[n0 - 1]);
                        }
                        if j >= n0 {
                            // Every old offset lies strictly below every new
                            // start: with the flag on, the suppression test
                            // makes the last old offset differ from the base,
                            // and with it off, the new starts all lie past
                            // the base.
                            if begins {
                                assert(old(self).offsets_view()[n0 - 1] != base);
                                assert(old(self).offsets_view()[n0 - 1] <= base);
                                assert(scanned[j - n0] >= base);
                            } else {
                                assert(scanned == newline_starts(chunk, base));
                                assert(scanned[j - n0] >= base + 1);
                                assert(old(self).offsets_view()[n0 - 1] <= base);
                            }
                        }
                    }
                }
                assert forall|i: int| 0 <= i < all.len() implies all[i]
                    <= self.total_bytes_indexed by {
                    if i >= n0 {
                        assert(all[i] as int == scanned[i - n0]);
                        assert(scanned[i - n0] <= base + chunk.len());
                    } else {
                        assert(all[i] == old(self).offsets_view()[i]);
                    }
                }
            }
        }
    }

    pub fn total_bytes_indexed(&self) -> (total: u64)
        ensures
            total == self.total_indexed(),
    {
        self.total_bytes_indexed
    }

    pub fn last_chunk_ended_with_newline(&self) -> (flag: bool)
        ensures
            flag == self.boundary_flag(),
    {
        self.last_chunk_ended_with_newline
    }

    /// Number of lines indexed so far: one per line-start offset.
    pub fn line_count(&self) -> (count: usize)
        ensures
            count == self.offsets_view().len(),
    {
        self.offsets.len()
    }

    /// Immutable view of the line-start offsets, for slicing and search.
    pub fn offsets(&self) -> (offsets: &Vec<u64>)
        ensures
            offsets@ == self.offsets_view(),
    {
        &self.offsets
    }

    /// The `(start, end)` byte ranges of the lines `[start, end)`. Both
    /// indices are clamped into `[0, line_count]`, so out-of-range or crossed
    /// arguments never fail; they yield whatever valid ranges remain.
    #[verifier::loop_isolation(false)]
    pub fn get_line_ranges(&self, start: usize, end: usize) -> (ranges: Vec<(u64, u64)>)
        ensures
            ranges@ == spec_line_ranges(
                self.offsets_view(),
                self.total_indexed(),
                start as int,
                end as int,
            ),
    {
        let line_count = self.offsets.len();
        let end_clamped = if end <= line_count {
            end
        } else {
            line_count
        };
        let start_clamped = if start <= end_clamped {
            start
        } else {
            end_clamped
        };
        let ghost target = spec_line_ranges(
            self.offsets_view(),
            self.total_indexed(),
            start as int,
            end as int,
        );
        let mut ranges: Vec<(u64, u64)> = Vec::new();
        let mut i = start_clamped;
        while i < end_clamped
            invariant
                start_clamped <= i <= end_clamped <= self.offsets@.len(),
                target == spec_line_ranges(
                    self.offsets@,
                    self.total_bytes_indexed,
                    start as int,
                    end as int,
                ),
                target.len() == end_clamped - start_clamped,
                ranges@.len() == i - start_clamped,
                forall|k: int| 0 <= k < ranges@.len() ==> ranges@[k] == target[k],
            decreases end_clamped - i,
        {
            let line_start = self.offsets[i];
            let line_end = if i + 1 < line_count {
                self.offsets[i + 1]
            } else {
                self.total_bytes_indexed
            };
            ranges.push((line_start, line_end));
            i = i + 1;
        }
        proof {
            assert(ranges@ =~= target);
        }
        ranges
    }

    /// Resets the index, the working buffer, and the streaming state to the
    /// initial empty state. Idempotent; called between sessions so one
    /// session's index never leaks into the next.
    pub fn clear(&mut self)
        ensures
            final(self).is_initial(),
            final(self).wf(),
    {
        self.buffer.clear();
        self.offsets.clear();
        self.total_bytes_indexed = 0;
        self.last_chunk_ended_with_newline = true;
        self.reserved = 0;
    }

    /// A read-only slice `[start, end)` of the working buffer. A range that
    /// ends past the retained bytes yields the empty slice.
    pub fn buffer_slice(&self, start: u64, end: u64) -> (bytes: &[u8])
        requires
            start <= end,
        ensures
            (end <= self.buffer_view().len() ==> bytes@ == self.buffer_view().subrange(
                start as int,
                end as int,
            )),
            (end > self.buffer_view().len() ==> bytes@ == Seq::<u8>::empty()),
    {
        if end <= self.buffer.len() as u64 {
            vstd::slice::slice_subrange(self.buffer.as_slice(), start as usize, end as usize)
        } else {
            let empty = vstd::slice::slice_subrange(self.buffer.as_slice(), 0, 0);
            proof {
                assert(empty@ =~= Seq::<u8>::empty());
            }
            empty
        }
    }

    /// Logical length of the working buffer: bytes committed and not yet
    /// indexed.
    pub fn buffer_len(&self) -> (len: usize)
        ensures
            len == self.buffer_view().len(),
    {
        self.buffer.len()
    }
}

impl Default for LogEngine {
    fn default() -> (engine: Self)
        ensures
            engine.is_initial(),
            engine.wf(),
    {
        LogEngine::new()
    }
}

/// Reading `u64` sequences as integers commutes with concatenation.
pub proof fn lemma_seq_u64_as_ints_split(s1: Seq<u64>, s2: Seq<u64>)
    ensures
        seq_u64_as_ints(s1 + s2) == seq_u64_as_ints(s1) + seq_u64_as_ints(s2),
{
    assert(seq_u64_as_ints(s1 + s2) =~= seq_u64_as_ints(s1) + seq_u64_as_ints(s2));
}

/// A cleared engine and a freshly constructed engine cannot be told apart:
/// all observable state coincides, so every query, whose result is pinned by
/// that state and the query's own arguments alone, returns on the cleared
/// engine exactly what it returns on the fresh one.
pub proof fn lemma_cleared_engine_queries_like_fresh(
    cleared: LogEngine,
    fresh: LogEngine,
    start: int,
    end: int,
)
    requires
        cleared.is_initial(),
        fresh.is_initial(),
    ensures
        cleared.offsets_view() == fresh.offsets_view(),
        cleared.total_indexed() == fresh.total_indexed(),
        cleared.boundary_flag() == fresh.boundary_flag(),
        cleared.buffer_view() == fresh.buffer_view(),
        spec_line_ranges(cleared.offsets_view(), cleared.total_indexed(), start, end)
            == spec_line_ranges(fresh.offsets_view(), fresh.total_indexed(), start, end),
{
}


/// The range query is a function of the line offsets, the indexed total and
/// its arguments alone: two results both pinned by its contract on identical
/// state and arguments are equal, so calling `get_line_ranges` twice with
/// identical arguments and no intervening mutation yields identical results.
pub proof fn lemma_line_ranges_deterministic(
    ranges1: Seq<(u64, u64)>,
    ranges2: Seq<(u64, u64)>,
    offsets: Seq<u64>,
    total: u64,
    start: int,
    end: int,
)
    requires
        ranges1 == spec_line_ranges(offsets, total, start, end),
        ranges2 == spec_line_ranges(offsets, total, start, end),
    ensures
        ranges1 == ranges2,
{
}


/// The line starts that indexing `chunks` one after the other accumulates,
/// starting from accumulated starts `acc`, cumulative position `base` and
/// carried boundary flag `begins_new_line`. Each chunk is scanned with the
/// engine's effective flag: the boundary start is suppressed when `acc`
/// already ends with it, exactly as `index_chunk` does.
pub open spec fn indexed_starts(
    chunks: Seq<Seq<u8>>,
    base: int,
    begins_new_line: bool,
    acc: Seq<int>,
) -> Seq<int>
    decreases chunks.len(),
{
    if chunks.len() == 0 {
        acc
    } else {
        let effective = begins_new_line && (acc.len() == 0 || acc.last() != base);
        indexed_starts(
            chunks.skip(1),
            base + chunks[0].len(),
            scan_ends_on_boundary(chunks[0]),
            acc + scan_starts(chunks[0], base, effective),
        )
    }
}

/// Indexing non-empty chunks from any state that scanning a stream prefix
/// `s0` whole would produce continues as if the rest of the stream were part
/// of that one scan.
proof fn lemma_indexed_starts_extend(s0: Seq<u8>, chunks: Seq<Seq<u8>>)
    requires
        forall|k: int| 0 <= k < chunks.len() ==> chunks[k].len() > 0,
    ensures
        indexed_starts(
            chunks,
            s0.len() as int,
            scan_ends_on_boundary(s0),
            scan_starts(s0, 0, true),
        ) == scan_starts(s0 + concat_chunks(chunks), 0, true),
    decreases chunks.len(),
{
    if chunks.len() == 0 {
        assert(s0 + concat_chunks(chunks) =~= s0);
    } else {
        let c = chunks[0];
        let acc = scan_starts(s0, 0, true);
        let base = s0.len() as int;
        let begins = scan_ends_on_boundary(s0);
        let effective = begins && (acc.len() == 0 || acc.last() != base);
        if s0.len() == 0 {
            assert(acc =~= Seq::<int>::empty());
            assert(effective);
            assert(acc + scan_starts(c, base, effective) =~= scan_starts(c, 0, true));
            assert(s0 + c =~= c);
        } else {
            if begins {
                // The scan of s0 already ends with the start at `base`, so
                // the boundary start is suppressed.
                scanner::lemma_newline_starts_last(s0, 0);
                let tail = newline_starts(s0, 0);
                assert(acc == seq![0int] + tail);
                assert(acc.last() == tail.last());
                assert(acc.last() == base);
                assert(!effective);
            }
            scanner::lemma_scan_starts_split(s0, c, 0, true);
            assert(acc + scan_starts(c, base, false) == scan_starts(s0 + c, 0, true));
            assert(!effective);
        }
        assert((s0 + c).last() == c.last());
        assert(scan_ends_on_boundary(s0 + c) == scan_ends_on_boundary(c));
        assert((s0 + c).len() as int == base + c.len());
        lemma_indexed_starts_extend(s0 + c, chunks.skip(1));
        assert((s0 + c) + concat_chunks(chunks.skip(1)) =~= s0 + concat_chunks(chunks));
        assert(indexed_starts(
            chunks,
            base,
            begins,
            acc,
        ) == indexed_starts(
            chunks.skip(1),
            base + c.len(),
            scan_ends_on_boundary(c),
            acc + scan_starts(c, base, effective),
        ));
    }
}

/// Chunk-split invariance: indexing a stream chunk by chunk accumulates
/// exactly the line starts of scanning the whole stream at once, for every
/// partition into non-empty chunks. This is the fold that a fresh engine
/// computes through `index_chunk`, whose effective flag keeps a boundary
/// start from being recorded twice when a chunk ends with a line feed. (An
/// empty chunk forces the boundary flag on mid-line, the scanner's
/// documented quirk, and is therefore excluded.)
pub proof fn lemma_chunk_split_invariance(chunks: Seq<Seq<u8>>)
    requires
        forall|k: int| 0 <= k < chunks.len() ==> chunks[k].len() > 0,
    ensures
        indexed_starts(chunks, 0, true, Seq::empty()) == scan_starts(
            concat_chunks(chunks),
            0,
            true,
        ),
{
    let empty = Seq::<u8>::empty();
    assert(scan_starts(empty, 0, true) =~= Seq::<int>::empty());
    assert(scan_ends_on_boundary(empty));
    lemma_indexed_starts_extend(empty, chunks);
    assert(empty + concat_chunks(chunks) =~= concat_chunks(chunks));
}

} // verus!
