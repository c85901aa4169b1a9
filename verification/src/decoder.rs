//! Boundary-safe text decoder: turns byte ranges into text lines without
//! corrupting a multi-byte character that a chunk or blob boundary cut in
//! half. A trailing incomplete encoding unit is dropped silently; genuinely
//! invalid bytes elsewhere decode with the replacement character.

use vstd::prelude::*;

verus! {

/// The characters that lossy UTF-8 decoding yields for `bytes`.
pub uninterp spec fn lossy_decoded(bytes: Seq<u8>) -> Seq<char>;

/// How many bytes a UTF-8 sequence led by `b` has: 1 for ASCII, 2 to 4 for
/// the multi-byte leads, 0 when `b` can lead no sequence.
pub open spec fn utf8_seq_len(b: u8) -> int {
    if b < 0x80 {
        1
    } else if 0xC2 <= b <= 0xDF {
        2
    } else if 0xE0 <= b <= 0xEF {
        3
    } else if 0xF0 <= b <= 0xF4 {
        4
    } else {
        0
    }
}

/// Whether `b` may stand at position `i` (1-based, after the lead) of a
/// multi-byte sequence led by `lead`. The first continuation byte has a
/// narrowed range for the leads that would otherwise encode an overlong
/// form, a surrogate, or a value past the last code point.
pub open spec fn valid_continuation(lead: u8, i: int, b: u8) -> bool {
    if i == 1 {
        if lead == 0xE0 {
            0xA0 <= b <= 0xBF
        } else if lead == 0xED {
            0x80 <= b <= 0x9F
        } else if lead == 0xF0 {
            0x90 <= b <= 0xBF
        } else if lead == 0xF4 {
            0x80 <= b <= 0x8F
        } else {
            0x80 <= b <= 0xBF
        }
    } else {
        0x80 <= b <= 0xBF
    }
}

/// The length of the trailing incomplete encoding unit of `bytes`: the last
/// one to three bytes form a proper prefix of a valid multi-byte sequence
/// that the end of the input cut short. Zero when the input ends on a
/// complete unit or on bytes no completion could make valid.
pub open spec fn trailing_incomplete_len(bytes: Seq<u8>) -> int {
    let n = bytes.len() as int;
    if n >= 1 && utf8_seq_len(bytes[n - 1]) >= 2 {
        1
    } else if n >= 2 && utf8_seq_len(bytes[n - 2]) >= 3 && valid_continuation(
        bytes[n - 2],
        1,
        bytes[n - 1],
    ) {
        2
    } else if n >= 3 && utf8_seq_len(bytes[n - 3]) == 4 && valid_continuation(
        bytes[n - 3],
        1,
        bytes[n - 2],
    ) && valid_continuation(bytes[n - 3], 2, bytes[n - 1]) {
        3
    } else {
        0
    }
}

/// What decoding one line slice yields: the lossy decoding of the slice
/// minus its trailing incomplete encoding unit. Dropping that fragment keeps
/// a multi-byte character cut in half by a boundary from turning into a
/// replacement marker; invalid bytes elsewhere still decode as replacement
/// characters.
pub open spec fn decoded_line(bytes: Seq<u8>) -> Seq<char> {
    lossy_decoded(bytes.subrange(0, bytes.len() - trailing_incomplete_len(bytes)))
}

/// The bytes of line `i` within `blob`, between the previous exclusive
/// boundary (0 for the first line) and this line's boundary, both clamped to
/// the blob length.
pub open spec fn line_slice(blob: Seq<u8>, line_ends: Seq<usize>, i: int) -> Seq<u8> {
    let start = if i == 0 {
        0
    } else if line_ends[i - 1] <= blob.len() {
        line_ends[i - 1] as int
    } else {
        blob.len() as int
    };
    let end = if line_ends[i] <= blob.len() {
        line_ends[i] as int
    } else {
        blob.len() as int
    };
    blob.subrange(start, end)
}

/// Relies on `String::from_utf8_lossy`: decodes `bytes` as UTF-8,
/// substituting the replacement character for invalid sequences; the result
/// depends on the bytes alone, and an empty input decodes to the empty
/// string.
#[verifier::external_body]
fn lossy_decode(bytes: &[u8]) -> (text: String)
    ensures
        text@ == lossy_decoded(bytes@),
        bytes@.len() == 0 ==> text@.len() == 0,
{
    String::from_utf8_lossy(bytes).into_owned()
}

/// The length of the trailing incomplete encoding unit of `slice`.
fn trailing_incomplete(slice: &[u8]) -> (k: usize)
    ensures
        k == trailing_incomplete_len(slice@),
        k <= slice@.len(),
{
    let n = slice.len();
    if n >= 1 && lead_len(slice[n - 1]) >= 2 {
        1
    } else if n >= 2 && lead_len(slice[n - 2]) >= 3 && continuation_ok(
        slice[n - 2],
        1,
        slice[n - 1],
    ) {
        2
    } else if n >= 3 && lead_len(slice[n - 3]) == 4 && continuation_ok(slice[n - 3], 1, slice[n - 2])
        && continuation_ok(slice[n - 3], 2, slice[n - 1]) {
        3
    } else {
        0
    }
}

/// Executable twin of `utf8_seq_len`.
fn lead_len(b: u8) -> (len: u8)
    ensures
        len == utf8_seq_len(b),
{
    if b < 0x80 {
        1
    } else if 0xC2 <= b && b <= 0xDF {
        2
    } else if 0xE0 <= b && b <= 0xEF {
        3
    } else if 0xF0 <= b && b <= 0xF4 {
        4
    } else {
        0
    }
}

/// Executable twin of `valid_continuation`.
fn continuation_ok(lead: u8, i: u8, b: u8) -> (ok: bool)
    ensures
        ok == valid_continuation(lead, i as int, b),
{
    if i == 1 {
        if lead == 0xE0 {
            0xA0 <= b && b <= 0xBF
        } else if lead == 0xED {
            0x80 <= b && b <= 0x9F
        } else if lead == 0xF0 {
            0x90 <= b && b <= 0xBF
        } else if lead == 0xF4 {
            0x80 <= b && b <= 0x8F
        } else {
            0x80 <= b && b <= 0xBF
        }
    } else {
        0x80 <= b && b <= 0xBF
    }
}

/// Decodes one line slice to text. A trailing multi-byte character cut in
/// half by a boundary is dropped rather than replaced with a marker, so the
/// visible text never shows corruption for a character that is merely
/// incomplete; genuinely invalid bytes elsewhere decode as replacement
/// characters.
pub fn decode_utf8_line_slice(slice: &[u8]) -> (text: String)
    ensures
        text@ == decoded_line(slice@),
{
    let k = trailing_incomplete(slice);
    let keep = slice.len() - k;
    let prefix = vstd::slice::slice_subrange(slice, 0, keep);
    lossy_decode(prefix)
}

/// Decodes the lines of a contiguous blob, given the exclusive end offset of
/// each line relative to the blob. Line `i` runs from the previous end (0
/// for the first line) to `line_ends[i]`, each boundary clamped to the blob
/// length, so boundaries past the blob never fail; each line drops a
/// trailing incomplete encoding unit. Boundaries must not decrease.
#[verifier::loop_isolation(false)]
pub fn decode_lines_from_blob(blob: &[u8], line_ends: &[usize]) -> (lines: Vec<String>)
    requires
        forall|i: int, j: int| 0 <= i <= j < line_ends@.len() ==> line_ends@[i] <= line_ends@[j],
    ensures
        lines@.len() == line_ends@.len(),
        forall|i: int|
            0 <= i < lines@.len() ==> lines@[i]@ == decoded_line(line_slice(blob@, line_ends@, i)),
{
    let blob_len = blob.len();
    let mut lines: Vec<String> = Vec::new();
    let mut start: usize = 0;
    let mut i: usize = 0;
    while i < line_ends.len()
        invariant
            i <= line_ends@.len(),
            lines@.len() == i,
            i == 0 ==> start == 0,
            i > 0 ==> start == (if line_ends@[i - 1] <= blob@.len() {
                line_ends@[i - 1] as int
            } else {
                blob@.len() as int
            }),
            start <= blob@.len(),
            forall|k: int|
                0 <= k < i ==> lines@[k]@ == decoded_line(line_slice(blob@, line_ends@, k)),
        decreases line_ends@.len() - i,
    {
        let end = line_ends[i];
        let clamped = if end <= blob_len {
            end
        } else {
            blob_len
        };
        let slice = vstd::slice::slice_subrange(blob, start, clamped);
        let text = decode_utf8_line_slice(slice);
        lines.push(text);
        start = clamped;
        i = i + 1;
    }
    lines
}

/// Decoding is a function of the blob and the boundaries alone: two results
/// that both satisfy the decoder's contract on identical arguments agree,
/// character for character, so calling the decoder twice with identical
/// arguments yields identical text.
pub proof fn lemma_decode_deterministic(
    lines1: Seq<Seq<char>>,
    lines2: Seq<Seq<char>>,
    blob: Seq<u8>,
    line_ends: Seq<usize>,
)
    requires
        lines1.len() == line_ends.len(),
        lines2.len() == line_ends.len(),
        forall|i: int|
            0 <= i < line_ends.len() ==> lines1[i] == decoded_line(line_slice(blob, line_ends, i)),
        forall|i: int|
            0 <= i < line_ends.len() ==> lines2[i] == decoded_line(line_slice(blob, line_ends, i)),
    ensures
        lines1 == lines2,
{
    assert(lines1 =~= lines2);
}

} // verus!
