//! Byte-level substring search over the retained buffer, reported as line
//! indices: a line is reported once, however many occurrences it holds.

use crate::scanner::find_byte;
use vstd::prelude::*;

verus! {

/// A `u64` sequence whose entries strictly increase.
pub open spec fn strictly_increasing(s: Seq<u64>) -> bool {
    forall|i: int, j: int| 0 <= i < j < s.len() ==> s[i] < s[j]
}

/// `needle` occurs in `buffer` starting at byte position `p`.
pub open spec fn is_match_at(buffer: Seq<u8>, needle: Seq<u8>, p: int) -> bool {
    &&& 0 <= p
    &&& p + needle.len() <= buffer.len()
    &&& buffer.subrange(p, p + needle.len()) == needle
}

/// Line `i` is the line that contains byte position `p`: the greatest index
/// whose line-start offset is at most `p`. The last line has no upper bound
/// and extends to the end of the buffer.
pub open spec fn is_line_of(offsets: Seq<u64>, p: int, i: int) -> bool {
    &&& 0 <= i < offsets.len()
    &&& offsets[i] <= p
    &&& (i + 1 == offsets.len() || p < offsets[i + 1])
}

/// Some occurrence of `needle` in `buffer` starts inside line `i`.
pub open spec fn matched_line(buffer: Seq<u8>, offsets: Seq<u64>, needle: Seq<u8>, i: int) -> bool {
    exists|p: int| is_match_at(buffer, needle, p) && is_line_of(offsets, p, i)
}

/// Some occurrence of `needle` starting before position `bound` lies in line
/// `i`.
pub open spec fn matched_before(
    buffer: Seq<u8>,
    offsets: Seq<u64>,
    needle: Seq<u8>,
    i: int,
    bound: int,
) -> bool {
    exists|p: int| p < bound && is_match_at(buffer, needle, p) && is_line_of(offsets, p, i)
}

/// `result` holds exactly the lines of the occurrences that start before
/// `bound`.
pub open spec fn reported_upto(
    result: Seq<u64>,
    buffer: Seq<u8>,
    offsets: Seq<u64>,
    needle: Seq<u8>,
    bound: int,
) -> bool {
    forall|i: int|
        0 <= i < offsets.len() ==> (result.contains(i as u64) <==> matched_before(
            buffer,
            offsets,
            needle,
            i,
            bound,
        ))
}

/// What `match_lines` returns: for the empty needle, every line currently
/// indexed; otherwise the strictly ascending sequence of exactly the line
/// indices in which an occurrence of the needle starts.
pub open spec fn match_lines_post(
    result: Seq<u64>,
    buffer: Seq<u8>,
    offsets: Seq<u64>,
    needle: Seq<u8>,
) -> bool {
    if needle.len() == 0 {
        result == Seq::new(offsets.len(), |i: int| i as u64)
    } else {
        &&& strictly_increasing(result)
        &&& forall|k: int| 0 <= k < result.len() ==> result[k] < offsets.len()
        &&& forall|i: int|
            0 <= i < offsets.len() ==> (result.contains(i as u64) <==> matched_line(
                buffer,
                offsets,
                needle,
                i,
            ))
    }
}

/// Reads the reported-lines relation off at one line index.
proof fn lemma_reported_extract(
    result: Seq<u64>,
    buffer: Seq<u8>,
    offsets: Seq<u64>,
    needle: Seq<u8>,
    bound: int,
    i: int,
)
    requires
        reported_upto(result, buffer, offsets, needle, bound),
        0 <= i < offsets.len(),
    ensures
        result.contains(i as u64) <==> matched_before(buffer, offsets, needle, i, bound),
{
}

/// The line containing a byte position never moves backwards as the position
/// advances.
proof fn lemma_line_of_monotone(offsets: Seq<u64>, p1: int, i1: int, p2: int, i2: int)
    requires
        strictly_increasing(offsets),
        is_line_of(offsets, p1, i1),
        is_line_of(offsets, p2, i2),
        p1 <= p2,
    ensures
        i1 <= i2,
{
    if i1 > i2 {
        assert(i2 + 1 < offsets.len());
        assert(offsets[i2 + 1] <= offsets[i1]);
        assert(false);
    }
}

/// If no position in `[bound1, bound2)` both carries an occurrence and lies
/// in a line, the reported-lines relation carries from `bound1` to `bound2`.
proof fn lemma_no_new_matches(
    result: Seq<u64>,
    buffer: Seq<u8>,
    offsets: Seq<u64>,
    needle: Seq<u8>,
    bound1: int,
    bound2: int,
)
    requires
        bound1 <= bound2,
        reported_upto(result, buffer, offsets, needle, bound1),
        forall|q: int, i: int|
            bound1 <= q < bound2 ==> !(is_match_at(buffer, needle, q) && is_line_of(
                offsets,
                q,
                i,
            )),
    ensures
        reported_upto(result, buffer, offsets, needle, bound2),
{
    assert forall|i: int| 0 <= i < offsets.len() implies (result.contains(i as u64)
        <==> matched_before(buffer, offsets, needle, i, bound2)) by {
        lemma_reported_extract(result, buffer, offsets, needle, bound1, i);
        if matched_before(buffer, offsets, needle, i, bound2) {
            let p = choose|p: int|
                p < bound2 && is_match_at(buffer, needle, p) && is_line_of(offsets, p, i);
            if p >= bound1 {
                assert(!(is_match_at(buffer, needle, p) && is_line_of(offsets, p, i)));
            }
            assert(p < bound1 && is_match_at(buffer, needle, p) && is_line_of(offsets, p, i));
        }
        if result.contains(i as u64) {
            let p = choose|p: int|
                p < bound1 && is_match_at(buffer, needle, p) && is_line_of(offsets, p, i);
            assert(p < bound2 && is_match_at(buffer, needle, p) && is_line_of(offsets, p, i));
        }
    }
}

/// Once every position that could start an occurrence lies below `bound`,
/// the bounded relation coincides with `matched_line`.
proof fn lemma_final_membership(
    result: Seq<u64>,
    buffer: Seq<u8>,
    offsets: Seq<u64>,
    needle: Seq<u8>,
    bound: int,
)
    requires
        needle.len() > 0,
        bound >= buffer.len() + 1,
        reported_upto(result, buffer, offsets, needle, bound),
    ensures
        forall|i: int|
            0 <= i < offsets.len() ==> (result.contains(i as u64) <==> matched_line(
                buffer,
                offsets,
                needle,
                i,
            )),
{
    assert forall|i: int| 0 <= i < offsets.len() implies (result.contains(i as u64)
        <==> matched_line(buffer, offsets, needle, i)) by {
        lemma_reported_extract(result, buffer, offsets, needle, bound, i);
        if matched_line(buffer, offsets, needle, i) {
            let p = choose|p: int| is_match_at(buffer, needle, p) && is_line_of(offsets, p, i);
            assert(p < bound && is_match_at(buffer, needle, p) && is_line_of(offsets, p, i));
        }
        if result.contains(i as u64) {
            let p = choose|p: int|
                p < bound && is_match_at(buffer, needle, p) && is_line_of(offsets, p, i);
            assert(is_match_at(buffer, needle, p) && is_line_of(offsets, p, i));
        }
    }
}

/// Whether `needle` occurs in `buffer` exactly at position `at`.
#[verifier::loop_isolation(false)]
fn subslice_matches(buffer: &[u8], at: usize, needle: &[u8]) -> (found: bool)
    requires
        at + needle@.len() <= buffer@.len(),
    ensures
        found == is_match_at(buffer@, needle@, at as int),
{
    // Binds the slice length so its machine bound is in scope for the loop.
    let _buffer_len: usize = buffer.len();
    let mut j: usize = 0;
    while j < needle.len()
        invariant
            j <= needle@.len(),
            forall|k: int| 0 <= k < j ==> buffer@[at + k] == needle@[k],
        decreases needle@.len() - j,
    {
        if buffer[at + j] != needle[j] {
            proof {
                let window = buffer@.subrange(at as int, at + needle@.len());
                assert(window[j as int] != needle@[j as int]);
            }
            return false;
        }
        j = j + 1;
    }
    proof {
        assert(buffer@.subrange(at as int, at + needle@.len()) =~= needle@);
    }
    true
}

/// The index of the line containing byte position `p`: a binary search for
/// the greatest offset that is at most `p`.
#[verifier::loop_isolation(false)]
fn line_index_of(offsets: &[u64], p: usize) -> (i: usize)
    requires
        strictly_increasing(offsets@),
        offsets@.len() > 0,
        offsets@[0] <= p,
    ensures
        is_line_of(offsets@, p as int, i as int),
{
    let mut lo: usize = 0;
    let mut hi: usize = offsets.len() - 1;
    while lo != hi
        invariant
            lo <= hi < offsets@.len(),
            offsets@[lo as int] <= p,
            hi + 1 == offsets@.len() || p < offsets@[hi + 1],
        decreases hi - lo,
    {
        let mid = lo + (hi - lo + 1) / 2;
        if offsets[mid] <= p as u64 {
            lo = mid;
        } else {
            hi = mid - 1;
        }
    }
    lo
}

/// Finds every line that contains `needle` as a contiguous byte sequence.
/// Occurrences are located anywhere in `buffer`; the one starting at byte `p`
/// belongs to the line whose half-open range contains `p`. The result is
/// ascending and reports each line once. An empty needle matches every line;
/// an occurrence that starts before the first line-start offset belongs to no
/// line and is dropped.
#[verifier::loop_isolation(false)]
pub fn match_lines(buffer: &[u8], offsets: &[u64], needle: &[u8]) -> (result: Vec<u64>)
    requires
        strictly_increasing(offsets@),
    ensures
        match_lines_post(result@, buffer@, offsets@, needle@),
{
    let mut result: Vec<u64> = Vec::new();
    if needle.len() == 0 {
        let mut i: usize = 0;
        while i < offsets.len()
            invariant
                i <= offsets@.len(),
                result@.len() == i,
                forall|k: int| 0 <= k < i ==> result@[k] == k as u64,
            decreases offsets@.len() - i,
        {
            result.push(i as u64);
            i = i + 1;
        }
        proof {
            assert(result@ =~= Seq::new(offsets@.len(), |i: int| i as u64));
        }
        return result;
    }
    let buffer_len = buffer.len();
    if needle.len() > buffer_len {
        proof {
            assert forall|i: int| 0 <= i < offsets@.len() implies (result@.contains(i as u64)
                <==> matched_line(buffer@, offsets@, needle@, i)) by {
                if matched_line(buffer@, offsets@, needle@, i) {
                    let p = choose|p: int|
                        is_match_at(buffer@, needle@, p) && is_line_of(offsets@, p, i);
                    assert(false);
                }
            }
        }
        return result;
    }
    let first = needle[0];
    let upper = buffer_len - needle.len();
    let mut search_pos: usize = 0;
    while search_pos <= upper
        invariant
            search_pos <= upper + 1,
            strictly_increasing(result@),
            forall|k: int| 0 <= k < result@.len() ==> result@[k] < offsets@.len(),
            reported_upto(result@, buffer@, offsets@, needle@, search_pos as int),
        decreases buffer@.len() - search_pos,
    {
        let window = vstd::slice::slice_subrange(buffer, search_pos, buffer_len);
        match find_byte(first, window) {
            None => {
                proof {
                    assert forall|q: int, i: int|
                        search_pos <= q < buffer@.len() as int + 1 implies !(is_match_at(
                        buffer@,
                        needle@,
                        q,
                    ) && is_line_of(offsets@, q, i)) by {
                        if is_match_at(buffer@, needle@, q) {
                            assert(buffer@.subrange(q, q + needle@.len())[0] == buffer@[q]);
                            assert(window@[q - search_pos] == buffer@[q]);
                        }
                    }
                    lemma_no_new_matches(
                        result@,
                        buffer@,
                        offsets@,
                        needle@,
                        search_pos as int,
                        buffer@.len() as int + 1,
                    );
                    lemma_final_membership(
                        result@,
                        buffer@,
                        offsets@,
                        needle@,
                        buffer@.len() as int + 1,
                    );
                }
                return result;
            },
            Some(found) => {
                let pos = search_pos + found;
                proof {
                    assert forall|q: int, i: int| search_pos <= q < pos implies !(is_match_at(
                        buffer@,
                        needle@,
                        q,
                    ) && is_line_of(offsets@, q, i)) by {
                        if is_match_at(buffer@, needle@, q) {
                            assert(buffer@.subrange(q, q + needle@.len())[0] == buffer@[q]);
                            assert(window@[q - search_pos] == buffer@[q]);
                        }
                    }
                    lemma_no_new_matches(
                        result@,
                        buffer@,
                        offsets@,
                        needle@,
                        search_pos as int,
                        pos as int,
                    );
                }
                if pos > upper {
                    proof {
                        assert forall|q: int, i: int|
                            pos <= q < buffer@.len() as int + 1 implies !(is_match_at(
                            buffer@,
                            needle@,
                            q,
                        ) && is_line_of(offsets@, q, i)) by {
                            assert(q + needle@.len() > buffer@.len());
                        }
                        lemma_no_new_matches(
                            result@,
                            buffer@,
                            offsets@,
                            needle@,
                            pos as int,
                            buffer@.len() as int + 1,
                        );
                        lemma_final_membership(
                            result@,
                            buffer@,
                            offsets@,
                            needle@,
                            buffer@.len() as int + 1,
                        );
                    }
                    return result;
                }
                let is_hit = subslice_matches(buffer, pos, needle);
                if is_hit && offsets.len() > 0 && offsets[0] <= pos as u64 {
                    let line = line_index_of(offsets, pos);
                    let mut push_it = true;
                    if result.len() > 0 {
                        let last = result[result.len() - 1];
                        proof {
                            let k = result@.len() - 1;
                            assert(result@.contains(result@[k]));
                            lemma_reported_extract(
                                result@,
                                buffer@,
                                offsets@,
                                needle@,
                                pos as int,
                                result@[k] as int,
                            );
                            let p0 = choose|p: int|
                                p < pos && is_match_at(buffer@, needle@, p) && is_line_of(
                                    offsets@,
                                    p,
                                    result@[k] as int,
                                );
                            lemma_line_of_monotone(
                                offsets@,
                                p0,
                                result@[k] as int,
                                pos as int,
                                line as int,
                            );
                        }
                        if last == line as u64 {
                            push_it = false;
                        }
                    }
                    let ghost before = result@;
                    if push_it {
                        result.push(line as u64);
                        proof {
                            assert forall|k1: int, k2: int|
                                0 <= k1 < k2 < result@.len() implies result@[k1]
                                < result@[k2] by {
                                assert(result@[k1] == before[k1]);
                                if k2 == result@.len() - 1 {
                                    if k1 < before.len() - 1 {
                                        assert(before[k1] < before[before.len() - 1]);
                                    }
                                } else {
                                    assert(result@[k2] == before[k2]);
                                }
                            }
                        }
                    }
                    proof {
                        assert(result@.contains(line as u64)) by {
                            if push_it {
                                assert(result@[result@.len() - 1] == line as u64);
                            } else {
                                assert(before[before.len() - 1] == line as u64);
                            }
                        }
                        assert forall|x: u64| before.contains(x) implies result@.contains(x) by {
                            let k = choose|k: int| 0 <= k < before.len() && before[k] == x;
                            assert(result@[k] == x);
                        }
                        assert forall|x: u64| result@.contains(x) implies (x == line as u64
                            || before.contains(x)) by {
                            let k = choose|k: int| 0 <= k < result@.len() && result@[k] == x;
                            if k < before.len() {
                                assert(before[k] == x);
                            }
                        }
                        assert forall|i: int|
                            #![trigger matched_before(buffer@, offsets@, needle@, i, pos + 1)]
                            0 <= i < offsets@.len() implies (result@.contains(i as u64)
                            <==> matched_before(buffer@, offsets@, needle@, i, pos + 1)) by {
                            lemma_reported_extract(
                                before,
                                buffer@,
                                offsets@,
                                needle@,
                                pos as int,
                                i,
                            );
                            if result@.contains(i as u64) {
                                if i == line as int {
                                    assert(pos < pos + 1 && is_match_at(
                                        buffer@,
                                        needle@,
                                        pos as int,
                                    ) && is_line_of(offsets@, pos as int, i));
                                } else {
                                    assert(before.contains(i as u64));
                                    let p = choose|p: int|
                                        p < pos && is_match_at(buffer@, needle@, p) && is_line_of(
                                            offsets@,
                                            p,
                                            i,
                                        );
                                    assert(p < pos + 1 && is_match_at(buffer@, needle@, p)
                                        && is_line_of(offsets@, p, i));
                                }
                            }
                            if matched_before(buffer@, offsets@, needle@, i, pos + 1) {
                                let p = choose|p: int|
                                    p < pos + 1 && is_match_at(buffer@, needle@, p) && is_line_of(
                                        offsets@,
                                        p,
                                        i,
                                    );
                                if p == pos {
                                    lemma_line_of_monotone(
                                        offsets@,
                                        pos as int,
                                        i,
                                        pos as int,
                                        line as int,
                                    );
                                    lemma_line_of_monotone(
                                        offsets@,
                                        pos as int,
                                        line as int,
                                        pos as int,
                                        i,
                                    );
                                    assert(i == line as int);
                                } else {
                                    assert(p < pos && is_match_at(buffer@, needle@, p)
                                        && is_line_of(offsets@, p, i));
                                    assert(before.contains(i as u64));
                                }
                            }
                        }
                        assert(reported_upto(result@, buffer@, offsets@, needle@, pos + 1));
                    }
                } else {
                    proof {
                        assert forall|q: int, i: int| pos <= q < pos + 1 implies !(is_match_at(
                            buffer@,
                            needle@,
                            q,
                        ) && is_line_of(offsets@, q, i)) by {
                            if is_match_at(buffer@, needle@, q) && is_line_of(offsets@, q, i) {
                                assert(is_hit);
                                assert(offsets@.len() > 0);
                                if i > 0 {
                                    assert(offsets@[0] < offsets@[i]);
                                }
                                assert(offsets@[0] <= q);
                                assert(false);
                            }
                        }
                        lemma_no_new_matches(
                            result@,
                            buffer@,
                            offsets@,
                            needle@,
                            pos as int,
                            pos + 1,
                        );
                    }
                }
                search_pos = pos + 1;
            },
        }
    }
    proof {
        assert forall|q: int, i: int|
            search_pos <= q < buffer@.len() as int + 1 implies !(is_match_at(buffer@, needle@, q)
            && is_line_of(offsets@, q, i)) by {
            assert(q + needle@.len() > buffer@.len());
        }
        lemma_no_new_matches(
            result@,
            buffer@,
            offsets@,
            needle@,
            search_pos as int,
            buffer@.len() as int + 1,
        );
        lemma_final_membership(result@, buffer@, offsets@, needle@, buffer@.len() as int + 1);
    }
    result
}


/// Two strictly increasing sequences with the same members are the same
/// sequence.
proof fn lemma_strictly_increasing_same_members(s1: Seq<u64>, s2: Seq<u64>)
    requires
        strictly_increasing(s1),
        strictly_increasing(s2),
        forall|x: u64| s1.contains(x) <==> s2.contains(x),
    ensures
        s1 == s2,
    decreases s1.len(),
{
    if s1.len() == 0 {
        if s2.len() > 0 {
            assert(s2.contains(s2[0]));
            assert(s1.contains(s2[0]));
            let k = choose|k: int| 0 <= k < s1.len() && s1[k] == s2[0];
            assert(false);
        }
        assert(s1 =~= s2);
    } else if s2.len() == 0 {
        assert(s1.contains(s1[0]));
        assert(s2.contains(s1[0]));
        let k = choose|k: int| 0 <= k < s2.len() && s2[k] == s1[0];
        assert(false);
    } else {
        assert(s1.contains(s1[0]));
        assert(s2.contains(s2[0]));
        let k1 = choose|k: int| 0 <= k < s2.len() && s2[k] == s1[0];
        let k2 = choose|k: int| 0 <= k < s1.len() && s1[k] == s2[0];
        assert(s2[0] <= s2[k1]);
        assert(s1[0] <= s1[k2]);
        assert(s1[0] == s2[0]);
        let t1 = s1.skip(1);
        let t2 = s2.skip(1);
        assert(forall|i: int| 0 <= i < t1.len() ==> t1[i] == s1[i + 1]);
        assert(forall|i: int| 0 <= i < t2.len() ==> t2[i] == s2[i + 1]);
        assert forall|x: u64| t1.contains(x) <==> t2.contains(x) by {
            if t1.contains(x) {
                let k = choose|k: int| 0 <= k < t1.len() && t1[k] == x;
                assert(s1[k + 1] == x);
                assert(s1.contains(x));
                assert(s1[0] < x);
                assert(s2.contains(x));
                let j = choose|j: int| 0 <= j < s2.len() && s2[j] == x;
                assert(j != 0);
                assert(t2[j - 1] == x);
                assert(t2.contains(x));
            }
            if t2.contains(x) {
                let k = choose|k: int| 0 <= k < t2.len() && t2[k] == x;
                assert(s2[k + 1] == x);
                assert(s2.contains(x));
                assert(s2[0] < x);
                assert(s1.contains(x));
                let j = choose|j: int| 0 <= j < s1.len() && s1[j] == x;
                assert(j != 0);
                assert(t1[j - 1] == x);
                assert(t1.contains(x));
            }
        }
        lemma_strictly_increasing_same_members(t1, t2);
        assert forall|i: int| 0 <= i < s1.len() implies s1[i] == s2[i] by {
            if i > 0 {
                assert(t1[i - 1] == s1[i]);
                assert(t2[i - 1] == s2[i]);
                assert(t1[i - 1] == t2[i - 1]);
            }
        }
        assert(s1 =~= s2);
    }
}

/// The search is a function of its arguments alone: two results that both
/// satisfy the search's contract on the same buffer, offsets and needle are
/// equal, so calling `match_lines` twice with identical arguments and no
/// intervening mutation yields identical results.
pub proof fn lemma_match_lines_deterministic(
    result1: Seq<u64>,
    result2: Seq<u64>,
    buffer: Seq<u8>,
    offsets: Seq<u64>,
    needle: Seq<u8>,
)
    requires
        match_lines_post(result1, buffer, offsets, needle),
        match_lines_post(result2, buffer, offsets, needle),
    ensures
        result1 == result2,
{
    if needle.len() > 0 {
        assert forall|x: u64| result1.contains(x) <==> result2.contains(x) by {
            if result1.contains(x) {
                let k = choose|k: int| 0 <= k < result1.len() && result1[k] == x;
                assert(result1[k] < offsets.len());
                assert(result1.contains((x as int) as u64));
                assert(matched_line(buffer, offsets, needle, x as int));
                assert(result2.contains((x as int) as u64));
            }
            if result2.contains(x) {
                let k = choose|k: int| 0 <= k < result2.len() && result2[k] == x;
                assert(result2[k] < offsets.len());
                assert(result2.contains((x as int) as u64));
                assert(matched_line(buffer, offsets, needle, x as int));
                assert(result1.contains((x as int) as u64));
            }
        }
        lemma_strictly_increasing_same_members(result1, result2);
    }
}

} // verus!
