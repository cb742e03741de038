//! Record-aligned chunks. A chunk is named by its nominal byte range
//! `[offset, offset + chunk_size)`; its records are those that start at or
//! after the first record boundary at or before `offset`, and before the first
//! record boundary at or before the end of the range. Boundaries are found by
//! looking back from a nominal position for the closest newline.

use vstd::prelude::*;
use crate::records::NEWLINE;

verus! {

/// Bytes processed by one chunk.
pub const CHUNK_SIZE: u64 = 3145728;

/// How far before a chunk's nominal start the read window begins; longer than
/// any record.
pub const BACKUP_BYTES: u64 = 64;

/// Index of the last newline before position `p`, or `-1` when there is none.
pub open spec fn last_newline_before(s: Seq<u8>, p: int) -> int
    decreases p,
{
    if p <= 0 {
        -1
    } else if s[p - 1] == NEWLINE {
        p - 1
    } else {
        last_newline_before(s, p - 1)
    }
}

/// The record boundary at or before position `p`: just after the closest
/// newline before `p`, or the start of the text.
pub open spec fn boundary(s: Seq<u8>, p: int) -> int {
    last_newline_before(s, p) + 1
}

pub proof fn lemma_last_newline_bounds(s: Seq<u8>, p: int)
    requires
        0 <= p <= s.len(),
    ensures
        -1 <= last_newline_before(s, p) < p,
        last_newline_before(s, p) >= 0 ==> s[last_newline_before(s, p)] == NEWLINE,
        forall|j: int| last_newline_before(s, p) < j < p ==> s[j] != NEWLINE,
    decreases p,
{
    if p > 0 && s[p - 1] != NEWLINE {
        lemma_last_newline_bounds(s, p - 1);
    }
}

/// Boundaries do not move backwards as the position moves forwards.
pub proof fn lemma_boundary_monotone(s: Seq<u8>, p: int, q: int)
    requires
        0 <= p <= q <= s.len(),
    ensures
        boundary(s, p) <= boundary(s, q),
        0 <= boundary(s, p) <= p,
    decreases q - p,
{
    lemma_last_newline_bounds(s, p);
    if p < q {
        lemma_boundary_monotone(s, p, q - 1);
        lemma_last_newline_bounds(s, q);
    }
}

/// Boundaries in a window `s[w0..w1]` are those of the whole text, shifted,
/// once the window holds the newline that decides them (or starts the text).
pub proof fn lemma_window_boundary(s: Seq<u8>, w0: int, w1: int, p: int)
    requires
        0 <= w0 <= w1 <= s.len(),
        0 <= p <= w1 - w0,
        w0 == 0 || last_newline_before(s.subrange(w0, w1), p) >= 0,
    ensures
        boundary(s, w0 + p) == w0 + boundary(s.subrange(w0, w1), p),
    decreases p,
{
    let w = s.subrange(w0, w1);
    if p > 0 {
        assert(w[p - 1] == s[w0 + p - 1]);
        if w[p - 1] != NEWLINE {
            lemma_window_boundary(s, w0, w1, p - 1);
        }
    }
}

/// The byte range `[read_from, read_to)` to read for the chunk at `offset`.
pub open spec fn window_of(offset: int, chunk_size: int, file_size: int) -> (int, int) {
    (
        if offset >= BACKUP_BYTES { offset - BACKUP_BYTES } else { 0 },
        if offset + chunk_size <= file_size { offset + chunk_size } else { file_size },
    )
}

/// The range of the file to read for the chunk whose nominal start is `offset`:
/// from `BACKUP_BYTES` before it (or the start of the file), up to the
/// chunk's nominal end (or the end of the file).
pub fn chunk_window(offset: u64, chunk_size: u64, file_size: u64) -> (r: (u64, u64))
    requires
        offset <= file_size,
    ensures
        (r.0 as int, r.1 as int) == window_of(offset as int, chunk_size as int, file_size as int),
        r.0 <= offset <= r.1 <= file_size,
{
    let read_from = if offset >= BACKUP_BYTES { offset - BACKUP_BYTES } else { 0 };
    let read_to = if chunk_size <= file_size - offset { offset + chunk_size } else { file_size };
    (read_from, read_to)
}

/// No newline stands in the look-back window before a chunk's nominal start:
/// a record is longer than `BACKUP_BYTES`.
#[derive(Debug, Clone, Copy, PartialEq, Eq)]
pub struct AlignError {
    /// Nominal start, inside the window, that found no boundary.
    pub head: usize,
}

/// Trims a read window to whole records: `(start, end)` with `window[start..end]`
/// beginning just after a newline (or at the window's start when it is the
/// start of the file) and ending with a newline, anything after the last
/// newline dropped.
///
/// `head` is where the chunk's nominal start lies in the window. Fails when the
/// window does not start the file and holds no newline before `head`.
pub fn align_window(window: &[u8], head: usize, at_file_start: bool) -> (r: Result<(usize, usize), AlignError>)
    requires
        head <= window@.len(),
    ensures
        r is Err <==> !at_file_start && last_newline_before(window@, head as int) < 0,
        r matches Ok((start, end)) ==> {
            &&& start == boundary(window@, head as int)
            &&& end == boundary(window@, window@.len() as int)
            &&& start <= end <= window@.len()
        },
{
    let mut start = head;
    while start > 0 && window[start - 1] != NEWLINE
        invariant
            start <= head <= window@.len(),
            last_newline_before(window@, start as int) == last_newline_before(window@, head as int),
        decreases start,
    {
        start -= 1;
    }
    if start == 0 && !at_file_start {
        return Err(AlignError { head });
    }
    let mut end = window.len();
    while end > 0 && window[end - 1] != NEWLINE
        invariant
            end <= window@.len(),
            last_newline_before(window@, end as int) == last_newline_before(window@, window@.len() as int),
        decreases end,
    {
        end -= 1;
    }
    proof {
        lemma_boundary_monotone(window@, head as int, window@.len() as int);
    }
    Ok((start, end))
}

} // verus!
