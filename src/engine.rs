//! The chunked scan: chunk `k` covers the nominal range `[k * chunk_size,
//! (k + 1) * chunk_size)`; worker `w` of `workers` takes the chunks `w`,
//! `w + workers`, `w + 2 * workers`, ... into an aggregate of its own, and the
//! workers' aggregates are merged, worker by worker, into one.

use vstd::prelude::*;
use crate::aggregate::{entries_map, keys_sorted, lemma_merge_associative, lemma_merge_empty, lemma_merge_order, lemma_sorted_entries_unique, merge_maps, Aggregate, Entry};
use crate::chunking::{align_window, boundary, chunk_window, last_newline_before, lemma_boundary_monotone,
    lemma_last_newline_bounds, lemma_window_boundary, window_of, AlignError};
use crate::records::{absorb_lines, lemma_absorb_lines_concat, lemma_absorb_lines_is_merge, lines_ok, position_of, process_chunk, whole_lines, RecordError, NEWLINE};
use crate::report::{lemma_report_text_eq, render_report, report_text};
use crate::stats::StatModel;

verus! {

/// Number of chunks of `chunk_size` bytes that cover `file_size` bytes.
pub open spec fn chunk_count(file_size: int, chunk_size: int) -> int {
    (file_size + chunk_size - 1) / chunk_size
}

/// Nominal end of chunk `k`.
pub open spec fn chunk_end(file_size: int, chunk_size: int, k: int) -> int {
    if (k + 1) * chunk_size <= file_size {
        (k + 1) * chunk_size
    } else {
        file_size
    }
}

/// The records of the chunk whose nominal range starts at `offset`: from the
/// boundary at or before `offset` to the boundary at or before the range's end.
pub open spec fn chunk_text_at(f: Seq<u8>, chunk_size: int, offset: int) -> Seq<u8> {
    f.subrange(boundary(f, offset), boundary(f, window_of(offset, chunk_size, f.len() as int).1))
}

/// The read window of the chunk at `offset` holds its start boundary.
pub open spec fn chunk_aligns_at(f: Seq<u8>, chunk_size: int, offset: int) -> bool {
    let w = window_of(offset, chunk_size, f.len() as int);
    w.0 == 0 || last_newline_before(f.subrange(w.0, w.1), offset - w.0) >= 0
}

/// The records of chunk `k`.
pub open spec fn chunk_text(f: Seq<u8>, chunk_size: int, k: int) -> Seq<u8> {
    chunk_text_at(f, chunk_size, k * chunk_size)
}

/// The read window of chunk `k` holds its start boundary.
pub open spec fn chunk_aligns(f: Seq<u8>, chunk_size: int, k: int) -> bool {
    chunk_aligns_at(f, chunk_size, k * chunk_size)
}

/// Chunk `k` aligns and all its lines are well formed.
pub open spec fn chunk_ok(f: Seq<u8>, chunk_size: int, k: int) -> bool {
    chunk_aligns(f, chunk_size, k) && lines_ok(chunk_text(f, chunk_size, k))
}

/// Every chunk of `f` aligns and holds only well-formed lines.
pub open spec fn chunks_ok(f: Seq<u8>, chunk_size: int) -> bool {
    forall|k: int| 0 <= k < chunk_count(f.len() as int, chunk_size) ==> #[trigger] chunk_ok(f, chunk_size, k)
}

/// The aggregate of the records of `x`, from nothing.
pub open spec fn text_map(x: Seq<u8>) -> Map<Seq<u8>, StatModel> {
    absorb_lines(Map::<Seq<u8>, StatModel>::empty(), x)
}

/// What worker `w` of `workers` holds after the chunks before `k` that are its own.
pub open spec fn worker_map(f: Seq<u8>, chunk_size: int, workers: int, w: int, k: int) -> Map<Seq<u8>, StatModel>
    decreases k,
{
    if k <= 0 {
        Map::<Seq<u8>, StatModel>::empty()
    } else if (k - 1) % workers == w && k - 1 < chunk_count(f.len() as int, chunk_size) {
        absorb_lines(worker_map(f, chunk_size, workers, w, k - 1), chunk_text(f, chunk_size, k - 1))
    } else {
        worker_map(f, chunk_size, workers, w, k - 1)
    }
}

/// The merge, in worker order, of what the workers before `w` hold at the end.
pub open spec fn merged_map(f: Seq<u8>, chunk_size: int, workers: int, w: int) -> Map<Seq<u8>, StatModel>
    decreases w,
{
    if w <= 0 {
        Map::<Seq<u8>, StatModel>::empty()
    } else {
        merge_maps(
            merged_map(f, chunk_size, workers, w - 1),
            worker_map(f, chunk_size, workers, w - 1, chunk_count(f.len() as int, chunk_size)),
        )
    }
}

/// Why a run stopped.
#[derive(Debug, Clone, Copy, PartialEq, Eq)]
pub enum EngineError {
    /// A chunk's read window held no record boundary before its nominal start.
    Align(AlignError),
    /// A chunk held a malformed record.
    Record(RecordError),
}

/// The nominal start of every chunk that worker `worker` of `workers` takes, in order.
pub fn worker_chunk_offsets(worker: u64, workers: u64, chunk_size: u64, file_size: u64) -> (r: Vec<u64>)
    requires
        worker < workers,
        chunk_size >= 1,
    ensures
        forall|j: int| 0 <= j < r@.len() ==> r@[j] == (worker + j * workers) * chunk_size,
        forall|j: int| 0 <= j < r@.len() ==> #[trigger] (j * workers) + worker < chunk_count(file_size as int, chunk_size as int),
        worker + r@.len() * workers >= chunk_count(file_size as int, chunk_size as int),
{
    proof {
        lemma_chunk_count(file_size as int, chunk_size as int);
    }
    let n = file_size / chunk_size + if file_size % chunk_size == 0 { 0 } else { 1 };
    let mut r: Vec<u64> = Vec::new();
    let mut k = worker;
    assert(k == worker + r@.len() * workers);
    while k < n
        invariant
            n == chunk_count(file_size as int, chunk_size as int),
            n * chunk_size < file_size + chunk_size,
            worker < workers,
            chunk_size >= 1,
            k == worker + r@.len() * workers,
            forall|j: int| 0 <= j < r@.len() ==> r@[j] == (worker + j * workers) * chunk_size,
            forall|j: int| 0 <= j < r@.len() ==> #[trigger] (j * workers) + worker < n,
        decreases n - k,
    {
        proof {
            lemma_chunk_count(file_size as int, chunk_size as int);
            assert((k as int) * (chunk_size as int) < file_size);
        }
        r.push(k * chunk_size);
        assert(r@.len() * workers == (r@.len() - 1) * workers + workers) by (nonlinear_arith);
        if n - k <= workers {
            assert(worker + r@.len() * workers >= n);
            return r;
        }
        k = k + workers;
    }
    r
}

/// The record-aligned part of the chunk of `data` whose nominal range starts at
/// `offset`. It begins at the start of `data` or just after a newline, and
/// ends with a newline unless it is empty; what follows the last newline of
/// the read window belongs to the next chunk. Fails when no newline stands in
/// the `BACKUP_BYTES` before `offset` (and `offset` lies further than that
/// from the start).
pub fn read_aligned(data: &[u8], offset: u64, chunk_size: u64) -> (r: Result<&[u8], AlignError>)
    requires
        offset <= data@.len(),
    ensures
        r is Err <==> !chunk_aligns_at(data@, chunk_size as int, offset as int),
        r matches Ok(s) ==> s@ == chunk_text_at(data@, chunk_size as int, offset as int),
        r matches Ok(s) ==> s@.len() == 0 || s@.last() == crate::records::NEWLINE,
        r matches Ok(s) ==> boundary(data@, offset as int) == 0 || data@[boundary(data@, offset as int) - 1] == crate::records::NEWLINE,
{
    let (w0, w1) = chunk_window(offset, chunk_size, data.len() as u64);
    let window = &data[w0 as usize..w1 as usize];
    let head = (offset - w0) as usize;
    let ghost f = data@;
    let (start, end) = match align_window(window, head, w0 == 0) {
        Ok(se) => se,
        Err(e) => {
            return Err(e);
        },
    };
    proof {
        let wl = window@.len() as int;
        lemma_window_boundary(f, w0 as int, w1 as int, head as int);
        lemma_last_newline_bounds(window@, head as int);
        lemma_last_newline_bounds(window@, wl);
        lemma_boundary_monotone(window@, head as int, wl);
        lemma_window_boundary(f, w0 as int, w1 as int, wl);
        assert(f.subrange(w0 + start, w0 + end) =~= window@.subrange(start as int, end as int));
        lemma_last_newline_bounds(f, offset as int);
    }
    Ok(&window[start..end])
}

proof fn lemma_chunk_count(fs: int, c: int)
    requires
        fs >= 0,
        c >= 1,
    ensures
        chunk_count(fs, c) == fs / c + if fs % c == 0 { 0int } else { 1int },
        chunk_count(fs, c) * c < fs + c,
        forall|k: int| 0 <= k < chunk_count(fs, c) ==> #[trigger] (k * c) < fs,
        chunk_count(fs, c) * c >= fs,
        fs % c != 0 ==> fs / c < fs,
{
    assert(fs == c * (fs / c) + fs % c) by (nonlinear_arith)
        requires
            c >= 1,
    ;
    assert(0 <= fs % c < c) by (nonlinear_arith)
        requires
            c >= 1,
    ;
    let q = fs / c;
    assert(fs % c != 0 ==> q < fs) by (nonlinear_arith)
        requires
            c >= 1,
            fs >= 0,
            fs == c * q + fs % c,
            0 <= fs % c < c,
    ;
    let n = q + if fs % c == 0 { 0int } else { 1int };
    assert((fs + c - 1) / c == n) by (nonlinear_arith)
        requires
            c >= 1,
            fs == c * q + fs % c,
            0 <= fs % c < c,
            n == q + if fs % c == 0 { 0int } else { 1int },
    ;
    assert(n * c < fs + c && n * c >= fs) by (nonlinear_arith)
        requires
            c >= 1,
            fs == c * q + fs % c,
            0 <= fs % c < c,
            n == q + if fs % c == 0 { 0int } else { 1int },
    ;
    assert forall|k: int| 0 <= k < chunk_count(fs, c) implies #[trigger] (k * c) < fs by {
        assert(k * c < fs) by (nonlinear_arith)
            requires
                c >= 1,
                0 <= k < n,
                fs == c * q + fs % c,
                0 <= fs % c < c,
                n == q + if fs % c == 0 { 0int } else { 1int },
        ;
    }
}

proof fn lemma_worker_map_skip(f: Seq<u8>, c: int, n: int, w: int, a: int, b: int)
    requires
        0 <= a <= b,
        forall|i: int| a <= i < b ==> (#[trigger] (i % n) != w || i >= chunk_count(f.len() as int, c)),
    ensures
        worker_map(f, c, n, w, b) == worker_map(f, c, n, w, a),
    decreases b - a,
{
    if a < b {
        lemma_worker_map_skip(f, c, n, w, a, b - 1);
    }
}

proof fn lemma_worker_map_step(f: Seq<u8>, c: int, n: int, w: int, k: int)
    requires
        0 <= w < n,
        k >= 0,
        k % n == w,
        k < chunk_count(f.len() as int, c),
    ensures
        worker_map(f, c, n, w, k + n) == absorb_lines(worker_map(f, c, n, w, k), chunk_text(f, c, k)),
{
    assert forall|i: int| k + 1 <= i < k + n implies (#[trigger] (i % n) != w || i >= chunk_count(f.len() as int, c)) by {
        assert(i % n != w) by (nonlinear_arith)
            requires
                k % n == w,
                k + 1 <= i < k + n,
                n >= 1,
                k >= 0,
        ;
    }
    lemma_worker_map_skip(f, c, n, w, k + 1, k + n);
}

/// Aggregates the records of `data` as `workers` workers would, each taking
/// every `workers`-th chunk of `chunk_size` bytes, and merges their
/// aggregates in worker order.
///
/// Succeeds exactly when every chunk aligns and holds only well-formed lines.
pub fn aggregate_bytes(data: &[u8], workers: u64, chunk_size: u64) -> (r: Result<Aggregate, EngineError>)
    requires
        workers >= 1,
        chunk_size >= 1,
        (workers + 1) * data@.len() <= u64::MAX,
    ensures
        r is Ok <==> chunks_ok(data@, chunk_size as int),
        r matches Ok(a) ==> a.wf() && a@ == merged_map(data@, chunk_size as int, workers as int, workers as int),
{
    let ghost f = data@;
    let ghost c = chunk_size as int;
    let ghost nw = workers as int;
    let ghost fs = data@.len() as int;
    let ghost n = chunk_count(fs, c);
    let len = data.len() as u64;
    proof {
        lemma_chunk_count(fs, c);
        assert(workers * len + len <= u64::MAX) by (nonlinear_arith)
            requires
                (workers + 1) * len <= u64::MAX,
        ;
    }
    assert(len + len <= u64::MAX) by (nonlinear_arith)
        requires
            workers * len + len <= u64::MAX,
            workers >= 1,
    ;
    let mut shared = Aggregate::new();
    let mut w: u64 = 0;
    while w < workers
        invariant
            f == data@,
            fs == len,
            len == data@.len(),
            c == chunk_size,
            nw == workers,
            n == chunk_count(fs, c),
            chunk_size >= 1,
            workers >= 1,
            w <= workers,
            workers * len + len <= u64::MAX,
            shared.wf(),
            shared@ == merged_map(f, c, nw, w as int),
            shared.observed <= w * len,
            forall|k: int| 0 <= k < n && k % nw < w ==> #[trigger] chunk_ok(f, c, k),
        decreases workers - w,
    {
        let offsets = worker_chunk_offsets(w, workers, chunk_size, len);
        let mut local = Aggregate::new();
        let mut j: usize = 0;
        proof {
            assert(w + 0 * workers == w);
            assert forall|i: int| 0 <= i < w implies (#[trigger] (i % nw) != w || i >= n) by {
                assert(i % nw == i) by (nonlinear_arith)
                    requires
                        0 <= i < nw,
                ;
            }
            lemma_worker_map_skip(f, c, nw, w as int, 0, w as int);
            lemma_boundary_monotone(f, 0, if w * chunk_size <= fs { w * chunk_size as int } else { fs });
        }
        while j < offsets.len()
            invariant
                f == data@,
                fs == len,
                len == data@.len(),
                c == chunk_size,
                nw == workers,
                n == chunk_count(fs, c),
                chunk_size >= 1,
                w < workers,
                workers * len + len <= u64::MAX,
                j <= offsets@.len(),
                forall|i: int| 0 <= i < offsets@.len() ==> offsets@[i] == (w + i * workers) * chunk_size,
                forall|i: int| 0 <= i < offsets@.len() ==> #[trigger] (i * workers) + w < n,
                local.wf(),
                local@ == worker_map(f, c, nw, w as int, w + j * nw),
                local.observed <= boundary(f, if (w + j * nw) * c <= fs { (w + j * nw) * c } else { fs }),
                forall|i: int| 0 <= i < j ==> #[trigger] chunk_ok(f, c, i * nw + w),
            decreases offsets@.len() - j,
        {
            let ghost k = j * nw + w;
            proof {
                assert(k < n);
                lemma_chunk_count(fs, c);
                assert(k * c < fs);
                assert(offsets@[j as int] == k * c) by (nonlinear_arith)
                    requires
                        offsets@[j as int] == (w + j * workers) * chunk_size,
                        k == j * nw + w,
                        nw == workers,
                        c == chunk_size,
                ;
            }
            let slice = match read_aligned(data, offsets[j], chunk_size) {
                Ok(s) => s,
                Err(e) => {
                    assert(!chunk_ok(f, c, k));
                    return Err(EngineError::Align(e));
                },
            };
            proof {
                let e = window_of(k * c, c, fs).1;
                lemma_boundary_monotone(f, 0, k * c);
                lemma_boundary_monotone(f, k * c, e);
                lemma_boundary_monotone(f, e, fs);
                assert(slice@.len() == boundary(f, e) - boundary(f, k * c));
            }
            match process_chunk(&mut local, slice) {
                Ok(()) => {},
                Err(e) => {
                    assert(!chunk_ok(f, c, k));
                    return Err(EngineError::Record(e));
                },
            }
            proof {
                assert(k % nw == w) by (nonlinear_arith)
                    requires
                        k == j * nw + w,
                        0 <= w < nw,
                        j >= 0,
                ;
                lemma_worker_map_step(f, c, nw, w as int, k);
                assert(w + (j + 1) * nw == k + nw) by (nonlinear_arith)
                    requires
                        k == j * nw + w,
                ;
                let e = window_of(k * c, c, fs).1;
                let k2 = w + (j + 1) * nw;
                let p2 = if k2 * c <= fs { k2 * c } else { fs };
                assert(k2 * c >= k * c + c) by (nonlinear_arith)
                    requires
                        k2 == k + nw,
                        nw >= 1,
                        c >= 1,
                ;
                lemma_boundary_monotone(f, k * c, e);
                lemma_boundary_monotone(f, e, p2);
                lemma_boundary_monotone(f, p2, fs);
            }
            j += 1;
        }
        proof {
            let m = offsets@.len() as int;
            lemma_worker_map_skip(f, c, nw, w as int, n, w + m * nw);
            assert forall|k: int| 0 <= k < n && k % nw < w + 1 implies #[trigger] chunk_ok(f, c, k) by {
                if k % nw == w {
                    let i = k / nw;
                    assert(k == i * nw + w && i >= 0) by (nonlinear_arith)
                        requires
                            i == k / nw,
                            k % nw == w,
                            nw >= 1,
                            k >= 0,
                    ;
                    assert(i < m) by (nonlinear_arith)
                        requires
                            k == i * nw + w,
                            k < n,
                            w + m * nw >= n,
                            nw >= 1,
                    ;
                }
            }
            let p = if (w + j * nw) * c <= fs { (w + j * nw) * c } else { fs };
            lemma_boundary_monotone(f, p, fs);
            lemma_boundary_monotone(f, fs, fs);
            assert(local.observed <= len);
            assert(shared.observed + local.observed <= (w + 1) * len) by (nonlinear_arith)
                requires
                    shared.observed <= w * len,
                    local.observed <= len,
            ;
            assert((w + 1) * len <= workers * len) by (nonlinear_arith)
                requires
                    w < workers,
            ;
        }
        shared.merge_from(local);
        w += 1;
    }
    assert forall|k: int| 0 <= k < n implies #[trigger] chunk_ok(f, c, k) by {
        assert(k % nw < nw) by (nonlinear_arith)
            requires
                nw >= 1,
                k >= 0,
        ;
    }
    Ok(shared)
}

/// The report of `data` as `aggregate_bytes` computes it: one line per key,
/// in key order.
pub fn process_bytes(data: &[u8], workers: u64, chunk_size: u64) -> (r: Result<Vec<u8>, EngineError>)
    requires
        workers >= 1,
        chunk_size >= 1,
        (workers + 1) * data@.len() <= u64::MAX,
    ensures
        r is Ok <==> chunks_ok(data@, chunk_size as int),
        r matches Ok(out) ==> exists|s: Seq<Entry>|
            #![trigger report_text(s)]
            keys_sorted(s) && entries_map(s) == merged_map(data@, chunk_size as int, workers as int, workers as int)
                && out@ == report_text(s),
{
    let agg = aggregate_bytes(data, workers, chunk_size)?;
    let out = render_report(&agg);
    assert(keys_sorted(agg.entries@) && out@ == report_text(agg.entries@));
    Ok(out)
}

/// Where the records of the chunks before `k` end.
pub open spec fn prefix_end(f: Seq<u8>, chunk_size: int, k: int) -> int {
    boundary(f, if k * chunk_size <= f.len() { k * chunk_size } else { f.len() as int })
}

/// The records of the chunks before `k`, one chunk after the other.
pub open spec fn chunks_concat(f: Seq<u8>, chunk_size: int, k: int) -> Seq<u8>
    decreases k,
{
    if k <= 0 {
        Seq::<u8>::empty()
    } else {
        chunks_concat(f, chunk_size, k - 1) + chunk_text(f, chunk_size, k - 1)
    }
}

proof fn lemma_chunks_tile(f: Seq<u8>, c: int, k: int)
    requires
        c >= 1,
        0 <= k <= chunk_count(f.len() as int, c),
    ensures
        chunks_concat(f, c, k) == f.subrange(0, prefix_end(f, c, k)),
        0 <= prefix_end(f, c, k) <= f.len(),
        k >= 1 ==> chunk_text(f, c, k - 1) == f.subrange(prefix_end(f, c, k - 1), prefix_end(f, c, k)),
    decreases k,
{
    let fs = f.len() as int;
    lemma_chunk_count(fs, c);
    let p = if k * c <= fs { k * c } else { fs };
    assert(k * c >= 0) by (nonlinear_arith)
        requires
            k >= 0,
            c >= 1,
    ;
    lemma_boundary_monotone(f, p, fs);
    lemma_boundary_monotone(f, fs, fs);
    if k == 0 {
        assert(0 * c == 0);
        assert(f.subrange(0, prefix_end(f, c, 0)) =~= Seq::<u8>::empty());
    } else {
        lemma_chunks_tile(f, c, k - 1);
        let q = (k - 1) * c;
        assert(q < fs);
        assert(q + c == k * c) by (nonlinear_arith)
            requires
                q == (k - 1) * c,
        ;
        assert(q >= 0) by (nonlinear_arith)
            requires
                q == (k - 1) * c,
                k >= 1,
                c >= 1,
        ;
        lemma_boundary_monotone(f, q, p);
        assert(chunk_text(f, c, k - 1) == f.subrange(prefix_end(f, c, k - 1), prefix_end(f, c, k)));
        assert(f.subrange(0, prefix_end(f, c, k - 1)) + f.subrange(prefix_end(f, c, k - 1), prefix_end(f, c, k))
            =~= f.subrange(0, prefix_end(f, c, k)));
    }
}

/// The chunks, one after the other, are exactly the text up to its last
/// record boundary, each record once: the whole text when it ends with a newline.
pub proof fn lemma_chunks_reconstruct(f: Seq<u8>, chunk_size: int)
    requires
        chunk_size >= 1,
    ensures
        chunks_concat(f, chunk_size, chunk_count(f.len() as int, chunk_size)) == f.subrange(0, boundary(f, f.len() as int)),
        whole_lines(f) ==> boundary(f, f.len() as int) == f.len(),
{
    let n = chunk_count(f.len() as int, chunk_size);
    lemma_chunk_count(f.len() as int, chunk_size);
    lemma_chunks_tile(f, chunk_size, n);
}

/// The merge, in worker order, of what the workers before `w` hold after the chunks before `k`.
pub open spec fn workers_map(f: Seq<u8>, chunk_size: int, workers: int, w: int, k: int) -> Map<Seq<u8>, StatModel>
    decreases w,
{
    if w <= 0 {
        Map::<Seq<u8>, StatModel>::empty()
    } else {
        merge_maps(workers_map(f, chunk_size, workers, w - 1, k), worker_map(f, chunk_size, workers, w - 1, k))
    }
}

proof fn lemma_merged_is_workers(f: Seq<u8>, c: int, nw: int, w: int)
    ensures
        merged_map(f, c, nw, w) == workers_map(f, c, nw, w, chunk_count(f.len() as int, c)),
    decreases w,
{
    if w > 0 {
        lemma_merged_is_workers(f, c, nw, w - 1);
    }
}

proof fn lemma_workers_start(f: Seq<u8>, c: int, nw: int, w: int)
    ensures
        workers_map(f, c, nw, w, 0) == Map::<Seq<u8>, StatModel>::empty(),
    decreases w,
{
    if w > 0 {
        lemma_workers_start(f, c, nw, w - 1);
        lemma_merge_empty(Map::<Seq<u8>, StatModel>::empty());
    }
}

proof fn lemma_workers_step(f: Seq<u8>, c: int, nw: int, w: int, k: int)
    requires
        nw >= 1,
        0 <= w <= nw,
        0 <= k < chunk_count(f.len() as int, c),
    ensures
        workers_map(f, c, nw, w, k + 1) == if k % nw < w {
            merge_maps(workers_map(f, c, nw, w, k), text_map(chunk_text(f, c, k)))
        } else {
            workers_map(f, c, nw, w, k)
        },
    decreases w,
{
    if w > 0 {
        lemma_workers_step(f, c, nw, w - 1, k);
        let o = workers_map(f, c, nw, w - 1, k);
        let wm = worker_map(f, c, nw, w - 1, k);
        let m = text_map(chunk_text(f, c, k));
        lemma_absorb_lines_is_merge(wm, chunk_text(f, c, k));
        if k % nw == w - 1 {
            lemma_merge_associative(o, wm, m);
        } else if k % nw < w - 1 {
            lemma_merge_order(o, m, wm);
        }
    }
}

proof fn lemma_whole_prefix(f: Seq<u8>, p: int)
    requires
        0 <= p <= f.len(),
    ensures
        whole_lines(f.subrange(0, boundary(f, p))),
{
    lemma_last_newline_bounds(f, p);
}

proof fn lemma_schedule(f: Seq<u8>, c: int, nw: int, k: int)
    requires
        c >= 1,
        nw >= 1,
        0 <= k <= chunk_count(f.len() as int, c),
    ensures
        workers_map(f, c, nw, nw, k) == text_map(f.subrange(0, prefix_end(f, c, k))),
    decreases k,
{
    let e = Map::<Seq<u8>, StatModel>::empty();
    if k == 0 {
        lemma_workers_start(f, c, nw, nw);
        lemma_chunks_tile(f, c, 0);
        assert(f.subrange(0, prefix_end(f, c, 0)) =~= Seq::<u8>::empty());
        assert(position_of(Seq::<u8>::empty(), NEWLINE) == 0);
    } else {
        lemma_schedule(f, c, nw, k - 1);
        lemma_workers_step(f, c, nw, nw, k - 1);
        assert((k - 1) % nw < nw) by (nonlinear_arith)
            requires
                nw >= 1,
                k >= 1,
        ;
        lemma_chunks_tile(f, c, k);
        lemma_chunks_tile(f, c, k - 1);
        let x = f.subrange(0, prefix_end(f, c, k - 1));
        let y = chunk_text(f, c, k - 1);
        let fs = f.len() as int;
        let p = if (k - 1) * c <= fs { (k - 1) * c } else { fs };
        assert((k - 1) * c >= 0) by (nonlinear_arith)
            requires
                k >= 1,
                c >= 1,
        ;
        lemma_whole_prefix(f, p);
        assert(x + y =~= f.subrange(0, prefix_end(f, c, k)));
        lemma_absorb_lines_concat(e, x, y);
        lemma_absorb_lines_is_merge(text_map(x), y);
    }
}

/// Whatever the number of workers and the chunk size, the merged aggregate is
/// the aggregate of the whole text up to its last record boundary, folded line
/// by line in one pass.
pub proof fn lemma_merged_is_whole(f: Seq<u8>, chunk_size: int, workers: int)
    requires
        chunk_size >= 1,
        workers >= 1,
    ensures
        merged_map(f, chunk_size, workers, workers) == text_map(f.subrange(0, boundary(f, f.len() as int))),
{
    let n = chunk_count(f.len() as int, chunk_size);
    lemma_chunk_count(f.len() as int, chunk_size);
    lemma_merged_is_workers(f, chunk_size, workers, workers);
    lemma_schedule(f, chunk_size, workers, n);
}

/// The report does not depend on the number of workers nor on the chunk
/// size: two runs over the same text, with any settings, that produce sorted
/// entries for their merged aggregates produce the same report.
pub proof fn lemma_report_schedule_independent(
    f: Seq<u8>,
    chunk_size1: int,
    workers1: int,
    s1: Seq<Entry>,
    chunk_size2: int,
    workers2: int,
    s2: Seq<Entry>,
)
    requires
        chunk_size1 >= 1,
        workers1 >= 1,
        chunk_size2 >= 1,
        workers2 >= 1,
        keys_sorted(s1),
        keys_sorted(s2),
        entries_map(s1) == merged_map(f, chunk_size1, workers1, workers1),
        entries_map(s2) == merged_map(f, chunk_size2, workers2, workers2),
    ensures
        report_text(s1) == report_text(s2),
{
    lemma_merged_is_whole(f, chunk_size1, workers1);
    lemma_merged_is_whole(f, chunk_size2, workers2);
    lemma_sorted_entries_unique(s1, s2);
    lemma_report_text_eq(s1, s2);
}

} // verus!
