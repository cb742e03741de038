//! Splitting aligned text into `<key>;<value>` records and folding them into
//! an aggregate.

use vstd::prelude::*;
use crate::aggregate::{lemma_merge_associative, lemma_merge_empty, lemma_observe_is_merge, merge_maps, observe_map, Aggregate};
use crate::stats::StatModel;
use crate::value::{check_value_text, is_value_text, lemma_value_bound, parse_ascii_digits, value_of};

verus! {

/// Byte that ends a record.
pub const NEWLINE: u8 = 10;

/// Byte between a record's key and its value.
pub const SEMICOLON: u8 = 59;

/// Index of the first `b` in `s`, or `s.len()` when there is none.
pub open spec fn position_of(s: Seq<u8>, b: u8) -> int
    decreases s.len(),
{
    if s.len() == 0 {
        0
    } else if s[0] == b {
        0
    } else {
        1 + position_of(s.drop_first(), b)
    }
}

/// The first `b` in `s` is at `r` (or there is none and `r == s.len()`).
pub proof fn lemma_position_of(s: Seq<u8>, b: u8, r: int)
    requires
        0 <= r <= s.len(),
        r < s.len() ==> s[r] == b,
        forall|j: int| 0 <= j < r ==> s[j] != b,
    ensures
        position_of(s, b) == r,
    decreases s.len(),
{
    if s.len() > 0 && r > 0 {
        assert(s[0] != b);
        let t = s.drop_first();
        assert forall|j: int| 0 <= j < r - 1 implies t[j] != b by {
            assert(t[j] == s[j + 1]);
        }
        lemma_position_of(t, b, r - 1);
    }
}

/// Index of the first `b` in `s`, or `s.len()` when there is none.
pub fn find_byte(s: &[u8], b: u8) -> (r: usize)
    ensures
        r == position_of(s@, b),
{
    let mut i: usize = 0;
    while i < s.len() && s[i] != b
        invariant
            i <= s.len(),
            forall|j: int| 0 <= j < i ==> s@[j] != b,
        decreases s.len() - i,
    {
        i += 1;
    }
    proof {
        lemma_position_of(s@, b, i as int);
    }
    i
}

/// A line is well formed when it is empty (it is then skipped), or when it
/// holds a separator and well-formed value text after the first one.
pub open spec fn line_ok(line: Seq<u8>) -> bool {
    let j = position_of(line, SEMICOLON);
    line.len() == 0 || (j < line.len() && is_value_text(line.subrange(j + 1, line.len() as int)))
}

/// The key of a well-formed line: what stands before its first separator.
pub open spec fn line_key(line: Seq<u8>) -> Seq<u8> {
    line.subrange(0, position_of(line, SEMICOLON))
}

/// The value of a well-formed line, in tenths.
pub open spec fn line_value(line: Seq<u8>) -> int {
    value_of(line.subrange(position_of(line, SEMICOLON) + 1, line.len() as int))
}

/// The aggregate after one line; an empty line changes nothing.
pub open spec fn absorb_line(m: Map<Seq<u8>, StatModel>, line: Seq<u8>) -> Map<Seq<u8>, StatModel> {
    if line.len() == 0 {
        m
    } else {
        observe_map(m, line_key(line), line_value(line))
    }
}

/// Every line of `s` is well formed. Lines end at each newline; what follows
/// the last newline counts as one more line.
pub open spec fn lines_ok(s: Seq<u8>) -> bool
    decreases s.len(),
{
    let i = position_of(s, NEWLINE);
    if i < 0 || i >= s.len() {
        line_ok(s)
    } else {
        line_ok(s.subrange(0, i)) && lines_ok(s.subrange(i + 1, s.len() as int))
    }
}

/// The aggregate after every line of `s`, in order.
pub open spec fn absorb_lines(m: Map<Seq<u8>, StatModel>, s: Seq<u8>) -> Map<Seq<u8>, StatModel>
    decreases s.len(),
{
    let i = position_of(s, NEWLINE);
    if i < 0 || i >= s.len() {
        absorb_line(m, s)
    } else {
        absorb_lines(absorb_line(m, s.subrange(0, i)), s.subrange(i + 1, s.len() as int))
    }
}

proof fn lemma_position_bound(s: Seq<u8>, b: u8)
    ensures
        0 <= position_of(s, b) <= s.len(),
        position_of(s, b) < s.len() ==> s[position_of(s, b)] == b,
        forall|j: int| 0 <= j < position_of(s, b) ==> s[j] != b,
    decreases s.len(),
{
    if s.len() > 0 && s[0] != b {
        let t = s.drop_first();
        lemma_position_bound(t, b);
        assert forall|j: int| 0 <= j < position_of(s, b) implies s[j] != b by {
            if j > 0 {
                assert(s[j] == t[j - 1]);
            }
        }
    }
}

/// Folding lines into an aggregate is merging in the aggregate of those lines.
pub proof fn lemma_absorb_lines_is_merge(m: Map<Seq<u8>, StatModel>, x: Seq<u8>)
    ensures
        absorb_lines(m, x) == merge_maps(m, absorb_lines(Map::<Seq<u8>, StatModel>::empty(), x)),
    decreases x.len(),
{
    let e = Map::<Seq<u8>, StatModel>::empty();
    let i = position_of(x, NEWLINE);
    lemma_position_bound(x, NEWLINE);
    if i >= x.len() {
        lemma_absorb_line_is_merge(m, x);
    } else {
        let l = x.subrange(0, i);
        let rest = x.subrange(i + 1, x.len() as int);
        lemma_absorb_lines_is_merge(absorb_line(m, l), rest);
        lemma_absorb_lines_is_merge(absorb_line(e, l), rest);
        lemma_absorb_line_is_merge(m, l);
        lemma_merge_associative(m, absorb_line(e, l), absorb_lines(e, rest));
    }
}

proof fn lemma_absorb_line_is_merge(m: Map<Seq<u8>, StatModel>, l: Seq<u8>)
    ensures
        absorb_line(m, l) == merge_maps(m, absorb_line(Map::<Seq<u8>, StatModel>::empty(), l)),
{
    lemma_merge_empty(m);
    if l.len() > 0 {
        lemma_observe_is_merge(m, line_key(l), line_value(l));
    }
}

/// Text that is empty or ends with a newline holds whole lines only.
pub open spec fn whole_lines(x: Seq<u8>) -> bool {
    x.len() == 0 || x.last() == NEWLINE
}

/// Folding the lines of `x + y` is folding those of `x`, then those of `y`,
/// when `x` holds whole lines; and `x + y` is well formed when both are.
pub proof fn lemma_absorb_lines_concat(m: Map<Seq<u8>, StatModel>, x: Seq<u8>, y: Seq<u8>)
    requires
        whole_lines(x),
    ensures
        absorb_lines(m, x + y) == absorb_lines(absorb_lines(m, x), y),
        lines_ok(x + y) == (lines_ok(x) && lines_ok(y)),
    decreases x.len(),
{
    if x.len() == 0 {
        assert(x + y =~= y);
        assert(position_of(x, NEWLINE) == 0);
        assert(line_ok(x));
    } else {
        let i = position_of(x, NEWLINE);
        lemma_position_bound(x, NEWLINE);
        if i >= x.len() {
            assert(x[x.len() - 1] != NEWLINE);
        }
        assert(i < x.len());
        let xy = x + y;
        assert forall|j: int| 0 <= j < i implies xy[j] != NEWLINE by {
            assert(xy[j] == x[j]);
        }
        lemma_position_of(xy, NEWLINE, i);
        let l = x.subrange(0, i);
        let rest = x.subrange(i + 1, x.len() as int);
        assert(xy.subrange(0, i) =~= l);
        assert(xy.subrange(i + 1, xy.len() as int) =~= rest + y);
        if rest.len() > 0 {
            assert(rest.last() == x.last());
        }
        lemma_absorb_lines_concat(absorb_line(m, l), rest, y);
    }
}

/// A record that does not have the expected shape.
#[derive(Debug, Clone, Copy, PartialEq, Eq)]
pub enum RecordError {
    /// The line holds no key/value separator.
    MissingSeparator,
    /// The text after the separator is not a one-decimal value.
    BadValue,
}

/// Folds the line `line` (without its newline) into `agg`.
fn absorb_one_line(agg: &mut Aggregate, line: &[u8]) -> (r: Result<(), RecordError>)
    requires
        old(agg).wf(),
        old(agg).observed + line@.len() <= u64::MAX,
    ensures
        final(agg).wf(),
        r is Ok <==> line_ok(line@),
        r is Ok ==> final(agg)@ == absorb_line(old(agg)@, line@),
        final(agg).observed <= old(agg).observed + line@.len(),
{
    if line.len() == 0 {
        return Ok(());
    }
    let j = find_byte(line, SEMICOLON);
    if j >= line.len() {
        return Err(RecordError::MissingSeparator);
    }
    let text = &line[j + 1..line.len()];
    if !check_value_text(text) {
        return Err(RecordError::BadValue);
    }
    proof {
        lemma_value_bound(text@);
    }
    let v = parse_ascii_digits(text);
    let key = &line[0..j];
    agg.observe(key, v);
    Ok(())
}

/// Folds every record of `chunk` into `agg`, skipping empty lines.
///
/// Fails on the first malformed line; `agg` then holds the records before it.
pub fn process_chunk(agg: &mut Aggregate, chunk: &[u8]) -> (r: Result<(), RecordError>)
    requires
        old(agg).wf(),
        old(agg).observed + chunk@.len() <= u64::MAX,
    ensures
        final(agg).wf(),
        r is Ok <==> lines_ok(chunk@),
        r is Ok ==> final(agg)@ == absorb_lines(old(agg)@, chunk@),
        final(agg).observed <= old(agg).observed + chunk@.len(),
{
    let ghost m0 = agg@;
    let ghost o0 = agg.observed;
    let mut pos: usize = 0;
    assert(chunk@.subrange(0, chunk@.len() as int) =~= chunk@);
    loop
        invariant
            pos <= chunk.len(),
            m0 == old(agg)@,
            o0 == old(agg).observed,
            agg.wf(),
            agg.observed <= o0 + pos,
            o0 + chunk@.len() <= u64::MAX,
            lines_ok(chunk@) == lines_ok(chunk@.subrange(pos as int, chunk@.len() as int)),
            lines_ok(chunk@) ==> absorb_lines(m0, chunk@) == absorb_lines(agg@, chunk@.subrange(pos as int, chunk@.len() as int)),
        decreases chunk.len() - pos,
    {
        let rest = &chunk[pos..chunk.len()];
        let i = find_byte(rest, NEWLINE);
        proof {
            lemma_position_bound(rest@, NEWLINE);
        }
        if i >= rest.len() {
            let r = absorb_one_line(agg, rest);
            return r;
        }
        let line = &rest[0..i];
        let r = absorb_one_line(agg, line);
        if r.is_err() {
            return r;
        }
        assert(rest@.subrange(i + 1, rest@.len() as int) =~= chunk@.subrange(pos + i + 1, chunk@.len() as int));
        pos = pos + i + 1;
    }
}

/// The aggregate of a text split at a record boundary is the merge of the
/// aggregates of its two parts.
pub proof fn lemma_split_aggregate(x: Seq<u8>, y: Seq<u8>)
    requires
        whole_lines(x),
    ensures
        absorb_lines(Map::<Seq<u8>, StatModel>::empty(), x + y) == merge_maps(
            absorb_lines(Map::<Seq<u8>, StatModel>::empty(), x),
            absorb_lines(Map::<Seq<u8>, StatModel>::empty(), y),
        ),
{
    let e = Map::<Seq<u8>, StatModel>::empty();
    lemma_absorb_lines_concat(e, x, y);
    lemma_absorb_lines_is_merge(absorb_lines(e, x), y);
}

} // verus!
