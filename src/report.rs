//! The final report: one line `key: min/mean/max` per key, in key order, each
//! number in tenths written with exactly one decimal digit.

use vstd::prelude::*;
use crate::aggregate::{Aggregate, Entry};
use crate::records::NEWLINE;
use crate::stats::{sum_bound, StatModel, StatRecord};
use crate::value::{DOT, MAX_MAGNITUDE, MINUS};

verus! {

/// Byte between a key and its numbers.
pub const COLON: u8 = 58;

/// Byte after the colon.
pub const SPACE: u8 = 32;

/// Byte between two numbers.
pub const SLASH: u8 = 47;

/// Decimal digits of `n`, most significant first, without leading zeros
/// (`0` is one digit).
pub open spec fn digits(n: nat) -> Seq<u8>
    decreases n,
{
    if n < 10 {
        seq![(48 + n) as u8]
    } else {
        digits(n / 10) + seq![(48 + n % 10) as u8]
    }
}

pub open spec fn abs(t: int) -> nat {
    if t < 0 {
        (-t) as nat
    } else {
        t as nat
    }
}

/// A number of tenths written with one decimal digit: `-32` is `-3.2`, `5` is `0.5`.
pub open spec fn tenths_text(t: int) -> Seq<u8> {
    let sign = if t < 0 { seq![MINUS] } else { Seq::<u8>::empty() };
    sign + digits(abs(t) / 10) + seq![DOT, (48 + abs(t) % 10) as u8]
}

/// `sum / count` in tenths, rounded to the nearest tenth, halves away from zero.
pub open spec fn mean_tenths(sum: int, count: nat) -> int {
    if sum >= 0 {
        (2 * sum + count) / (2 * count as int)
    } else {
        -((-2 * sum + count) / (2 * count as int))
    }
}

/// The report line of one key.
pub open spec fn entry_line(key: Seq<u8>, st: StatModel) -> Seq<u8> {
    key + seq![COLON, SPACE] + tenths_text(st.min) + seq![SLASH] + tenths_text(mean_tenths(st.sum, st.count))
        + seq![SLASH] + tenths_text(st.max) + seq![NEWLINE]
}

/// The lines of the entries, in their order.
pub open spec fn report_text(s: Seq<Entry>) -> Seq<u8>
    decreases s.len(),
{
    if s.len() == 0 {
        Seq::<u8>::empty()
    } else {
        report_text(s.drop_last()) + entry_line(s.last().key@, s.last().stats@)
    }
}

fn push_all(out: &mut Vec<u8>, bytes: &[u8])
    ensures
        final(out)@ == old(out)@ + bytes@,
{
    let ghost start = out@;
    let mut i: usize = 0;
    while i < bytes.len()
        invariant
            i <= bytes.len(),
            out@ == start + bytes@.subrange(0, i as int),
        decreases bytes.len() - i,
    {
        out.push(bytes[i]);
        i += 1;
        assert(out@ =~= start + bytes@.subrange(0, i as int));
    }
    assert(bytes@.subrange(0, i as int) =~= bytes@);
}

fn push_digits(out: &mut Vec<u8>, n: u64)
    ensures
        final(out)@ == old(out)@ + digits(n as nat),
    decreases n,
{
    if n >= 10 {
        push_digits(out, n / 10);
    }
    out.push(48 + (n % 10) as u8);
    assert(out@ =~= old(out)@ + digits(n as nat));
}

/// Appends a number of tenths with one decimal digit.
pub fn push_tenths(out: &mut Vec<u8>, t: i64)
    requires
        t > i64::MIN,
    ensures
        final(out)@ == old(out)@ + tenths_text(t as int),
{
    let a: u64 = if t < 0 { (-t) as u64 } else { t as u64 };
    if t < 0 {
        out.push(MINUS);
    }
    push_digits(out, a / 10);
    out.push(DOT);
    out.push(48 + (a % 10) as u8);
    assert(out@ =~= old(out)@ + tenths_text(t as int));
}

proof fn lemma_mean_bound(sum: int, count: nat)
    requires
        count >= 1,
        -sum_bound(count as int) <= sum <= sum_bound(count as int),
    ensures
        -MAX_MAGNITUDE <= mean_tenths(sum, count) <= MAX_MAGNITUDE,
        sum >= 0 ==> 0 <= 2 * sum + count <= 1_999_999_998 * count + count,
        sum < 0 ==> 0 <= -2 * sum + count <= 1_999_999_998 * count + count,
{
    let c = count as int;
    assert(sum_bound(c) == 999_999_999 * c);
    assert(sum <= 999_999_999 * c);
    assert(-sum <= 999_999_999 * c);
    assert(2 * sum + c <= 1_999_999_998 * c + c);
    assert(-2 * sum + c <= 1_999_999_998 * c + c);
    if sum >= 0 {
        let x = 2 * sum + c;
        assert(x / (2 * c) <= 999_999_999) by (nonlinear_arith)
            requires
                0 <= x <= 1_999_999_998 * c + c,
                c >= 1,
        ;
        assert(x / (2 * c) >= 0) by (nonlinear_arith)
            requires
                0 <= x,
                c >= 1,
        ;
    } else {
        let x = -2 * sum + c;
        assert(x / (2 * c) <= 999_999_999) by (nonlinear_arith)
            requires
                0 <= x <= 1_999_999_998 * c + c,
                c >= 1,
        ;
        assert(x / (2 * c) >= 0) by (nonlinear_arith)
            requires
                0 <= x,
                c >= 1,
        ;
    }
}

/// The mean of the statistics in tenths, rounded half away from zero.
pub fn mean_of(st: &StatRecord) -> (r: i64)
    requires
        st.wf(),
    ensures
        r == mean_tenths(st.sum as int, st.count as nat),
        -MAX_MAGNITUDE <= r <= MAX_MAGNITUDE,
{
    proof {
        lemma_mean_bound(st.sum as int, st.count as nat);
        assert(999_999_999 * (st.count as int) <= 999_999_999 * 0x1_0000_0000_0000_0000) by (nonlinear_arith)
            requires
                st.count <= 0x1_0000_0000_0000_0000,
        ;
    }
    let c = st.count as i128;
    let q = if st.sum >= 0 {
        (2 * st.sum + c) / (2 * c)
    } else {
        -((-2 * st.sum + c) / (2 * c))
    };
    q as i64
}

/// Appends the report line of one entry.
pub fn push_entry_line(out: &mut Vec<u8>, e: &Entry)
    requires
        e.stats.wf(),
    ensures
        final(out)@ == old(out)@ + entry_line(e.key@, e.stats@),
{
    push_all(out, e.key.as_slice());
    out.push(COLON);
    out.push(SPACE);
    push_tenths(out, e.stats.min as i64);
    out.push(SLASH);
    push_tenths(out, mean_of(&e.stats));
    out.push(SLASH);
    push_tenths(out, e.stats.max as i64);
    out.push(NEWLINE);
    assert(out@ =~= old(out)@ + entry_line(e.key@, e.stats@));
}

/// The report of an aggregate: one line per key, in byte-lexicographic key order.
pub fn render_report(agg: &Aggregate) -> (r: Vec<u8>)
    requires
        agg.wf(),
    ensures
        r@ == report_text(agg.entries@),
{
    let mut out: Vec<u8> = Vec::new();
    let mut i: usize = 0;
    while i < agg.entries.len()
        invariant
            agg.wf(),
            i <= agg.entries@.len(),
            out@ == report_text(agg.entries@.take(i as int)),
        decreases agg.entries@.len() - i,
    {
        proof {
            assert(agg.entries@.take(i + 1).drop_last() =~= agg.entries@.take(i as int));
        }
        push_entry_line(&mut out, &agg.entries[i]);
        i += 1;
    }
    assert(agg.entries@.take(i as int) =~= agg.entries@);
    out
}

/// Entries equal key by key and statistics by statistics give the same report.
pub proof fn lemma_report_text_eq(s: Seq<Entry>, t: Seq<Entry>)
    requires
        s.len() == t.len(),
        forall|i: int| 0 <= i < s.len() ==> #[trigger] s[i].key@ == t[i].key@ && s[i].stats@ == t[i].stats@,
    ensures
        report_text(s) == report_text(t),
    decreases s.len(),
{
    if s.len() > 0 {
        let ls = s.len() - 1;
        assert(s[ls].key@ == t[ls].key@ && s[ls].stats@ == t[ls].stats@);
        assert forall|i: int| 0 <= i < ls implies #[trigger] s.drop_last()[i].key@ == t.drop_last()[i].key@
            && s.drop_last()[i].stats@ == t.drop_last()[i].stats@ by {
            assert(s[i].key@ == t[i].key@ && s[i].stats@ == t[i].stats@);
        }
        lemma_report_text_eq(s.drop_last(), t.drop_last());
    }
}

} // verus!
