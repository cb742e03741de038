//! The fixed one-decimal value format: an optional `-`, one or more integer
//! digits, a `.`, and exactly one fractional digit. Values are held as
//! integers counting tenths (`-3.2` is `-32`).

use vstd::prelude::*;

verus! {

/// Byte that marks a negative value.
pub const MINUS: u8 = 45;

/// Byte between the integer digits and the fractional digit.
pub const DOT: u8 = 46;

/// Most integer digits a value may have, so that its tenths fit an `i32`.
pub const MAX_INT_DIGITS: usize = 8;

pub open spec fn is_digit(b: u8) -> bool {
    48 <= b <= 57
}

pub open spec fn pow10(n: nat) -> nat
    decreases n,
{
    if n == 0 {
        1
    } else {
        10 * pow10((n - 1) as nat)
    }
}

/// The number that a string of decimal digits denotes.
pub open spec fn digits_value(s: Seq<u8>) -> nat
    decreases s.len(),
{
    if s.len() == 0 {
        0
    } else {
        digits_value(s.drop_last()) * 10 + (s.last() - 48) as nat
    }
}

pub open spec fn is_negative(t: Seq<u8>) -> bool {
    t.len() > 0 && t[0] == MINUS
}

/// The text after the optional sign.
pub open spec fn unsigned_part(t: Seq<u8>) -> Seq<u8> {
    if is_negative(t) {
        t.subrange(1, t.len() as int)
    } else {
        t
    }
}

/// Well-formed value text: `-?D+.D` with at most `MAX_INT_DIGITS` integer digits.
pub open spec fn is_value_text(t: Seq<u8>) -> bool {
    let u = unsigned_part(t);
    &&& 3 <= u.len() <= MAX_INT_DIGITS + 2
    &&& u[u.len() - 2] == DOT
    &&& forall|i: int| 0 <= i < u.len() && i != u.len() - 2 ==> is_digit(#[trigger] u[i])
}

/// The value, in tenths, that well-formed text denotes.
pub open spec fn value_of(t: Seq<u8>) -> int {
    let u = unsigned_part(t);
    let magnitude = digits_value(u.subrange(0, u.len() - 2)) * 10 + (u.last() - 48);
    if is_negative(t) {
        -magnitude
    } else {
        magnitude
    }
}

/// Largest magnitude, in tenths, that well-formed text can denote.
pub const MAX_MAGNITUDE: i32 = 999_999_999;

proof fn lemma_digits_value_bound(s: Seq<u8>)
    requires
        forall|i: int| 0 <= i < s.len() ==> is_digit(#[trigger] s[i]),
    ensures
        digits_value(s) < pow10(s.len()),
    decreases s.len(),
{
    if s.len() > 0 {
        let p = s.drop_last();
        assert forall|i: int| 0 <= i < p.len() implies is_digit(#[trigger] p[i]) by {
            assert(p[i] == s[i]);
        }
        lemma_digits_value_bound(p);
        let a = digits_value(p);
        let b = pow10(p.len());
        assert(a * 10 + 9 < b * 10) by (nonlinear_arith)
            requires
                a < b,
        ;
    }
}

/// Every well-formed value lies within `MAX_MAGNITUDE` of zero.
pub proof fn lemma_value_bound(t: Seq<u8>)
    requires
        is_value_text(t),
    ensures
        -MAX_MAGNITUDE <= value_of(t) <= MAX_MAGNITUDE,
{
    let u = unsigned_part(t);
    let d = u.subrange(0, u.len() - 2);
    assert forall|i: int| 0 <= i < d.len() implies is_digit(#[trigger] d[i]) by {
        assert(d[i] == u[i]);
    }
    lemma_digits_value_bound(d);
    assert(pow10(d.len()) <= 100_000_000) by {
        reveal_with_fuel(pow10, 9);
        lemma_pow10_mono(d.len(), 8);
    }
    assert(is_digit(u[u.len() - 1]));
}

proof fn lemma_pow10_mono(a: nat, b: nat)
    requires
        a <= b,
    ensures
        pow10(a) <= pow10(b),
    decreases b,
{
    if a < b {
        lemma_pow10_mono(a, (b - 1) as nat);
    }
}

/// Tells whether `t` is well-formed value text.
pub fn check_value_text(t: &[u8]) -> (r: bool)
    ensures
        r == is_value_text(t@),
{
    let neg = t.len() > 0 && t[0] == MINUS;
    let start: usize = if neg { 1 } else { 0 };
    let n = t.len() - start;
    let ghost u = unsigned_part(t@);
    assert(u =~= t@.subrange(start as int, t@.len() as int));
    if n < 3 || n > MAX_INT_DIGITS + 2 || t[t.len() - 2] != DOT {
        return false;
    }
    let mut i = start;
    while i < t.len()
        invariant
            start <= i <= t.len(),
            t.len() >= start + 3,
            u == unsigned_part(t@),
            u.len() == t.len() - start,
            u =~= t@.subrange(start as int, t@.len() as int),
            forall|j: int| 0 <= j < i - start && j != u.len() - 2 ==> is_digit(#[trigger] u[j]),
        decreases t.len() - i,
    {
        if i != t.len() - 2 && !(48 <= t[i] && t[i] <= 57) {
            assert(u[i - start] == t@[i as int]);
            assert(!is_digit(u[i - start]));
            return false;
        }
        i += 1;
    }
    true
}

/// Decodes well-formed value text into tenths, digit by digit from the left,
/// without allocating.
pub fn parse_ascii_digits(buffer: &[u8]) -> (r: i32)
    requires
        is_value_text(buffer@),
    ensures
        r == value_of(buffer@),
        -MAX_MAGNITUDE <= r <= MAX_MAGNITUDE,
{
    proof {
        lemma_value_bound(buffer@);
    }
    let size = buffer.len();
    let negative = buffer[0] == MINUS;
    let start: usize = if negative { 1 } else { 0 };
    let ghost u = unsigned_part(buffer@);
    assert(u =~= buffer@.subrange(start as int, size as int));
    let ghost d = u.subrange(0, u.len() - 2);
    proof {
        assert forall|i: int| 0 <= i < d.len() implies is_digit(#[trigger] d[i]) by {
            assert(d[i] == u[i]);
        }
        lemma_digits_value_bound(d);
        lemma_pow10_mono(d.len(), 8);
        reveal_with_fuel(pow10, 9);
    }
    let mut accumulator: i32 = 0;
    let mut i = start;
    while i < size - 2
        invariant
            start <= i <= size - 2,
            size == buffer@.len(),
            u =~= buffer@.subrange(start as int, size as int),
            d =~= u.subrange(0, u.len() - 2),
            forall|j: int| 0 <= j < d.len() ==> is_digit(#[trigger] d[j]),
            pow10(d.len()) <= 100_000_000,
            accumulator == digits_value(d.subrange(0, i - start)),
        decreases size - 2 - i,
    {
        let ghost k = i - start;
        assert(d.subrange(0, k + 1).drop_last() =~= d.subrange(0, k));
        assert(d[k] == buffer@[i as int]);
        proof {
            let p = d.subrange(0, k + 1);
            assert forall|j: int| 0 <= j < p.len() implies is_digit(#[trigger] p[j]) by {
                assert(p[j] == d[j]);
            }
            lemma_digits_value_bound(p);
            lemma_pow10_mono(p.len(), d.len());
        }
        accumulator = accumulator * 10 + (buffer[i] - 48) as i32;
        i += 1;
    }
    assert(d.subrange(0, d.len() as int) =~= d);
    let last = (buffer[size - 1] - 48) as i32;
    assert(is_digit(u[u.len() - 1]));
    accumulator = accumulator * 10 + last;
    if negative {
        -accumulator
    } else {
        accumulator
    }
}

} // verus!
