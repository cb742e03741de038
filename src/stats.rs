//! Running statistics of one key: minimum, maximum, sum and count of the
//! values seen, in tenths.

use vstd::prelude::*;
use crate::value::MAX_MAGNITUDE;

verus! {

/// The statistics of a non-empty collection of values, as mathematical integers.
pub struct StatModel {
    pub min: int,
    pub max: int,
    pub sum: int,
    pub count: nat,
}

/// The statistics of the one value `v`.
pub open spec fn single(v: int) -> StatModel {
    StatModel { min: v, max: v, sum: v, count: 1 }
}

pub open spec fn min_int(a: int, b: int) -> int {
    if a <= b {
        a
    } else {
        b
    }
}

pub open spec fn max_int(a: int, b: int) -> int {
    if a >= b {
        a
    } else {
        b
    }
}

/// The statistics of the union of two collections, from the statistics of each.
pub open spec fn combine(a: StatModel, b: StatModel) -> StatModel {
    StatModel {
        min: min_int(a.min, b.min),
        max: max_int(a.max, b.max),
        sum: a.sum + b.sum,
        count: a.count + b.count,
    }
}

/// Combining does not depend on the order of its arguments.
pub proof fn lemma_combine_commutative(a: StatModel, b: StatModel)
    ensures
        combine(a, b) == combine(b, a),
{
}

/// Combining does not depend on how the arguments are grouped.
pub proof fn lemma_combine_associative(a: StatModel, b: StatModel, c: StatModel)
    ensures
        combine(combine(a, b), c) == combine(a, combine(b, c)),
{
}

/// Statistics of one key, kept while the records stream by.
#[derive(Clone, Copy, Debug)]
pub struct StatRecord {
    pub min: i32,
    pub max: i32,
    pub sum: i128,
    pub count: u64,
}

impl View for StatRecord {
    type V = StatModel;

    open spec fn view(&self) -> StatModel {
        StatModel { min: self.min as int, max: self.max as int, sum: self.sum as int, count: self.count as nat }
    }
}

/// How far from zero the sum of `count` values may lie.
pub open spec fn sum_bound(count: int) -> int {
    MAX_MAGNITUDE as int * count
}

/// A value that well-formed text can denote.
pub open spec fn in_value_range(v: int) -> bool {
    -MAX_MAGNITUDE <= v <= MAX_MAGNITUDE
}

proof fn lemma_sum_bound(c: int, d: int)
    requires
        0 <= c,
        0 <= d,
        c + d <= u64::MAX,
    ensures
        sum_bound(c + d) == sum_bound(c) + sum_bound(d),
        sum_bound(c + d) <= 999_999_999 * 0x1_0000_0000_0000_0000,
        0 <= sum_bound(d),
        d >= 1 ==> MAX_MAGNITUDE <= sum_bound(d),
{
    assert(999_999_999 * (c + d) == 999_999_999 * c + 999_999_999 * d) by (nonlinear_arith);
    assert(999_999_999 * (c + d) <= 999_999_999 * 0x1_0000_0000_0000_0000) by (nonlinear_arith)
        requires
            c + d <= 0x1_0000_0000_0000_0000,
    ;
    assert(d >= 1 ==> 999_999_999 <= 999_999_999 * d) by (nonlinear_arith);
}

impl StatRecord {
    /// At least one value seen, minimum not above maximum, and the sum no
    /// further from zero than `count` values of the largest magnitude.
    pub open spec fn wf(&self) -> bool {
        &&& self.count >= 1
        &&& in_value_range(self.min as int)
        &&& in_value_range(self.max as int)
        &&& self.min <= self.max
        &&& -sum_bound(self.count as int) <= self.sum <= sum_bound(self.count as int)
    }

    /// The statistics of the first value seen for a key.
    pub fn new(item: i32) -> (r: StatRecord)
        requires
            in_value_range(item as int),
        ensures
            r@ == single(item as int),
            r.wf(),
    {
        StatRecord { min: item, max: item, sum: item as i128, count: 1 }
    }

    /// Folds one more value into the statistics.
    pub fn update(&mut self, item: i32)
        requires
            old(self).wf(),
            in_value_range(item as int),
            old(self).count < u64::MAX,
        ensures
            final(self)@ == combine(old(self)@, single(item as int)),
            final(self).wf(),
    {
        let ghost c = self.count as int;
        proof {
            lemma_sum_bound(c, 1);
        }
        self.count = self.count + 1;
        if item < self.min {
            self.min = item;
        }
        if item > self.max {
            self.max = item;
        }
        self.sum = self.sum + item as i128;
    }

    /// Folds the statistics of another collection into these.
    pub fn merge(&mut self, rhs: &StatRecord)
        requires
            old(self).wf(),
            rhs.wf(),
            old(self).count + rhs.count <= u64::MAX,
        ensures
            final(self)@ == combine(old(self)@, rhs@),
            final(self).wf(),
    {
        let ghost c = self.count as int;
        let ghost d = rhs.count as int;
        proof {
            lemma_sum_bound(c, d);
        }
        self.count = self.count + rhs.count;
        if rhs.min < self.min {
            self.min = rhs.min;
        }
        if rhs.max > self.max {
            self.max = rhs.max;
        }
        self.sum = self.sum + rhs.sum;
    }
}

} // verus!
