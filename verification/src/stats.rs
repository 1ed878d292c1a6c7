//! The running statistics of one station.

use vstd::prelude::*;

verus! {

/// What is known of one station: the least and the greatest reading, the sum
/// of all readings and their number, readings counted in tenths.
pub struct Summary {
    pub min: int,
    pub max: int,
    pub sum: int,
    pub count: nat,
}

impl Summary {
    /// The summary of a station after its first reading.
    pub open spec fn single(value: int) -> Summary {
        Summary { min: value, max: value, sum: value, count: 1 }
    }

    /// The summary after one more reading.
    pub open spec fn absorb(self, value: int) -> Summary {
        Summary {
            min: if value < self.min {
                value
            } else {
                self.min
            },
            max: if value > self.max {
                value
            } else {
                self.max
            },
            sum: self.sum + value,
            count: self.count + 1,
        }
    }

    /// The summary of the readings of two summaries taken together.
    pub open spec fn merged(self, other: Summary) -> Summary {
        Summary {
            min: if other.min < self.min {
                other.min
            } else {
                self.min
            },
            max: if other.max > self.max {
                other.max
            } else {
                self.max
            },
            sum: self.sum + other.sum,
            count: self.count + other.count,
        }
    }

    /// A summary that some run of one or more readings can have: its mean
    /// lies between its extremes.
    pub open spec fn consistent(self) -> bool {
        &&& self.count >= 1
        &&& self.min <= self.max
        &&& self.count * self.min <= self.sum <= self.count * self.max
    }

    /// Two summaries have the same mean: `sum / count`, compared as exact
    /// fractions.
    pub open spec fn same_mean(self, other: Summary) -> bool {
        self.sum * other.count == other.sum * self.count
    }
}

/// A first reading gives a consistent summary, and so does every further one.
pub proof fn lemma_absorb_consistent(summary: Summary, value: int)
    requires
        summary.consistent(),
    ensures
        Summary::single(value).consistent(),
        summary.absorb(value).consistent(),
{
    let next = summary.absorb(value);
    assert(1 * value == value) by (nonlinear_arith);
    assert(next.count * next.min <= next.sum <= next.count * next.max) by (nonlinear_arith)
        requires
            summary.count >= 1,
            summary.count * summary.min <= summary.sum <= summary.count * summary.max,
            next.count == summary.count + 1,
            next.sum == summary.sum + value,
            next.min <= summary.min,
            next.min <= value,
            next.max >= summary.max,
            next.max >= value,
    ;
}

/// Two consistent summaries merge into a consistent one.
pub proof fn lemma_merged_consistent(a: Summary, b: Summary)
    requires
        a.consistent(),
        b.consistent(),
    ensures
        a.merged(b).consistent(),
{
    let m = a.merged(b);
    assert(m.count * m.min <= m.sum <= m.count * m.max) by (nonlinear_arith)
        requires
            a.count >= 1,
            b.count >= 1,
            a.count * a.min <= a.sum <= a.count * a.max,
            b.count * b.min <= b.sum <= b.count * b.max,
            m.count == a.count + b.count,
            m.sum == a.sum + b.sum,
            m.min <= a.min,
            m.min <= b.min,
            m.max >= a.max,
            m.max >= b.max,
    ;
}

/// Merging is commutative and associative: the order in which partial
/// summaries meet does not matter.
pub proof fn lemma_merged_commutes(a: Summary, b: Summary, c: Summary)
    ensures
        a.merged(b) == b.merged(a),
        a.merged(b).merged(c) == a.merged(b.merged(c)),
{
}

/// A further reading is a merge with the summary of that reading alone.
pub proof fn lemma_absorb_is_merge(summary: Summary, value: int)
    ensures
        summary.absorb(value) == summary.merged(Summary::single(value)),
{
}

/// Merging a summary with itself keeps its extremes, doubles its sum and its
/// count, and so keeps its mean.
pub proof fn lemma_self_merge_keeps_mean(summary: Summary)
    ensures
        summary.merged(summary).min == summary.min,
        summary.merged(summary).max == summary.max,
        summary.merged(summary).sum == 2 * summary.sum,
        summary.merged(summary).count == 2 * summary.count,
        summary.merged(summary).same_mean(summary),
{
    let m = summary.merged(summary);
    assert(m.sum * summary.count == summary.sum * m.count) by (nonlinear_arith)
        requires
            m.sum == 2 * summary.sum,
            m.count == 2 * summary.count,
    ;
}

/// The running statistics of one station, in machine integers.
///
/// The extremes are 64-bit readings and the sum has 128 bits, which is room
/// for as many readings as the count can number.
#[derive(Clone, Copy, Debug)]
pub struct StationStats {
    min: i64,
    max: i64,
    sum: i128,
    count: u64,
}

impl View for StationStats {
    type V = Summary;

    closed spec fn view(&self) -> Summary {
        Summary {
            min: self.min as int,
            max: self.max as int,
            sum: self.sum as int,
            count: self.count as nat,
        }
    }
}

impl StationStats {
    /// The record is the summary of one or more readings.
    pub open spec fn wf(&self) -> bool {
        self@.consistent()
    }

    /// The record of a station after its first reading.
    pub fn first(value: i64) -> (stats: StationStats)
        ensures
            stats.wf(),
            stats@ == Summary::single(value as int),
    {
        proof {
            lemma_absorb_consistent(Summary::single(value as int), value as int);
        }
        StationStats { min: value, max: value, sum: value as i128, count: 1 }
    }

    /// Takes one more reading into the record.
    pub fn absorb(&mut self, value: i64)
        requires
            old(self).wf(),
            old(self)@.count < u64::MAX,
        ensures
            final(self).wf(),
            final(self)@ == old(self)@.absorb(value as int),
    {
        proof {
            lemma_absorb_consistent(self@, value as int);
            lemma_sum_in_range(self@);
        }
        if value < self.min {
            self.min = value;
        }
        if value > self.max {
            self.max = value;
        }
        self.sum = self.sum + value as i128;
        self.count = self.count + 1;
    }

    /// The record of the readings of `self` and `other` taken together.
    pub fn merge(&self, other: &StationStats) -> (stats: StationStats)
        requires
            self.wf(),
            other.wf(),
            self@.count + other@.count <= u64::MAX,
        ensures
            stats.wf(),
            stats@ == self@.merged(other@),
    {
        proof {
            lemma_merged_consistent(self@, other@);
            lemma_sum_in_range(self@);
            lemma_sum_in_range(other@);
        }
        StationStats {
            min: if other.min < self.min {
                other.min
            } else {
                self.min
            },
            max: if other.max > self.max {
                other.max
            } else {
                self.max
            },
            sum: self.sum + other.sum,
            count: self.count + other.count,
        }
    }

    /// The least reading, in tenths.
    pub fn min(&self) -> (value: i64)
        ensures
            value == self@.min,
    {
        self.min
    }

    /// The greatest reading, in tenths.
    pub fn max(&self) -> (value: i64)
        ensures
            value == self@.max,
    {
        self.max
    }

    /// The sum of all readings, in tenths.
    pub fn sum(&self) -> (value: i128)
        ensures
            value == self@.sum,
    {
        self.sum
    }

    /// The number of readings.
    pub fn count(&self) -> (value: u64)
        ensures
            value == self@.count,
    {
        self.count
    }
}

/// The sum of 64-bit readings is at most their number times the widest reading.
proof fn lemma_sum_in_range(summary: Summary)
    requires
        summary.consistent(),
        i64::MIN <= summary.min,
        summary.max <= i64::MAX,
    ensures
        summary.count * (-0x8000_0000_0000_0000) <= summary.sum <= summary.count
            * 0x7fff_ffff_ffff_ffff,
{
    assert(summary.count * (-0x8000_0000_0000_0000) <= summary.count * summary.min) by (nonlinear_arith)
        requires
            summary.count >= 1,
            -0x8000_0000_0000_0000 <= summary.min,
    ;
    assert(summary.count * summary.max <= summary.count * 0x7fff_ffff_ffff_ffff) by (nonlinear_arith)
        requires
            summary.count >= 1,
            summary.max <= 0x7fff_ffff_ffff_ffff,
    ;
}

} // verus!
