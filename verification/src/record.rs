//! Per-key running statistics and their mathematical model.
//!
//! A value is a fixed-point integer: the real decimal multiplied by 10, so
//! `-1.5` is carried as `-15`. `Stat` is the spec-level aggregate of a
//! non-empty collection of such values; `Record` is its executable twin.

use vstd::prelude::*;

verus! {

/// Magnitude bound on a single fixed-point value: every parsed value `v`
/// satisfies `-value_limit() <= v <= value_limit()`.
pub open spec fn value_limit() -> int {
    0x7fff_ffff
}

/// Mathematical aggregate of a non-empty multiset of fixed-point values.
pub struct Stat {
    pub min: int,
    pub total: int,
    pub max: int,
    pub count: int,
}

/// The aggregate of a single value.
pub open spec fn unit_stat(v: int) -> Stat {
    Stat { min: v, total: v, max: v, count: 1 }
}

/// Combine the aggregates of two disjoint collections of values.
pub open spec fn combine_stat(a: Stat, b: Stat) -> Stat {
    Stat {
        min: if a.min <= b.min { a.min } else { b.min },
        total: a.total + b.total,
        max: if a.max >= b.max { a.max } else { b.max },
        count: a.count + b.count,
    }
}

/// Adding one observation is combining with its unit aggregate.
pub open spec fn add_stat(a: Stat, v: int) -> Stat {
    combine_stat(a, unit_stat(v))
}

/// A `Stat` that can arise from real observations: at least one value,
/// extremes within the fixed-point range and ordered, and a total no larger
/// in magnitude than `count` values of maximal magnitude.
pub open spec fn stat_wf(s: Stat) -> bool {
    &&& 1 <= s.count
    &&& -value_limit() <= s.min <= s.max <= value_limit()
    &&& -s.count * value_limit() <= s.total <= s.count * value_limit()
}

/// `combine_stat` is commutative.
pub proof fn lemma_combine_stat_comm(a: Stat, b: Stat)
    ensures
        combine_stat(a, b) == combine_stat(b, a),
{
}

/// `combine_stat` is associative.
pub proof fn lemma_combine_stat_assoc(a: Stat, b: Stat, c: Stat)
    ensures
        combine_stat(combine_stat(a, b), c) == combine_stat(a, combine_stat(b, c)),
{
}

/// Combining two well-formed aggregates yields a well-formed aggregate.
pub proof fn lemma_combine_stat_wf(a: Stat, b: Stat)
    requires
        stat_wf(a),
        stat_wf(b),
    ensures
        stat_wf(combine_stat(a, b)),
{
    let c = combine_stat(a, b);
    assert(-c.count * value_limit() <= c.total <= c.count * value_limit()) by (nonlinear_arith)
        requires
            stat_wf(a),
            stat_wf(b),
            c == combine_stat(a, b),
    ;
}

/// The aggregate of one in-range value is well-formed.
pub proof fn lemma_unit_stat_wf(v: int)
    requires
        -value_limit() <= v <= value_limit(),
    ensures
        stat_wf(unit_stat(v)),
{
}

/// Executable running statistics for one key.
///
/// `total` is held in 128 bits: its magnitude is bounded by
/// `count * value_limit()`, and `count` never exceeds `u64::MAX`, so the sum
/// cannot overflow.
#[derive(Debug, Clone, Copy)]
pub struct Record {
    pub min: i32,
    pub total: i128,
    pub max: i32,
    pub count: u64,
}

impl View for Record {
    type V = Stat;

    open spec fn view(&self) -> Stat {
        Stat {
            min: self.min as int,
            total: self.total as int,
            max: self.max as int,
            count: self.count as int,
        }
    }
}

impl Record {
    /// The aggregate of a first observation `t`.
    pub fn new(t: i32) -> (r: Record)
        ensures
            r@ == unit_stat(t as int),
    {
        Record { min: t, total: t as i128, max: t, count: 1 }
    }

    /// Fold one further observation `t` into the aggregate.
    ///
    /// The two extreme checks are independent, never an `else` chain: a value
    /// can tie or replace both bounds of a one-observation record.
    pub fn add_temperature(&mut self, t: i32)
        requires
            old(self).count < u64::MAX,
            i128::MIN <= old(self).total + t,
            old(self).total + t <= i128::MAX,
        ensures
            final(self)@ == add_stat(old(self)@, t as int),
    {
        if t < self.min {
            self.min = t;
        }
        if t > self.max {
            self.max = t;
        }
        self.count = self.count + 1;
        self.total = self.total + (t as i128);
    }

    /// Fold another key's-worth of statistics from a different partition into
    /// this one.
    pub fn merge(&mut self, other: &Record)
        requires
            old(self).count + other.count <= u64::MAX,
            i128::MIN <= old(self).total + other.total,
            old(self).total + other.total <= i128::MAX,
        ensures
            final(self)@ == combine_stat(old(self)@, other@),
    {
        if other.min < self.min {
            self.min = other.min;
        }
        if other.max > self.max {
            self.max = other.max;
        }
        self.count = self.count + other.count;
        self.total = self.total + other.total;
    }
}

} // verus!
