//! The per-key running statistic and its combine rule.
//!
//! A measurement value is a number of tenths: the fixed-point form in which
//! the scanner reads values and the formatter renders them, with one digit
//! after the decimal point.

use vstd::prelude::*;

verus! {

/// Largest magnitude, in tenths, that a measurement value may have.
pub const VAL_LIMIT: i64 = 1_000_000_000_000_000;

/// Mathematical form of a running statistic, over unbounded integers.
pub struct StatRec {
    pub min: int,
    pub max: int,
    pub sum: int,
    pub count: int,
}

/// The statistic of a single observation `v`.
pub open spec fn seed_rec(v: int) -> StatRec {
    StatRec { min: v, max: v, sum: v, count: 1 }
}

/// One further observation `v` folded into `r`.
pub open spec fn upd_rec(r: StatRec, v: int) -> StatRec {
    StatRec {
        min: if v < r.min { v } else { r.min },
        max: if v > r.max { v } else { r.max },
        sum: r.sum + v,
        count: r.count + 1,
    }
}

/// The combine rule of the merge phase: overall min and max, total sum and count.
pub open spec fn comb_rec(a: StatRec, b: StatRec) -> StatRec {
    StatRec {
        min: if b.min < a.min { b.min } else { a.min },
        max: if b.max > a.max { b.max } else { a.max },
        sum: a.sum + b.sum,
        count: a.count + b.count,
    }
}

/// The statistic invariant: at least one observation, ordered extremes within
/// the value range, and a sum bounded by the extremes times the count.
pub open spec fn rec_wf(r: StatRec) -> bool {
    &&& 1 <= r.count
    &&& -(VAL_LIMIT as int) <= r.min
    &&& r.min <= r.max
    &&& r.max <= VAL_LIMIT as int
    &&& r.count * r.min <= r.sum
    &&& r.sum <= r.count * r.max
}

/// Seeding from an in-range value yields a well-formed statistic.
pub proof fn lemma_seed_wf(v: int)
    requires
        -(VAL_LIMIT as int) <= v <= VAL_LIMIT as int,
    ensures
        rec_wf(seed_rec(v)),
{
}

/// One further in-range observation preserves well-formedness.
pub proof fn lemma_upd_wf(r: StatRec, v: int)
    requires
        rec_wf(r),
        -(VAL_LIMIT as int) <= v <= VAL_LIMIT as int,
    ensures
        rec_wf(upd_rec(r, v)),
{
    let u = upd_rec(r, v);
    assert(u.count * u.min <= u.sum && u.sum <= u.count * u.max) by (nonlinear_arith)
        requires
            rec_wf(r),
            u == upd_rec(r, v),
        ;
}

/// Combining two well-formed statistics yields a well-formed statistic.
pub proof fn lemma_comb_wf(a: StatRec, b: StatRec)
    requires
        rec_wf(a),
        rec_wf(b),
    ensures
        rec_wf(comb_rec(a, b)),
{
    let c = comb_rec(a, b);
    assert(c.count * c.min <= c.sum && c.sum <= c.count * c.max) by (nonlinear_arith)
        requires
            rec_wf(a),
            rec_wf(b),
            c == comb_rec(a, b),
        ;
}

/// The combine rule is commutative.
pub proof fn lemma_comb_commutes(a: StatRec, b: StatRec)
    ensures
        comb_rec(a, b) == comb_rec(b, a),
{
}

/// The combine rule is associative.
pub proof fn lemma_comb_associates(a: StatRec, b: StatRec, c: StatRec)
    ensures
        comb_rec(comb_rec(a, b), c) == comb_rec(a, comb_rec(b, c)),
{
}

/// Merging a statistic into itself doubles `sum` and `count` and leaves
/// `min` and `max` unchanged.
pub proof fn lemma_comb_self(r: StatRec)
    ensures
        comb_rec(r, r) == (StatRec { min: r.min, max: r.max, sum: 2 * r.sum, count: 2 * r.count }),
{
}

/// Folding one observation equals combining with its seed: the merge phase
/// may treat every observation as a one-element statistic.
pub proof fn lemma_upd_is_comb_seed(r: StatRec, v: int)
    ensures
        upd_rec(r, v) == comb_rec(r, seed_rec(v)),
{
}

/// The running statistic of one key: extremes, sum and count of all observed
/// values, in tenths.
#[derive(Clone, Copy, PartialEq, Eq, Structural, Debug)]
pub struct Measurement {
    pub min: i64,
    pub max: i64,
    pub sum: i128,
    pub count: u64,
}

impl Measurement {
    /// The mathematical statistic this value stands for.
    pub open spec fn model(self) -> StatRec {
        StatRec { min: self.min as int, max: self.max as int, sum: self.sum as int, count: self.count as int }
    }

    /// Well-formed: the model satisfies the statistic invariant.
    pub open spec fn wf(self) -> bool {
        rec_wf(self.model())
    }

    /// A measurement seeded with one observed value.
    pub fn new(value: i64) -> (r: Measurement)
        requires
            -VAL_LIMIT <= value <= VAL_LIMIT,
        ensures
            r.wf(),
            r.model() == seed_rec(value as int),
    {
        proof {
            lemma_seed_wf(value as int);
        }
        Measurement { min: value, max: value, sum: value as i128, count: 1 }
    }
}

/// Folds one further observed value into an existing measurement, per the
/// statistic invariant: the minimum and maximum absorb the value, the sum
/// grows by it, the count by one.
pub fn update_measurement(measurement: &mut Measurement, value: i64)
    requires
        old(measurement).wf(),
        -VAL_LIMIT <= value <= VAL_LIMIT,
        old(measurement).count < u64::MAX,
    ensures
        final(measurement).wf(),
        final(measurement).model() == upd_rec(old(measurement).model(), value as int),
{
    proof {
        let r = old(measurement).model();
        lemma_upd_wf(r, value as int);
        assert(r.sum + value <= (u64::MAX + 1) * (VAL_LIMIT as int)
            && -((u64::MAX + 1) * (VAL_LIMIT as int)) <= r.sum + value)
            by (nonlinear_arith)
            requires
                rec_wf(r),
                r.count <= u64::MAX as int,
                -VAL_LIMIT <= value <= VAL_LIMIT,
            ;
    }
    if value < measurement.min {
        measurement.min = value;
    }
    if value > measurement.max {
        measurement.max = value;
    }
    measurement.sum = measurement.sum + value as i128;
    measurement.count = measurement.count + 1;
}

/// Merges measurement `m` into `e` by the combine rule.
pub fn combine_measurement(e: &mut Measurement, m: Measurement)
    requires
        old(e).wf(),
        m.wf(),
        old(e).count + m.count <= u64::MAX,
    ensures
        final(e).wf(),
        final(e).model() == comb_rec(old(e).model(), m.model()),
{
    proof {
        let a = old(e).model();
        let b = m.model();
        lemma_comb_wf(a, b);
        assert(a.sum + b.sum <= (u64::MAX + u64::MAX) * (VAL_LIMIT as int)
            && -((u64::MAX + u64::MAX) * (VAL_LIMIT as int)) <= a.sum + b.sum)
            by (nonlinear_arith)
            requires
                rec_wf(a),
                rec_wf(b),
                a.count <= u64::MAX as int,
                b.count <= u64::MAX as int,
            ;
    }
    if m.min < e.min {
        e.min = m.min;
    }
    if m.max > e.max {
        e.max = m.max;
    }
    e.sum = e.sum + m.sum;
    e.count = e.count + m.count;
}

} // verus!
