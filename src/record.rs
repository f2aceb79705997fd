//! One station's running statistics in fixed-point tenths.
use vstd::prelude::*;

verus! {

/// Largest magnitude, in tenths, that a reading may have: the whole part of a reading is at
/// most `i32::MAX`.
pub const MAX_TENTHS: i64 = 21474836479;

/// Mathematical statistics of a non-empty series of readings.
pub struct Tally {
    pub min: int,
    pub max: int,
    pub sum: int,
    pub count: int,
}

/// The statistics of a single reading.
pub open spec fn single(v: int) -> Tally {
    Tally { min: v, max: v, sum: v, count: 1 }
}

/// The statistics of two series taken together.
pub open spec fn combine(a: Tally, b: Tally) -> Tally {
    Tally {
        min: if a.min <= b.min { a.min } else { b.min },
        max: if a.max >= b.max { a.max } else { b.max },
        sum: a.sum + b.sum,
        count: a.count + b.count,
    }
}

/// What holds of the statistics of any non-empty series.
pub open spec fn tally_wf(t: Tally) -> bool {
    &&& t.count >= 1
    &&& t.min <= t.max
    &&& t.count * t.min <= t.sum <= t.count * t.max
}

/// `sum / count` rounded to the nearest integer, halves rounded away from zero.
pub open spec fn rounded_mean(sum: int, count: int) -> int {
    if sum >= 0 {
        (2 * sum + count) / (2 * count)
    } else {
        -((-2 * sum + count) / (2 * count))
    }
}

/// The rounded mean of a well-formed series lies between its minimum and maximum.
pub proof fn lemma_mean_within_bounds(t: Tally)
    requires
        tally_wf(t),
    ensures
        t.min <= rounded_mean(t.sum, t.count) <= t.max,
{
    let c = t.count;
    let s = t.sum;
    if s >= 0 {
        let q = (2 * s + c) / (2 * c);
        assert(q <= t.max) by (nonlinear_arith)
            requires
                c >= 1,
                s <= c * t.max,
                s >= 0,
                q == (2 * s + c) / (2 * c),
        ;
        assert(q >= t.min) by (nonlinear_arith)
            requires
                c >= 1,
                c * t.min <= s,
                s >= 0,
                q == (2 * s + c) / (2 * c),
        ;
    } else {
        let q = (-2 * s + c) / (2 * c);
        assert(q <= -t.min) by (nonlinear_arith)
            requires
                c >= 1,
                c * t.min <= s,
                s < 0,
                q == (-2 * s + c) / (2 * c),
        ;
        assert(q >= -t.max) by (nonlinear_arith)
            requires
                c >= 1,
                s <= c * t.max,
                s < 0,
                q == (-2 * s + c) / (2 * c),
        ;
    }
}

/// Combining the statistics of two series gives the statistics of a series.
pub proof fn lemma_combine_wf(a: Tally, b: Tally)
    requires
        tally_wf(a),
        tally_wf(b),
    ensures
        tally_wf(combine(a, b)),
{
    let lo = combine(a, b).min;
    let hi = combine(a, b).max;
    assert(a.count * lo <= a.sum <= a.count * hi) by (nonlinear_arith)
        requires
            a.count >= 1,
            lo <= a.min,
            a.max <= hi,
            a.count * a.min <= a.sum <= a.count * a.max,
    ;
    assert(b.count * lo <= b.sum <= b.count * hi) by (nonlinear_arith)
        requires
            b.count >= 1,
            lo <= b.min,
            b.max <= hi,
            b.count * b.min <= b.sum <= b.count * b.max,
    ;
    assert((a.count + b.count) * lo == a.count * lo + b.count * lo) by (nonlinear_arith);
    assert((a.count + b.count) * hi == a.count * hi + b.count * hi) by (nonlinear_arith);
}

/// Rounding a non-negative quotient through hundredths, then to whole units, is rounding it
/// half up.
proof fn lemma_two_step_rounding(m: int, c: int)
    requires
        m >= 0,
        c >= 1,
    ensures
        ((10 * m) / c + 5) / 10 == (2 * m + c) / (2 * c),
{
    let a = m / c;
    let b = m % c;
    assert(m == c * a + b && 0 <= b < c) by (nonlinear_arith)
        requires
            c >= 1,
            a == m / c,
            b == m % c,
    ;
    let d = (10 * b) / c;
    assert((10 * m) / c == 10 * a + d && 0 <= d < 10) by (nonlinear_arith)
        requires
            c >= 1,
            m == c * a + b,
            0 <= b < c,
            d == (10 * b) / c,
    ;
    assert((2 * m + c) / (2 * c) == a + (if 2 * b >= c { 1int } else { 0 })) by (nonlinear_arith)
        requires
            c >= 1,
            m == c * a + b,
            0 <= b < c,
    ;
    assert((d >= 5) == (2 * b >= c)) by (nonlinear_arith)
        requires
            c >= 1,
            0 <= b < c,
            d == (10 * b) / c,
    ;
}

/// Running statistics of one station, in tenths.
#[derive(Clone, Copy, Debug, PartialEq, Eq)]
pub struct StationRecord {
    pub min: i64,
    pub max: i64,
    pub sum: i128,
    pub count: u64,
}

impl View for StationRecord {
    type V = Tally;

    open spec fn view(&self) -> Tally {
        Tally { min: self.min as int, max: self.max as int, sum: self.sum as int, count: self.count as int }
    }
}

impl StationRecord {
    /// The record is the statistics of some series of in-range readings.
    pub open spec fn wf(&self) -> bool {
        &&& tally_wf(self@)
        &&& -MAX_TENTHS <= self.min
        &&& self.max <= MAX_TENTHS
    }

    /// The record of a single reading.
    pub fn new(value: i64) -> (r: StationRecord)
        requires
            -MAX_TENTHS <= value <= MAX_TENTHS,
        ensures
            r@ == single(value as int),
            r.wf(),
    {
        StationRecord { min: value, max: value, sum: value as i128, count: 1 }
    }

    /// Folds one more reading into the record.
    pub fn update(&mut self, value: i64)
        requires
            old(self).wf(),
            -MAX_TENTHS <= value <= MAX_TENTHS,
            old(self).count < u64::MAX,
        ensures
            final(self)@ == combine(old(self)@, single(value as int)),
            final(self).wf(),
    {
        let other = StationRecord::new(value);
        self.merge(&other);
    }

    /// Folds the statistics of another series into the record.
    pub fn merge(&mut self, other: &StationRecord)
        requires
            old(self).wf(),
            other.wf(),
            old(self).count + other.count <= u64::MAX,
        ensures
            final(self)@ == combine(old(self)@, other@),
            final(self).wf(),
    {
        proof {
            lemma_combine_wf(self@, other@);
            lemma_sum_bounds(*self);
            lemma_sum_bounds(*other);
        }
        if other.min < self.min {
            self.min = other.min;
        }
        if other.max > self.max {
            self.max = other.max;
        }
        self.sum = self.sum + other.sum;
        self.count = self.count + other.count;
    }

    /// The mean reading in tenths, rounded half away from zero.
    pub fn mean(&self) -> (r: i64)
        requires
            self.wf(),
        ensures
            r == rounded_mean(self@.sum, self@.count),
            self.min <= r <= self.max,
    {
        proof {
            lemma_sum_bounds(*self);
            lemma_mean_within_bounds(self@);
        }
        let negative = self.sum < 0;
        let magnitude: u128 = if negative { (-self.sum) as u128 } else { self.sum as u128 };
        let scaled: u128 = magnitude * 10 / (self.count as u128);
        let rounded: u128 = (scaled + 5) / 10;
        proof {
            lemma_two_step_rounding(magnitude as int, self.count as int);
        }
        if negative {
            -(rounded as i64)
        } else {
            rounded as i64
        }
    }
}

/// The sum of a well-formed record is bounded well inside the range of `i128`.
proof fn lemma_sum_bounds(r: StationRecord)
    requires
        r.wf(),
    ensures
        -0x10_0000_0000_0000_0000_0000_0000 <= r.sum <= 0x10_0000_0000_0000_0000_0000_0000,
{
    let c = r.count as int;
    assert(c * (r.max as int) <= 0x1_0000_0000_0000_0000 * 0x10_0000_0000) by (nonlinear_arith)
        requires
            1 <= c <= 0xffff_ffff_ffff_ffff,
            r.max <= MAX_TENTHS,
            r.min <= r.max,
            -MAX_TENTHS <= r.min,
    ;
    assert(c * (r.min as int) >= -(0x1_0000_0000_0000_0000 * 0x10_0000_0000)) by (nonlinear_arith)
        requires
            1 <= c <= 0xffff_ffff_ffff_ffff,
            -MAX_TENTHS <= r.min,
            r.min <= r.max,
            r.max <= MAX_TENTHS,
    ;
}

} // verus!
