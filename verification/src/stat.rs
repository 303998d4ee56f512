//! Per-station running statistics over fixed-point temperatures.
//!
//! A temperature is an integer number of tenths of a degree in the range
//! `-999 ..= 999`.  `Stat` is the executable accumulator; `GStat` is its
//! mathematical model.  Merging two accumulators is a commutative,
//! associative operation, so partial results can be combined in any order.

use vstd::prelude::*;

verus! {

/// Mathematical model of a statistics accumulator.
pub ghost struct GStat {
    pub min: int,
    pub max: int,
    pub total: int,
    pub count: nat,
}

/// The statistics of a single observation `t`.
pub open spec fn g_single(t: int) -> GStat {
    GStat { min: t, max: t, total: t, count: 1 }
}

/// Combine the statistics of two disjoint groups of observations.
pub open spec fn g_merge(a: GStat, b: GStat) -> GStat {
    GStat {
        min: if a.min <= b.min { a.min } else { b.min },
        max: if a.max >= b.max { a.max } else { b.max },
        total: a.total + b.total,
        count: a.count + b.count,
    }
}

/// Well-formedness: at least one observation, extrema within the
/// representable temperature range, and the total bracketed by the
/// extrema scaled by the count.
pub open spec fn g_wf(g: GStat) -> bool {
    &&& -999 <= g.min <= g.max <= 999
    &&& g.count >= 1
    &&& g.min * g.count <= g.total <= g.max * g.count
}

/// Merging is commutative.
pub proof fn lemma_merge_commutative(a: GStat, b: GStat)
    ensures
        g_merge(a, b) == g_merge(b, a),
{
}

/// Merging is associative.
pub proof fn lemma_merge_associative(a: GStat, b: GStat, c: GStat)
    ensures
        g_merge(g_merge(a, b), c) == g_merge(a, g_merge(b, c)),
{
}

/// Merging two well-formed accumulators yields a well-formed accumulator.
pub proof fn lemma_merge_wf(a: GStat, b: GStat)
    requires
        g_wf(a),
        g_wf(b),
    ensures
        g_wf(g_merge(a, b)),
{
    let m = g_merge(a, b);
    assert(m.min * (a.count + b.count) <= a.total + b.total) by (nonlinear_arith)
        requires
            a.min * a.count <= a.total,
            b.min * b.count <= b.total,
            m.min == (if a.min <= b.min { a.min } else { b.min }),
            a.count >= 0,
            b.count >= 0,
    {}
    assert(a.total + b.total <= m.max * (a.count + b.count)) by (nonlinear_arith)
        requires
            a.total <= a.max * a.count,
            b.total <= b.max * b.count,
            m.max == (if a.max >= b.max { a.max } else { b.max }),
            a.count >= 0,
            b.count >= 0,
    {}
}

/// A single observation in range yields a well-formed accumulator.
pub proof fn lemma_single_wf(t: int)
    requires
        -999 <= t <= 999,
    ensures
        g_wf(g_single(t)),
{
}

/// The total of a well-formed accumulator with a `u32` count is small
/// enough that one more observation still fits in an `i64`.
pub proof fn lemma_wf_total_bound(g: GStat)
    requires
        g_wf(g),
        g.count <= 0xffff_ffff,
    ensures
        -999 * 0x1_0000_0000 <= g.total <= 999 * 0x1_0000_0000,
{
    assert(-999 * 0x1_0000_0000 <= g.total <= 999 * 0x1_0000_0000) by (nonlinear_arith)
        requires
            g.min * g.count <= g.total <= g.max * g.count,
            -999 <= g.min <= g.max <= 999,
            0 <= g.count <= 0xffff_ffff,
    {}
}

/// `t / c` rounded to the nearest integer, halves away from zero.
pub open spec fn round_half_away(t: int, c: int) -> int
    recommends
        c >= 1,
{
    if t >= 0 {
        (2 * t + c) / (2 * c)
    } else {
        -((2 * (-t) + c) / (2 * c))
    }
}

/// The mean of the observations, in tenths, rounded half away from zero.
pub open spec fn mean_of(g: GStat) -> int {
    round_half_away(g.total, g.count as int)
}

/// For positive `d`, `x / d >= k` exactly when `x >= k * d`.
pub proof fn lemma_div_ge(x: int, d: int, k: int)
    requires
        d >= 1,
        x >= k * d,
    ensures
        x / d >= k,
{
    assert(k * d == d * k) by (nonlinear_arith);
    vstd::arithmetic::div_mod::lemma_div_is_ordered(k * d, x, d);
    vstd::arithmetic::div_mod::lemma_div_multiples_vanish(k, d);
}

/// For positive `d`, `x / d <= k` whenever `x < (k + 1) * d`.
pub proof fn lemma_div_le(x: int, d: int, k: int)
    requires
        d >= 1,
        x < (k + 1) * d,
    ensures
        x / d <= k,
{
    vstd::arithmetic::div_mod::lemma_fundamental_div_mod(x, d);
    vstd::arithmetic::div_mod::lemma_mod_bound(x, d);
    if x / d > k {
        assert(d * (x / d) >= (k + 1) * d) by (nonlinear_arith)
            requires
                d >= 1,
                x / d >= k + 1,
        {}
        assert(false);
    }
}

/// The rounded mean never leaves the interval of the extrema.
pub proof fn lemma_mean_bounds(g: GStat)
    requires
        g_wf(g),
    ensures
        g.min <= mean_of(g) <= g.max,
{
    let t = g.total;
    let c = g.count as int;
    if t >= 0 {
        assert(2 * t + c >= g.min * (2 * c)) by (nonlinear_arith)
            requires
                g.min * c <= t,
                c >= 1,
        {}
        lemma_div_ge(2 * t + c, 2 * c, g.min);
        assert(2 * t + c < (g.max + 1) * (2 * c)) by (nonlinear_arith)
            requires
                t <= g.max * c,
                c >= 1,
        {}
        lemma_div_le(2 * t + c, 2 * c, g.max);
    } else {
        // mean_of(g) is the negated rounding of the magnitude: bound it by
        // -g.min from above and, when g.max < 0, by -g.max from below.
        assert(2 * (-t) + c < ((-g.min) + 1) * (2 * c)) by (nonlinear_arith)
            requires
                g.min * c <= t,
                c >= 1,
        {}
        lemma_div_le(2 * (-t) + c, 2 * c, -g.min);
        if g.max < 0 {
            assert(2 * (-t) + c >= (-g.max) * (2 * c)) by (nonlinear_arith)
                requires
                    t <= g.max * c,
                    c >= 1,
            {}
            lemma_div_ge(2 * (-t) + c, 2 * c, -g.max);
        } else {
            assert(2 * (-t) + c >= 0 * (2 * c)) by (nonlinear_arith)
                requires
                    t < 0,
                    c >= 1,
            {}
            lemma_div_ge(2 * (-t) + c, 2 * c, 0);
        }
    }
}

/// Executable statistics accumulator for one station.
#[derive(Clone, Copy, Debug, PartialEq, Eq, Structural)]
pub struct Stat {
    /// Smallest observed temperature, in tenths.
    pub min: i16,
    /// Largest observed temperature, in tenths.
    pub max: i16,
    /// Sum of all observed temperatures, in tenths.
    pub total: i64,
    /// Number of observations.
    pub count: u32,
}

impl View for Stat {
    type V = GStat;

    open spec fn view(&self) -> GStat {
        GStat {
            min: self.min as int,
            max: self.max as int,
            total: self.total as int,
            count: self.count as nat,
        }
    }
}

impl Stat {
    /// The accumulator of a single observation.
    pub fn new(num: i16) -> (s: Self)
        requires
            -999 <= num <= 999,
        ensures
            s@ == g_single(num as int),
            g_wf(s@),
    {
        proof {
            lemma_single_wf(num as int);
        }
        Self { min: num, max: num, total: num as i64, count: 1 }
    }

    /// Fold one more observation into the accumulator.
    pub fn update(&mut self, num: i16)
        requires
            g_wf(old(self)@),
            -999 <= num <= 999,
            old(self).count < u32::MAX,
        ensures
            final(self)@ == g_merge(old(self)@, g_single(num as int)),
            g_wf(final(self)@),
    {
        proof {
            lemma_wf_total_bound(self@);
            lemma_single_wf(num as int);
            lemma_merge_wf(self@, g_single(num as int));
        }
        if num < self.min {
            self.min = num;
        }
        if num > self.max {
            self.max = num;
        }
        self.total = self.total + num as i64;
        self.count = self.count + 1;
    }

    /// The mean temperature in tenths, rounded half away from zero.  It
    /// always lies between the observed extrema.
    pub fn mean_tenths(&self) -> (m: i16)
        requires
            g_wf(self@),
        ensures
            m as int == mean_of(self@),
            self.min <= m <= self.max,
    {
        proof {
            lemma_wf_total_bound(self@);
            lemma_mean_bounds(self@);
        }
        let c = self.count as u64;
        if self.total >= 0 {
            let t = self.total as u64;
            let m = (2 * t + c) / (2 * c);
            m as i16
        } else {
            let t = (-self.total) as u64;
            let m = (2 * t + c) / (2 * c);
            -(m as i16)
        }
    }

    /// Combine another accumulator into this one.
    pub fn merge(&mut self, other: &Self)
        requires
            g_wf(old(self)@),
            g_wf(other@),
            old(self).count + other.count <= u32::MAX,
        ensures
            final(self)@ == g_merge(old(self)@, other@),
            g_wf(final(self)@),
    {
        proof {
            lemma_wf_total_bound(self@);
            lemma_wf_total_bound(other@);
            lemma_merge_wf(self@, other@);
        }
        if other.min < self.min {
            self.min = other.min;
        }
        if other.max > self.max {
            self.max = other.max;
        }
        self.total = self.total + other.total;
        self.count = self.count + other.count;
    }
}

} // verus!
