//! Musical-time coordinate system: a quantization grid tied to a measure.
//!
//! A [`Measure`] fixes the tempo (beats per minute), the measure size
//! (beats per measure) and the quantization level (grid steps per beat).
//! From these it derives the millisecond duration of one grid step and of
//! one measure, and converts between millisecond timestamps and [`Quant`]
//! grid positions.

use vstd::prelude::*;

verus! {

use vstd::arithmetic::div_mod::{
    lemma_fundamental_div_mod,
    lemma_fundamental_div_mod_converse,
    lemma_multiply_divide_lt,
};
use vstd::arithmetic::mul::{
    lemma_mul_inequality,
    lemma_mul_strict_inequality,
    lemma_mul_upper_bound,
};

/// A position on the quantization grid: a count of grid steps (ticks)
/// from the start of the loop.
#[derive(Clone, Copy, PartialEq, Eq, Structural, Debug)]
pub struct Quant(pub u32);

/// The musical-time model: tempo in beats per minute, measure size in
/// beats per measure, and quantization level in grid steps per beat.
#[derive(Clone, Copy, PartialEq, Eq, Structural, Debug)]
pub struct Measure {
    pub tempo_bpm: u32,
    pub measure_size_bpm: u32,
    pub quantation_level: u32,
}

/// Milliseconds per minute: the constant from which beat durations derive.
pub const MILLIS_PER_MINUTE: u32 = 60000;

impl Measure {
    /// Duration of one grid step in milliseconds (integer division).
    pub open spec fn spec_quant_size_millis(self) -> int {
        MILLIS_PER_MINUTE as int / self.tempo_bpm as int / self.quantation_level as int
    }

    /// Grid steps in one measure.
    pub open spec fn spec_quants_per_measure(self) -> int {
        self.measure_size_bpm * self.quantation_level
    }

    /// Duration of one measure in milliseconds.
    pub open spec fn spec_measure_size_millis(self) -> int {
        self.spec_quant_size_millis() * self.spec_quants_per_measure()
    }

    /// A usable configuration: positive fields, a grid step of at least
    /// one millisecond, and a measure duration that fits in `u32`.
    pub open spec fn wf(self) -> bool {
        &&& 0 < self.tempo_bpm
        &&& 0 < self.measure_size_bpm
        &&& 0 < self.quantation_level
        &&& 1 <= self.spec_quant_size_millis()
        &&& self.spec_measure_size_millis() <= u32::MAX
    }

    /// Nearest grid position to the millisecond timestamp `t`:
    /// `(t + step / 2) / step`, which rounds to the closest step and
    /// breaks ties upward.
    pub open spec fn spec_snap_timestamp_to_quant(self, t: int) -> int {
        (t + self.spec_quant_size_millis() / 2) / self.spec_quant_size_millis()
    }

    /// A position, given as a fraction of the total loop duration under
    /// `self`, converted to the equivalent position under `new_measure`:
    /// `value * new_total / old_total`, where each total is
    /// `amount_of_measures` times the measure duration.
    pub open spec fn spec_scale_time_cursor(
        self,
        new_measure: Measure,
        amount_of_measures: int,
        value: int,
    ) -> int {
        value * (amount_of_measures * new_measure.spec_measure_size_millis())
            / (amount_of_measures * self.spec_measure_size_millis())
    }

    pub fn quant_size_millis(&self) -> (r: u32)
        requires
            self.wf(),
        ensures
            r == self.spec_quant_size_millis(),
            1 <= r,
    {
        MILLIS_PER_MINUTE / self.tempo_bpm / self.quantation_level
    }

    pub fn quants_per_measure(&self) -> (r: Quant)
        requires
            self.wf(),
        ensures
            r.0 == self.spec_quants_per_measure(),
            1 <= r.0,
    {
        proof {
            assert(1 <= self.spec_quants_per_measure() <= self.spec_measure_size_millis())
                by (nonlinear_arith)
                requires
                    1 <= self.spec_quant_size_millis(),
                    0 < self.measure_size_bpm,
                    0 < self.quantation_level,
                    self.spec_measure_size_millis() == self.spec_quant_size_millis()
                        * self.spec_quants_per_measure(),
                    self.spec_quants_per_measure() == self.measure_size_bpm
                        * self.quantation_level,
            ;
        }
        Quant(self.measure_size_bpm * self.quantation_level)
    }

    pub fn measure_size_millis(&self) -> (r: u32)
        requires
            self.wf(),
        ensures
            r == self.spec_measure_size_millis(),
            1 <= r,
    {
        let step = self.quant_size_millis();
        let per_measure = self.quants_per_measure();
        proof {
            assert(1 <= step as int * per_measure.0 as int) by (nonlinear_arith)
                requires
                    1 <= step,
                    1 <= per_measure.0,
            ;
        }
        step * per_measure.0
    }

    /// The grid position nearest to the millisecond timestamp `t`.
    pub fn snap_timestamp_to_quant(&self, t: u32) -> (q: Quant)
        requires
            self.wf(),
        ensures
            q.0 == self.spec_snap_timestamp_to_quant(t as int),
    {
        let d = self.quant_size_millis();
        let half = d / 2;
        let floor = t / d;
        let rem = t % d;
        proof {
            lemma_fundamental_div_mod(t as int, d as int);
        }
        if rem >= d - half {
            proof {
                // t + half lands in the next step: quotient is floor + 1.
                assert((floor as int + 1) * d as int == floor as int * d as int + d)
                    by (nonlinear_arith);
                assert(d as int * floor as int == floor as int * d as int);
                lemma_fundamental_div_mod_converse(
                    t + half,
                    d as int,
                    floor as int + 1,
                    rem + half - d,
                );
                assert(floor as int <= d as int * floor as int) by {
                    lemma_mul_inequality(1, d as int, floor as int);
                }
            }
            Quant(floor + 1)
        } else {
            proof {
                assert(d as int * floor as int == floor as int * d as int);
                lemma_fundamental_div_mod_converse(
                    t + half,
                    d as int,
                    floor as int,
                    rem + half,
                );
            }
            Quant(floor)
        }
    }

    /// The exact millisecond timestamp of a grid position: `q * step`.
    /// The inverse of [`Self::snap_timestamp_to_quant`] up to rounding.
    pub fn quant_to_timestamp(&self, q: Quant) -> (t: u32)
        requires
            self.wf(),
            q.0 * self.spec_quant_size_millis() <= u32::MAX,
        ensures
            t == q.0 * self.spec_quant_size_millis(),
    {
        q.0 * self.quant_size_millis()
    }

    /// The grid length of `measures` whole measures.
    pub fn measures_to_quants(&self, measures: u32) -> (q: Quant)
        requires
            self.wf(),
            measures * self.spec_quants_per_measure() <= u32::MAX,
        ensures
            q.0 == measures * self.spec_quants_per_measure(),
    {
        let per_measure = self.quants_per_measure();
        Quant(measures * per_measure.0)
    }

    /// Converts a millisecond position inside a loop of
    /// `amount_of_measures` measures under `self` into the equivalent
    /// position under `new_measure`, preserving the fraction of the loop
    /// already played.
    pub fn scale_time_cursor(
        &self,
        new_measure: &Measure,
        amount_of_measures: u32,
        value: u32,
    ) -> (r: u32)
        requires
            self.wf(),
            new_measure.wf(),
            1 <= amount_of_measures,
            amount_of_measures * self.spec_measure_size_millis() <= u32::MAX,
            amount_of_measures * new_measure.spec_measure_size_millis() <= u32::MAX,
            value < amount_of_measures * self.spec_measure_size_millis(),
        ensures
            r == self.spec_scale_time_cursor(*new_measure, amount_of_measures as int, value as int),
            r < amount_of_measures * new_measure.spec_measure_size_millis(),
    {
        let old_millis = self.measure_size_millis();
        let new_millis = new_measure.measure_size_millis();
        let old_total = amount_of_measures as u64 * old_millis as u64;
        let new_total = amount_of_measures as u64 * new_millis as u64;
        proof {
            let ot = amount_of_measures as int * self.spec_measure_size_millis();
            let nt = amount_of_measures as int * new_measure.spec_measure_size_millis();
            assert(0 < ot && 0 < nt) by (nonlinear_arith)
                requires
                    1 <= amount_of_measures,
                    1 <= old_millis,
                    1 <= new_millis,
                    old_millis == self.spec_measure_size_millis(),
                    new_millis == new_measure.spec_measure_size_millis(),
                    ot == amount_of_measures as int * self.spec_measure_size_millis(),
                    nt == amount_of_measures as int * new_measure.spec_measure_size_millis(),
            ;
            lemma_mul_upper_bound(value as int, u32::MAX as int, nt, u32::MAX as int);
            // value < old_total, so value * new_total < old_total * new_total
            // and the quotient stays below new_total.
            lemma_mul_strict_inequality(value as int, ot, nt);
            assert(value as int * nt < ot * nt);
            assert(ot * nt == nt * ot);
            lemma_multiply_divide_lt(value as int * nt, ot, nt);
        }
        let scaled = value as u64 * new_total / old_total;
        scaled as u32
    }
}

/// Bounds that follow from a well-formed measure: one measure holds at
/// least one grid step and lasts at least one millisecond, and both
/// derived grid quantities stay within the measure duration.
pub proof fn lemma_measure_wf_bounds(m: Measure)
    requires
        m.wf(),
    ensures
        1 <= m.spec_quants_per_measure() <= m.spec_measure_size_millis(),
        1 <= m.spec_quant_size_millis() <= m.spec_measure_size_millis(),
{
    assert(1 <= m.spec_quants_per_measure() && m.spec_quants_per_measure()
        <= m.spec_measure_size_millis() && m.spec_quant_size_millis()
        <= m.spec_measure_size_millis()) by (nonlinear_arith)
        requires
            0 < m.measure_size_bpm,
            0 < m.quantation_level,
            1 <= m.spec_quant_size_millis(),
            m.spec_quants_per_measure() == m.measure_size_bpm * m.quantation_level,
            m.spec_measure_size_millis() == m.spec_quant_size_millis()
                * m.spec_quants_per_measure(),
    ;
}

/// Snapping a timestamp to the grid and converting back yields a
/// timestamp that differs from the original by at most half a grid step:
/// with `q` the snapped position and `r == q * step` its exact timestamp,
/// `-step < 2 * (r - t) <= step`.
pub proof fn lemma_snap_round_trip(m: Measure, t: int)
    requires
        m.wf(),
        0 <= t,
    ensures
        ({
            let q = m.spec_snap_timestamp_to_quant(t);
            let r = q * m.spec_quant_size_millis();
            &&& 0 <= q
            &&& -m.spec_quant_size_millis() < 2 * (r - t) <= m.spec_quant_size_millis()
        }),
{
    let d = m.spec_quant_size_millis();
    let half = d / 2;
    let q = (t + half) / d;
    let rem = (t + half) % d;
    lemma_fundamental_div_mod(t + half, d);
    assert(t + half == d * q + rem);
    assert(0 <= q) by {
        vstd::arithmetic::div_mod::lemma_div_pos_is_pos(t + half, d);
    }
    assert(q * d == d * q) by (nonlinear_arith);
    // r - t == half - rem, and 0 <= rem < d, 2 * half <= d <= 2 * half + 1.
}

} // verus!
