//! The live parameter values the host hands the processor.
//!
//! The host's automation and smoothing layer produces continuous
//! values; the core consumes them in exact integer form: the delay
//! time in microseconds and the three levels as percentages. The host
//! layer is responsible for keeping each value in its documented range
//! before it reaches the core.

use vstd::prelude::*;
use vstd::arithmetic::div_mod::*;
use vstd::arithmetic::mul::*;

verus! {

/// Highest sample rate the core accepts, in samples per second. Keeps
/// the delay-in-samples conversion inside machine integer ranges.
pub const MAX_SAMPLE_RATE: u32 = 10_000_000;

/// One resolved set of parameter values, as delivered (pre-smoothed
/// and range-clamped) by the host for a processing block.
pub struct DelayParams {
    /// Delay time in microseconds; documented range 1 ms – 2000 ms.
    pub delay_time_us: u64,
    /// Feedback as a percentage of the delayed sample, at most 95.
    pub feedback_pct: u64,
    /// Wet level as a percentage, at most 100.
    pub wet_pct: u64,
    /// Dry level as a percentage, at most 100.
    pub dry_pct: u64,
}

impl DelayParams {
    /// Every value inside its documented range.
    pub open spec fn wf(&self) -> bool {
        &&& 1_000 <= self.delay_time_us <= 2_000_000
        &&& self.feedback_pct <= 95
        &&& self.wet_pct <= 100
        &&& self.dry_pct <= 100
    }

    /// Builds a parameter set from in-range values.
    pub fn new(delay_time_us: u64, feedback_pct: u64, wet_pct: u64, dry_pct: u64) -> (p:
        DelayParams)
        requires
            1_000 <= delay_time_us <= 2_000_000,
            feedback_pct <= 95,
            wet_pct <= 100,
            dry_pct <= 100,
        ensures
            p.wf(),
            p.delay_time_us == delay_time_us,
            p.feedback_pct == feedback_pct,
            p.wet_pct == wet_pct,
            p.dry_pct == dry_pct,
    {
        DelayParams { delay_time_us, feedback_pct, wet_pct, dry_pct }
    }

    /// The integer delay-sample count for this delay time at `rate`:
    /// `floor((delayTime / 1s) * rate)`, with the delay time held in
    /// microseconds.
    pub fn delay_samples(&self, rate: u32) -> (d: usize)
        requires
            self.wf(),
            1 <= rate <= MAX_SAMPLE_RATE,
        ensures
            d as int == delay_samples_spec(self.delay_time_us as int, rate as int),
    {
        proof {
            lemma_mul_upper_bound(
                self.delay_time_us as int,
                2_000_000,
                rate as int,
                MAX_SAMPLE_RATE as int,
            );
            lemma_mul_nonnegative(self.delay_time_us as int, rate as int);
            lemma_div_is_ordered(
                self.delay_time_us * rate,
                2_000_000 * (MAX_SAMPLE_RATE as int),
                1_000_000,
            );
            lemma_div_pos_is_pos(self.delay_time_us * rate, 1_000_000);
        }
        let prod: u64 = self.delay_time_us * (rate as u64);
        (prod / 1_000_000) as usize
    }
}

/// `floor(delay_time_us * rate / 1_000_000)`: the number of whole
/// samples in the requested delay time.
pub open spec fn delay_samples_spec(delay_time_us: int, rate: int) -> int {
    (delay_time_us * rate) / 1_000_000
}

impl Default for DelayParams {
    /// The documented defaults: 250 ms delay, 30% feedback, 30% wet,
    /// 70% dry.
    fn default() -> (p: DelayParams)
        ensures
            p.wf(),
            p.delay_time_us == 250_000,
            p.feedback_pct == 30,
            p.wet_pct == 30,
            p.dry_pct == 70,
    {
        DelayParams { delay_time_us: 250_000, feedback_pct: 30, wet_pct: 30, dry_pct: 70 }
    }
}

} // verus!
