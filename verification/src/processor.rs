//! The stereo delay processor: one delay line per channel, driven once
//! per audio block with the host's resolved parameter values.
//!
//! Per sample and per channel the processor reads the delayed tap,
//! writes the input, injects `feedback` percent of the tap into the
//! just-written slot, and replaces the input with
//! `dry% * input + wet% * tap`. The two channels are fully
//! independent. `process_block` is proved to perform exactly the
//! model fold `run_state` / `run_outs` of `ring` on each channel.

use vstd::prelude::*;
use crate::delay_line::DelayLine;
use crate::params::{delay_samples_spec, DelayParams, MAX_SAMPLE_RATE};
use crate::ring::{
    bounded, echo_step, fresh_state, int_seq, last_index, lemma_echo_step_bounded,
    lemma_scale_level_bound, lemma_scale_level_feedback, mix_level, mixed_outs, run_outs,
    run_state, scale_level, RingState, BUF_LIMIT, INPUT_LIMIT,
};

verus! {

/// Number of slots in each channel's delay line as built by
/// `default`: four seconds at 48 kHz.
pub const DEFAULT_CAPACITY: usize = 192_000;

/// Sample rate assumed before the host has initialized a session.
pub const DEFAULT_SAMPLE_RATE: u32 = 44_100;

/// Ghost image of the processor: both channel rings, the session
/// sample rate, and whether a session has been initialized.
pub ghost struct ProcState {
    /// The left channel's ring.
    pub left: RingState,
    /// The right channel's ring.
    pub right: RingState,
    /// Samples per second for the current session.
    pub sample_rate: int,
    /// True once the host has initialized a session.
    pub running: bool,
}

/// A stereo delay effect: two independent delay lines plus the
/// session sample rate. Until `initialize` is called the processor is
/// idle and `process_block` leaves its input untouched.
pub struct StereoDelayProcessor {
    left: DelayLine,
    right: DelayLine,
    sample_rate: u32,
    running: bool,
}

impl View for StereoDelayProcessor {
    type V = ProcState;

    closed spec fn view(&self) -> ProcState {
        ProcState {
            left: self.left@,
            right: self.right@,
            sample_rate: self.sample_rate as int,
            running: self.running,
        }
    }
}

/// Applies a level percentage to one fixed-point sample:
/// `x * p / 100`, truncating toward zero.
pub fn scale_sample(x: i64, p: u64) -> (r: i64)
    requires
        -BUF_LIMIT <= x <= BUF_LIMIT,
        p <= 100,
    ensures
        r as int == scale_level(x as int, p as int),
{
    proof {
        lemma_scale_level_bound(x as int, p as int);
        vstd::arithmetic::mul::lemma_mul_upper_bound(
            if x >= 0 { x as int } else { -x as int },
            BUF_LIMIT as int,
            p as int,
            100,
        );
    }
    if x >= 0 {
        let num: u64 = (x as u64) * p;
        (num / 100) as i64
    } else {
        let mag: u64 = (-x) as u64;
        let num: u64 = mag * p;
        -((num / 100) as i64)
    }
}

/// The wet/dry mix of one output sample: exactly
/// `dry% * input + wet% * delayed`, each term truncating toward zero.
pub fn mix_sample(input: i64, delayed: i64, dry: u64, wet: u64) -> (r: i64)
    requires
        -BUF_LIMIT <= input <= BUF_LIMIT,
        -BUF_LIMIT <= delayed <= BUF_LIMIT,
        dry <= 100,
        wet <= 100,
    ensures
        r as int == mix_level(input as int, delayed as int, dry as int, wet as int),
{
    proof {
        lemma_scale_level_bound(input as int, dry as int);
        lemma_scale_level_bound(delayed as int, wet as int);
    }
    scale_sample(input, dry) + scale_sample(delayed, wet)
}

impl StereoDelayProcessor {
    /// Both lines well-formed with equal capacity, every stored sample
    /// within `BUF_LIMIT`, and the sample rate in the accepted range.
    pub closed spec fn wf(&self) -> bool {
        &&& self.left.wf()
        &&& self.right.wf()
        &&& bounded(self.left@, BUF_LIMIT as int)
        &&& bounded(self.right@, BUF_LIMIT as int)
        &&& self.left@.cap() == self.right@.cap()
        &&& 1 <= self.sample_rate <= MAX_SAMPLE_RATE
    }

    /// Builds an idle processor whose delay lines have `capacity`
    /// slots each, all silent.
    pub fn new(capacity: usize) -> (p: StereoDelayProcessor)
        requires
            capacity >= 1,
        ensures
            p.wf(),
            p@.left == fresh_state(capacity as int),
            p@.right == fresh_state(capacity as int),
            p@.sample_rate == DEFAULT_SAMPLE_RATE,
            !p@.running,
    {
        StereoDelayProcessor {
            left: DelayLine::new(capacity),
            right: DelayLine::new(capacity),
            sample_rate: DEFAULT_SAMPLE_RATE,
            running: false,
        }
    }

    /// Stores the session sample rate and marks the processor ready.
    pub fn initialize(&mut self, sample_rate: u32) -> (ready: bool)
        requires
            old(self).wf(),
            1 <= sample_rate <= MAX_SAMPLE_RATE,
        ensures
            final(self).wf(),
            ready,
            final(self)@.left == old(self)@.left,
            final(self)@.right == old(self)@.right,
            final(self)@.sample_rate == sample_rate,
            final(self)@.running,
    {
        self.sample_rate = sample_rate;
        self.running = true;
        true
    }

    /// Zeroes both delay buffers and cursors, so no stale audio can
    /// bleed into a new session; sample rate and readiness persist.
    pub fn reset(&mut self)
        requires
            old(self).wf(),
        ensures
            final(self).wf(),
            final(self)@.left == fresh_state(old(self)@.left.cap()),
            final(self)@.right == fresh_state(old(self)@.right.cap()),
            final(self)@.sample_rate == old(self)@.sample_rate,
            final(self)@.running == old(self)@.running,
    {
        self.left.reset();
        self.right.reset();
    }

    /// True once `initialize` has been called.
    pub fn is_running(&self) -> (b: bool)
        ensures
            b == self@.running,
    {
        self.running
    }

    /// The current session sample rate.
    pub fn sample_rate(&self) -> (r: u32)
        ensures
            r as int == self@.sample_rate,
    {
        self.sample_rate
    }

    /// The number of slots in each channel's delay line.
    pub fn capacity(&self) -> (c: usize)
        requires
            self.wf(),
        ensures
            c as int == self@.left.cap(),
            c as int == self@.right.cap(),
    {
        self.left.capacity()
    }

    /// Processes one block in place, both channels independently.
    ///
    /// When the processor is idle (no `initialize` yet) nothing
    /// happens and the input is left untouched. When running, each
    /// channel's ring becomes `run_state` of its inputs and each
    /// sample is replaced by the wet/dry mix of itself and its
    /// delayed tap, with `feedback` percent of every tap folded back
    /// into the ring — exactly the model fold of `ring`.
    #[verifier::loop_isolation(false)]
    pub fn process_block(
        &mut self,
        left_samples: &mut Vec<i64>,
        right_samples: &mut Vec<i64>,
        params: &DelayParams,
    ) -> (processed: bool)
        requires
            old(self).wf(),
            params.wf(),
            old(left_samples)@.len() == old(right_samples)@.len(),
            forall|j: int|
                0 <= j < old(left_samples)@.len() ==> -INPUT_LIMIT <= #[trigger] old(
                    left_samples,
                )@[j] <= INPUT_LIMIT,
            forall|j: int|
                0 <= j < old(right_samples)@.len() ==> -INPUT_LIMIT <= #[trigger] old(
                    right_samples,
                )@[j] <= INPUT_LIMIT,
        ensures
            final(self).wf(),
            processed == old(self)@.running,
            !old(self)@.running ==> final(self)@ == old(self)@ && final(left_samples)@ == old(
                left_samples,
            )@ && final(right_samples)@ == old(right_samples)@,
            old(self)@.running ==> ({
                let d = delay_samples_spec(params.delay_time_us as int, old(self)@.sample_rate);
                let f = params.feedback_pct as int;
                let ins_l = int_seq(old(left_samples)@);
                let ins_r = int_seq(old(right_samples)@);
                &&& final(self)@.left == run_state(old(self)@.left, ins_l, d, f)
                &&& final(self)@.right == run_state(old(self)@.right, ins_r, d, f)
                &&& final(self)@.sample_rate == old(self)@.sample_rate
                &&& final(self)@.running
                &&& int_seq(final(left_samples)@) == mixed_outs(
                    ins_l,
                    run_outs(old(self)@.left, ins_l, d, f),
                    params.dry_pct as int,
                    params.wet_pct as int,
                )
                &&& int_seq(final(right_samples)@) == mixed_outs(
                    ins_r,
                    run_outs(old(self)@.right, ins_r, d, f),
                    params.dry_pct as int,
                    params.wet_pct as int,
                )
            }),
    {
        if !self.running {
            return false;
        }
        let d: usize = params.delay_samples(self.sample_rate);
        let f: u64 = params.feedback_pct;
        let wet: u64 = params.wet_pct;
        let dry: u64 = params.dry_pct;
        let len: usize = left_samples.len();
        let ghost l0 = self@.left;
        let ghost r0 = self@.right;
        let ghost ins_l = int_seq(old(left_samples)@);
        let ghost ins_r = int_seq(old(right_samples)@);
        let mut i: usize = 0;
        while i < len
            invariant
                i <= len,
                left_samples@.len() == len,
                right_samples@.len() == len,
                self.left.wf(),
                self.right.wf(),
                bounded(self.left@, BUF_LIMIT as int),
                bounded(self.right@, BUF_LIMIT as int),
                self.left@.cap() == self.right@.cap(),
                self@.sample_rate == old(self)@.sample_rate,
                self@.running,
                self.left@ == run_state(l0, ins_l.take(i as int), d as int, f as int),
                self.right@ == run_state(r0, ins_r.take(i as int), d as int, f as int),
                run_outs(l0, ins_l.take(i as int), d as int, f as int).len() == i,
                run_outs(r0, ins_r.take(i as int), d as int, f as int).len() == i,
                forall|j: int|
                    i <= j < len ==> #[trigger] left_samples@[j] == old(left_samples)@[j],
                forall|j: int|
                    i <= j < len ==> #[trigger] right_samples@[j] == old(right_samples)@[j],
                forall|j: int|
                    0 <= j < i ==> #[trigger] left_samples@[j] as int == mix_level(
                        ins_l[j],
                        run_outs(l0, ins_l.take(i as int), d as int, f as int)[j],
                        dry as int,
                        wet as int,
                    ),
                forall|j: int|
                    0 <= j < i ==> #[trigger] right_samples@[j] as int == mix_level(
                        ins_r[j],
                        run_outs(r0, ins_r.take(i as int), d as int, f as int)[j],
                        dry as int,
                        wet as int,
                    ),
            decreases len - i,
        {
            let ghost pre_l = self.left@;
            let x = left_samples[i];
            proof {
                assert(ins_l[i as int] == x as int);
                lemma_echo_step_bounded(pre_l, x as int, d as int, f as int);
            }
            let delayed = self.left.process(x, d);
            proof {
                lemma_scale_level_feedback(delayed as int, f as int);
                assert(last_index(self.left@) == pre_l.cursor);
                assert(self.left@.samples[last_index(self.left@)] == x as int);
            }
            let fb = scale_sample(delayed, f);
            self.left.inject_feedback(fb);
            let out = mix_sample(x, delayed, dry, wet);
            left_samples.set(i, out);
            proof {
                assert(self.left@ == echo_step(pre_l, x as int, d as int, f as int));
                assert(ins_l.take(i as int + 1).drop_last() =~= ins_l.take(i as int));
                assert(ins_l.take(i as int + 1).last() == ins_l[i as int]);
                assert(self.left@ == run_state(l0, ins_l.take(i as int + 1), d as int, f as int));
                assert(run_outs(l0, ins_l.take(i as int + 1), d as int, f as int) == run_outs(
                    l0,
                    ins_l.take(i as int),
                    d as int,
                    f as int,
                ).push(delayed as int));
            }
            let ghost pre_r = self.right@;
            let y = right_samples[i];
            proof {
                assert(ins_r[i as int] == y as int);
                lemma_echo_step_bounded(pre_r, y as int, d as int, f as int);
            }
            let delayed_r = self.right.process(y, d);
            proof {
                lemma_scale_level_feedback(delayed_r as int, f as int);
                assert(last_index(self.right@) == pre_r.cursor);
                assert(self.right@.samples[last_index(self.right@)] == y as int);
            }
            let fb_r = scale_sample(delayed_r, f);
            self.right.inject_feedback(fb_r);
            let out_r = mix_sample(y, delayed_r, dry, wet);
            right_samples.set(i, out_r);
            proof {
                assert(self.right@ == echo_step(pre_r, y as int, d as int, f as int));
                assert(ins_r.take(i as int + 1).drop_last() =~= ins_r.take(i as int));
                assert(ins_r.take(i as int + 1).last() == ins_r[i as int]);
                assert(self.right@ == run_state(r0, ins_r.take(i as int + 1), d as int, f as int));
                assert(run_outs(r0, ins_r.take(i as int + 1), d as int, f as int) == run_outs(
                    r0,
                    ins_r.take(i as int),
                    d as int,
                    f as int,
                ).push(delayed_r as int));
            }
            i = i + 1;
        }
        proof {
            assert(ins_l.take(len as int) =~= ins_l);
            assert(ins_r.take(len as int) =~= ins_r);
            assert(int_seq(left_samples@) =~= mixed_outs(
                ins_l,
                run_outs(l0, ins_l, d as int, f as int),
                dry as int,
                wet as int,
            ));
            assert(int_seq(right_samples@) =~= mixed_outs(
                ins_r,
                run_outs(r0, ins_r, d as int, f as int),
                dry as int,
                wet as int,
            ));
        }
        true
    }
}

impl Default for StereoDelayProcessor {
    /// An idle processor with the default capacity and sample rate.
    fn default() -> (p: StereoDelayProcessor)
        ensures
            p.wf(),
            p@.left == fresh_state(DEFAULT_CAPACITY as int),
            p@.right == fresh_state(DEFAULT_CAPACITY as int),
            p@.sample_rate == DEFAULT_SAMPLE_RATE,
            !p@.running,
    {
        StereoDelayProcessor::new(DEFAULT_CAPACITY)
    }
}

} // verus!
