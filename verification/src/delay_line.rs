//! One channel's delay line: a fixed-capacity circular buffer of
//! fixed-point samples with a single write cursor.
//!
//! Every operation is specified against the ghost model in `ring`: the
//! view of a `DelayLine` is a `RingState`, and `process`,
//! `inject_feedback` and `reset` are proved to perform exactly the
//! model's `step_write` / `step_out`, `inject_state` and `fresh_state`.

use vstd::prelude::*;
use crate::ring::{
    fresh_state, inject_state, last_index, read_index, step_out, step_write, RingState,
};

verus! {

/// A fixed-capacity circular sample buffer with a write cursor.
///
/// The requested delay in samples is clamped to `capacity - 1` on every
/// read, so a delay longer than the buffer degrades to the longest
/// available delay instead of failing.
pub struct DelayLine {
    buf: Vec<i64>,
    write_pos: usize,
}

impl View for DelayLine {
    type V = RingState;

    closed spec fn view(&self) -> RingState {
        RingState {
            samples: self.buf@.map_values(|v: i64| v as int),
            cursor: self.write_pos as int,
        }
    }
}

impl DelayLine {
    /// A well-formed line has at least one slot and its cursor inside
    /// the buffer.
    pub open spec fn wf(&self) -> bool {
        self@.wf()
    }

    /// Builds a line of `capacity` slots, all holding silence.
    pub fn new(capacity: usize) -> (line: DelayLine)
        requires
            capacity >= 1,
        ensures
            line.wf(),
            line@ == fresh_state(capacity as int),
    {
        let mut buf: Vec<i64> = Vec::new();
        let mut i: usize = 0;
        while i < capacity
            invariant
                i <= capacity,
                buf.len() == i,
                forall|j: int| 0 <= j < i ==> buf@[j] == 0i64,
            decreases capacity - i,
        {
            buf.push(0);
            i = i + 1;
        }
        let line = DelayLine { buf, write_pos: 0 };
        proof {
            assert(line@.samples =~= fresh_state(capacity as int).samples);
        }
        line
    }

    /// The fixed number of slots.
    pub fn capacity(&self) -> (c: usize)
        ensures
            c as int == self@.cap(),
    {
        self.buf.len()
    }

    /// Reads the tap `delay_samples` back (clamped to `capacity - 1`),
    /// then writes `input` over the oldest slot and advances the
    /// cursor. Returns the sample written `min(delay_samples,
    /// capacity - 1)` calls ago — read strictly before write, so the
    /// tap is never the sample being written.
    pub fn process(&mut self, input: i64, delay_samples: usize) -> (delayed: i64)
        requires
            old(self).wf(),
        ensures
            final(self).wf(),
            delayed as int == step_out(old(self)@, delay_samples as int),
            final(self)@ == step_write(old(self)@, input as int),
    {
        let size = self.buf.len();
        let d = if delay_samples <= size - 1 {
            delay_samples
        } else {
            size - 1
        };
        let read_pos = if self.write_pos >= d {
            self.write_pos - d
        } else {
            size - (d - self.write_pos)
        };
        assert(read_pos as int == read_index(self@.cursor, delay_samples as int, self@.cap()));
        let delayed = self.buf[read_pos];
        self.buf.set(self.write_pos, input);
        self.write_pos = if self.write_pos + 1 == size {
            0
        } else {
            self.write_pos + 1
        };
        proof {
            assert(self@.samples =~= step_write(old(self)@, input as int).samples);
        }
        delayed
    }

    /// Adds `amount` into the slot holding the most recently written
    /// sample, so the fed-back signal re-emerges a full delay later.
    pub fn inject_feedback(&mut self, amount: i64)
        requires
            old(self).wf(),
            i64::MIN <= old(self)@.samples[last_index(old(self)@)] + amount <= i64::MAX,
        ensures
            final(self).wf(),
            final(self)@ == inject_state(old(self)@, amount as int),
    {
        let idx = if self.write_pos > 0 {
            self.write_pos - 1
        } else {
            self.buf.len() - 1
        };
        let v = self.buf[idx];
        self.buf.set(idx, v + amount);
        proof {
            assert(self@.samples =~= inject_state(old(self)@, amount as int).samples);
        }
    }

    /// Zeroes every slot and puts the cursor back at the start: the
    /// line is indistinguishable from a freshly built one.
    pub fn reset(&mut self)
        requires
            old(self).wf(),
        ensures
            final(self).wf(),
            final(self)@ == fresh_state(old(self)@.cap()),
    {
        let n = self.buf.len();
        let mut i: usize = 0;
        while i < n
            invariant
                i <= n,
                self.buf.len() == n,
                forall|j: int| 0 <= j < i ==> self.buf@[j] == 0i64,
            decreases n - i,
        {
            self.buf.set(i, 0);
            i = i + 1;
        }
        self.write_pos = 0;
        proof {
            assert(self@.samples =~= fresh_state(old(self)@.cap()).samples);
        }
    }
}

} // verus!
