//! Mathematical model of a circular delay buffer.
//!
//! A `RingState` is the ghost image of one delay line: the sequence of
//! stored samples and the write cursor. The spec functions here describe
//! one processing step — clamp the requested delay, read the tap, write
//! the incoming sample, inject feedback into the just-written slot — and
//! the fold of such steps over a whole input sequence. The executable
//! code in `delay_line` and `processor` is specified against this model,
//! and the laws in `laws` are proved of it.

use vstd::prelude::*;
use vstd::arithmetic::div_mod::*;
use vstd::arithmetic::mul::*;

verus! {

/// Largest magnitude the processor accepts for an incoming sample.
pub const INPUT_LIMIT: i64 = 0x100_0000_0000;

/// Largest magnitude a stored or delayed sample can reach when every
/// input is within `INPUT_LIMIT` and feedback stays at or below 95%:
/// the slot written each step holds an input plus 95% of a stored
/// sample, so `INPUT_LIMIT + (95/100) * BUF_LIMIT <= BUF_LIMIT` keeps
/// the invariant closed. `BUF_LIMIT` is exactly `20 * INPUT_LIMIT`.
pub const BUF_LIMIT: i64 = 0x1400_0000_0000;

/// Ghost image of one delay line: stored samples and the write cursor.
pub ghost struct RingState {
    /// The stored samples, indexed by buffer slot.
    pub samples: Seq<int>,
    /// The slot that receives the next written sample.
    pub cursor: int,
}

impl RingState {
    /// The fixed number of slots.
    pub open spec fn cap(self) -> int {
        self.samples.len() as int
    }

    /// A well-formed ring has at least one slot and a cursor inside it.
    pub open spec fn wf(self) -> bool {
        self.cap() >= 1 && 0 <= self.cursor < self.cap()
    }
}

/// A freshly built (or reset) ring: all slots zero, cursor at the start.
pub open spec fn fresh_state(cap: int) -> RingState {
    RingState { samples: Seq::new(cap as nat, |i: int| 0), cursor: 0 }
}

/// A requested delay is silently clamped to the largest delay the
/// buffer can honour, `cap - 1`.
pub open spec fn clamp_delay(d: int, cap: int) -> int {
    if d <= cap - 1 {
        d
    } else {
        cap - 1
    }
}

/// Slot read for a delay of `d` samples: `d` slots behind the cursor,
/// wrapped into `[0, cap)`.
pub open spec fn read_index(cursor: int, d: int, cap: int) -> int {
    let e = clamp_delay(d, cap);
    if cursor >= e {
        cursor - e
    } else {
        cap - (e - cursor)
    }
}

/// The slot written most recently: one behind the cursor, wrapped.
pub open spec fn last_index(s: RingState) -> int {
    if s.cursor == 0 {
        s.cap() - 1
    } else {
        s.cursor - 1
    }
}

/// The delayed sample a processing step returns: read before any write.
pub open spec fn step_out(s: RingState, d: int) -> int {
    s.samples[read_index(s.cursor, d, s.cap())]
}

/// The ring after writing `x` at the cursor and advancing it.
pub open spec fn step_write(s: RingState, x: int) -> RingState {
    RingState {
        samples: s.samples.update(s.cursor, x),
        cursor: if s.cursor + 1 == s.cap() {
            0
        } else {
            s.cursor + 1
        },
    }
}

/// The ring after adding `a` into the just-written slot.
pub open spec fn inject_state(s: RingState, a: int) -> RingState {
    RingState {
        samples: s.samples.update(last_index(s), s.samples[last_index(s)] + a),
        cursor: s.cursor,
    }
}

/// A level or feedback percentage applied to a sample: `x * p / 100`,
/// the division truncating toward zero.
pub open spec fn scale_level(x: int, p: int) -> int {
    if x >= 0 {
        (x * p) / 100
    } else {
        -(((-x) * p) / 100)
    }
}

/// One full per-sample step of a delay line inside the processor:
/// read the tap, write the input, inject `f` percent of the tap as
/// feedback into the slot just written.
pub open spec fn echo_step(s: RingState, x: int, d: int, f: int) -> RingState {
    inject_state(step_write(s, x), scale_level(step_out(s, d), f))
}

/// The ring after feeding the whole input sequence `ins`.
pub open spec fn run_state(s: RingState, ins: Seq<int>, d: int, f: int) -> RingState
    decreases ins.len(),
{
    if ins.len() == 0 {
        s
    } else {
        echo_step(run_state(s, ins.drop_last(), d, f), ins.last(), d, f)
    }
}

/// The delayed samples produced while feeding `ins`, in order.
pub open spec fn run_outs(s: RingState, ins: Seq<int>, d: int, f: int) -> Seq<int>
    decreases ins.len(),
{
    if ins.len() == 0 {
        Seq::empty()
    } else {
        run_outs(s, ins.drop_last(), d, f).push(
            step_out(run_state(s, ins.drop_last(), d, f), d),
        )
    }
}

/// The wet/dry mix of one output sample: `dry` percent of the input
/// plus `wet` percent of the delayed sample, each term exact.
pub open spec fn mix_level(x: int, delayed: int, dry: int, wet: int) -> int {
    scale_level(x, dry) + scale_level(delayed, wet)
}

/// The block output: every input mixed with its delayed counterpart.
pub open spec fn mixed_outs(ins: Seq<int>, delayed: Seq<int>, dry: int, wet: int) -> Seq<int> {
    Seq::new(ins.len(), |i: int| mix_level(ins[i], delayed[i], dry, wet))
}

/// Every stored sample has magnitude at most `b`.
pub open spec fn bounded(s: RingState, b: int) -> bool {
    forall|i: int| 0 <= i < s.cap() ==> -b <= #[trigger] s.samples[i] <= b
}

/// The integer view of a vector of fixed-point samples.
pub open spec fn int_seq(s: Seq<i64>) -> Seq<int> {
    s.map_values(|v: i64| v as int)
}

/// Scaling by a percentage never grows a sample's magnitude and never
/// flips its sign.
pub proof fn lemma_scale_level_bound(x: int, p: int)
    requires
        0 <= p <= 100,
    ensures
        x >= 0 ==> 0 <= scale_level(x, p) <= x,
        x < 0 ==> x <= scale_level(x, p) <= 0,
{
    if x >= 0 {
        lemma_scale_nonneg(x, p);
    } else {
        lemma_scale_nonneg(-x, p);
    }
}

proof fn lemma_scale_nonneg(x: int, p: int)
    requires
        x >= 0,
        0 <= p <= 100,
    ensures
        0 <= (x * p) / 100 <= x,
{
    lemma_mul_nonnegative(x, p);
    lemma_div_pos_is_pos(x * p, 100);
    lemma_mul_inequality(p, 100, x);
    lemma_div_is_ordered(x * p, 100 * x, 100);
    lemma_div_multiples_vanish(x, 100);
}

/// At 95% feedback or below, the fed-back amount leaves room for a
/// fresh input: its magnitude stays within `BUF_LIMIT - INPUT_LIMIT`.
pub proof fn lemma_scale_level_feedback(x: int, p: int)
    requires
        -BUF_LIMIT <= x <= BUF_LIMIT,
        0 <= p <= 95,
    ensures
        -(BUF_LIMIT - INPUT_LIMIT) <= scale_level(x, p) <= BUF_LIMIT - INPUT_LIMIT,
{
    if x >= 0 {
        lemma_scale_feedback_nonneg(x, p);
    } else {
        lemma_scale_feedback_nonneg(-x, p);
    }
}

proof fn lemma_scale_feedback_nonneg(x: int, p: int)
    requires
        0 <= x <= BUF_LIMIT,
        0 <= p <= 95,
    ensures
        0 <= (x * p) / 100 <= BUF_LIMIT - INPUT_LIMIT,
{
    lemma_mul_nonnegative(x, p);
    lemma_div_pos_is_pos(x * p, 100);
    lemma_mul_upper_bound(x, BUF_LIMIT as int, p, 95);
    lemma_div_is_ordered(x * p, BUF_LIMIT * 95, 100);
    assert((BUF_LIMIT * 95) / 100 == BUF_LIMIT - INPUT_LIMIT);
}

/// The slot read for any requested delay lies inside the buffer.
pub proof fn lemma_read_index_in_range(cursor: int, d: int, cap: int)
    requires
        cap >= 1,
        0 <= cursor < cap,
        0 <= d,
    ensures
        0 <= read_index(cursor, d, cap) < cap,
{
}

/// One full step keeps the ring well-formed and, when the input is
/// within `INPUT_LIMIT` and feedback at most 95%, keeps every stored
/// sample within `BUF_LIMIT`; the tap it reads is itself bounded.
pub proof fn lemma_echo_step_bounded(s: RingState, x: int, d: int, f: int)
    requires
        s.wf(),
        bounded(s, BUF_LIMIT as int),
        -INPUT_LIMIT <= x <= INPUT_LIMIT,
        0 <= f <= 95,
        0 <= d,
    ensures
        echo_step(s, x, d, f).wf(),
        echo_step(s, x, d, f).cap() == s.cap(),
        bounded(echo_step(s, x, d, f), BUF_LIMIT as int),
        -BUF_LIMIT <= step_out(s, d) <= BUF_LIMIT,
{
    lemma_read_index_in_range(s.cursor, d, s.cap());
    let tap = step_out(s, d);
    assert(-BUF_LIMIT <= tap <= BUF_LIMIT);
    let fb = scale_level(tap, f);
    lemma_scale_level_feedback(tap, f);
    let stepped = echo_step(s, x, d, f);
    assert(last_index(step_write(s, x)) == s.cursor);
    assert forall|i: int| 0 <= i < stepped.cap() implies
        -BUF_LIMIT <= #[trigger] stepped.samples[i] <= BUF_LIMIT
    by {
        if i == s.cursor {
            assert(stepped.samples[i] == x + fb);
        } else {
            assert(stepped.samples[i] == s.samples[i]);
        }
    }
}

} // verus!
