//! The temporal laws of the delay core, proved of the `ring` model.
//!
//! The executable code is specified as a fold of `echo_step` over the
//! input; these lemmas say what that fold does over time: a clamped
//! delay behaves exactly like the longest representable one, every
//! output is the input `d` steps earlier plus the feedback folded in
//! at that time, an impulse with no feedback re-emerges at index `d`
//! and nowhere else, an impulse with feedback produces pulses at
//! multiples of `d` that decay geometrically and stay bounded, and a
//! reset line is indistinguishable from a freshly built one.

use vstd::prelude::*;
use vstd::arithmetic::div_mod::{
    lemma_div_by_self, lemma_div_of0, lemma_fundamental_div_mod,
    lemma_mod_division_less_than_divisor, lemma_mod_multiples_vanish, lemma_small_mod,
};
use vstd::arithmetic::mul::{
    lemma_mul_by_zero_is_zero, lemma_mul_inequality, lemma_mul_is_commutative,
    lemma_mul_is_distributive_add, lemma_mul_is_distributive_sub, lemma_mul_nonnegative,
};
use vstd::arithmetic::power::{lemma0_pow, lemma_pow0, lemma_pow_positive, pow};
use crate::ring::{
    echo_step, fresh_state, last_index, lemma_scale_level_bound, read_index, run_outs, run_state,
    scale_level, step_out, step_write, RingState,
};

verus! {

/// A unit impulse of amplitude `a`: `a` at index zero, silence after.
pub open spec fn impulse(a: int, len: int) -> Seq<int> {
    Seq::new(len as nat, |i: int| if i == 0 { a } else { 0 })
}

/// The amplitude of the feedback echo number `n` of an impulse of
/// amplitude `a`: `a` itself for the first echo, then `f` percent of
/// the previous echo, truncating toward zero each time.
pub open spec fn pulse(a: int, f: int, n: nat) -> int
    decreases n,
{
    if n == 0 {
        a
    } else {
        scale_level(pulse(a, f, (n - 1) as nat), f)
    }
}

/// Scaling by zero percent silences any sample.
pub proof fn lemma_scale_level_by_zero(x: int)
    ensures
        scale_level(x, 0) == 0,
{
    lemma_div_of0(100);
}

/// A run produces exactly one output per input.
pub proof fn lemma_run_outs_len(s: RingState, ins: Seq<int>, d: int, f: int)
    ensures
        run_outs(s, ins, d, f).len() == ins.len(),
    decreases ins.len(),
{
    if ins.len() > 0 {
        lemma_run_outs_len(s, ins.drop_last(), d, f);
    }
}

/// A run never changes the buffer's capacity and keeps the ring
/// well-formed.
pub proof fn lemma_run_cap(s: RingState, ins: Seq<int>, d: int, f: int)
    requires
        s.wf(),
    ensures
        run_state(s, ins, d, f).cap() == s.cap(),
        run_state(s, ins, d, f).wf(),
    decreases ins.len(),
{
    if ins.len() > 0 {
        lemma_run_cap(s, ins.drop_last(), d, f);
        let prev = run_state(s, ins.drop_last(), d, f);
        assert(last_index(step_write(prev, ins.last())) == prev.cursor);
        assert(run_state(s, ins, d, f) == echo_step(prev, ins.last(), d, f));
    }
}

/// Clamp correctness: a requested delay of `capacity` samples or more
/// behaves, over a whole run, exactly like a delay of `capacity - 1`
/// samples — same outputs, same final state.
pub proof fn lemma_clamp_run(s: RingState, ins: Seq<int>, d: int, f: int)
    requires
        s.wf(),
        d >= s.cap(),
    ensures
        run_state(s, ins, d, f) == run_state(s, ins, s.cap() - 1, f),
        run_outs(s, ins, d, f) == run_outs(s, ins, s.cap() - 1, f),
    decreases ins.len(),
{
    if ins.len() > 0 {
        lemma_clamp_run(s, ins.drop_last(), d, f);
        lemma_run_cap(s, ins.drop_last(), d, f);
        let prev = run_state(s, ins.drop_last(), d, f);
        assert(read_index(prev.cursor, d, prev.cap()) == read_index(
            prev.cursor,
            s.cap() - 1,
            prev.cap(),
        ));
    }
}

/// Two nonnegative numbers less than one buffer length apart land on
/// different slots.
proof fn lemma_mod_distinct(j: int, m: int, cap: int)
    requires
        0 <= j,
        0 < m - j < cap,
    ensures
        j % cap != m % cap,
{
    lemma_fundamental_div_mod(j, cap);
    lemma_fundamental_div_mod(m, cap);
    if j % cap == m % cap {
        let q = m / cap - j / cap;
        assert(m - j == cap * q) by {
            lemma_mul_is_distributive_sub(cap, m / cap, j / cap);
        }
        if q >= 1 {
            lemma_mul_inequality(1, q, cap);
            lemma_mul_is_commutative(cap, q);
            assert(m - j >= cap);
        } else {
            lemma_mul_inequality(q, 0, cap);
            lemma_mul_is_commutative(cap, q);
            assert(m - j <= 0);
        }
    }
}

/// The full picture of a run from a fresh buffer with an un-clamped
/// delay `d`: where the cursor stands, what every slot holds (the
/// input written there plus the feedback injected with it, or still
/// silence), and the output recurrence — every output is the input
/// `d` steps earlier plus `f` percent of the output `d` steps
/// earlier.
proof fn lemma_fresh_run_shape(cap: int, ins: Seq<int>, d: int, f: int)
    requires
        1 <= d <= cap - 1,
    ensures
        ({
            let st = run_state(fresh_state(cap), ins, d, f);
            let outs = run_outs(fresh_state(cap), ins, d, f);
            &&& outs.len() == ins.len()
            &&& st.cap() == cap
            &&& st.wf()
            &&& st.cursor == ins.len() as int % cap
            &&& forall|j: int|
                0 <= j < ins.len() && ins.len() - cap <= j ==> st.samples[j % cap] == ins[j]
                    + scale_level(#[trigger] outs[j], f)
            &&& forall|k: int| ins.len() <= k < cap ==> #[trigger] st.samples[k] == 0
            &&& forall|i: int|
                0 <= i < ins.len() ==> #[trigger] outs[i] == (if i < d {
                    0
                } else {
                    ins[i - d] + scale_level(outs[i - d], f)
                })
        }),
    decreases ins.len(),
{
    let st = run_state(fresh_state(cap), ins, d, f);
    let outs = run_outs(fresh_state(cap), ins, d, f);
    let n = ins.len() as int;
    if n == 0 {
        lemma_small_mod(0nat, cap as nat);
    } else {
        let m = n - 1;
        let pins = ins.drop_last();
        lemma_fresh_run_shape(cap, pins, d, f);
        let pst = run_state(fresh_state(cap), pins, d, f);
        let pouts = run_outs(fresh_state(cap), pins, d, f);
        let x = ins.last();
        assert(st == echo_step(pst, x, d, f));
        let out_m = step_out(pst, d);
        assert(outs == pouts.push(out_m));
        assert(forall|j: int| 0 <= j < m ==> pins[j] == ins[j]);
        assert(x == ins[m]);

        // Where the cursor lands after one more write.
        lemma_fundamental_div_mod(m, cap);
        lemma_mod_division_less_than_divisor(m, cap);
        let q = m / cap;
        let r = m % cap;
        assert(pst.cursor == r);
        if r + 1 == cap {
            assert(n == cap * (q + 1) + 0) by {
                lemma_mul_is_distributive_add(cap, q, 1);
            }
            lemma_mod_multiples_vanish(q + 1, 0, cap);
            lemma_small_mod(0nat, cap as nat);
        } else {
            lemma_mod_multiples_vanish(q, r + 1, cap);
            lemma_small_mod((r + 1) as nat, cap as nat);
        }
        assert(st.cursor == n % cap);

        // The two updates of this step both land on the old cursor slot.
        let c = r;
        let fb = scale_level(out_m, f);
        assert(last_index(step_write(pst, x)) == c);
        assert(st.samples == pst.samples.update(c, x).update(c, x + fb));
        assert(st.samples[c] == x + fb);

        // The slot read for this step's output.
        if m >= d {
            let j0 = m - d;
            if r >= d {
                assert(j0 == cap * q + (r - d));
                lemma_mod_multiples_vanish(q, r - d, cap);
                lemma_small_mod((r - d) as nat, cap as nat);
                assert(j0 % cap == r - d);
                assert(read_index(c, d, cap) == r - d);
            } else {
                assert(j0 == cap * (q - 1) + (cap + r - d)) by {
                    lemma_mul_is_distributive_sub(cap, q, 1);
                }
                lemma_mod_multiples_vanish(q - 1, cap + r - d, cap);
                lemma_small_mod((cap + r - d) as nat, cap as nat);
                assert(j0 % cap == cap + r - d);
                assert(read_index(c, d, cap) == cap + r - d);
            }
            assert(pst.samples[j0 % cap] == pins[j0] + scale_level(pouts[j0], f));
            assert(out_m == ins[j0] + scale_level(outs[j0], f));
        } else {
            lemma_small_mod(m as nat, cap as nat);
            assert(c == m);
            let s0 = cap - (d - c);
            assert(read_index(c, d, cap) == s0);
            assert(m <= s0 < cap);
            assert(pst.samples[s0] == 0);
            assert(out_m == 0);
        }

        // Every slot of the window holds its input plus its feedback.
        assert forall|j: int| 0 <= j < n && n - cap <= j implies st.samples[j % cap] == ins[j]
            + scale_level(#[trigger] outs[j], f) by {
            lemma_mod_division_less_than_divisor(j, cap);
            if j == m {
                assert(outs[m] == out_m);
                assert(st.samples[c] == x + fb);
            } else {
                lemma_mod_distinct(j, m, cap);
                assert(pst.samples[j % cap] == pins[j] + scale_level(pouts[j], f));
                assert(st.samples[j % cap] == pst.samples[j % cap]);
                assert(outs[j] == pouts[j]);
            }
        }

        // Slots not yet written still hold silence.
        assert forall|k: int| n <= k < cap implies #[trigger] st.samples[k] == 0 by {
            lemma_small_mod(m as nat, cap as nat);
            assert(k != c);
            assert(pst.samples[k] == 0);
        }

        // The output recurrence, for the old outputs and the new one.
        assert forall|i: int|
            0 <= i < n implies #[trigger] outs[i] == (if i < d {
                0
            } else {
                ins[i - d] + scale_level(outs[i - d], f)
            }) by {
            if i < m {
                assert(pouts[i] == (if i < d {
                    0
                } else {
                    pins[i - d] + scale_level(pouts[i - d], f)
                }));
                assert(outs[i] == pouts[i]);
                if i >= d {
                    assert(outs[i - d] == pouts[i - d]);
                    assert(ins[i - d] == pins[i - d]);
                }
            } else {
                assert(outs[m] == out_m);
            }
        }
    }
}

/// Output recurrence from a fresh buffer: for an effective delay `d`
/// (at least one sample, within capacity), the first `d` outputs are
/// silence and every later output is the input `d` steps earlier plus
/// `f` percent of the output `d` steps earlier — the echo of the echo.
pub proof fn lemma_fresh_run_recurrence(cap: int, ins: Seq<int>, d: int, f: int)
    requires
        1 <= d <= cap - 1,
    ensures
        run_outs(fresh_state(cap), ins, d, f).len() == ins.len(),
        forall|i: int|
            0 <= i < ins.len() ==> #[trigger] run_outs(fresh_state(cap), ins, d, f)[i] == (if i
                < d {
                0
            } else {
                ins[i - d] + scale_level(run_outs(fresh_state(cap), ins, d, f)[i - d], f)
            }),
{
    lemma_fresh_run_shape(cap, ins, d, f);
}

/// With no feedback, a fresh delay line is a pure delay: every output
/// is exactly the input `d` steps earlier, and silence before that.
pub proof fn lemma_pure_delay(cap: int, ins: Seq<int>, d: int)
    requires
        1 <= d <= cap - 1,
    ensures
        run_outs(fresh_state(cap), ins, d, 0).len() == ins.len(),
        forall|i: int|
            0 <= i < ins.len() ==> #[trigger] run_outs(fresh_state(cap), ins, d, 0)[i] == (if i
                < d {
                0
            } else {
                ins[i - d]
            }),
{
    lemma_fresh_run_recurrence(cap, ins, d, 0);
    assert forall|i: int|
        0 <= i < ins.len() implies #[trigger] run_outs(fresh_state(cap), ins, d, 0)[i] == (if i
        < d {
        0
    } else {
        ins[i - d]
    }) by {
        if i >= d {
            lemma_scale_level_by_zero(run_outs(fresh_state(cap), ins, d, 0)[i - d]);
        }
    }
}

/// Impulse response positioning: with no feedback, a unit impulse of
/// amplitude `a` through a fresh line re-emerges at output index
/// exactly `d`, and every other output is silence.
pub proof fn lemma_impulse_response(cap: int, a: int, len: int, d: int)
    requires
        1 <= d <= cap - 1,
        0 <= len,
    ensures
        run_outs(fresh_state(cap), impulse(a, len), d, 0).len() == len,
        forall|i: int|
            0 <= i < len ==> #[trigger] run_outs(fresh_state(cap), impulse(a, len), d, 0)[i] == (
            if i == d {
                a
            } else {
                0
            }),
{
    lemma_pure_delay(cap, impulse(a, len), d);
}

/// Feedback echoes of an impulse, position by position: pulses at the
/// integer multiples of `d` (the `n`-th scaled by `f` percent `n - 1`
/// times over), silence everywhere else.
proof fn lemma_impulse_feedback_at(cap: int, a: int, len: int, d: int, f: int, i: int)
    requires
        1 <= d <= cap - 1,
        0 <= i < len,
    ensures
        run_outs(fresh_state(cap), impulse(a, len), d, f)[i] == (if i >= d && i % d == 0 {
            pulse(a, f, (i / d - 1) as nat)
        } else {
            0
        }),
    decreases i,
{
    let outs = run_outs(fresh_state(cap), impulse(a, len), d, f);
    lemma_fresh_run_recurrence(cap, impulse(a, len), d, f);
    if i < d {
        if i >= 1 {
            lemma_small_mod(i as nat, d as nat);
        }
    } else {
        lemma_impulse_feedback_at(cap, a, len, d, f, i - d);
        lemma_fundamental_div_mod(i, d);
        lemma_mod_division_less_than_divisor(i, d);
        lemma_fundamental_div_mod(i - d, d);
        lemma_mod_division_less_than_divisor(i - d, d);
        if i % d == 0 {
            let q = i / d;
            assert(i == d * q);
            assert(i - d == d * (q - 1)) by {
                lemma_mul_is_distributive_sub(d, q, 1);
            }
            if i == d {
                lemma_div_by_self(d);
                assert(outs[i] == impulse(a, len)[0] + scale_level(outs[0], f));
                assert(outs[0] == 0);
                assert(scale_level(0, f) == 0) by {
                    lemma_div_of0(100);
                }
                assert(outs[i] == a);
                assert(pulse(a, f, (i / d - 1) as nat) == a);
            } else {
                // i is a later multiple: i - d is the previous one.
                assert(q >= 2) by {
                    if q <= 1 {
                        lemma_mul_inequality(q, 1, d);
                        lemma_mul_is_commutative(d, q);
                        assert(i <= d);
                    }
                }
                assert((i - d) % d == 0 && (i - d) / d == q - 1) by {
                    vstd::arithmetic::div_mod::lemma_fundamental_div_mod_converse_mod(
                        i - d,
                        d,
                        q - 1,
                        0,
                    );
                    vstd::arithmetic::div_mod::lemma_fundamental_div_mod_converse_div(
                        i - d,
                        d,
                        q - 1,
                        0,
                    );
                }
                assert(i - d >= d) by {
                    lemma_mul_inequality(1, q - 1, d);
                    lemma_mul_is_commutative(d, q - 1);
                }
                assert(impulse(a, len)[i - d] == 0);
                assert(outs[i] == scale_level(outs[i - d], f));
                assert(outs[i - d] == pulse(a, f, (q - 2) as nat));
                assert(pulse(a, f, (q - 1) as nat) == scale_level(pulse(a, f, (q - 2) as nat), f));
            }
        } else {
            // Not a multiple of d: neither is i - d, so silence echoes silence.
            assert((i - d) % d == i % d) by {
                vstd::arithmetic::div_mod::lemma_mod_sub_multiples_vanish(i, d);
            }
            assert(i - d != 0);
            assert(impulse(a, len)[i - d] == 0);
            assert(outs[i - d] == 0);
            assert(scale_level(0, f) == 0) by {
                lemma_div_of0(100);
            }
        }
    }
}

/// Feedback decay of an impulse: the outputs of a fresh line fed an
/// impulse of amplitude `a` with feedback `f` percent are silence
/// except at the integer multiples of `d`, where echo number `n`
/// (starting at the first echo, index `d`) is `a` scaled by `f`
/// percent `n - 1` times over.
pub proof fn lemma_impulse_feedback(cap: int, a: int, len: int, d: int, f: int)
    requires
        1 <= d <= cap - 1,
        0 <= len,
    ensures
        run_outs(fresh_state(cap), impulse(a, len), d, f).len() == len,
        forall|i: int|
            0 <= i < len ==> #[trigger] run_outs(fresh_state(cap), impulse(a, len), d, f)[i] == (
            if i >= d && i % d == 0 {
                pulse(a, f, (i / d - 1) as nat)
            } else {
                0
            }),
{
    lemma_run_outs_len(fresh_state(cap), impulse(a, len), d, f);
    assert forall|i: int|
        0 <= i < len implies #[trigger] run_outs(fresh_state(cap), impulse(a, len), d, f)[i] == (
    if i >= d && i % d == 0 {
        pulse(a, f, (i / d - 1) as nat)
    } else {
        0
    }) by {
        lemma_impulse_feedback_at(cap, a, len, d, f, i);
    }
}

/// No divergence: with a nonnegative impulse and feedback at most
/// 100 percent, every output of the feedback run stays within
/// `[0, a]`.
pub proof fn lemma_impulse_feedback_bounded(cap: int, a: int, len: int, d: int, f: int)
    requires
        1 <= d <= cap - 1,
        0 <= len,
        0 <= a,
        0 <= f <= 100,
    ensures
        forall|i: int|
            0 <= i < len ==> 0 <= #[trigger] run_outs(fresh_state(cap), impulse(a, len), d, f)[i]
                <= a,
{
    lemma_impulse_feedback(cap, a, len, d, f);
    assert forall|i: int|
        0 <= i < len implies 0 <= #[trigger] run_outs(fresh_state(cap), impulse(a, len), d, f)[i]
        <= a by {
        if i >= d && i % d == 0 {
            lemma_pulse_decay(a, f, (i / d - 1) as nat);
        }
    }
}

/// Geometric decay of the echoes: with a nonnegative amplitude and a
/// feedback fraction of at most 100 percent, every echo stays within
/// `[0, a]`, and echo `n` is at most `a * (f/100)^n` — stated exactly
/// over the integers as `pulse * 100^n <= a * f^n`. With `f` below
/// 100 the echoes can never diverge.
pub proof fn lemma_pulse_decay(a: int, f: int, n: nat)
    requires
        0 <= a,
        0 <= f <= 100,
    ensures
        0 <= pulse(a, f, n) <= a,
        pulse(a, f, n) * pow(100, n) <= a * pow(f, n),
    decreases n,
{
    if n == 0 {
        lemma_pow0(100);
        lemma_pow0(f);
    } else {
        let k = (n - 1) as nat;
        lemma_pulse_decay(a, f, k);
        let p = pulse(a, f, k);
        let cur = pulse(a, f, n);
        lemma_scale_level_bound(p, f);
        assert(cur == scale_level(p, f));
        lemma_mul_nonnegative(p, f);
        lemma_fundamental_div_mod(p * f, 100);
        lemma_mod_division_less_than_divisor(p * f, 100);
        assert(100 * cur <= p * f);
        let pw100 = pow(100, k);
        let pwf = pow(f, k);
        lemma_pow_positive(100, k);
        assert(pow(100, n) == 100 * pw100 && pow(f, n) == f * pwf) by {
            reveal(pow);
        }
        if f == 0 {
            lemma_scale_level_by_zero(p);
            assert(cur == 0);
            lemma0_pow(n);
            lemma_mul_by_zero_is_zero(pow(100, n));
            lemma_mul_by_zero_is_zero(a);
            assert(a * pow(f, n) == 0);
            assert(cur * pow(100, n) == 0);
        } else {
            lemma_pow_positive(f, k);
            assert(cur * pow(100, n) <= a * pow(f, n)) by (nonlinear_arith)
                requires
                    pow(100, n) == 100 * pw100,
                    pow(f, n) == f * pwf,
                    100 * cur <= p * f,
                    p * pw100 <= a * pwf,
                    0 <= cur,
                    0 <= p,
                    0 <= f,
                    0 <= a,
                    1 <= pw100,
                    0 <= pwf,
            {
            }
        }
    }
}

/// Reset idempotence: resetting an already-reset line is a no-op, so
/// any number of consecutive resets yields the same all-zero,
/// cursor-at-start state — the state a freshly built line starts in.
/// Processing after a reset is therefore processing from construction.
pub proof fn lemma_reset_idempotent(cap: int)
    requires
        cap >= 1,
    ensures
        fresh_state(fresh_state(cap).cap()) == fresh_state(cap),
{
}

} // verus!
