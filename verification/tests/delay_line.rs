use stereo_delay::delay_line::DelayLine;
use stereo_delay::processor::{mix_sample, scale_sample};

/// Feeds `inputs` through a fresh line with a fixed requested delay
/// and feedback percentage, returning the delayed taps in order.
fn run_line(capacity: usize, inputs: &[i64], delay_samples: usize, feedback_pct: u64) -> Vec<i64> {
    let mut line = DelayLine::new(capacity);
    let mut outs = Vec::new();
    for &x in inputs {
        let delayed = line.process(x, delay_samples);
        let fb = scale_sample(delayed, feedback_pct);
        line.inject_feedback(fb);
        outs.push(delayed);
    }
    outs
}

#[test]
fn impulse_emerges_at_exactly_the_delay() {
    // Unit impulse, zero feedback: non-zero output exactly at index d,
    // silence at every other index up to 2 d.
    let d = 3;
    let mut inputs = vec![0i64; 7];
    inputs[0] = 10;
    let outs = run_line(8, &inputs, d, 0);
    for (i, &o) in outs.iter().enumerate() {
        if i == d {
            assert_eq!(o, 10);
        } else {
            assert_eq!(o, 0);
        }
    }
}

#[test]
fn impulse_positions_hold_for_every_delay_under_capacity() {
    let capacity = 16;
    for d in 1..capacity {
        let mut inputs = vec![0i64; 2 * d + 1];
        inputs[0] = 1_000;
        let outs = run_line(capacity, &inputs, d, 0);
        for (i, &o) in outs.iter().enumerate() {
            assert_eq!(o, if i == d { 1_000 } else { 0 });
        }
    }
}

#[test]
fn requested_delay_at_or_over_capacity_clamps_to_capacity_minus_one() {
    // A ramp through a 4-slot line with an absurd requested delay
    // behaves exactly like a delay of 3 samples.
    let inputs = [1i64, 2, 3, 4, 5, 6, 7];
    let clamped = run_line(4, &inputs, 10, 0);
    let longest = run_line(4, &inputs, 3, 0);
    assert_eq!(clamped, longest);
    assert_eq!(clamped, vec![0, 0, 0, 1, 2, 3, 4]);
}

#[test]
fn feedback_echoes_decay_geometrically() {
    // Impulse of 1000 with 50% feedback and delay 4: echoes at 4, 8,
    // 12 scaled by 1, 1/2, 1/4 — and silence everywhere else.
    let mut inputs = vec![0i64; 13];
    inputs[0] = 1_000;
    let outs = run_line(16, &inputs, 4, 50);
    let mut expected = vec![0i64; 13];
    expected[4] = 1_000;
    expected[8] = 500;
    expected[12] = 250;
    assert_eq!(outs, expected);
}

#[test]
fn feedback_output_stays_bounded_by_the_impulse() {
    // 95% feedback, many echoes: every output stays within the
    // impulse amplitude and keeps shrinking.
    let mut inputs = vec![0i64; 200];
    inputs[0] = 1_000_000;
    let outs = run_line(8, &inputs, 2, 95);
    let mut previous_pulse = 1_000_000i64;
    for (i, &o) in outs.iter().enumerate() {
        assert!(o.abs() <= 1_000_000);
        if i >= 2 && i % 2 == 0 {
            assert!(o <= previous_pulse);
            previous_pulse = o;
        } else {
            assert_eq!(o, 0);
        }
    }
}

#[test]
fn zero_requested_delay_reads_the_oldest_slot() {
    // With a requested delay of 0 the tap is read before the write,
    // so the impulse re-emerges only after a full buffer rotation,
    // not at index 0.
    let capacity = 4;
    let mut inputs = vec![0i64; 6];
    inputs[0] = 7;
    let outs = run_line(capacity, &inputs, 0, 0);
    assert_eq!(outs, vec![0, 0, 0, 0, 7, 0]);
}

#[test]
fn reset_silences_the_line() {
    let mut line = DelayLine::new(8);
    for x in [5i64, -3, 9, 11, 2] {
        line.process(x, 2);
    }
    line.reset();
    line.reset();
    // All zeros and cursor at the start: the next 8 taps are silence
    // and an impulse behaves exactly as from construction.
    let mut fresh = DelayLine::new(8);
    for i in 0..20 {
        let x = if i == 0 { 42 } else { 0 };
        assert_eq!(line.process(x, 5), fresh.process(x, 5));
    }
}

#[test]
fn capacity_is_fixed() {
    let line = DelayLine::new(192_000);
    assert_eq!(line.capacity(), 192_000);
}

#[test]
fn scale_sample_truncates_toward_zero() {
    assert_eq!(scale_sample(10, 70), 7);
    assert_eq!(scale_sample(-10, 70), -7);
    assert_eq!(scale_sample(99, 50), 49);
    assert_eq!(scale_sample(-99, 50), -49);
    assert_eq!(scale_sample(123, 0), 0);
    assert_eq!(scale_sample(123, 100), 123);
}

#[test]
fn mix_is_exactly_dry_plus_wet() {
    // output = dry% * input + wet% * delayed, each term exact.
    assert_eq!(mix_sample(10, 20, 70, 30), 7 + 6);
    assert_eq!(mix_sample(-10, 20, 70, 30), -7 + 6);
    assert_eq!(mix_sample(100, -200, 25, 75), 25 - 150);
    assert_eq!(mix_sample(1, 1, 100, 100), 2);
    assert_eq!(mix_sample(0, 0, 100, 100), 0);
}
