use stereo_delay::params::DelayParams;
use stereo_delay::processor::StereoDelayProcessor;

fn block(len: usize, impulse_at: Option<usize>, amplitude: i64) -> Vec<i64> {
    let mut v = vec![0i64; len];
    if let Some(i) = impulse_at {
        v[i] = amplitude;
    }
    v
}

#[test]
fn hundred_ms_impulse_at_forty_four_one_khz() {
    // capacity 44100, delay 100 ms at 44.1 kHz = 4410 samples, no
    // feedback, 70% dry / 30% wet, impulse input over 8820 samples:
    // output is 70% of the impulse at index 0, 30% at index 4410,
    // silence everywhere else.
    let mut p = StereoDelayProcessor::new(44_100);
    assert!(p.initialize(44_100));
    let params = DelayParams::new(100_000, 0, 30, 70);
    let mut left = block(8_820, Some(0), 10);
    let mut right = block(8_820, Some(0), 10);
    assert!(p.process_block(&mut left, &mut right, &params));
    for (i, &o) in left.iter().enumerate() {
        let expected = match i {
            0 => 7,
            4_410 => 3,
            _ => 0,
        };
        assert_eq!(o, expected, "left index {}", i);
        assert_eq!(right[i], expected, "right index {}", i);
    }
}

#[test]
fn delay_time_converts_to_whole_samples() {
    let p = DelayParams::new(250_000, 30, 30, 70);
    assert_eq!(p.delay_samples(48_000), 12_000);
    assert_eq!(p.delay_samples(44_100), 11_025);
    // 1 ms at 44.1 kHz truncates: 44.1 -> 44 samples.
    let q = DelayParams::new(1_000, 0, 0, 0);
    assert_eq!(q.delay_samples(44_100), 44);
}

#[test]
fn defaults_match_the_documented_values() {
    let p = DelayParams::default();
    assert_eq!(p.delay_time_us, 250_000);
    assert_eq!(p.feedback_pct, 30);
    assert_eq!(p.wet_pct, 30);
    assert_eq!(p.dry_pct, 70);
    let proc = StereoDelayProcessor::default();
    assert_eq!(proc.capacity(), 192_000);
    assert_eq!(proc.sample_rate(), 44_100);
    assert!(!proc.is_running());
}

#[test]
fn idle_processor_leaves_the_block_untouched() {
    let mut p = StereoDelayProcessor::new(64);
    let params = DelayParams::default();
    let mut left = vec![1i64, 2, 3];
    let mut right = vec![4i64, 5, 6];
    assert!(!p.process_block(&mut left, &mut right, &params));
    assert_eq!(left, vec![1, 2, 3]);
    assert_eq!(right, vec![4, 5, 6]);
}

#[test]
fn reset_processing_equals_fresh_processing() {
    // Run junk through one processor, reset it several times; from
    // then on it behaves exactly like a freshly built one.
    let params = DelayParams::new(2_000, 50, 80, 20);
    let mut seasoned = StereoDelayProcessor::new(128);
    assert!(seasoned.initialize(48_000));
    let mut junk_l = (0..300).map(|i| (i * 37 % 101) - 50).collect::<Vec<i64>>();
    let mut junk_r = junk_l.clone();
    assert!(seasoned.process_block(&mut junk_l, &mut junk_r, &params));
    seasoned.reset();
    seasoned.reset();
    seasoned.reset();

    let mut fresh = StereoDelayProcessor::new(128);
    assert!(fresh.initialize(48_000));

    let probe = (0..300).map(|i| if i % 7 == 0 { 900 - i } else { 0 }).collect::<Vec<i64>>();
    let mut a_l = probe.clone();
    let mut a_r = probe.clone();
    let mut b_l = probe.clone();
    let mut b_r = probe;
    assert!(seasoned.process_block(&mut a_l, &mut a_r, &params));
    assert!(fresh.process_block(&mut b_l, &mut b_r, &params));
    assert_eq!(a_l, b_l);
    assert_eq!(a_r, b_r);
}

#[test]
fn channels_are_independent() {
    let mut p = StereoDelayProcessor::new(32);
    assert!(p.initialize(1_000_000));
    // 1000 microseconds at 1 MHz: 1000 samples of delay.
    let params = DelayParams::new(1_000, 0, 100, 0);
    assert_eq!(params.delay_samples(1_000_000), 1_000);
    let mut left = block(12, Some(0), 64);
    let mut right = block(12, Some(3), -32);
    // Clamped: requested 1000 samples, capacity 32 -> delay 31; use a
    // smaller block so taps stay silent, then check nothing leaked.
    assert!(p.process_block(&mut left, &mut right, &params));
    assert_eq!(left, vec![0i64; 12]);
    assert_eq!(right, vec![0i64; 12]);

    // Now with a delay inside the block: each channel echoes only its
    // own impulse.
    let mut p = StereoDelayProcessor::new(4);
    assert!(p.initialize(1_000_000));
    let params = DelayParams::new(1_000, 0, 100, 0);
    let mut left = block(12, Some(0), 64);
    let mut right = block(12, Some(1), -32);
    assert!(p.process_block(&mut left, &mut right, &params));
    // Requested 1000 clamps to capacity - 1 = 3.
    let mut expect_left = vec![0i64; 12];
    expect_left[3] = 64;
    let mut expect_right = vec![0i64; 12];
    expect_right[4] = -32;
    assert_eq!(left, expect_left);
    assert_eq!(right, expect_right);
}

#[test]
fn feedback_runs_through_the_block() {
    // Requested delay of 2000 samples through a 3-slot line clamps to
    // 2; 50% feedback, fully wet: echoes at 2, 4, 6, ...
    let params = DelayParams::new(1_000, 50, 100, 0);
    assert_eq!(params.delay_samples(2_000_000), 2_000);
    let mut p = StereoDelayProcessor::new(3);
    assert!(p.initialize(2_000_000));
    let mut left = block(9, Some(0), 800);
    let mut right = block(9, None, 0);
    assert!(p.process_block(&mut left, &mut right, &params));
    assert_eq!(left, vec![0, 0, 800, 0, 400, 0, 200, 0, 100]);
    assert_eq!(right, vec![0i64; 9]);
}

#[test]
fn initialize_stores_the_rate_and_marks_running() {
    let mut p = StereoDelayProcessor::new(16);
    assert!(!p.is_running());
    assert!(p.initialize(96_000));
    assert!(p.is_running());
    assert_eq!(p.sample_rate(), 96_000);
    p.reset();
    assert!(p.is_running());
    assert_eq!(p.sample_rate(), 96_000);
}
