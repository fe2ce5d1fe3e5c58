use clipclip::mix::{mix_into, scale_in_place};
use clipclip::tap::{tap_separate, tap_single, TapMix};

fn sum(m: f32, s: f32) -> f32 {
    (m + s).clamp(-1.0, 1.0)
}

fn is_unity(gain: f32) -> bool {
    (gain - 1.0).abs() <= f32::EPSILON
}

fn scaled(gain: f32, s: f32) -> f32 {
    (s * gain).clamp(-1.0, 1.0)
}

#[test]
fn separate_tap_mixes_into_one_mono_stream() {
    let mut got: Vec<Vec<f32>> = Vec::new();
    let mut mix = TapMix::new();
    let now = 1_700_000_000_000_000_000i128;

    // both sources active: summed, mic as clock master
    if let Some(f) = tap_separate(
        &mut mix,
        &[0.5, 0.5],
        &[0.25, -0.25],
        true,
        true,
        16_000,
        16_000,
        now,
        &sum,
    ) {
        assert_eq!(f.sample_rate, 16_000);
        assert_eq!(f.captured_at, now);
        got.push(f.samples.to_vec());
    }
    // only the mic active: passthrough, the mix buffers stay untouched
    if let Some(f) =
        tap_separate(&mut mix, &[0.1], &[], true, false, 16_000, 16_000, now, &sum)
    {
        assert_eq!(f.sample_rate, 16_000);
        got.push(f.samples.to_vec());
    }
    // no samples this tick: no delivery
    if let Some(f) = tap_separate(&mut mix, &[], &[], true, true, 16_000, 16_000, now, &sum) {
        got.push(f.samples.to_vec());
    }

    assert_eq!(got, vec![vec![0.75, 0.25], vec![0.1]]);
}

#[test]
fn single_tap_borrows_the_delivery_buffer_and_none_is_a_noop() {
    let mut got: Vec<Vec<f32>> = Vec::new();
    let now = 1_700_000_000_000_000_000i128;
    let buffer = [0.5f32, -0.5];
    if let Some(f) = tap_single(true, &buffer, 16_000, now) {
        assert_eq!(f.samples.as_ptr(), buffer.as_ptr());
        got.push(f.samples.to_vec());
    }
    let empty: [f32; 0] = [];
    if let Some(f) = tap_single(true, &empty, 16_000, now) {
        // empty tick: no delivery
        got.push(f.samples.to_vec());
    }
    assert_eq!(got, vec![vec![0.5, -0.5]]);

    assert!(tap_single(false, &[0.5f32], 16_000, now).is_none()); // no tap: no-op
}

#[test]
fn a_tap_of_system_audio_alone_passes_it_on() {
    let mut mix = TapMix::new();
    let f = tap_separate(&mut mix, &[], &[0.2, 0.3], false, true, 10, 16_000, 7, &sum).unwrap();
    assert_eq!(f.samples, &[0.2, 0.3]);
    assert!(tap_separate(&mut mix, &[0.1], &[0.2], false, false, 10, 16_000, 7, &sum).is_none());
}

#[test]
fn the_microphone_is_the_clock_master() {
    let mut residual = Vec::new();
    let mut out = vec![9.0];
    // System ahead by two: they wait.
    mix_into(&[0.1], &[0.2, 0.3, 0.4], &mut residual, &mut out, 10, &sum);
    assert_eq!(out, vec![0.1 + 0.2]);
    assert_eq!(residual, vec![0.3, 0.4]);
    // System behind by one: silence.
    mix_into(&[0.5, 0.5, 0.5], &[], &mut residual, &mut out, 10, &sum);
    assert_eq!(out, vec![0.5 + 0.3, 0.5 + 0.4, 0.5]);
    assert!(residual.is_empty());
    // Sums are clamped.
    mix_into(&[0.9], &[0.9], &mut residual, &mut out, 10, &sum);
    assert_eq!(out, vec![1.0]);
}

#[test]
fn no_more_than_the_cap_waits() {
    let mut residual = Vec::new();
    let mut out = Vec::new();
    let sys: Vec<i32> = (0..100).collect();
    mix_into(&[0i32], &sys, &mut residual, &mut out, 3, &|m: i32, s: i32| m + s);
    assert_eq!(out, vec![0]);
    assert_eq!(residual, vec![97, 98, 99]);
}

#[test]
fn gains_scale_and_clamp() {
    let mut buf = vec![0.25f32, -0.5, 0.75];
    scale_in_place(&mut buf, 2.0, &is_unity, &scaled);
    assert_eq!(buf, vec![0.5, -1.0, 1.0]);
    let mut loud = vec![1.5f32];
    scale_in_place(&mut loud, 1.0, &is_unity, &scaled);
    assert_eq!(loud, vec![1.5]);
}
