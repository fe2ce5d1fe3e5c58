use std::time::Duration;

use clipclip::config::{Activity, Config, Format, Source};
use clipclip::error::Error;
use clipclip::span::{nanos_of_frames, samples_in, Span};

fn default_config() -> Config<f32> {
    Config::default()
}

#[test]
fn min_final_samples_scales_with_rate() {
    let cfg: Config<f32> = Config {
        sample_rate: 16_000,
        min_final_segment: Span::from_secs(3),
        ..Config::default()
    };
    assert_eq!(cfg.min_final_samples(), 48_000);
}

#[test]
fn default_keeps_every_tail() {
    // The default mirrors `Activity::KeepAll`: nothing is dropped unasked.
    let span = default_config().min_final_segment;
    assert_eq!((span.secs, span.nanos), (0, 0));
    assert_eq!(default_config().min_final_samples(), 0);
}

#[test]
fn source_predicates() {
    assert!(Source::Separate.needs_mic() && Source::Separate.needs_system());
    assert!(Source::Mixed.needs_mic() && Source::Mixed.needs_system());
    assert!(Source::Separate.is_separate());
    assert!(!Source::Mixed.is_separate());
    assert!(Source::Mic.needs_mic() && !Source::Mic.needs_system());
}

#[test]
fn both_is_mixed() {
    assert_eq!(Source::Both, Source::Mixed);
    assert!(!Source::System.needs_mic() && Source::System.needs_system());
}

#[test]
fn default_config_has_the_documented_values() {
    let cfg = default_config();
    assert_eq!(cfg.source, Source::Mic);
    assert_eq!((cfg.segment.secs, cfg.segment.nanos), (30, 0));
    assert_eq!(cfg.format, Format::Opus);
    assert!(matches!(cfg.activity, Activity::KeepAll));
    assert_eq!(cfg.sample_rate, 16_000);
    assert_eq!(cfg.mic_gain, 1.0);
    assert_eq!(cfg.system_gain, 1.0);
    assert_eq!(cfg.opus_bitrate, 24_000);
    assert_eq!(cfg.segment_samples(), 480_000);
    assert!(cfg.validate().is_ok());
}

#[test]
fn gates_have_their_defaults() {
    match Activity::<f32>::energy() {
        Activity::Energy { threshold_dbfs, min_active_ratio } => {
            assert_eq!(threshold_dbfs, -50.0);
            assert_eq!(min_active_ratio, 0.0);
        }
        _ => panic!("not an energy gate"),
    }
    match Activity::<f32>::silero() {
        Activity::Silero { threshold, min_active_ratio } => {
            assert_eq!(threshold, 0.5);
            assert_eq!(min_active_ratio, 0.0);
        }
        _ => panic!("not a speech gate"),
    }
    assert!(matches!(Activity::<f32>::default(), Activity::KeepAll));
}

fn reason(cfg: Config<f32>) -> String {
    match cfg.validate() {
        Err(Error::Config(why)) => why,
        other => panic!("expected a configuration error, got {:?}", other),
    }
}

#[test]
fn rejects_what_no_recording_can_follow() {
    assert_eq!(
        reason(Config { sample_rate: 0, ..Config::default() }),
        "sample_rate must be > 0"
    );
    assert_eq!(
        reason(Config { segment: Span::zero(), ..Config::default() }),
        "segment must be > 0"
    );
    // One microsecond at 16 kHz rounds to no sample.
    assert_eq!(
        reason(Config { segment: Span { secs: 0, nanos: 1_000 }, ..Config::default() }),
        "segment must be > 0"
    );
    assert_eq!(
        reason(Config {
            activity: Activity::silero(),
            sample_rate: 48_000,
            ..Config::default()
        }),
        "Silero VAD requires sample_rate = 16000"
    );
    let speech: Config<f32> = Config { activity: Activity::silero(), ..Config::default() };
    assert!(speech.validate().is_ok());
}

#[test]
fn sample_counts_are_those_of_double_precision() {
    let rates = [1u32, 7, 8_000, 11_025, 16_000, 44_100, 48_000, 192_000, u32::MAX];
    let spans = [
        (0u64, 0u32),
        (0, 1),
        (0, 31_250),
        (0, 500_000_000),
        (0, 999_999_999),
        (1, 1),
        (3, 333_333_333),
        (30, 0),
        (86_399, 999_999_999),
        (10_000_000_000, 123_456_789),
        (u64::MAX, 999_999_999),
    ];
    for &rate in rates.iter() {
        for &(secs, nanos) in spans.iter() {
            let expected = (Duration::new(secs, nanos).as_secs_f64() * rate as f64).round() as usize;
            assert_eq!(
                samples_in(rate, Span { secs, nanos }),
                expected,
                "{} Hz, {} s {} ns",
                rate,
                secs,
                nanos
            );
        }
    }
}

#[test]
fn frame_times_are_those_of_double_precision() {
    let rates = [1u32, 3, 8_000, 11_025, 16_000, 44_100, 48_000, u32::MAX];
    let counts = [
        0u64,
        1,
        2,
        3,
        511,
        16_000,
        44_099,
        48_001,
        123_456_789,
        9_007_199_254_740_993,
        1 << 60,
    ];
    for &rate in rates.iter() {
        for &frames in counts.iter() {
            let expected = Duration::from_secs_f64(frames as f64 / rate as f64).as_nanos();
            assert_eq!(nanos_of_frames(frames, rate), expected, "{} at {} Hz", frames, rate);
        }
    }
}

#[test]
fn whole_seconds_convert_exactly() {
    assert_eq!(samples_in(44_100, Span::from_secs(7)), 308_700);
    assert_eq!(nanos_of_frames(308_700, 44_100), 7_000_000_000);
    assert_eq!(samples_in(16_000, Span::from_millis(1_500)), 24_000);
}

#[test]
fn frame_times_are_right_to_the_nanosecond() {
    for &frames in [1u64, 17, 44_099, 441_001, 100_000_000].iter() {
        let nanos = nanos_of_frames(frames, 44_100) as i128;
        let error = nanos * 44_100 - frames as i128 * 1_000_000_000;
        assert!(error.abs() < 44_100);
    }
}
