use clipclip::config::{Activity, Config, Format};
use clipclip::encode::encode_wav;
use clipclip::error::Error;
use clipclip::pipeline::{fate, number, place, Fate, TrackPipeline, Window};
use clipclip::segment::{Segment, Track};
use clipclip::span::Span;
use clipclip::timestamp::EARLIEST;
use clipclip::vad::EnergyGate;

const SECOND: i128 = 1_000_000_000;

fn cfg_1s() -> Config<f32> {
    Config {
        format: Format::Wav,
        sample_rate: 16_000,
        segment: Span::from_secs(1),
        min_final_segment: Span::from_secs(3),
        ..Config::default()
    }
}

fn encoded(window: &Window<f32>) -> Fate {
    let quantise = |s: f32| (s.clamp(-1.0, 1.0) * 32767.0) as i16;
    Fate::Encoded(encode_wav(&window.samples, 16_000, 1, &quantise))
}

/// Count how many segments come of the given buffer/`is_final`, using a 3 s
/// `min_final_segment` and keeping all so only the length gate can drop anything.
fn delivered(samples: &[f32], is_final: bool) -> usize {
    let cfg = cfg_1s();
    let (mut index, mut frames_done) = (0u64, 0u64);
    let pushed = samples.len() as u64;
    let mut count = 0usize;
    if let Some(window) =
        place(samples.to_vec(), &cfg, &mut frames_done, pushed, 0, is_final, is_final)
    {
        let fate = encoded(&window);
        if number(window, Track::Mic, &cfg, fate, &mut index).is_some() {
            count += 1;
        }
    }
    assert_eq!(frames_done, pushed);
    count
}

#[test]
fn drops_short_final_tail() {
    // 1 s < 3 s, final -> dropped.
    assert_eq!(delivered(&vec![0.1f32; 16_000], true), 0);
}

#[test]
fn keeps_long_final_tail() {
    // 5 s >= 3 s, final -> kept.
    assert_eq!(delivered(&vec![0.1f32; 16_000 * 5], true), 1);
}

#[test]
fn min_final_only_applies_to_the_tail() {
    // 1 s but not final -> kept (full segments are never length-gated).
    assert_eq!(delivered(&vec![0.1f32; 16_000], false), 1);
}

#[test]
fn full_windows_at_stop_are_never_held_to_the_least_length() {
    let cfg = cfg_1s();
    let mut mic: TrackPipeline<f32> = TrackPipeline::new(Track::Mic, &cfg);
    let windows = mic.push(&vec![0.1f32; 24_000], &cfg, 2 * SECOND, true);
    assert_eq!(windows.len(), 1);
    assert!(windows[0].is_final);
    // The half second that is left is too short.
    assert!(mic.flush(&cfg).is_none());
    // It does not come back.
    assert!(mic.flush(&cfg).is_none());
}

/// Push `samples` through a pipeline, keeping what `keep` says.
fn run(
    pipe: &mut TrackPipeline<f32>,
    samples: &[f32],
    cfg: &Config<f32>,
    now: i128,
    keep: &dyn Fn(&[f32]) -> bool,
) -> Vec<Segment> {
    let mut got = Vec::new();
    for window in pipe.push(samples, cfg, now, false) {
        let fate = if keep(&window.samples) { encoded(&window) } else { Fate::Silent };
        if let Some(segment) = pipe.deliver(window, cfg, fate) {
            got.push(segment);
        }
    }
    got
}

#[test]
fn pipeline_tags_track_and_numbers_per_instance() {
    let cfg = cfg_1s();
    // Two pipelines stand in for the mic and system tracks.
    let mut mic = TrackPipeline::new(Track::Mic, &cfg);
    let mut sys = TrackPipeline::new(Track::System, &cfg);

    let mut got: Vec<(Track, u64)> = Vec::new();
    // 2 s of mic -> two full 1 s segments; 1 s of system -> one.
    for seg in run(&mut mic, &vec![0.2f32; 16_000 * 2], &cfg, 0, &|_| true) {
        got.push((seg.track, seg.index));
    }
    for seg in run(&mut sys, &vec![0.2f32; 16_000], &cfg, 0, &|_| true) {
        got.push((seg.track, seg.index));
    }

    // Each track is tagged correctly and numbered from 1 independently.
    assert_eq!(got, vec![(Track::Mic, 1), (Track::Mic, 2), (Track::System, 1)]);
}

#[test]
fn timestamps_are_contiguous_within_a_batch() {
    let cfg = cfg_1s(); // 1 s segments at 16 kHz
    let mut mic = TrackPipeline::new(Track::Mic, &cfg);
    let mut got: Vec<(String, String)> = Vec::new();
    // 2 s captured up to t = epoch + 2 s -> two back-to-back 1 s windows
    // ending at +1 s and +2 s, both read off that one clock value.
    let now = 2 * SECOND;
    for seg in run(&mut mic, &vec![0.2f32; 16_000 * 2], &cfg, now, &|_| true) {
        got.push((seg.start_time, seg.end_time));
    }
    assert_eq!(
        got,
        vec![
            (
                "1970-01-01T00:00:00.000Z".to_string(),
                "1970-01-01T00:00:01.000Z".to_string()
            ),
            (
                "1970-01-01T00:00:01.000Z".to_string(),
                "1970-01-01T00:00:02.000Z".to_string()
            ),
        ]
    );
}

#[test]
fn dropped_silent_window_does_not_shift_later_timestamps() {
    // Energy gate: a silent 1 s window is dropped, but the next (loud) window
    // is still timestamped at +1..+2 s: the drop doesn't pull it earlier.
    let cfg = Config { activity: Activity::energy(), ..cfg_1s() };
    let (threshold_dbfs, min_active_ratio) = match cfg.activity {
        Activity::Energy { threshold_dbfs, min_active_ratio } => (threshold_dbfs, min_active_ratio),
        _ => panic!("not an energy gate"),
    };
    let threshold = 10f32.powf(threshold_dbfs / 20.0);
    let gate = EnergyGate::new(
        cfg.sample_rate,
        move |w: &[f32]| {
            let sum_sq: f32 = w.iter().map(|x| x * x).sum();
            (sum_sq / w.len() as f32).sqrt() >= threshold
        },
        move |active: usize, total: usize| (active as f32 / total as f32) >= min_active_ratio,
    );
    let mut mic = TrackPipeline::new(Track::Mic, &cfg);
    let mut buf = vec![0.0f32; 16_000]; // 1 s of silence -> dropped
    buf.extend(vec![0.3f32; 16_000]); // 1 s of tone -> kept
    let now = 2 * SECOND;
    let got: Vec<(u64, String, String)> = run(&mut mic, &buf, &cfg, now, &|s| gate.is_active(s))
        .into_iter()
        .map(|seg| (seg.index, seg.start_time, seg.end_time))
        .collect();
    assert_eq!(
        got,
        vec![(
            1,
            "1970-01-01T00:00:01.000Z".to_string(),
            "1970-01-01T00:00:02.000Z".to_string()
        )]
    );
}

#[test]
fn timestamps_come_from_the_capture_clock() {
    // Times track the wall clock passed in, not any fixed recording origin,
    // so a track started live is correct from the moment its audio arrives.
    let cfg = cfg_1s();
    let mut sys = TrackPipeline::new(Track::System, &cfg);
    let now = 300 * SECOND; // captured 5 min in
    let got: Vec<(String, String)> = run(&mut sys, &vec![0.2f32; 16_000], &cfg, now, &|_| true)
        .into_iter()
        .map(|seg| (seg.start_time, seg.end_time))
        .collect();
    assert_eq!(
        got,
        vec![(
            "1970-01-01T00:04:59.000Z".to_string(),
            "1970-01-01T00:05:00.000Z".to_string()
        )]
    );
}

#[test]
fn a_segment_carries_all_it_should() {
    let cfg = cfg_1s();
    let mut mic = TrackPipeline::new(Track::Mic, &cfg);
    let got = run(&mut mic, &vec![0.2f32; 16_000], &cfg, 60 * SECOND, &|_| true);
    assert_eq!(got.len(), 1);
    assert_eq!(got[0].track, Track::Mic);
    assert_eq!(got[0].index, 1);
    assert_eq!(got[0].data.len(), 44 + 32_000);
    assert_eq!(got[0].format, Format::Wav);
    assert_eq!(got[0].sample_rate, 16_000);
    assert_eq!(got[0].channels, 1);
    assert_eq!(got[0].frames, 16_000);
    assert!(!got[0].is_final);
    assert_eq!(mic.delivered(), 1);
    assert_eq!(mic.frames(), 16_000);
}

#[test]
fn windows_end_before_what_follows_them() {
    let cfg = cfg_1s();
    let mut mic: TrackPipeline<f32> = TrackPipeline::new(Track::Mic, &cfg);
    // A quarter of a second waits; 1.5 s follow: one window, 0.75 s before now.
    assert!(mic.push(&vec![0.1; 4_000], &cfg, 100 * SECOND, false).is_empty());
    let windows = mic.push(&vec![0.1; 24_000], &cfg, 101 * SECOND, false);
    assert_eq!(windows.len(), 1);
    assert_eq!(windows[0].end, 101 * SECOND - 750_000_000);
    assert_eq!(windows[0].start, 100 * SECOND - 750_000_000);
    // The rest comes out at stop, were it long enough.
    let keep_all = Config { min_final_segment: Span::zero(), ..cfg_1s() };
    let tail = mic.flush(&keep_all).unwrap();
    assert_eq!(tail.samples.len(), 12_000);
    assert_eq!(tail.end, 101 * SECOND);
    assert_eq!(tail.start, 101 * SECOND - 750_000_000);
    assert!(tail.is_final);
}

#[test]
fn windows_of_any_length_touch() {
    // 0.1 s at 44.1 kHz is 4410 frames, which take no whole number of nanoseconds each.
    let cfg: Config<f32> = Config {
        sample_rate: 44_100,
        segment: Span::from_millis(37),
        ..cfg_1s()
    };
    let mut mic: TrackPipeline<f32> = TrackPipeline::new(Track::Mic, &cfg);
    let windows = mic.push(&vec![0.1; 100_000], &cfg, 1_700_000_000 * SECOND, false);
    assert!(windows.len() > 50);
    for pair in windows.windows(2) {
        assert!((pair[0].end - pair[1].start).abs() <= 2);
    }
}

#[test]
fn what_cannot_be_encoded_takes_no_number() {
    let cfg = cfg_1s();
    let mut mic: TrackPipeline<f32> = TrackPipeline::new(Track::Mic, &cfg);
    let mut numbers = Vec::new();
    for (i, window) in mic.push(&vec![0.1; 64_000], &cfg, 10 * SECOND, false).into_iter().enumerate() {
        let fate = match i {
            0 => Fate::Silent,
            2 => Fate::Failed,
            _ => encoded(&window),
        };
        if let Some(segment) = mic.deliver(window, &cfg, fate) {
            numbers.push(segment.index);
        }
    }
    assert_eq!(numbers, vec![1, 2]);
}

#[test]
fn what_remains_ends_with_the_latest_push() {
    let cfg = Config { min_final_segment: Span::zero(), ..cfg_1s() };
    let mut mic: TrackPipeline<f32> = TrackPipeline::new(Track::Mic, &cfg);
    mic.push(&vec![0.1; 8_000], &cfg, 50 * SECOND, false);
    // A push without frames moves the clock on.
    mic.push(&[], &cfg, 51 * SECOND, false);
    let tail = mic.flush(&cfg).unwrap();
    assert_eq!((tail.start, tail.end), (51 * SECOND - 500_000_000, 51 * SECOND));
}

#[test]
fn a_whole_recording_keeps_every_frame() {
    let cfg = Config { min_final_segment: Span::zero(), ..cfg_1s() };
    let mut mic: TrackPipeline<f32> = TrackPipeline::new(Track::Mic, &cfg);
    let input: Vec<f32> = (0..70_000).map(|i| i as f32 / 70_000.0).collect();
    let (mut heard, mut segments) = (Vec::new(), Vec::new());
    for (t, piece) in input.chunks(7_001).enumerate() {
        for window in mic.push(piece, &cfg, t as i128 * SECOND, false) {
            heard.extend(window.samples.clone());
            let fate = encoded(&window);
            segments.extend(mic.deliver(window, &cfg, fate));
        }
    }
    if let Some(window) = mic.flush(&cfg) {
        heard.extend(window.samples.clone());
        let fate = encoded(&window);
        segments.extend(mic.deliver(window, &cfg, fate));
    }
    assert_eq!(heard, input);
    let numbers: Vec<u64> = segments.iter().map(|s| s.index).collect();
    assert_eq!(numbers, vec![1, 2, 3, 4, 5]);
    let frames: Vec<usize> = segments.iter().map(|s| s.frames).collect();
    assert_eq!(frames, vec![16_000, 16_000, 16_000, 16_000, 6_000]);
    let marks: Vec<bool> = segments.iter().map(|s| s.is_final).collect();
    assert_eq!(marks, vec![false, false, false, false, true]);
}

#[test]
fn the_fate_of_a_window() {
    assert!(matches!(fate(true, Ok(vec![1, 2])), Fate::Encoded(data) if data == vec![1, 2]));
    assert!(matches!(fate(true, Err(Error::Encode("full".to_string()))), Fate::Failed));
    assert!(matches!(fate(false, Ok(vec![1])), Fate::Silent));
    assert!(matches!(fate(false, Err(Error::Encode("full".to_string()))), Fate::Silent));
}

#[test]
fn a_clock_at_its_beginning_is_left_alone() {
    let cfg = cfg_1s();
    let mut mic: TrackPipeline<f32> = TrackPipeline::new(Track::Mic, &cfg);
    let windows = mic.push(&vec![0.1; 16_000], &cfg, EARLIEST, false);
    assert_eq!((windows[0].start, windows[0].end), (EARLIEST, EARLIEST));
}
