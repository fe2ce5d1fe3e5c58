use clipclip::config::{Config, Format, Source};
use clipclip::pipeline::Fate;
use clipclip::ring::{ring, Inlet};
use clipclip::segment::Track;
use clipclip::source::SourceState;
use clipclip::span::Span;
use clipclip::worker::{after_tick, initial_tracks, Session, Step};

const SECOND: i128 = 1_000_000_000;

type State = SourceState<f32, &'static str>;

fn cfg(source: Source) -> Config<f32> {
    Config {
        source,
        format: Format::Wav,
        sample_rate: 8,
        segment: Span::from_secs(1),
        ..Config::default()
    }
}

fn open(handle: &'static str) -> (Inlet<f32>, State) {
    let (inlet, outlet) = ring();
    (inlet, SourceState::new(handle, 8, 8, outlet).unwrap())
}

fn clamp(gain: f32) -> f32 {
    gain.clamp(0.0, 8.0)
}

fn is_unity(gain: f32) -> bool {
    (gain - 1.0).abs() <= f32::EPSILON
}

fn scaled(gain: f32, s: f32) -> f32 {
    (s * gain).clamp(-1.0, 1.0)
}

fn sum(m: f32, s: f32) -> f32 {
    (m + s).clamp(-1.0, 1.0)
}

fn listen(session: &mut Session<f32, &'static str, f32>, stopping: bool) {
    assert!(session.listen(stopping, &is_unity, &scaled, &sum));
}

/// Cut and deliver every live track of this tick: track, number and samples of each segment.
fn deliver(
    session: &mut Session<f32, &'static str, f32>,
    now: i128,
) -> Vec<(Track, u64, Vec<f32>)> {
    for track in session.live_tracks() {
        session.add_pipe(track);
    }
    let mut got = Vec::new();
    for cut in session.cut_live(now) {
        for window in cut.windows {
            let samples = window.samples.clone();
            if let Some(segment) = session.deliver(cut.track, window, Fate::Encoded(vec![1])) {
                assert_eq!(segment.data, vec![1]);
                got.push((segment.track, segment.index, samples));
            }
        }
    }
    got
}

#[test]
fn a_microphone_alone_makes_its_own_track() {
    let (mut inlet, mic) = open("mic");
    let mut session = Session::new(cfg(Source::Mic), Some(mic), None, &clamp);
    assert!(session.has_pipe(Track::Mic));
    assert!(!session.has_pipe(Track::Mixed) && !session.has_pipe(Track::System));
    assert_eq!(session.used_tracks(), vec![Track::Mic]);
    inlet.feed(&[0.1; 12]);
    listen(&mut session, false);
    assert_eq!(session.arrived(Track::Mic), 12);
    assert_eq!(session.tap(SECOND, &sum).unwrap().samples, &[0.1; 12]);
    assert_eq!(
        deliver(&mut session, SECOND),
        vec![(Track::Mic, 1, vec![0.1; 8])]
    );
    assert_eq!(session.counts(Track::Mic), (12, 1));
    // Four frames wait; they come out at stop.
    listen(&mut session, true);
    assert_eq!(session.arrived(Track::Mic), 0);
    assert!(deliver(&mut session, 2 * SECOND).is_empty());
    assert!(session.flush(Track::Mixed).is_none());
    let tail = session.flush(Track::Mic).unwrap();
    assert_eq!(tail.samples, vec![0.1; 4]);
    assert!(tail.is_final);
}

#[test]
fn two_sources_are_mixed() {
    let (mut mic_in, mic) = open("mic");
    let (mut sys_in, sys) = open("system");
    let mut session = Session::new(cfg(Source::Mixed), Some(mic), Some(sys), &clamp);
    mic_in.feed(&[0.25; 8]);
    sys_in.feed(&[0.5; 10]);
    listen(&mut session, false);
    assert_eq!(session.tap(SECOND, &sum).unwrap().samples, &[0.75; 8]);
    assert_eq!(
        deliver(&mut session, SECOND),
        vec![(Track::Mixed, 1, vec![0.75; 8])]
    );
    // Two system frames wait for the microphone.
    mic_in.feed(&[0.25; 8]);
    listen(&mut session, false);
    assert_eq!(
        deliver(&mut session, SECOND),
        vec![(Track::Mixed, 2, vec![0.75, 0.75, 0.25, 0.25, 0.25, 0.25, 0.25, 0.25])]
    );
}

#[test]
fn separate_tracks_are_kept_apart_and_the_tap_hears_their_mix() {
    let (mut mic_in, mic) = open("mic");
    let (mut sys_in, sys) = open("system");
    let mut session = Session::new(cfg(Source::Separate), Some(mic), Some(sys), &clamp);
    mic_in.feed(&[0.25; 8]);
    sys_in.feed(&[0.5; 8]);
    listen(&mut session, false);
    assert_eq!(session.arrived(Track::Mixed), 0);
    assert_eq!(session.tap(SECOND, &sum).unwrap().samples, &[0.75; 8]);
    assert_eq!(
        deliver(&mut session, SECOND),
        vec![(Track::Mic, 1, vec![0.25; 8]), (Track::System, 1, vec![0.5; 8])]
    );
    assert_eq!(session.counts(Track::Mixed), (0, 0));
}

#[test]
fn gains_apply_before_mixing() {
    let (mut mic_in, mic) = open("mic");
    let (mut sys_in, sys) = open("system");
    let config = Config { mic_gain: 2.0, system_gain: 100.0, ..cfg(Source::Separate) };
    let mut session = Session::new(config, Some(mic), Some(sys), &clamp);
    mic_in.feed(&[0.25; 8]);
    sys_in.feed(&[0.0625; 8]);
    listen(&mut session, false);
    // A gain of one hundred is clamped to eight.
    assert_eq!(
        deliver(&mut session, SECOND),
        vec![(Track::Mic, 1, vec![0.5; 8]), (Track::System, 1, vec![0.5; 8])]
    );
    session.set_gains(1.0, -3.0, &clamp);
    mic_in.feed(&[0.25; 8]);
    sys_in.feed(&[0.25; 8]);
    listen(&mut session, false);
    assert_eq!(
        deliver(&mut session, SECOND),
        vec![(Track::Mic, 2, vec![0.25; 8]), (Track::System, 2, vec![0.0; 8])]
    );
}

#[test]
fn switching_live_goes_on_with_the_same_numbers() {
    let (mut mic_in, mic) = open("mic");
    let mut session = Session::new(cfg(Source::Mic), Some(mic), None, &clamp);
    mic_in.feed(&[0.1; 10]);
    listen(&mut session, false);
    assert_eq!(deliver(&mut session, SECOND).len(), 1);

    assert_eq!(session.missing_sources(Source::Separate), (false, true));
    let (mut sys_in, sys) = open("system");
    session.set_source(Source::Separate, None, Some(sys));
    mic_in.feed(&[0.1; 6]);
    sys_in.feed(&[0.2; 8]);
    listen(&mut session, false);
    assert_eq!(
        deliver(&mut session, 2 * SECOND),
        vec![(Track::Mic, 2, vec![0.1; 8]), (Track::System, 1, vec![0.2; 8])]
    );

    // Mixed: a third track, and what waits on the others is not lost.
    mic_in.feed(&[0.1; 3]);
    listen(&mut session, false);
    assert!(deliver(&mut session, 3 * SECOND).is_empty());
    session.set_source(Source::Mixed, None, None);
    mic_in.feed(&[0.25; 8]);
    sys_in.feed(&[0.25; 8]);
    listen(&mut session, false);
    assert_eq!(
        deliver(&mut session, 4 * SECOND),
        vec![(Track::Mixed, 1, vec![0.5; 8])]
    );
    assert_eq!(session.flush(Track::Mic).unwrap().samples, vec![0.1; 3]);
    assert!(session.flush(Track::System).is_none());
}

#[test]
fn a_remainder_left_by_a_switch_ends_with_its_own_audio() {
    let (mut mic_in, mic) = open("mic");
    let (mut sys_in, sys) = open("system");
    let mut session = Session::new(cfg(Source::Mixed), Some(mic), Some(sys), &clamp);
    mic_in.feed(&[0.25; 4]);
    sys_in.feed(&[0.25; 4]);
    listen(&mut session, false);
    assert!(deliver(&mut session, 10 * SECOND).is_empty());
    session.set_source(Source::Separate, None, None);
    for t in 11..20 {
        mic_in.feed(&[0.25; 3]);
        listen(&mut session, false);
        deliver(&mut session, t * SECOND);
    }
    listen(&mut session, true);
    deliver(&mut session, 30 * SECOND);
    assert_eq!(session.used_tracks(), vec![Track::Mixed, Track::Mic, Track::System]);
    let tail = session.flush(Track::Mixed).unwrap();
    assert_eq!((tail.start, tail.end), (10 * SECOND - SECOND / 2, 10 * SECOND));
    // The microphone was still recorded at the stop.
    assert_eq!(session.flush(Track::Mic).unwrap().end, 30 * SECOND);
    assert!(session.flush(Track::System).is_none());
}

#[test]
fn a_frame_that_cannot_be_resampled_ends_the_recording() {
    let (mut inlet, outlet) = ring();
    let mic = SourceState::new("mic", 16, 8, outlet).unwrap();
    let mut session = Session::new(cfg(Source::Mic), Some(mic), None, &clamp);
    inlet.feed(&[0.1, f32::NAN]);
    assert!(!session.listen(false, &is_unity, &scaled, &sum));
}

#[test]
fn a_failed_switch_keeps_recording_what_there_is() {
    let (mut mic_in, mic) = open("mic");
    let mut session = Session::new(cfg(Source::Mic), Some(mic), None, &clamp);
    session.set_source(Source::System, None, None);
    mic_in.feed(&[0.1; 8]);
    listen(&mut session, false);
    assert_eq!(
        deliver(&mut session, SECOND),
        vec![(Track::Mic, 1, vec![0.1; 8])]
    );
}

#[test]
fn a_track_without_a_pipeline_is_skipped() {
    let (mut sys_in, sys) = open("system");
    let mut session = Session::new(cfg(Source::Mic), None, Some(sys), &clamp);
    sys_in.feed(&[0.1; 8]);
    listen(&mut session, false);
    assert_eq!(session.live_tracks(), vec![Track::System]);
    assert!(session.cut(Track::System, SECOND).is_empty());
}

#[test]
fn stopping_takes_all_that_is_left() {
    let (mut mic_in, mic) = open("mic");
    let mut session = Session::new(cfg(Source::Mic), Some(mic), None, &clamp);
    mic_in.feed(&[0.3; 20]);
    listen(&mut session, true);
    let got = deliver(&mut session, SECOND);
    assert_eq!(got, vec![(Track::Mic, 1, vec![0.3; 8]), (Track::Mic, 2, vec![0.3; 8])]);
    assert_eq!(session.flush(Track::Mic).unwrap().samples, vec![0.3; 4]);
    assert!(session.flush(Track::Mic).is_none());
}

/// Which windows of the stop are final, and what is flushed after them, where `n` frames were
/// left and a tail must be `least` seconds long.
fn stop_with(n: usize, least: u64) -> (Vec<bool>, Option<(usize, bool)>) {
    let (mut mic_in, mic) = open("mic");
    let config = Config { min_final_segment: Span::from_secs(least), ..cfg(Source::Mic) };
    let mut session = Session::new(config, Some(mic), None, &clamp);
    mic_in.feed(&vec![0.3; n]);
    listen(&mut session, true);
    let windows = session.cut(Track::Mic, SECOND);
    let tail = session.flush(Track::Mic);
    (
        windows.iter().map(|w| w.is_final).collect(),
        tail.map(|w| (w.samples.len(), w.is_final)),
    )
}

#[test]
fn the_last_window_of_a_stop_is_final() {
    // Nothing remains after the full windows.
    assert_eq!(stop_with(16, 0), (vec![false, true], None));
    // What remains is final.
    assert_eq!(stop_with(20, 0), (vec![false, false], Some((4, true))));
    // What remains is too short and dropped.
    assert_eq!(stop_with(20, 1), (vec![false, true], None));
    assert_eq!(stop_with(4, 1), (vec![], None));
    assert_eq!(stop_with(0, 0), (vec![], None));
}

#[test]
fn no_window_is_final_before_the_stop() {
    let (mut mic_in, mic) = open("mic");
    let mut session = Session::new(cfg(Source::Mic), Some(mic), None, &clamp);
    mic_in.feed(&[0.3; 16]);
    listen(&mut session, false);
    assert!(session.cut(Track::Mic, SECOND).iter().all(|w| !w.is_final));
}

#[test]
fn every_live_track_is_cut_in_order() {
    let (mut mic_in, mic) = open("mic");
    let (mut sys_in, sys) = open("system");
    let mut session = Session::new(cfg(Source::Separate), Some(mic), Some(sys), &clamp);
    mic_in.feed(&[0.1; 17]);
    sys_in.feed(&[0.2; 5]);
    listen(&mut session, false);
    let cuts = session.cut_live(SECOND);
    let counts: Vec<(Track, usize)> = cuts.iter().map(|c| (c.track, c.windows.len())).collect();
    assert_eq!(counts, vec![(Track::Mic, 2), (Track::System, 0)]);
    let tails = session.flush_all();
    let left: Vec<(Track, Option<Vec<f32>>)> =
        tails.into_iter().map(|t| (t.track, t.window.map(|w| w.samples))).collect();
    assert_eq!(
        left,
        vec![
            (Track::Mixed, None),
            (Track::Mic, Some(vec![0.1])),
            (Track::System, Some(vec![0.2; 5])),
        ]
    );
}

#[test]
fn a_whole_session_loses_no_frame_of_any_track() {
    let (mut mic_in, mic) = open("mic");
    let mut session = Session::new(cfg(Source::Mic), Some(mic), None, &clamp);
    let sound = |from: usize, n: usize| -> Vec<f32> {
        (from..from + n).map(|i| i as f32 / 1024.0).collect()
    };
    let mut got = Vec::new();
    for t in 0..5 {
        mic_in.feed(&sound(5 * t, 5));
        listen(&mut session, false);
        got.extend(deliver(&mut session, t as i128 * SECOND));
    }
    let (mut sys_in, sys) = open("system");
    session.set_source(Source::Separate, None, Some(sys));
    for t in 5..9 {
        mic_in.feed(&sound(5 * t, 5));
        sys_in.feed(&sound(100 + 3 * t, 3));
        listen(&mut session, false);
        got.extend(deliver(&mut session, t as i128 * SECOND));
    }
    session.set_source(Source::System, None, None);
    sys_in.feed(&sound(127, 4));
    listen(&mut session, true);
    got.extend(deliver(&mut session, 9 * SECOND));
    for tail in session.flush_all() {
        if let Some(window) = tail.window {
            let samples = window.samples.clone();
            let segment = session.deliver(tail.track, window, Fate::Encoded(vec![1])).unwrap();
            assert!(segment.is_final);
            got.push((segment.track, segment.index, samples));
        }
    }
    let heard = |track: Track| -> Vec<f32> {
        got.iter().filter(|s| s.0 == track).flat_map(|s| s.2.clone()).collect()
    };
    let numbers = |track: Track| -> Vec<u64> {
        got.iter().filter(|s| s.0 == track).map(|s| s.1).collect()
    };
    assert_eq!(heard(Track::Mic), sound(0, 45));
    assert_eq!(heard(Track::System), sound(115, 16));
    assert!(heard(Track::Mixed).is_empty());
    assert_eq!(numbers(Track::Mic), vec![1, 2, 3, 4, 5, 6]);
    assert_eq!(numbers(Track::System), vec![1, 2]);
}

#[test]
fn a_resampled_session_keeps_all_that_comes_out_of_its_source() {
    let sound: Vec<f32> = (0..10_000).map(|i| (i as f32 / 50.0).sin()).collect();
    // The source on its own.
    let (mut alone_in, outlet) = ring();
    let mut alone = SourceState::new("alone", 16, 8, outlet).unwrap();
    alone_in.feed(&sound);
    let mut expected = Vec::new();
    assert!(alone.flush_into(&mut expected));
    // The source in a session, in many ticks.
    let (mut inlet, outlet) = ring();
    let mic = SourceState::new("mic", 16, 8, outlet).unwrap();
    let mut session = Session::new(cfg(Source::Mic), Some(mic), None, &clamp);
    let mut heard: Vec<f32> = Vec::new();
    for (t, piece) in sound.chunks(333).enumerate() {
        inlet.feed(piece);
        listen(&mut session, false);
        heard.extend(deliver(&mut session, t as i128 * SECOND).into_iter().flat_map(|s| s.2));
    }
    listen(&mut session, true);
    heard.extend(deliver(&mut session, 100 * SECOND).into_iter().flat_map(|s| s.2));
    for tail in session.flush_all() {
        heard.extend(tail.window.into_iter().flat_map(|w| w.samples));
    }
    assert!(!expected.is_empty());
    assert_eq!(heard, expected);
}

#[test]
fn every_mode_has_its_tracks() {
    assert_eq!(initial_tracks(Source::Mic), vec![Track::Mic]);
    assert_eq!(initial_tracks(Source::System), vec![Track::System]);
    assert_eq!(initial_tracks(Source::Mixed), vec![Track::Mixed]);
    assert_eq!(initial_tracks(Source::Separate), vec![Track::Mic, Track::System]);
}

#[test]
fn a_fault_or_a_request_stops_the_worker() {
    assert_eq!(after_tick(Some(false), false), Step::Wait);
    assert_eq!(after_tick(Some(false), true), Step::Stop);
    assert_eq!(after_tick(Some(true), false), Step::Stop);
    assert_eq!(after_tick(None, false), Step::Stop);
}

#[test]
fn no_more_than_a_second_of_system_audio_waits() {
    let (mut mic_in, mic) = open("mic");
    let (mut sys_in, sys) = open("system");
    let mut session = Session::new(cfg(Source::Mixed), Some(mic), Some(sys), &clamp);
    let system: Vec<f32> = (0..100).map(|i| i as f32 / 1000.0).collect();
    sys_in.feed(&system);
    listen(&mut session, false);
    mic_in.feed(&[0.0; 10]);
    listen(&mut session, false);
    let mut expected = system[92..].to_vec();
    expected.extend([0.0, 0.0]);
    assert_eq!(session.tap(SECOND, &sum).unwrap().samples, &expected[..]);
}
