use clipclip::capture::{downmix, ends_with, find_monitor, holds, pick_monitor, record_fault};
use clipclip::config::Source;
use clipclip::ring::{ring, RING_CAPACITY};
use clipclip::sample::{are_bearable, has_headroom};
use clipclip::source::{apply_source, missing_sources, SourceState};

#[test]
fn a_ring_gives_back_what_was_written() {
    let (mut inlet, outlet) = ring::<f32>();
    let mut source = SourceState::new("mic", 16_000, 16_000, outlet).unwrap();
    let frames: Vec<f32> = (0..10_000).map(|i| i as f32).collect();
    assert_eq!(inlet.feed(&frames[..7_000]), 0);
    assert_eq!(inlet.feed(&frames[7_000..]), 0);
    let mut out = vec![-1.0];
    assert!(source.drain_into(&mut out));
    assert_eq!(out[0], -1.0);
    assert_eq!(&out[1..], &frames[..]);
    // Nothing is left.
    source.drain_into(&mut out);
    assert_eq!(out.len(), 10_001);
}

#[test]
fn a_full_ring_drops_what_is_too_much() {
    let (mut inlet, outlet) = ring::<f32>();
    let frames = vec![0.5f32; RING_CAPACITY - 10];
    assert_eq!(inlet.feed(&frames), 0);
    assert_eq!(inlet.feed(&[1.0; 25]), 15);
    assert_eq!(inlet.feed(&[2.0; 3]), 3);
    let mut source = SourceState::new((), 16_000, 16_000, outlet).unwrap();
    let mut out = Vec::new();
    source.drain_into(&mut out);
    assert_eq!(out.len(), RING_CAPACITY);
    assert_eq!(out[RING_CAPACITY - 11], 0.5);
    assert_eq!(out[RING_CAPACITY - 10], 1.0);
    assert_eq!(inlet.feed(&[2.0; 3]), 0);
}

#[test]
fn a_source_resamples_and_flushes() {
    let (mut inlet, outlet) = ring::<f32>();
    let mut source = SourceState::new((), 48_000, 16_000, outlet).unwrap();
    inlet.feed(&vec![0.1f32; 48_000]);
    let mut out = Vec::new();
    source.drain_into(&mut out);
    // 46 whole chunks came in: 47104 frames are 91 blocks of 513.
    assert_eq!(out.len(), 91 * 171);
    source.stop_stream();
    assert!(source.flush_into(&mut out));
    assert_eq!(out.len(), 48_128 / 513 * 171);
}

#[test]
fn what_cannot_be_resampled_is_refused() {
    for bad in [f32::NAN, f32::INFINITY, f32::NEG_INFINITY, f32::MAX, -1e30] {
        assert!(!has_headroom(bad));
        let (mut inlet, outlet) = ring::<f32>();
        let mut source = SourceState::new((), 48_000, 16_000, outlet).unwrap();
        inlet.feed(&[0.5; 2_000]);
        let mut out = Vec::new();
        assert!(source.drain_into(&mut out));
        inlet.feed(&[0.5, bad, 0.5]);
        assert!(!source.drain_into(&mut out));
        // Where the rates are the same, any frame passes.
        let (mut inlet, outlet) = ring::<f32>();
        let mut source = SourceState::new((), 16_000, 16_000, outlet).unwrap();
        inlet.feed(&[bad]);
        let mut out = Vec::new();
        assert!(source.drain_into(&mut out));
        assert_eq!(out.len(), 1);
    }
    assert!(are_bearable(&[0.0f32, -1.0, 1.0, 32_767.0, -40_000.0, 1e20]));
    assert!(!are_bearable(&[0.0f64, f64::NAN]));
    assert!(are_bearable(&[1e200f64, f64::MIN_POSITIVE]));
}

#[test]
fn loud_frames_are_resampled() {
    for (from, to) in [(48_000, 16_000), (44_100, 16_000), (44_101, 48_000)] {
        for loud in [40_000.0f32, -1e9, 1e20, -2e20] {
            assert!(has_headroom(loud));
            let (mut inlet, outlet) = ring::<f32>();
            let mut source = SourceState::new((), from, to, outlet).unwrap();
            inlet.feed(&[loud; 20_000]);
            let mut out = Vec::new();
            assert!(source.drain_into(&mut out));
            assert!(source.flush_into(&mut out));
            assert!(out.iter().all(|s| s.is_finite()));
        }
    }
}

#[test]
fn a_source_without_a_rate_is_refused() {
    let (_inlet, outlet) = ring::<f32>();
    assert!(SourceState::new((), 0, 16_000, outlet).is_err());
}

#[test]
fn stopping_a_source_drops_its_stream() {
    let stream = std::rc::Rc::new(());
    let (_inlet, outlet) = ring::<f32>();
    let mut source = SourceState::new(stream.clone(), 16_000, 16_000, outlet).unwrap();
    assert_eq!(std::rc::Rc::strong_count(&stream), 2);
    source.stop_stream();
    assert_eq!(std::rc::Rc::strong_count(&stream), 1);
}

fn switch(
    target: Source,
    mic: Option<u8>,
    sys: Option<u8>,
    opened_mic: Option<u8>,
    opened_sys: Option<u8>,
) -> (Option<u8>, Option<u8>, usize) {
    let (mut mic, mut sys, mut residual) = (mic, sys, vec![0.5f32]);
    apply_source(target, &mut mic, &mut sys, opened_mic, opened_sys, &mut residual);
    (mic, sys, residual.len())
}

#[test]
fn switching_opens_before_it_closes() {
    assert_eq!(missing_sources(Source::Mixed, true, false), (false, true));
    assert_eq!(missing_sources(Source::System, true, false), (false, true));
    assert_eq!(missing_sources(Source::Separate, false, false), (true, true));
    // Microphone to system: the microphone goes once system audio is there.
    assert_eq!(switch(Source::System, Some(1), None, None, Some(2)), (None, Some(2), 0));
    // It could not be opened: the microphone stays.
    assert_eq!(switch(Source::System, Some(1), None, None, None), (Some(1), None, 1));
    // Live sources that are needed stay as they are, and so does what waits.
    assert_eq!(switch(Source::Mixed, Some(1), Some(2), Some(3), Some(4)), (Some(1), Some(2), 1));
    assert_eq!(switch(Source::Mic, Some(1), Some(2), None, None), (Some(1), None, 1));
    assert_eq!(switch(Source::Separate, None, Some(2), Some(3), None), (Some(3), Some(2), 1));
}

#[test]
fn the_last_source_is_never_dropped() {
    for target in [Source::Mic, Source::System, Source::Mixed, Source::Separate] {
        for (mic, sys) in [(Some(1), None), (None, Some(2)), (Some(1), Some(2))] {
            let (mic, sys, _) = switch(target, mic, sys, None, None);
            assert!(mic.is_some() || sys.is_some());
        }
    }
}

fn averaged(data: &[i16], channels: usize) -> Vec<f32> {
    let mut out = vec![9.0];
    downmix(
        data,
        channels,
        &|acc: f32, s: i16| acc + s as f32,
        &|acc: f32| acc / channels as f32,
        &mut out,
    );
    out
}

#[test]
fn frames_are_averaged() {
    assert_eq!(averaged(&[1, 2, 3], 1), vec![1.0, 2.0, 3.0]);
    assert_eq!(averaged(&[1, 3, 10, 20], 2), vec![2.0, 15.0]);
    // The last frame may be cut short; it is divided by all channels.
    assert_eq!(averaged(&[1, 3, 10], 2), vec![2.0, 5.0]);
    assert!(averaged(&[], 2).is_empty());
}

#[test]
fn the_first_fault_is_remembered() {
    let mut slot = None;
    record_fault(&mut slot, "mic", "unplugged");
    assert_eq!(slot.as_deref(), Some("[mic] unplugged"));
    record_fault(&mut slot, "system", "gone");
    assert_eq!(slot.as_deref(), Some("[mic] unplugged"));
}

#[test]
fn the_first_monitor_is_found() {
    let names = |list: &[&str]| -> Vec<String> { list.iter().map(|s| s.to_string()).collect() };
    let list = names(&["Mic", "MONITOR of Speakers", "Monitor of HDMI"]);
    assert_eq!(find_monitor(&list, None), Some(1));
    assert_eq!(find_monitor(&list, Some("Headset")), Some(1));
    assert_eq!(find_monitor(&names(&["alsa_output.pci.monitor"]), None), Some(0));
    assert_eq!(find_monitor(&names(&["Mic", "Moni tor", ""]), Some("Mic")), None);
    assert_eq!(find_monitor(&names(&[]), None), None);
}

#[test]
fn the_default_outputs_monitor_comes_first() {
    let list: Vec<String> = ["HDMI microphone", "Monitor of Speakers", "Monitor of HDMI"]
        .iter()
        .map(|s| s.to_string())
        .collect();
    assert_eq!(find_monitor(&list, Some("hdmi")), Some(2));
    assert_eq!(find_monitor(&list, Some("SPEAKERS")), Some(1));
    let lower = vec!["monitor of a".to_string(), "monitor of b".to_string()];
    assert_eq!(pick_monitor(&lower, Some("b")), Some(1));
    assert_eq!(pick_monitor(&lower, Some("c")), Some(0));
    assert_eq!(pick_monitor(&lower, None), Some(0));
}

#[test]
fn a_name_that_ends_with_the_outputs_comes_before_one_that_holds_it() {
    let list = |names: &[&str]| -> Vec<String> { names.iter().map(|s| s.to_string()).collect() };
    let both = list(&["Monitor of Speakers 2", "Monitor of Speakers"]);
    assert_eq!(find_monitor(&both, Some("Speakers")), Some(1));
    assert_eq!(find_monitor(&both, Some("Speakers 2")), Some(0));
    // Only held: the first that holds it.
    let held = list(&["monitor", "speakers.monitor", "speakers 2.monitor"]);
    assert_eq!(find_monitor(&held, Some("speakers")), Some(1));
    // What ends with the name but is no monitor does not count.
    let other = list(&["Line of Speakers", "Speakers, monitor"]);
    assert_eq!(find_monitor(&other, Some("Speakers")), Some(1));
    assert!(ends_with("monitor of a", "a") && ends_with("a", "a") && ends_with("a", ""));
    assert!(!ends_with("a b", "a") && !ends_with("a", "ba"));
}

#[test]
fn text_is_found_where_it_stands() {
    assert!(holds("a monitor", "monitor"));
    assert!(holds("momonitor", "monitor"));
    assert!(!holds("monito", "monitor"));
    assert!(!holds("", "monitor"));
    assert!(holds("", ""));
    assert!(holds("\u{e4}monitor\u{e4}", "monitor"));
}
