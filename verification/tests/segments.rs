use clipclip::config::Format;
use clipclip::segment::{Segment, Track};
use clipclip::segmenter::Segmenter;

#[test]
fn cuts_full_segments_and_flushes_remainder() {
    let mut seg = Segmenter::new(100);
    let mut lens = Vec::new();
    // 250 samples -> two full 100s during push...
    for s in seg.push(&vec![1.0f32; 250]) {
        lens.push(s.len());
    }
    assert_eq!(lens, vec![100, 100]);
    // ...and a 50-sample remainder on flush.
    if let Some(s) = seg.flush() {
        lens.push(s.len());
    }
    assert_eq!(lens, vec![100, 100, 50]);
}

#[test]
fn no_flush_when_empty() {
    let mut seg: Segmenter<f32> = Segmenter::new(100);
    assert!(seg.flush().is_none());
}

#[test]
fn cutting_keeps_every_sample_in_order() {
    let mut seg = Segmenter::new(4);
    let mut heard: Vec<i32> = Vec::new();
    for piece in [&[1, 2, 3][..], &[][..], &[4, 5, 6, 7, 8, 9][..], &[10][..]] {
        for s in seg.push(piece) {
            assert_eq!(s.len(), 4);
            heard.extend(s);
        }
    }
    assert_eq!(heard, vec![1, 2, 3, 4, 5, 6, 7, 8]);
    assert_eq!(seg.flush(), Some(vec![9, 10]));
    assert_eq!(seg.flush(), None);
}

#[test]
fn tracks_and_files_have_their_names() {
    assert_eq!(Track::Mixed.as_str(), "mixed");
    assert_eq!(Track::Mic.as_str(), "mic");
    assert_eq!(Track::System.as_str(), "system");
    let mut segment = Segment {
        track: Track::Mic,
        index: 1,
        data: vec![],
        format: Format::Opus,
        sample_rate: 16_000,
        channels: 1,
        frames: 0,
        start_time: String::new(),
        end_time: String::new(),
        is_final: false,
    };
    assert_eq!(segment.extension(), "opus");
    segment.format = Format::Wav;
    assert_eq!(segment.extension(), "wav");
}
