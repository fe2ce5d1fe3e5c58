use clipclip::converter::check_rates;
use clipclip::error::Error;
use clipclip::resample::{StreamResampler, CHUNK_IN};

#[test]
fn resamples_48k_to_16k_about_one_third() {
    let mut r = StreamResampler::new(48_000, 16_000).unwrap();
    let input = vec![0.0f32; 48_000]; // 1 s @ 48 kHz
    let mut out = Vec::new();
    r.process(&input, &mut out).unwrap();
    r.flush(&mut out).unwrap();
    // ~1 s @ 16 kHz = ~16000 samples (allow resampler edge slack).
    assert!(
        (15_000..=17_000).contains(&out.len()),
        "got {} samples",
        out.len()
    );
}

#[test]
fn passthrough_when_rates_match() {
    let mut r = StreamResampler::new(16_000, 16_000).unwrap();
    let input = vec![0.5f32; 1000];
    let mut out = Vec::new();
    r.process(&input, &mut out).unwrap();
    assert_eq!(out, input);
}

fn tone(n: usize) -> Vec<f32> {
    (0..n)
        .map(|i| 0.3 * (2.0 * std::f32::consts::PI * 440.0 * i as f32 / 48_000.0).sin())
        .collect()
}

#[test]
fn it_does_not_matter_in_which_pieces_a_stream_arrives() {
    let input = tone(10_000);
    let mut whole = Vec::new();
    let mut r = StreamResampler::new(48_000, 16_000).unwrap();
    r.process(&input, &mut whole).unwrap();
    r.flush(&mut whole).unwrap();

    let mut pieces = Vec::new();
    let mut r = StreamResampler::new(48_000, 16_000).unwrap();
    for piece in input.chunks(333) {
        r.process(piece, &mut pieces).unwrap();
    }
    r.flush(&mut pieces).unwrap();
    assert_eq!(whole, pieces);
}

#[test]
fn chunks_give_whole_blocks_of_frames() {
    // 48 kHz to 16 kHz: three frames become one, 512 frames round up to 513 = 171 * 3, so
    // each 513 frames that came in give 171.
    let mut r = StreamResampler::new(48_000, 16_000).unwrap();
    let mut out = Vec::new();
    for n in 1..20usize {
        r.process(&vec![0.25f32; CHUNK_IN], &mut out).unwrap();
        assert_eq!(out.len(), n * CHUNK_IN / 513 * 171);
    }
    // 44.1 kHz to 16 kHz: 441 become 160; 512 round up to two such units.
    let mut r = StreamResampler::new(44_100, 16_000).unwrap();
    let mut out = Vec::new();
    for n in 1..20usize {
        r.process(&vec![0.25f32; CHUNK_IN], &mut out).unwrap();
        assert_eq!(out.len(), n * CHUNK_IN / 882 * 320);
    }
}

#[test]
fn frames_are_converted_and_not_handed_back() {
    let mut r = StreamResampler::new(8_000, 16_000).unwrap();
    let mut out = Vec::new();
    r.process(&vec![0.5f32; 8 * CHUNK_IN], &mut out).unwrap();
    assert!(out.len() > 8 * CHUNK_IN);
    // A constant stays that constant once the filter has filled.
    for s in &out[out.len() / 2..] {
        assert!((s - 0.5).abs() < 0.01, "got {}", s);
    }
}

#[test]
fn less_than_a_chunk_waits_for_the_flush() {
    let mut r = StreamResampler::new(48_000, 16_000).unwrap();
    let mut out = Vec::new();
    r.process(&vec![0.1f32; CHUNK_IN - 1], &mut out).unwrap();
    assert!(out.is_empty());
    r.flush(&mut out).unwrap();
    assert_eq!(out.len(), 171);
    // Nothing waits any more.
    r.flush(&mut out).unwrap();
    assert_eq!(out.len(), 171);
}

#[test]
fn a_rate_of_zero_is_refused() {
    for &(from, to, told) in [
        (
            0u32,
            16_000u32,
            "0->16000: Input and output sample rates must both be > 0. \
             Provided input: 0, provided output: 16000",
        ),
        (
            48_000,
            0,
            "48000->0: Input and output sample rates must both be > 0. \
             Provided input: 48000, provided output: 0",
        ),
    ]
    .iter()
    {
        match StreamResampler::<f32>::new(from, to) {
            Err(Error::Resample(why)) => assert_eq!(why, told),
            _ => panic!("expected an error"),
        }
    }
    assert!(StreamResampler::<f32>::new(0, 0).is_ok());
}

#[test]
fn rates_that_fit() {
    assert!(check_rates(48_000, 16_000));
    assert!(check_rates(0, 16_000));
    assert!(check_rates(4_000_000_000, 2_000_000_000));
    assert!(!check_rates(u32::MAX, 16_001));
}
