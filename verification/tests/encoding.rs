use clipclip::config::Format;
use clipclip::encode::{encode, encode_wav};
use clipclip::error::Error;
use clipclip::opus::{opus_rate, OpusAction, OpusEncoding, OpusRate, OpusReply};

fn tone(n: usize) -> Vec<f32> {
    (0..n)
        .map(|i| 0.3 * (2.0 * std::f32::consts::PI * 440.0 * i as f32 / 16_000.0).sin())
        .collect()
}

fn quantise(s: f32) -> i16 {
    (s.clamp(-1.0, 1.0) * 32767.0) as i16
}

fn no_encoder(_: OpusEncoding, _: &[f32]) -> Result<Vec<u8>, Error> {
    panic!("not asked for")
}

#[test]
fn wav_has_riff_header_and_expected_size() {
    let pcm = tone(16_000);
    let data = encode(Format::Wav, &pcm, 16_000, 1, 24_000, &quantise, no_encoder).unwrap();
    assert_eq!(&data[0..4], b"RIFF");
    assert_eq!(&data[8..12], b"WAVE");
    assert_eq!(data.len(), 44 + pcm.len() * 2);
}

#[test]
fn a_short_wav_file_byte_by_byte() {
    let data = encode_wav(&[0.0f32, 1.0, -1.0, 2.0], 16_000, 1, &quantise);
    let mut expected: Vec<u8> = Vec::new();
    expected.extend_from_slice(b"RIFF");
    expected.extend_from_slice(&44u32.to_le_bytes());
    expected.extend_from_slice(b"WAVEfmt ");
    expected.extend_from_slice(&16u32.to_le_bytes());
    expected.extend_from_slice(&1u16.to_le_bytes());
    expected.extend_from_slice(&1u16.to_le_bytes());
    expected.extend_from_slice(&16_000u32.to_le_bytes());
    expected.extend_from_slice(&32_000u32.to_le_bytes());
    expected.extend_from_slice(&2u16.to_le_bytes());
    expected.extend_from_slice(&16u16.to_le_bytes());
    expected.extend_from_slice(b"data");
    expected.extend_from_slice(&8u32.to_le_bytes());
    for v in [0i16, 32767, -32767, 32767] {
        expected.extend_from_slice(&v.to_le_bytes());
    }
    assert_eq!(data, expected);
}

#[test]
fn wav_samples_read_back() {
    let pcm = tone(1_000);
    let data = encode_wav(&pcm, 48_000, 2, &quantise);
    for (i, s) in pcm.iter().enumerate() {
        let v = i16::from_le_bytes([data[44 + 2 * i], data[45 + 2 * i]]);
        assert_eq!(v, quantise(*s));
    }
}

#[test]
fn opus_has_five_rates() {
    assert_eq!(opus_rate(48_000).unwrap(), OpusRate::Hz48000);
    assert_eq!(opus_rate(24_000).unwrap(), OpusRate::Hz24000);
    assert_eq!(opus_rate(16_000).unwrap(), OpusRate::Hz16000);
    assert_eq!(opus_rate(12_000).unwrap(), OpusRate::Hz12000);
    assert_eq!(opus_rate(8_000).unwrap(), OpusRate::Hz8000);
    match encode(Format::Opus, &tone(10), 44_100, 1, 24_000, &quantise, no_encoder) {
        Err(Error::Encode(why)) => assert_eq!(why, "unsupported Opus sample rate 44100"),
        _ => panic!("expected an error"),
    }
}

/// Replies like an encoder that has these pages before and after it is drained.
fn run(mut encoding: OpusEncoding, early: Vec<u8>, late: Vec<u8>) -> (Vec<OpusAction>, Vec<u8>) {
    let mut asked = Vec::new();
    let (mut early, mut late) = (Some(early), Some(late));
    loop {
        let action = encoding.action();
        asked.push(action);
        let reply = match action {
            OpusAction::Finished => return (asked, encoding.into_bytes()),
            OpusAction::PullPage { flush: false } => match early.take() {
                Some(page) => OpusReply::Page(page),
                None => OpusReply::NoPage,
            },
            OpusAction::PullPage { flush: true } => match late.take() {
                Some(page) => OpusReply::Page(page),
                None => OpusReply::NoPage,
            },
            OpusAction::AddComment => OpusReply::Failed("too long".to_string()),
            _ => OpusReply::Done,
        };
        encoding.advance(reply).unwrap();
    }
}

#[test]
fn an_opus_file_is_all_pages_in_order() {
    let (asked, bytes) =
        run(OpusEncoding::begin(16_000, 1, 24_000).unwrap(), vec![1, 2], vec![3, 4, 5]);
    assert_eq!(
        asked,
        vec![
            OpusAction::CreateComments,
            OpusAction::AddComment,
            OpusAction::CreateEncoder(OpusRate::Hz16000, 1),
            OpusAction::Configure(24_000),
            OpusAction::WriteSamples,
            OpusAction::PullPage { flush: false },
            OpusAction::PullPage { flush: false },
            OpusAction::Drain,
            OpusAction::PullPage { flush: true },
            OpusAction::PullPage { flush: true },
            OpusAction::Finished,
        ]
    );
    assert_eq!(bytes, vec![1, 2, 3, 4, 5]);
}

#[test]
fn encoding_opus_runs_the_encoder() {
    let samples = tone(10);
    let bytes = encode(
        Format::Opus,
        &samples,
        16_000,
        1,
        24_000,
        &quantise,
        |encoding: OpusEncoding, given: &[f32]| {
            assert_eq!(given, &tone(10)[..]);
            Ok(run(encoding, vec![7], vec![8]).1)
        },
    );
    assert_eq!(bytes.unwrap(), vec![7, 8]);
}

#[test]
fn an_encoder_failure_is_told() {
    let mut encoding = OpusEncoding::begin(8_000, 1, 24_000).unwrap();
    match encoding.advance(OpusReply::Failed("no memory".to_string())) {
        Err(Error::Encode(why)) => assert_eq!(why, "no memory"),
        other => panic!("{:?}", other),
    }
}
