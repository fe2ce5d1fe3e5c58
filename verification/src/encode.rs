//! Encode one mono segment into in-memory bytes.
//!
//! No files are written here: the bytes are handed to the user's handler.

use vstd::prelude::*;
use crate::config::Format;
use crate::error::Error;
use crate::opus::OpusEncoding;

verus! {

/// `x` as two bytes, the least significant first.
pub open spec fn le16(x: int) -> Seq<u8> {
    seq![(x % 256) as u8, (x / 256 % 256) as u8]
}

/// `x` as four bytes, the least significant first.
pub open spec fn le32(x: int) -> Seq<u8> {
    seq![
        (x % 256) as u8,
        (x / 256 % 256) as u8,
        (x / 65_536 % 256) as u8,
        (x / 16_777_216 % 256) as u8,
    ]
}

/// A 16-bit sample in two's complement.
pub open spec fn twos_complement(v: i16) -> int {
    if v < 0 { v + 65_536 } else { v as int }
}

/// The samples of `pcm` one after the other, each in two bytes.
pub open spec fn pcm_bytes(pcm: Seq<i16>) -> Seq<u8> {
    Seq::new(
        2 * pcm.len(),
        |i: int| le16(twos_complement(pcm[i / 2]))[i % 2],
    )
}

/// The header of a 16-bit PCM WAV file with `data_len` bytes of samples: the RIFF and WAVE
/// marks, the format chunk, and the head of the data chunk.
#[verifier::opaque]
pub open spec fn wav_header(data_len: int, sample_rate: u32, channels: u16) -> Seq<u8> {
    seq![0x52u8, 0x49, 0x46, 0x46] + le32(36 + data_len) + seq![0x57u8, 0x41, 0x56, 0x45]
        + seq![0x66u8, 0x6d, 0x74, 0x20] + le32(16) + le16(1) + le16(channels as int)
        + le32(sample_rate as int) + le32(sample_rate * channels * 2) + le16(channels * 2)
        + le16(16) + seq![0x64u8, 0x61, 0x74, 0x61] + le32(data_len)
}

/// The bytes of samples that the header of a file with `n` samples speaks of: the low 32 bits.
pub open spec fn data_len(n: nat) -> int {
    ((2 * n) % 0x1_0000_0000) as int
}

/// A complete 16-bit PCM WAV file.
pub open spec fn wav(pcm: Seq<i16>, sample_rate: u32, channels: u16) -> Seq<u8> {
    wav_header(data_len(pcm.len()), sample_rate, channels) + pcm_bytes(pcm)
}

/// Whether the fields of the header are wide enough for these values.
pub open spec fn wav_fits(n: nat, sample_rate: u32, channels: u16) -> bool {
    &&& channels * 2 <= u16::MAX
    &&& sample_rate * channels * 2 <= u32::MAX
    &&& 36 + data_len(n) <= u32::MAX
}

/// Whether the fields of the header are wide enough for these values.
pub fn check_wav(n: usize, sample_rate: u32, channels: u16) -> (fit: bool)
    ensures
        fit == wav_fits(n as nat, sample_rate, channels),
{
    let data_len: u64 = (n as u128 * 2 % 0x1_0000_0000) as u64;
    if channels > 0x7fff {
        return false;
    }
    let (rate, width): (u64, u64) = (sample_rate as u64, channels as u64);
    assert(0 <= rate * width <= 0xffff_ffff * 0x7fff) by (nonlinear_arith)
        requires
            0 <= rate <= 0xffff_ffff,
            0 <= width <= 0x7fff,
    ;
    rate * width * 2 <= u32::MAX as u64 && 36 + data_len <= u32::MAX as u64
}

/// Whether `pcm` is what `quantise` makes of `samples`, one by one.
pub open spec fn quantised<S, Q: Fn(S) -> i16>(
    quantise: Q,
    samples: Seq<S>,
    pcm: Seq<i16>,
) -> bool {
    &&& pcm.len() == samples.len()
    &&& forall|i: int|
        0 <= i < samples.len() ==> #[trigger] call_ensures(quantise, (samples[i],), pcm[i])
}

/// Whether `bytes` are a WAV file of what `quantise` makes of `samples`.
pub open spec fn is_wav_of<S, Q: Fn(S) -> i16>(
    quantise: Q,
    samples: Seq<S>,
    sample_rate: u32,
    channels: u16,
    bytes: Seq<u8>,
) -> bool {
    exists|pcm: Seq<i16>| #[trigger]
        quantised(quantise, samples, pcm) && bytes == wav(pcm, sample_rate, channels)
}

fn push_le16(out: &mut Vec<u8>, x: u16)
    ensures
        final(out)@ == old(out)@ + le16(x as int),
{
    out.push((x % 256) as u8);
    out.push((x / 256) as u8);
    assert(out@ =~= old(out)@ + le16(x as int));
}

fn push_le32(out: &mut Vec<u8>, x: u32)
    ensures
        final(out)@ == old(out)@ + le32(x as int),
{
    out.push((x % 256) as u8);
    out.push((x / 256 % 256) as u8);
    out.push((x / 65_536 % 256) as u8);
    out.push((x / 16_777_216) as u8);
    assert(out@ =~= old(out)@ + le32(x as int));
}

fn push_mark(out: &mut Vec<u8>, a: u8, b: u8, c: u8, d: u8)
    ensures
        final(out)@ == old(out)@ + seq![a, b, c, d],
{
    out.push(a);
    out.push(b);
    out.push(c);
    out.push(d);
    assert(out@ =~= old(out)@ + seq![a, b, c, d]);
}

fn header(data_len: u32, sample_rate: u32, channels: u16) -> (out: Vec<u8>)
    requires
        channels * 2 <= u16::MAX,
        sample_rate * channels * 2 <= u32::MAX,
        36 + data_len <= u32::MAX,
    ensures
        out@ == wav_header(data_len as int, sample_rate, channels),
{
    let block_align: u16 = channels * 2;
    assert(sample_rate * (channels * 2) == sample_rate * channels * 2) by (nonlinear_arith);
    let byte_rate: u32 = sample_rate * block_align as u32;
    let mut out: Vec<u8> = Vec::new();
    push_mark(&mut out, 0x52, 0x49, 0x46, 0x46);
    assert(out@ =~= seq![0x52u8, 0x49, 0x46, 0x46]);
    push_le32(&mut out, 36 + data_len);
    push_mark(&mut out, 0x57, 0x41, 0x56, 0x45);
    push_mark(&mut out, 0x66, 0x6d, 0x74, 0x20);
    push_le32(&mut out, 16);
    push_le16(&mut out, 1);
    push_le16(&mut out, channels);
    push_le32(&mut out, sample_rate);
    push_le32(&mut out, byte_rate);
    push_le16(&mut out, block_align);
    push_le16(&mut out, 16);
    push_mark(&mut out, 0x64, 0x61, 0x74, 0x61);
    push_le32(&mut out, data_len);
    proof {
        reveal(wav_header);
    }
    out
}

fn push_pcm<S: Copy, Q: Fn(S) -> i16>(out: &mut Vec<u8>, samples: &[S], quantise: &Q)
    requires
        forall|s: S| call_requires(*quantise, (s,)),
    ensures
        exists|pcm: Seq<i16>| #[trigger]
            quantised(*quantise, samples@, pcm) && final(out)@ == old(out)@ + pcm_bytes(pcm),
{
    let ghost before = out@;
    let ghost mut pcm: Seq<i16> = Seq::empty();
    assert(out@ =~= before + pcm_bytes(pcm));
    let mut i: usize = 0;
    while i < samples.len()
        invariant
            0 <= i <= samples@.len(),
            forall|s: S| call_requires(*quantise, (s,)),
            pcm.len() == i,
            forall|k: int|
                0 <= k < i ==> #[trigger] call_ensures(*quantise, (samples@[k],), pcm[k]),
            out@ == before + pcm_bytes(pcm),
        decreases samples.len() - i,
    {
        let v: i16 = quantise(samples[i]);
        let bits: u16 = if v < 0 { (v as i32 + 65_536) as u16 } else { v as u16 };
        push_le16(out, bits);
        proof {
            lemma_pcm_bytes_push(pcm, v);
            assert(out@ =~= before + pcm_bytes(pcm.push(v)));
            pcm = pcm.push(v);
        }
        i = i + 1;
    }
    assert(quantised(*quantise, samples@, pcm));
}

/// 16-bit PCM WAV (RIFF/WAVE) built directly into a `Vec<u8>`.
pub fn encode_wav<S: Copy, Q: Fn(S) -> i16>(
    samples: &[S],
    sample_rate: u32,
    channels: u16,
    quantise: &Q,
) -> (out: Vec<u8>)
    requires
        wav_fits(samples@.len(), sample_rate, channels),
        forall|s: S| call_requires(*quantise, (s,)),
    ensures
        is_wav_of(*quantise, samples@, sample_rate, channels, out@),
        exists|pcm: Seq<i16>| #[trigger]
            quantised(*quantise, samples@, pcm) && out@ == wav(pcm, sample_rate, channels),
        out@.len() == 44 + 2 * samples@.len(),
        36 + 2 * samples@.len() <= u32::MAX ==> describes_itself(out@, sample_rate, channels),
{
    let data_len: u32 = (samples.len() as u128 * 2 % 0x1_0000_0000) as u32;
    let mut out: Vec<u8> = header(data_len, sample_rate, channels);
    push_pcm(&mut out, samples, quantise);
    proof {
        let pcm = choose|pcm: Seq<i16>| #[trigger]
            quantised(*quantise, samples@, pcm) && out@ == wav(pcm, sample_rate, channels);
        law_wav_reads_back(pcm, sample_rate, channels);
        if 36 + 2 * samples@.len() <= u32::MAX {
            law_wav_describes_itself(pcm, sample_rate, channels);
        }
    }
    out
}

/// Whether `r` is what encoding these samples gives: a WAV file of what `quantise` makes of them;
/// or what `opus` replied when it was given them and an encoding of this rate, these channels and
/// this bitrate that has just begun; or the error for a rate that Opus does not have.
pub open spec fn encodes<
    S,
    Q: Fn(S) -> i16,
    O: FnOnce(OpusEncoding, &[S]) -> Result<Vec<u8>, Error>,
>(
    format: Format,
    samples: &[S],
    sample_rate: u32,
    channels: u16,
    opus_bitrate: u32,
    quantise: Q,
    opus: O,
    r: Result<Vec<u8>, Error>,
) -> bool {
    match format {
        Format::Wav => r matches Ok(out) && is_wav_of(
            quantise,
            samples@,
            sample_rate,
            channels,
            out@,
        ),
        Format::Opus => if crate::opus::opus_supports(sample_rate) {
            exists|encoding: OpusEncoding|
                encoding.asked() is CreateComments && encoding.settings().0.hz() == sample_rate
                    && encoding.settings().1 == channels % 256 && encoding.settings().2
                    == opus_bitrate && encoding.collected() == Seq::<u8>::empty()
                    && #[trigger] call_ensures(opus, (encoding, samples), r)
        } else {
            r matches Err(e) && crate::opus::tells_unsupported(e, sample_rate)
        },
    }
}

/// A segment is encoded in the format that was asked for. As WAV it is a file that describes
/// itself and plays the segment's samples; as Opus it is what the encoder made of these
/// samples, at their rate and in mono, and fails only where the encoder does or
/// the rate is none of its own.
pub proof fn law_segments_are_encoded_as_asked<
    S,
    Q: Fn(S) -> i16,
    O: FnOnce(OpusEncoding, &[S]) -> Result<Vec<u8>, Error>,
>(
    format: Format,
    samples: &[S],
    sample_rate: u32,
    opus_bitrate: u32,
    quantise: Q,
    opus: O,
    r: Result<Vec<u8>, Error>,
)
    requires
        sample_rate * 2 <= u32::MAX,
        36 + 2 * samples@.len() <= u32::MAX,
        encodes(format, samples, sample_rate, 1, opus_bitrate, quantise, opus, r),
    ensures
        format is Wav ==> {
            &&& r is Ok
            &&& describes_itself(r->Ok_0@, sample_rate, 1)
            &&& played(r->Ok_0@).len() == samples@.len()
            &&& forall|i: int|
                0 <= i < samples@.len() ==> call_ensures(
                    quantise,
                    (#[trigger] samples@[i],),
                    played(r->Ok_0@)[i],
                )
        },
        format is Opus && (sample_rate == 48_000 || sample_rate == 24_000 || sample_rate == 16_000
            || sample_rate == 12_000 || sample_rate == 8_000) ==> exists|encoding: OpusEncoding|
            encoding.asked() is CreateComments && encoding.settings().0.hz() == sample_rate
                && encoding.settings().1 == 1 && encoding.settings().2 == opus_bitrate
                && encoding.collected().len() == 0 && #[trigger] call_ensures(
                opus,
                (encoding, samples),
                r,
            ),
        format is Opus && !(sample_rate == 48_000 || sample_rate == 24_000 || sample_rate == 16_000
            || sample_rate == 12_000 || sample_rate == 8_000) ==> r is Err,
{
    crate::opus::law_opus_has_five_rates(sample_rate);
    if format is Wav {
        law_wav_plays_its_samples(quantise, samples@, sample_rate, 1, r->Ok_0@);
    }
}

/// Encode one segment to a complete, standalone file in memory. `quantise` makes 16-bit
/// samples for WAV; `opus` runs an encoding of the samples that it is given to its end.
pub fn encode<S: Copy, Q: Fn(S) -> i16, O: FnOnce(OpusEncoding, &[S]) -> Result<Vec<u8>, Error>>(
    format: Format,
    samples: &[S],
    sample_rate: u32,
    channels: u16,
    opus_bitrate: u32,
    quantise: &Q,
    opus: O,
) -> (r: Result<Vec<u8>, Error>)
    requires
        format is Wav ==> wav_fits(samples@.len(), sample_rate, channels),
        forall|s: S| call_requires(*quantise, (s,)),
        forall|encoding: OpusEncoding|
            encoding.asked() is CreateComments ==> call_requires(opus, (encoding, samples)),
    ensures
        encodes(format, samples, sample_rate, channels, opus_bitrate, *quantise, opus, r),
        format is Wav ==> (r matches Ok(out) && is_wav_of(
            *quantise,
            samples@,
            sample_rate,
            channels,
            out@,
        ) && exists|pcm: Seq<i16>| #[trigger]
            quantised(*quantise, samples@, pcm) && out@ == wav(pcm, sample_rate, channels)),
        format is Opus && !crate::opus::opus_supports(sample_rate) ==> (r matches Err(e)
            && crate::opus::tells_unsupported(e, sample_rate)),
        format is Opus && crate::opus::opus_supports(sample_rate) ==> exists|
            encoding: OpusEncoding,
        |
            encoding.asked() is CreateComments && encoding.settings().0.hz() == sample_rate
                && encoding.settings().1 == channels % 256 && encoding.settings().2
                == opus_bitrate && encoding.collected() == Seq::<u8>::empty()
                && #[trigger] call_ensures(opus, (encoding, samples), r),
{
    match format {
        Format::Wav => Ok(encode_wav(samples, sample_rate, channels, quantise)),
        Format::Opus => match OpusEncoding::begin(sample_rate, channels, opus_bitrate) {
            Ok(encoding) => opus(encoding, samples),
            Err(e) => Err(e),
        },
    }
}

proof fn lemma_pcm_bytes_push(pcm: Seq<i16>, v: i16)
    ensures
        pcm_bytes(pcm.push(v)) == pcm_bytes(pcm) + le16(twos_complement(v)),
{
    assert forall|i: int| 0 <= i < 2 * pcm.len() + 2 implies pcm_bytes(pcm.push(v))[i] == (
    pcm_bytes(pcm) + le16(twos_complement(v)))[i] by {
        if i >= 2 * pcm.len() {
            assert(i / 2 == pcm.len() && i % 2 == i - 2 * pcm.len());
        }
    }
    assert(pcm_bytes(pcm.push(v)) =~= pcm_bytes(pcm) + le16(twos_complement(v)));
}

/// The samples of the file that `bytes` is, read behind the header.
pub open spec fn pcm_of(bytes: Seq<u8>) -> Seq<i16> {
    Seq::new(
        ((bytes.len() - 44) / 2) as nat,
        |i: int|
            {
                let bits = bytes[44 + 2 * i] + 256 * bytes[45 + 2 * i];
                (if bits < 32_768 { bits } else { bits - 65_536 }) as i16
            },
    )
}

proof fn lemma_header_length(data_len: int, sample_rate: u32, channels: u16)
    ensures
        wav_header(data_len, sample_rate, channels).len() == 44,
{
    reveal(wav_header);
}

proof fn lemma_sample_reads_back(pcm: Seq<i16>, i: int)
    requires
        0 <= i < pcm.len(),
    ensures
        ({
            let bits = pcm_bytes(pcm)[2 * i] + 256 * pcm_bytes(pcm)[2 * i + 1];
            (if bits < 32_768 { bits } else { bits - 65_536 }) == pcm[i]
        }),
{
    assert((2 * i) / 2 == i && (2 * i) % 2 == 0);
    assert((2 * i + 1) / 2 == i && (2 * i + 1) % 2 == 1);
    let x = twos_complement(pcm[i]);
    assert(pcm_bytes(pcm)[2 * i] == le16(x)[0]);
    assert(pcm_bytes(pcm)[2 * i + 1] == le16(x)[1]);
}

/// Samples can be read back behind any header of the length of a WAV header.
#[verifier::spinoff_prover]
proof fn lemma_samples_read_back(header: Seq<u8>, pcm: Seq<i16>)
    requires
        header.len() == 44,
    ensures
        pcm_of(header + pcm_bytes(pcm)) == pcm,
{
    let data = pcm_bytes(pcm);
    let bytes = header + data;
    assert(bytes.len() == 44 + 2 * pcm.len());
    assert forall|i: int| 0 <= i < pcm.len() implies pcm_of(bytes)[i] == pcm[i] by {
        assert(bytes[44 + 2 * i] == data[2 * i]);
        assert(bytes[45 + 2 * i] == data[2 * i + 1]);
        lemma_sample_reads_back(pcm, i);
    }
    assert(pcm_of(bytes) =~= pcm);
}

/// A WAV file holds 44 bytes of header and two bytes for each sample, and its samples can be
/// read back.
#[verifier::spinoff_prover]
pub proof fn law_wav_reads_back(pcm: Seq<i16>, sample_rate: u32, channels: u16)
    ensures
        wav(pcm, sample_rate, channels).len() == 44 + 2 * pcm.len(),
        pcm_of(wav(pcm, sample_rate, channels)) == pcm,
{
    lemma_header_length(data_len(pcm.len()), sample_rate, channels);
    lemma_samples_read_back(wav_header(data_len(pcm.len()), sample_rate, channels), pcm);
}

/// The number that the `n` bytes from place `from` on make, the least significant first.
pub open spec fn read_le(bytes: Seq<u8>, from: int, n: nat) -> int
    decreases n,
{
    if n == 0 {
        0
    } else {
        bytes[from] + 256 * read_le(bytes, from + 1, (n - 1) as nat)
    }
}

/// Whether the characters of `mark` stand in `bytes` from place `from` on.
pub open spec fn marked(bytes: Seq<u8>, from: int, mark: Seq<char>) -> bool {
    from + mark.len() <= bytes.len() && forall|i: int|
        0 <= i < mark.len() ==> (#[trigger] mark[i]) as int == bytes[from + i]
}

/// Whether a file describes itself: its marks stand in their places, the sizes in its header are
/// those of the file and of its samples, and the header tells how to play them: 16-bit PCM, so
/// many channels at such a rate, so many bytes for a frame and for a second.
pub open spec fn describes_itself(bytes: Seq<u8>, sample_rate: u32, channels: u16) -> bool {
    &&& bytes.len() >= 44
    &&& marked(bytes, 0, "RIFF"@)
    &&& read_le(bytes, 4, 4) == bytes.len() - 8
    &&& marked(bytes, 8, "WAVE"@)
    &&& marked(bytes, 12, "fmt "@)
    &&& read_le(bytes, 16, 4) == 16
    &&& read_le(bytes, 20, 2) == 1
    &&& read_le(bytes, 22, 2) == channels
    &&& read_le(bytes, 24, 4) == sample_rate
    &&& read_le(bytes, 28, 4) == sample_rate * read_le(bytes, 32, 2)
    &&& read_le(bytes, 32, 2) * 8 == read_le(bytes, 22, 2) * read_le(bytes, 34, 2)
    &&& read_le(bytes, 34, 2) == 16
    &&& marked(bytes, 36, "data"@)
    &&& read_le(bytes, 40, 4) == bytes.len() - 44
}

/// The samples that a reader finds who goes by the size in the header.
pub open spec fn played(bytes: Seq<u8>) -> Seq<i16> {
    Seq::new(
        (read_le(bytes, 40, 4) / 2) as nat,
        |i: int|
            {
                let bits = read_le(bytes, 44 + 2 * i, 2);
                (if bits < 32_768 { bits } else { bits - 65_536 }) as i16
            },
    )
}

proof fn lemma_le16_reads_back(x: int, bytes: Seq<u8>, from: int)
    requires
        0 <= x < 0x1_0000,
        0 <= from,
        from + 2 <= bytes.len(),
        bytes.subrange(from, from + 2) == le16(x),
    ensures
        read_le(bytes, from, 2) == x,
{
    reveal_with_fuel(read_le, 3);
    let part = bytes.subrange(from, from + 2);
    assert(bytes[from] == part[0] && bytes[from + 1] == part[1]);
}

proof fn lemma_le32_reads_back(x: int, bytes: Seq<u8>, from: int)
    requires
        0 <= x < 0x1_0000_0000,
        0 <= from,
        from + 4 <= bytes.len(),
        bytes.subrange(from, from + 4) == le32(x),
    ensures
        read_le(bytes, from, 4) == x,
{
    reveal_with_fuel(read_le, 5);
    let part = bytes.subrange(from, from + 4);
    assert(bytes[from] == part[0] && bytes[from + 1] == part[1] && bytes[from + 2] == part[2]
        && bytes[from + 3] == part[3]);
    assert(x / 65_536 == x / 256 / 256 && x / 16_777_216 == x / 65_536 / 256);
}

#[verifier::spinoff_prover]
proof fn lemma_first_fields(data_len: int, sample_rate: u32, channels: u16)
    ensures
        ({
            let h = wav_header(data_len, sample_rate, channels);
            &&& h.subrange(0, 4) == seq![0x52u8, 0x49, 0x46, 0x46]
            &&& h.subrange(4, 8) == le32(36 + data_len)
            &&& h.subrange(8, 12) == seq![0x57u8, 0x41, 0x56, 0x45]
        }),
{
    reveal(wav_header);
    let h = wav_header(data_len, sample_rate, channels);
    assert(h.subrange(0, 4) =~= seq![0x52u8, 0x49, 0x46, 0x46]);
    assert(h.subrange(4, 8) =~= le32(36 + data_len));
    assert(h.subrange(8, 12) =~= seq![0x57u8, 0x41, 0x56, 0x45]);
}

#[verifier::spinoff_prover]
proof fn lemma_second_fields(data_len: int, sample_rate: u32, channels: u16)
    ensures
        ({
            let h = wav_header(data_len, sample_rate, channels);
            &&& h.subrange(12, 16) == seq![0x66u8, 0x6d, 0x74, 0x20]
            &&& h.subrange(16, 20) == le32(16)
            &&& h.subrange(20, 22) == le16(1)
            &&& h.subrange(22, 24) == le16(channels as int)
        }),
{
    reveal(wav_header);
    let h = wav_header(data_len, sample_rate, channels);
    assert(h.subrange(12, 16) =~= seq![0x66u8, 0x6d, 0x74, 0x20]);
    assert(h.subrange(16, 20) =~= le32(16));
    assert(h.subrange(20, 22) =~= le16(1));
    assert(h.subrange(22, 24) =~= le16(channels as int));
}

#[verifier::spinoff_prover]
proof fn lemma_third_fields(data_len: int, sample_rate: u32, channels: u16)
    ensures
        ({
            let h = wav_header(data_len, sample_rate, channels);
            &&& h.subrange(24, 28) == le32(sample_rate as int)
            &&& h.subrange(28, 32) == le32(sample_rate * channels * 2)
            &&& h.subrange(32, 34) == le16(channels * 2)
        }),
{
    reveal(wav_header);
    let h = wav_header(data_len, sample_rate, channels);
    assert(h.subrange(24, 28) =~= le32(sample_rate as int));
    assert(h.subrange(28, 32) =~= le32(sample_rate * channels * 2));
    assert(h.subrange(32, 34) =~= le16(channels * 2));
}

#[verifier::spinoff_prover]
proof fn lemma_last_fields(data_len: int, sample_rate: u32, channels: u16)
    ensures
        ({
            let h = wav_header(data_len, sample_rate, channels);
            &&& h.subrange(34, 36) == le16(16)
            &&& h.subrange(36, 40) == seq![0x64u8, 0x61, 0x74, 0x61]
            &&& h.subrange(40, 44) == le32(data_len)
        }),
{
    reveal(wav_header);
    let h = wav_header(data_len, sample_rate, channels);
    assert(h.subrange(34, 36) =~= le16(16));
    assert(h.subrange(36, 40) =~= seq![0x64u8, 0x61, 0x74, 0x61]);
    assert(h.subrange(40, 44) =~= le32(data_len));
}

/// Where the fields of the header stand.
proof fn lemma_header_fields(data_len: int, sample_rate: u32, channels: u16)
    ensures
        ({
            let h = wav_header(data_len, sample_rate, channels);
            &&& h.len() == 44
            &&& h.subrange(0, 4) == seq![0x52u8, 0x49, 0x46, 0x46]
            &&& h.subrange(4, 8) == le32(36 + data_len)
            &&& h.subrange(8, 12) == seq![0x57u8, 0x41, 0x56, 0x45]
            &&& h.subrange(12, 16) == seq![0x66u8, 0x6d, 0x74, 0x20]
            &&& h.subrange(16, 20) == le32(16)
            &&& h.subrange(20, 22) == le16(1)
            &&& h.subrange(22, 24) == le16(channels as int)
            &&& h.subrange(24, 28) == le32(sample_rate as int)
            &&& h.subrange(28, 32) == le32(sample_rate * channels * 2)
            &&& h.subrange(32, 34) == le16(channels * 2)
            &&& h.subrange(34, 36) == le16(16)
            &&& h.subrange(36, 40) == seq![0x64u8, 0x61, 0x74, 0x61]
            &&& h.subrange(40, 44) == le32(data_len)
        }),
{
    lemma_header_length(data_len, sample_rate, channels);
    lemma_first_fields(data_len, sample_rate, channels);
    lemma_second_fields(data_len, sample_rate, channels);
    lemma_third_fields(data_len, sample_rate, channels);
    lemma_last_fields(data_len, sample_rate, channels);
}

proof fn lemma_mark(bytes: Seq<u8>, from: int, a: u8, b: u8, c: u8, d: u8, mark: Seq<char>)
    requires
        0 <= from,
        from + 4 <= bytes.len(),
        bytes.subrange(from, from + 4) == seq![a, b, c, d],
        mark.len() == 4,
        mark[0] as int == a,
        mark[1] as int == b,
        mark[2] as int == c,
        mark[3] as int == d,
    ensures
        marked(bytes, from, mark),
{
    let part = bytes.subrange(from, from + 4);
    assert(bytes[from] == part[0] && bytes[from + 1] == part[1] && bytes[from + 2] == part[2]
        && bytes[from + 3] == part[3]);
}

/// What the header of `bytes` says, read number by number.
#[verifier::spinoff_prover]
proof fn lemma_header_numbers(bytes: Seq<u8>, data_len: int, sample_rate: u32, channels: u16)
    requires
        bytes.len() >= 44,
        bytes.take(44) == wav_header(data_len, sample_rate, channels),
        0 <= data_len,
        36 + data_len <= u32::MAX,
        channels * 2 <= u16::MAX,
        sample_rate * channels * 2 <= u32::MAX,
    ensures
        read_le(bytes, 4, 4) == 36 + data_len,
        read_le(bytes, 16, 4) == 16,
        read_le(bytes, 20, 2) == 1,
        read_le(bytes, 22, 2) == channels,
        read_le(bytes, 24, 4) == sample_rate,
        read_le(bytes, 28, 4) == sample_rate * channels * 2,
        read_le(bytes, 32, 2) == channels * 2,
        read_le(bytes, 34, 2) == 16,
        read_le(bytes, 40, 4) == data_len,
{
    let h = wav_header(data_len, sample_rate, channels);
    lemma_header_fields(data_len, sample_rate, channels);
    assert(0 <= sample_rate * channels * 2) by (nonlinear_arith);
    assert(bytes.subrange(4, 8) =~= h.subrange(4, 8));
    lemma_le32_reads_back(36 + data_len, bytes, 4);
    assert(bytes.subrange(16, 20) =~= h.subrange(16, 20));
    lemma_le32_reads_back(16, bytes, 16);
    assert(bytes.subrange(20, 22) =~= h.subrange(20, 22));
    lemma_le16_reads_back(1, bytes, 20);
    assert(bytes.subrange(22, 24) =~= h.subrange(22, 24));
    lemma_le16_reads_back(channels as int, bytes, 22);
    assert(bytes.subrange(24, 28) =~= h.subrange(24, 28));
    lemma_le32_reads_back(sample_rate as int, bytes, 24);
    assert(bytes.subrange(28, 32) =~= h.subrange(28, 32));
    lemma_le32_reads_back(sample_rate * channels * 2, bytes, 28);
    assert(bytes.subrange(32, 34) =~= h.subrange(32, 34));
    lemma_le16_reads_back(channels * 2, bytes, 32);
    assert(bytes.subrange(34, 36) =~= h.subrange(34, 36));
    lemma_le16_reads_back(16, bytes, 34);
    assert(bytes.subrange(40, 44) =~= h.subrange(40, 44));
    lemma_le32_reads_back(data_len, bytes, 40);
}

#[verifier::spinoff_prover]
proof fn lemma_header_marks(bytes: Seq<u8>, data_len: int, sample_rate: u32, channels: u16)
    requires
        bytes.len() >= 44,
        bytes.take(44) == wav_header(data_len, sample_rate, channels),
    ensures
        marked(bytes, 0, "RIFF"@),
        marked(bytes, 8, "WAVE"@),
        marked(bytes, 12, "fmt "@),
        marked(bytes, 36, "data"@),
{
    let h = wav_header(data_len, sample_rate, channels);
    lemma_header_fields(data_len, sample_rate, channels);
    reveal_strlit("RIFF");
    reveal_strlit("WAVE");
    reveal_strlit("fmt ");
    reveal_strlit("data");
    assert(bytes.subrange(0, 4) =~= h.subrange(0, 4));
    lemma_mark(bytes, 0, 0x52, 0x49, 0x46, 0x46, "RIFF"@);
    assert(bytes.subrange(8, 12) =~= h.subrange(8, 12));
    lemma_mark(bytes, 8, 0x57, 0x41, 0x56, 0x45, "WAVE"@);
    assert(bytes.subrange(12, 16) =~= h.subrange(12, 16));
    lemma_mark(bytes, 12, 0x66, 0x6d, 0x74, 0x20, "fmt "@);
    assert(bytes.subrange(36, 40) =~= h.subrange(36, 40));
    lemma_mark(bytes, 36, 0x64, 0x61, 0x74, 0x61, "data"@);
}

proof fn lemma_pair_reads(bytes: Seq<u8>, from: int)
    ensures
        read_le(bytes, from, 2) == bytes[from] + 256 * bytes[from + 1],
{
    reveal_with_fuel(read_le, 3);
}

proof fn lemma_front_of_joined(h: Seq<u8>, d: Seq<u8>)
    ensures
        (h + d).take(h.len() as int) == h,
{
    assert((h + d).take(h.len() as int) =~= h);
}

proof fn lemma_played(bytes: Seq<u8>, pcm: Seq<i16>)
    requires
        bytes.len() == 44 + 2 * pcm.len(),
        read_le(bytes, 40, 4) == 2 * pcm.len(),
        pcm_of(bytes) == pcm,
    ensures
        played(bytes) == pcm,
{
    assert forall|i: int| 0 <= i < pcm.len() implies played(bytes)[i] == pcm[i] by {
        lemma_pair_reads(bytes, 44 + 2 * i);
        assert(pcm_of(bytes)[i] == pcm[i]);
    }
    assert(played(bytes) =~= pcm);
}

proof fn lemma_header_describes(bytes: Seq<u8>, data_len: int, sample_rate: u32, channels: u16)
    requires
        bytes.len() == 44 + data_len,
        bytes.take(44) == wav_header(data_len, sample_rate, channels),
        0 <= data_len,
        36 + data_len <= u32::MAX,
        channels * 2 <= u16::MAX,
        sample_rate * channels * 2 <= u32::MAX,
    ensures
        describes_itself(bytes, sample_rate, channels),
        read_le(bytes, 40, 4) == data_len,
{
    lemma_header_numbers(bytes, data_len, sample_rate, channels);
    lemma_header_marks(bytes, data_len, sample_rate, channels);
    assert(sample_rate * (channels * 2) == sample_rate * channels * 2) by (nonlinear_arith);
}

/// A WAV file describes itself wherever its size can be told in 32 bits: read as little-endian
/// numbers, the sizes in the header are its length less what stands before them, and the rate
/// and the channels are those it was made with. So a reader that goes by the header gets back
/// every sample.
#[verifier::spinoff_prover]
pub proof fn law_wav_describes_itself(pcm: Seq<i16>, sample_rate: u32, channels: u16)
    requires
        channels * 2 <= u16::MAX,
        sample_rate * channels * 2 <= u32::MAX,
        36 + 2 * pcm.len() <= u32::MAX,
    ensures
        describes_itself(wav(pcm, sample_rate, channels), sample_rate, channels),
        played(wav(pcm, sample_rate, channels)) == pcm,
{
    let n = data_len(pcm.len());
    let bytes = wav(pcm, sample_rate, channels);
    law_wav_reads_back(pcm, sample_rate, channels);
    lemma_header_length(n, sample_rate, channels);
    lemma_front_of_joined(wav_header(n, sample_rate, channels), pcm_bytes(pcm));
    lemma_header_describes(bytes, n, sample_rate, channels);
    lemma_played(bytes, pcm);
}

/// What a WAV file plays is the samples that it was made of, each quantised, in order.
pub proof fn law_wav_plays_its_samples<S, Q: Fn(S) -> i16>(
    quantise: Q,
    samples: Seq<S>,
    sample_rate: u32,
    channels: u16,
    bytes: Seq<u8>,
)
    requires
        channels * 2 <= u16::MAX,
        sample_rate * channels * 2 <= u32::MAX,
        36 + 2 * samples.len() <= u32::MAX,
        is_wav_of(quantise, samples, sample_rate, channels, bytes),
    ensures
        describes_itself(bytes, sample_rate, channels),
        played(bytes).len() == samples.len(),
        forall|i: int|
            0 <= i < samples.len() ==> call_ensures(
                quantise,
                (#[trigger] samples[i],),
                played(bytes)[i],
            ),
{
    let pcm = choose|pcm: Seq<i16>| #[trigger]
        quantised(quantise, samples, pcm) && bytes == wav(pcm, sample_rate, channels);
    law_wav_describes_itself(pcm, sample_rate, channels);
    assert forall|i: int| 0 <= i < samples.len() implies call_ensures(
        quantise,
        (#[trigger] samples[i],),
        played(bytes)[i],
    ) by {
        assert(call_ensures(quantise, (samples[i],), pcm[i]));
    }
}

/// A mono file can be made of any samples whose bytes and header 32 bits can count, at any
/// rate whose bytes in a second they can.
pub proof fn law_wav_fits_what_it_can_tell(n: nat, sample_rate: u32)
    requires
        36 + 2 * n <= u32::MAX,
        sample_rate * 2 <= u32::MAX,
    ensures
        wav_fits(n, sample_rate, 1),
{
}

} // verus!
