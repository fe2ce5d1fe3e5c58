//! Recording configuration.

use core::ops::Div;
use vstd::prelude::*;
use vstd::std_specs::ops::DivSpec;
use crate::error::Error;
use crate::span::{samples_in, Span};

verus! {

/// Which audio source(s) to capture.
#[derive(Debug, Clone, Copy, PartialEq, Eq, Structural)]
pub enum Source {
    /// Microphone (default input device).
    Mic,
    /// System / speaker audio (loopback).
    System,
    /// Microphone + system audio, mixed into one mono track.
    Mixed,
    /// Microphone and system audio, each on a track of its own.
    Separate,
}

impl Source {
    /// Microphone and system audio in one track: another name for [`Source::Mixed`].
    #[allow(non_upper_case_globals)]
    pub const Both: Source = Source::Mixed;

    /// Whether this source records the microphone.
    #[verifier::allow_in_spec]
    pub fn needs_mic(self) -> bool
        returns
            self is Mic || self is Mixed || self is Separate,
    {
        matches!(self, Source::Mic | Source::Mixed | Source::Separate)
    }

    /// Whether this source records system audio.
    #[verifier::allow_in_spec]
    pub fn needs_system(self) -> bool
        returns
            self is System || self is Mixed || self is Separate,
    {
        matches!(self, Source::System | Source::Mixed | Source::Separate)
    }

    /// Whether this source keeps microphone and system audio on separate tracks.
    #[verifier::allow_in_spec]
    pub fn is_separate(self) -> bool
        returns
            self is Separate,
    {
        matches!(self, Source::Separate)
    }
}

/// Output container/codec for each segment.
#[derive(Debug, Clone, Copy, PartialEq, Eq, Structural)]
pub enum Format {
    /// Ogg Opus (~24 kbps VBR).
    Opus,
    /// 16-bit PCM WAV (lossless, ~10x larger than Opus).
    Wav,
}

/// Which segments to keep. Dropped segments are never handed to your handler.
///
/// `G` is the type of levels: the floating-point type of the samples.
#[derive(Debug, Clone, Copy)]
pub enum Activity<G> {
    /// Keep every segment (default).
    KeepAll,
    /// Dependency-free RMS energy gate. A segment is kept when the fraction of
    /// active windows (RMS at or above `threshold_dbfs`) reaches `min_active_ratio`
    /// (zero = keep if any window is active).
    Energy {
        /// A 20 ms window counts as active when its RMS is at or above this (dBFS).
        threshold_dbfs: G,
        /// Fraction of active windows needed to keep the segment (zero = any).
        min_active_ratio: G,
    },
    /// Silero V5 speech detection. Requires a 16 kHz `sample_rate`. `min_active_ratio`
    /// works as for [`Activity::Energy`].
    Silero {
        /// A window counts as speech when the model's probability exceeds this.
        threshold: G,
        /// Fraction of speech windows needed to keep the segment (zero = any).
        min_active_ratio: G,
    },
}

/// Whether `level` is what the level type makes of the whole number `n`.
pub open spec fn is_level<G: From<i8>>(n: i8, level: G) -> bool {
    call_ensures(<G as From<i8>>::from, (n,), level)
}

/// Whether `level` is what the level type makes of one divided by two.
pub open spec fn is_half<G: From<i8> + Div<Output = G>>(level: G) -> bool {
    exists|one: G, two: G|
        is_level(1, one) && is_level(2, two) && #[trigger] call_ensures(
            <G as Div>::div,
            (one, two),
            level,
        )
}

impl<G: From<i8>> Activity<G> {
    /// Energy gate with sensible defaults (-50 dBFS, keep-if-any-active).
    pub fn energy() -> (activity: Self)
        ensures
            activity matches Activity::Energy { threshold_dbfs, min_active_ratio } && is_level(
                (-50) as i8,
                threshold_dbfs,
            ) && is_level(0, min_active_ratio),
    {
        Activity::Energy { threshold_dbfs: G::from(-50i8), min_active_ratio: G::from(0i8) }
    }

    /// Silero VAD with sensible defaults (a threshold of one half, keep-if-any-speech).
    pub fn silero() -> (activity: Self) where G: Div<Output = G>
        requires
            forall|one: G, two: G|
                is_level(1, one) && is_level(2, two) ==> #[trigger] one.div_req(two),
        ensures
            activity matches Activity::Silero { threshold, min_active_ratio } && is_half(threshold)
                && is_level(0, min_active_ratio),
    {
        let one = G::from(1i8);
        let two = G::from(2i8);
        let threshold = one.div(two);
        assert(is_level(1, one) && is_level(2, two));
        assert(call_ensures(<G as Div>::div, (one, two), threshold));
        Activity::Silero { threshold, min_active_ratio: G::from(0i8) }
    }
}

impl<G> Default for Activity<G> {
    fn default() -> (activity: Self)
        ensures
            activity is KeepAll,
    {
        Activity::KeepAll
    }
}

/// Recording configuration. Build with [`Config::default`] and tweak fields.
///
/// `G` is the type of levels: the floating-point type of the samples.
#[derive(Debug, Clone)]
pub struct Config<G> {
    /// Source(s) to capture. Default [`Source::Mic`].
    pub source: Source,
    /// Length of each segment. Default 30s.
    pub segment: Span,
    /// Output format. Default Opus.
    pub format: Format,
    /// Which segments to keep. Default [`Activity::KeepAll`].
    pub activity: Activity<G>,
    /// Output sample rate (mono). Default 16000 (ideal for ASR like Whisper).
    pub sample_rate: u32,
    /// Linear mic gain before mixing (one = unchanged).
    pub mic_gain: G,
    /// Linear system-audio gain before mixing (one = unchanged).
    pub system_gain: G,
    /// Opus VBR bitrate in bits/s (only used for [`Format::Opus`]). Default 24000.
    pub opus_bitrate: u32,
    /// Drop the final, partial segment produced at stop when it is shorter than
    /// this. Full segments are never affected. Default zero (keep every tail, matching
    /// [`Activity::KeepAll`]); set e.g. three seconds to discard a tiny trailing clip.
    pub min_final_segment: Span,
}

impl<G: From<i8>> Default for Config<G> {
    fn default() -> (config: Self)
        ensures
            config.wf(),
            config.source == Source::Mic,
            config.segment == (Span { secs: 30, nanos: 0 }),
            config.format == Format::Opus,
            config.activity is KeepAll,
            config.sample_rate == 16_000,
            is_level(1, config.mic_gain),
            is_level(1, config.system_gain),
            config.opus_bitrate == 24_000,
            config.min_final_segment == (Span { secs: 0, nanos: 0 }),
    {
        Config {
            source: Source::Mic,
            segment: Span::from_secs(30),
            format: Format::Opus,
            activity: Activity::KeepAll,
            sample_rate: 16_000,
            mic_gain: G::from(1i8),
            system_gain: G::from(1i8),
            opus_bitrate: 24_000,
            min_final_segment: Span::zero(),
        }
    }
}

/// Whether `r` accepts the configuration or tells the first thing that is wrong with it.
pub open spec fn validates<G>(config: Config<G>, r: Result<(), Error>) -> bool {
    &&& r is Ok <==> config.valid()
    &&& r matches Err(e) ==> e matches Error::Config(why) && why@ == if config.sample_rate == 0 {
        "sample_rate must be > 0"@
    } else if config.full_length() == 0 {
        "segment must be > 0"@
    } else {
        "Silero VAD requires sample_rate = 16000"@
    }
}

impl<G> Config<G> {
    /// Whether both lengths of time are well-formed.
    pub open spec fn wf(&self) -> bool {
        self.segment.wf() && self.min_final_segment.wf()
    }

    /// Number of mono samples in one full segment.
    pub open spec fn full_length(&self) -> nat {
        crate::span::saturated(crate::span::sample_count(self.sample_rate, self.segment))
    }

    /// Number of mono samples that the final partial segment needs to be kept.
    pub open spec fn min_tail(&self) -> nat {
        crate::span::saturated(crate::span::sample_count(self.sample_rate, self.min_final_segment))
    }

    /// Whether [`Config::validate`] accepts this configuration.
    pub open spec fn valid(&self) -> bool {
        &&& self.sample_rate > 0
        &&& self.full_length() > 0
        &&& self.activity is Silero ==> self.sample_rate == 16_000
    }

    /// Number of mono samples in one full segment.
    pub fn segment_samples(&self) -> (n: usize)
        requires
            self.wf(),
        ensures
            n == self.full_length(),
    {
        samples_in(self.sample_rate, self.segment)
    }

    /// Minimum sample count for the final partial segment to be kept. A shorter
    /// tail is dropped instead of handed to the handler.
    pub fn min_final_samples(&self) -> (n: usize)
        requires
            self.wf(),
        ensures
            n == self.min_tail(),
    {
        samples_in(self.sample_rate, self.min_final_segment)
    }

    /// Rejects a configuration that no recording can follow: a rate of zero, a segment
    /// without samples, or Silero detection at another rate than 16 kHz.
    pub fn validate(&self) -> (r: Result<(), Error>)
        requires
            self.wf(),
        ensures
            validates(*self, r),
            r is Ok <==> self.valid(),
            r matches Err(e) ==> e matches Error::Config(why) && why@ == if self.sample_rate == 0 {
                "sample_rate must be > 0"@
            } else if self.full_length() == 0 {
                "segment must be > 0"@
            } else {
                "Silero VAD requires sample_rate = 16000"@
            },
    {
        if self.sample_rate == 0 {
            return Err(Error::Config("sample_rate must be > 0".to_owned()));
        }
        if self.segment_samples() == 0 {
            return Err(Error::Config("segment must be > 0".to_owned()));
        }
        if matches!(self.activity, Activity::Silero { .. }) && self.sample_rate != 16_000 {
            return Err(Error::Config("Silero VAD requires sample_rate = 16000".to_owned()));
        }
        Ok(())
    }
}

/// Where no least length of the final segment is set, as by default, every tail is kept.
pub proof fn law_no_least_length_keeps_every_tail<G>(config: Config<G>)
    requires
        config.min_final_segment == (Span { secs: 0, nanos: 0 }),
    ensures
        config.min_tail() == 0,
{
    assert(config.sample_rate * 0 == 0);
    crate::span::law_whole_seconds_are_exact(config.sample_rate, 0);
}

/// A configuration is accepted wherever its segment has a sample and its rate suits its
/// detector; a whole number of seconds has that many times the rate in samples.
pub proof fn law_valid_configurations<G>(config: Config<G>)
    requires
        config.segment.nanos == 0,
        config.min_final_segment.nanos == 0,
        config.sample_rate * config.segment.secs < crate::double::MANTISSA_END,
        config.sample_rate * config.segment.secs <= usize::MAX,
        config.sample_rate * config.min_final_segment.secs < crate::double::MANTISSA_END,
        config.sample_rate * config.min_final_segment.secs <= usize::MAX,
    ensures
        config.full_length() == config.sample_rate * config.segment.secs,
        config.min_tail() == config.sample_rate * config.min_final_segment.secs,
        config.valid() <==> config.sample_rate > 0 && config.segment.secs > 0 && (
        config.activity is Silero ==> config.sample_rate == 16_000),
{
    crate::span::law_whole_seconds_are_exact(config.sample_rate, config.segment.secs);
    crate::span::law_whole_seconds_are_exact(config.sample_rate, config.min_final_segment.secs);
    assert(config.sample_rate * config.segment.secs > 0 <==> config.sample_rate > 0
        && config.segment.secs > 0) by (nonlinear_arith)
        requires
            config.sample_rate >= 0,
            config.segment.secs >= 0,
    ;
}

/// A segment and the least length of a final one hold the samples that the rate says, to less
/// than one, whatever their length.
pub proof fn law_segments_last_their_time<G>(config: Config<G>)
    requires
        config.wf(),
        config.sample_rate * (config.segment.secs * 1_000_000_000 + config.segment.nanos)
            <= 0x2_0000_0000_0000 * 1_000_000_000,
        config.sample_rate * (config.segment.secs * 1_000_000_000 + config.segment.nanos)
            <= (usize::MAX - 1) * 1_000_000_000,
    ensures
        ({
            let exact = config.sample_rate * (config.segment.secs * 1_000_000_000
                + config.segment.nanos);
            -1_000_000_000 < config.full_length() * 1_000_000_000 - exact < 1_000_000_000
        }),
{
    crate::span::law_spans_hold_their_samples(config.sample_rate, config.segment);
}

/// A configuration of whole seconds is accepted exactly where it has a rate and a segment and its
/// rate suits its detector; otherwise the error names what is wrong.
pub proof fn law_configurations_are_judged<G>(config: Config<G>, r: Result<(), Error>)
    requires
        config.segment.nanos == 0,
        config.sample_rate * config.segment.secs < crate::double::MANTISSA_END,
        config.sample_rate * config.segment.secs <= usize::MAX,
        validates(config, r),
    ensures
        r is Ok <==> config.sample_rate > 0 && config.segment.secs > 0 && (
        config.activity is Silero ==> config.sample_rate == 16_000),
        r is Err ==> r->Err_0 is Config,
        config.sample_rate == 0 ==> r->Err_0->Config_0@ == "sample_rate must be > 0"@,
        config.sample_rate > 0 && config.segment.secs == 0 ==> r->Err_0->Config_0@
            == "segment must be > 0"@,
        config.sample_rate > 0 && config.segment.secs > 0 && config.activity is Silero
            && config.sample_rate != 16_000 ==> r->Err_0->Config_0@
            == "Silero VAD requires sample_rate = 16000"@,
{
    crate::span::law_whole_seconds_are_exact(config.sample_rate, config.segment.secs);
    assert(config.sample_rate * config.segment.secs > 0 <==> config.sample_rate > 0
        && config.segment.secs > 0) by (nonlinear_arith)
        requires
            config.sample_rate >= 0,
            config.segment.secs >= 0,
    ;
}

} // verus!
