//! The unit handed to your handler.

use vstd::prelude::*;
use crate::config::Format;

verus! {

/// Which audio source a [`Segment`] carries.
///
/// With [`Source::Separate`](crate::config::Source::Separate) your handler receives two
/// interleaved streams, one [`Mic`](Track::Mic) and one [`System`](Track::System), and
/// `track` is how you tell them apart. Single-source modes tag every segment with the
/// matching variant ([`Mixed`](Track::Mixed) for
/// [`Source::Mixed`](crate::config::Source::Mixed)).
#[derive(Debug, Clone, Copy, PartialEq, Eq, Structural)]
pub enum Track {
    /// Microphone + system audio summed into one mono track.
    Mixed,
    /// Microphone audio.
    Mic,
    /// System / speaker audio (loopback).
    System,
}

impl Track {
    /// The identifier of this track.
    pub open spec fn name(self) -> Seq<char> {
        match self {
            Track::Mixed => "mixed"@,
            Track::Mic => "mic"@,
            Track::System => "system"@,
        }
    }

    /// Stable lowercase identifier (`"mixed"`, `"mic"`, `"system"`), handy for
    /// log lines and file names.
    pub fn as_str(self) -> (name: &'static str)
        ensures
            name@ == self.name(),
    {
        match self {
            Track::Mixed => "mixed",
            Track::Mic => "mic",
            Track::System => "system",
        }
    }
}

/// One finished audio segment, already encoded and ready to hand downstream.
#[derive(Debug, Clone)]
pub struct Segment {
    /// Which source this segment carries. With
    /// [`Source::Separate`](crate::config::Source::Separate) it distinguishes the two
    /// parallel streams; otherwise it is always the same for the recording.
    pub track: Track,
    /// 1-based sequence number, counted **per [`track`](Segment::track)** over the
    /// segments actually delivered, so `(track, index)`, not `index` alone, is
    /// unique across the recording.
    pub index: u64,
    /// Encoded bytes (a complete, standalone Ogg Opus or WAV file).
    pub data: Vec<u8>,
    /// The encoding of [`Segment::data`].
    pub format: Format,
    /// Sample rate of the audio (mono).
    pub sample_rate: u32,
    /// Channel count (always 1, mono, for now).
    pub channels: u16,
    /// Number of PCM frames (samples per channel) in this segment.
    pub frames: usize,
    /// Wall-clock start of this segment's audio, as an ISO 8601 / RFC 3339
    /// timestamp in UTC with millisecond precision
    /// (e.g. `"2026-06-25T01:23:45.678Z"`). Read from the system clock as each
    /// segment completes (not accumulated from the recording start), so it never
    /// drifts over a long recording; expect a few milliseconds of jitter between
    /// one segment's `end_time` and the next's `start_time`.
    pub start_time: String,
    /// Wall-clock end of this segment's audio, same format as
    /// [`start_time`](Segment::start_time).
    pub end_time: String,
    /// True for the final (possibly shorter) segment flushed at stop.
    pub is_final: bool,
}

/// The file extension of a format.
pub open spec fn extension_of(format: Format) -> Seq<char> {
    match format {
        Format::Opus => "opus"@,
        Format::Wav => "wav"@,
    }
}

/// No two formats have the same file extension: it tells the format.
pub proof fn law_extension_tells_the_format(a: Format, b: Format)
    ensures
        extension_of(a) == extension_of(b) <==> a == b,
        extension_of(a) == "opus"@ <==> a is Opus,
        extension_of(a) == "wav"@ <==> a is Wav,
{
    reveal_strlit("opus");
    reveal_strlit("wav");
    assert("opus"@.len() == 4 && "wav"@.len() == 3);
}

/// No two tracks have the same name: it tells the track.
pub proof fn law_name_tells_the_track(a: Track, b: Track)
    ensures
        a.name() == b.name() <==> a == b,
        a.name() == "mixed"@ <==> a is Mixed,
        a.name() == "mic"@ <==> a is Mic,
        a.name() == "system"@ <==> a is System,
{
    reveal_strlit("mixed");
    reveal_strlit("mic");
    reveal_strlit("system");
    assert("mixed"@.len() == 5 && "mic"@.len() == 3 && "system"@.len() == 6);
}

impl Segment {
    /// File extension for [`Segment::format`] (without the dot).
    pub fn extension(&self) -> (ext: &'static str)
        ensures
            ext@ == extension_of(self.format),
    {
        match self.format {
            Format::Opus => "opus",
            Format::Wav => "wav",
        }
    }
}

} // verus!
