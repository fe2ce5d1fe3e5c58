//! Error type for clipclip.

use vstd::prelude::*;

verus! {

/// Errors from starting a recording and from the recording worker.
#[derive(Debug)]
#[non_exhaustive]
pub enum Error {
    /// No capture device for the requested source (e.g. no microphone, or no
    /// PulseAudio monitor source on Linux).
    NoDevice(&'static str),
    /// A device query/configuration failed.
    Device(String),
    /// Building or starting the capture stream failed.
    Stream(String),
    /// A capture device faulted mid-recording (e.g. the microphone was
    /// unplugged). Recording stops; this is reported when the recording is stopped.
    DeviceLost(String),
    /// Sample-rate conversion failed.
    Resample(String),
    /// Encoding a segment failed.
    Encode(String),
    /// Voice-activity detector initialisation failed.
    Vad(String),
    /// The configuration was rejected (see message).
    Config(String),
    /// A live-control call was made but the recording is not running.
    NotRunning,
    /// Capture did not come up within the start timeout.
    StartTimeout,
    /// The worker thread died unexpectedly, almost always by a panic in the handler.
    WorkerPanicked,
    /// I/O error, with the text the system gives for it.
    Io(String),
}

impl Error {
    /// The sentence for this error.
    pub open spec fn text(self) -> Seq<char> {
        match self {
            Error::NoDevice(what) => "no "@ + what@ + " device available"@,
            Error::Device(why) => "audio device error: "@ + why@,
            Error::Stream(why) => "could not build audio stream: "@ + why@,
            Error::DeviceLost(why) => "audio device lost during recording: "@ + why@,
            Error::Resample(why) => "resampler error: "@ + why@,
            Error::Encode(why) => "encoding error: "@ + why@,
            Error::Vad(why) => "voice activity detector error: "@ + why@,
            Error::Config(why) => "invalid configuration: "@ + why@,
            Error::NotRunning => "recording is not running"@,
            Error::StartTimeout => "timed out starting audio capture"@,
            Error::WorkerPanicked => "recording worker panicked"@,
            Error::Io(why) => "io error: "@ + why@,
        }
    }

    /// The error as a sentence.
    pub fn message(&self) -> (text: String)
        ensures
            text@ == self.text(),
    {
        match self {
            Error::NoDevice(what) => {
                let text = joined("no ", what);
                text.concat(" device available")
            },
            Error::Device(why) => joined("audio device error: ", why.as_str()),
            Error::Stream(why) => joined("could not build audio stream: ", why.as_str()),
            Error::DeviceLost(why) => joined("audio device lost during recording: ", why.as_str()),
            Error::Resample(why) => joined("resampler error: ", why.as_str()),
            Error::Encode(why) => joined("encoding error: ", why.as_str()),
            Error::Vad(why) => joined("voice activity detector error: ", why.as_str()),
            Error::Config(why) => joined("invalid configuration: ", why.as_str()),
            Error::NotRunning => "recording is not running".to_owned(),
            Error::StartTimeout => "timed out starting audio capture".to_owned(),
            Error::WorkerPanicked => "recording worker panicked".to_owned(),
            Error::Io(why) => joined("io error: ", why.as_str()),
        }
    }
}

/// One piece of text after another.
pub(crate) fn joined(first: &str, second: &str) -> (text: String)
    ensures
        text@ == first@ + second@,
{
    first.to_owned().concat(second)
}

/// Whether `text` ends with `last`.
pub open spec fn ends_in(text: Seq<char>, last: Seq<char>) -> bool {
    last.len() <= text.len() && text.skip(text.len() - last.len()) == last
}

/// An error that has a reason tells it in full, at the end of its sentence, and tells more than
/// the reason alone.
pub proof fn law_errors_tell_their_reason(e: Error)
    ensures
        e matches Error::Device(why) ==> ends_in(e.text(), why@) && e.text() != why@,
        e matches Error::Stream(why) ==> ends_in(e.text(), why@) && e.text() != why@,
        e matches Error::DeviceLost(why) ==> ends_in(e.text(), why@) && e.text() != why@,
        e matches Error::Resample(why) ==> ends_in(e.text(), why@) && e.text() != why@,
        e matches Error::Encode(why) ==> ends_in(e.text(), why@) && e.text() != why@,
        e matches Error::Vad(why) ==> ends_in(e.text(), why@) && e.text() != why@,
        e matches Error::Config(why) ==> ends_in(e.text(), why@) && e.text() != why@,
        e matches Error::Io(why) ==> ends_in(e.text(), why@) && e.text() != why@,
{
    reveal_strlit("audio device error: ");
    reveal_strlit("could not build audio stream: ");
    reveal_strlit("audio device lost during recording: ");
    reveal_strlit("resampler error: ");
    reveal_strlit("encoding error: ");
    reveal_strlit("voice activity detector error: ");
    reveal_strlit("invalid configuration: ");
    reveal_strlit("io error: ");
    match e {
        Error::Device(why) => lemma_ends_in("audio device error: "@, why@),
        Error::Stream(why) => lemma_ends_in("could not build audio stream: "@, why@),
        Error::DeviceLost(why) => lemma_ends_in("audio device lost during recording: "@, why@),
        Error::Resample(why) => lemma_ends_in("resampler error: "@, why@),
        Error::Encode(why) => lemma_ends_in("encoding error: "@, why@),
        Error::Vad(why) => lemma_ends_in("voice activity detector error: "@, why@),
        Error::Config(why) => lemma_ends_in("invalid configuration: "@, why@),
        Error::Io(why) => lemma_ends_in("io error: "@, why@),
        _ => {},
    }
}

proof fn lemma_ends_in(first: Seq<char>, last: Seq<char>)
    requires
        first.len() > 0,
    ensures
        ends_in(first + last, last),
        first + last != last,
{
    let text = first + last;
    assert(text.skip(text.len() - last.len()) =~= last);
    assert(text.len() != last.len());
}

} // verus!
