//! Live frame tap: raw resampled audio delivered as it is captured, alongside
//! (not instead of) the normal segment pipeline. Built for consumers that need
//! the stream in realtime, e.g. feeding a streaming speech-to-text API while
//! segments keep being recorded as the durable fallback.

use vstd::prelude::*;
use crate::mix::{left_over, mix_into, mixes};

verus! {

/// One tick's worth of post-gain mono samples, handed to a tap as soon as they are drained
/// from the capture device(s).
///
/// When more than one source is active the tap receives their sum (mic as the clock master,
/// the same policy as [`Source::Mixed`](crate::config::Source::Mixed)) regardless of the
/// configured delivery [`Source`](crate::config::Source), so the tap is always exactly one
/// continuous mono stream.
#[derive(Debug)]
pub struct Frames<'a, S> {
    /// Mono samples for this tick, oldest first.
    pub samples: &'a [S],
    /// Sample rate of `samples` (the configured output rate).
    pub sample_rate: u32,
    /// Approximate wall-clock capture time of the **last** sample in `samples`, in
    /// nanoseconds since the Unix epoch; the first one was captured
    /// `samples.len() / sample_rate` seconds earlier. Every delivery re-anchors the stream to
    /// the real clock, so consumers can map sample offsets to wall-clock time without
    /// accumulating drift.
    pub captured_at: i128,
}

/// Whether `frames` hand over `samples`: nothing is handed over where there are none.
pub open spec fn hands_over<S>(
    frames: Option<Frames<'_, S>>,
    samples: Seq<S>,
    sample_rate: u32,
    now: i128,
) -> bool {
    match frames {
        Some(f) => {
            &&& samples.len() > 0
            &&& f.samples@ == samples
            &&& f.sample_rate == sample_rate
            &&& f.captured_at == now
        },
        None => samples.len() == 0,
    }
}

/// Tap-owned mix state, needed only in `Separate` mode (the delivery path
/// keeps the tracks apart there, but the tap contract is one mono stream).
/// Starts empty: no memory is spent until a tap actually needs the mix.
pub struct TapMix<S> {
    residual: Vec<S>,
    mixed: Vec<S>,
}

impl<S> TapMix<S> {
    /// The system samples that wait for the microphone.
    pub closed spec fn residual(&self) -> Seq<S> {
        self.residual@
    }

    /// The latest mix.
    pub closed spec fn mixed(&self) -> Seq<S> {
        self.mixed@
    }

    /// Nothing waits yet.
    pub fn new() -> (mix: Self)
        ensures
            mix.residual() == Seq::<S>::empty(),
            mix.mixed() == Seq::<S>::empty(),
    {
        TapMix { residual: Vec::new(), mixed: Vec::new() }
    }
}

/// Single-track tap delivery: the delivery buffer already is the one mono
/// stream the tap wants, so it is borrowed as-is. Nothing is delivered where there is no tap.
pub fn tap_single<'a, S>(tapped: bool, samples: &'a [S], sample_rate: u32, now: i128) -> (frames:
    Option<Frames<'a, S>>)
    ensures
        tapped ==> hands_over(frames, samples@, sample_rate, now),
        !tapped ==> frames is None,
{
    if !tapped || samples.len() == 0 {
        return None;
    }
    Some(Frames { samples, sample_rate, captured_at: now })
}

/// `Separate`-mode tap delivery: sum the active sources (mic as clock master,
/// the same policy as `Mixed`) into tap-owned buffers, or pass a single active
/// source through borrowed as-is. In the single-track modes the tap instead
/// reuses the delivery buffer directly: zero extra work, zero extra memory.
pub fn tap_separate<'a, S: Copy + Default, F: Fn(S, S) -> S>(
    mix: &'a mut TapMix<S>,
    mic: &'a [S],
    sys: &'a [S],
    mic_active: bool,
    sys_active: bool,
    mix_cap: usize,
    sample_rate: u32,
    now: i128,
    combine: &F,
) -> (frames: Option<Frames<'a, S>>)
    requires
        forall|m: S, s: S| call_requires(*combine, (m, s)),
    ensures
        mic_active && sys_active ==> {
            &&& mixes(*combine, mic@, old(mix).residual() + sys@, final(mix).mixed())
            &&& final(mix).residual() == left_over(
                old(mix).residual() + sys@,
                mic@.len(),
                mix_cap as nat,
            )
            &&& hands_over(frames, final(mix).mixed(), sample_rate, now)
        },
        !(mic_active && sys_active) ==> *final(mix) == *old(mix),
        mic_active && !sys_active ==> hands_over(frames, mic@, sample_rate, now),
        !mic_active && sys_active ==> hands_over(frames, sys@, sample_rate, now),
        !mic_active && !sys_active ==> frames is None,
{
    if mic_active && sys_active {
        mix_into(mic, sys, &mut mix.residual, &mut mix.mixed, mix_cap, combine);
        tap_single(true, mix.mixed.as_slice(), sample_rate, now)
    } else if mic_active {
        tap_single(true, mic, sample_rate, now)
    } else if sys_active {
        tap_single(true, sys, sample_rate, now)
    } else {
        None
    }
}

/// A tap hears all of a tick's samples, at their rate and with the time of the last of them, and
/// nothing of a tick without samples.
pub proof fn law_tap_hears_every_sample<S>(
    frames: Option<Frames<'_, S>>,
    samples: Seq<S>,
    sample_rate: u32,
    now: i128,
)
    requires
        hands_over(frames, samples, sample_rate, now),
    ensures
        frames is None <==> samples.len() == 0,
        frames matches Some(f) ==> f.samples@ == samples && f.sample_rate == sample_rate
            && f.captured_at == now,
{
}

} // verus!
