//! What the single worker/consumer thread does between its waits: it drains the capture
//! ring(s), resamples to the target rate, mixes (in `Mixed` mode) or keeps the sources apart
//! (in `Separate` mode), cuts fixed-length segments, and numbers those that are kept.
//!
//! Memory is flat for the whole recording: fixed-capacity rings and a small set of reused
//! buffers. Nothing accumulates.

use vstd::prelude::*;
use crate::config::{Config, Source};
use crate::mix::{
    is_silence, law_gain_applies_to_every_sample, law_microphone_is_the_clock,
    law_waiting_is_bounded, left_over, meets_silence, mix_into, mixes, scale_in_place, scales,
};
use crate::pipeline::{
    cut_samples, cuts, delivers, flushes, law_less_than_a_window_waits, law_track_loses_nothing,
    stop_of, Fate, TrackPipeline, Window, MAX_FRAMES,
};
use crate::resample::{
    consumed, flushed, law_resampling_loses_no_input, lemma_flushing_adds_its_chunk,
    lemma_outputs_joined, outputs, CHUNK_IN,
};
use crate::ring::{lemma_taken_joined, taken};
use crate::sample::{computes, some_unbearable, Amplitude};
use crate::segment::{Segment, Track};
use crate::segmenter::flattened;
use crate::source::{
    apply_source, drained, drained_and_flushed, law_last_source_stays,
    law_source_waits_for_a_chunk, law_switching_keeps_what_is_needed, matched, missing_sources,
    SourceState,
};
use crate::tap::{hands_over, tap_separate, tap_single, Frames, TapMix};
use crate::timestamp::is_instant;

verus! {

/// Live control messages sent to the worker.
pub enum WorkerCommand<G> {
    /// Switch the active source(s) on the fly.
    SetSource(Source),
    /// Set mic / system-audio linear gains.
    SetGains {
        /// The gain of the microphone.
        mic: G,
        /// The gain of system audio.
        system: G,
    },
}

/// What the worker does after a tick.
#[derive(Debug, Clone, Copy, PartialEq, Eq, Structural)]
pub enum Step {
    /// Stop capture and flush what remains.
    Stop,
    /// Wait, and go on with the next tick.
    Wait,
}

/// What to do after a tick: stop where a device faulted, or nobody can tell whether one did
/// (`None`), and where stopping was asked for.
pub fn after_tick(faulted: Option<bool>, should_stop: bool) -> (step: Step)
    ensures
        step is Stop <==> faulted != Some(false) || should_stop,
{
    match faulted {
        Some(false) => if should_stop {
            Step::Stop
        } else {
            Step::Wait
        },
        _ => Step::Stop,
    }
}

/// The tracks that a recording delivers from the live sources, in order. With separate
/// tracks, one for each live source; otherwise the one that the live sources make.
pub open spec fn tracks_of(separate: bool, mic: bool, sys: bool) -> Seq<Track> {
    if separate {
        if mic && sys {
            seq![Track::Mic, Track::System]
        } else if mic {
            seq![Track::Mic]
        } else if sys {
            seq![Track::System]
        } else {
            Seq::empty()
        }
    } else if mic == sys {
        seq![Track::Mixed]
    } else if mic {
        seq![Track::Mic]
    } else {
        seq![Track::System]
    }
}

/// The tracks that a recording of `source` delivers, in order.
pub fn initial_tracks(source: Source) -> (tracks: Vec<Track>)
    ensures
        tracks@ == tracks_of(source.is_separate(), source.needs_mic(), source.needs_system()),
{
    tracks_for(source.is_separate(), source.needs_mic(), source.needs_system())
}

fn tracks_for(separate: bool, mic: bool, sys: bool) -> (tracks: Vec<Track>)
    ensures
        tracks@ == tracks_of(separate, mic, sys),
{
    let mut tracks: Vec<Track> = Vec::new();
    if separate {
        if mic {
            tracks.push(Track::Mic);
        }
        if sys {
            tracks.push(Track::System);
        }
    } else if mic == sys {
        tracks.push(Track::Mixed);
    } else if mic {
        tracks.push(Track::Mic);
    } else {
        tracks.push(Track::System);
    }
    assert(tracks@ =~= tracks_of(separate, mic, sys));
    tracks
}

/// Whether `buf` is what a source brought, after its gain: what drained from it, or, where it
/// was stopped, all that was left in it. A source that is not there brings nothing.
pub open spec fn brings<S: Default, H, G, U: Fn(G) -> bool, F: Fn(G, S) -> S>(
    stopping: bool,
    unity: U,
    scale: F,
    gain: G,
    before: Option<SourceState<S, H>>,
    after: Option<SourceState<S, H>>,
    buf: Seq<S>,
) -> bool {
    match (before, after) {
        (Some(source), Some(later)) => exists|raw: Seq<S>| #[trigger]
            scales(unity, scale, gain, raw, buf) && if stopping {
                stopped_and_flushed(source, later, raw)
            } else {
                drained(source, Seq::empty(), later, raw)
            },
        (None, None) => buf.len() == 0,
        _ => false,
    }
}

/// Whether `raw` is all that was left in a source when its stream was stopped.
pub open spec fn stopped_and_flushed<S: Default, H>(
    source: SourceState<S, H>,
    later: SourceState<S, H>,
    raw: Seq<S>,
) -> bool {
    exists|stopped: SourceState<S, H>|
        {
            &&& stopped.handle() is None
            &&& stopped.captured() == source.captured()
            &&& stopped.pops() == source.pops()
            &&& stopped.resampler() == source.resampler()
            &&& #[trigger] drained_and_flushed(stopped, Seq::empty(), later, raw)
        }
}

/// Whether a source that is resampled was found to hold a frame that cannot be: the last read
/// from its ring brought one.
pub open spec fn refused<S: Amplitude, H>(
    before: Option<SourceState<S, H>>,
    after: Option<SourceState<S, H>>,
) -> bool {
    match (before, after) {
        (Some(source), Some(later)) => {
            &&& source.resampler().converts()
            &&& later.pops().len() > source.pops().len()
            &&& some_unbearable(later.pops().last().got)
        },
        _ => false,
    }
}

fn hear<S: Amplitude + rubato::Sample, H, G: Copy, U: Fn(G) -> bool, F: Fn(G, S) -> S>(
    source: &mut Option<SourceState<S, H>>,
    buf: &mut Vec<S>,
    gain: G,
    unity: &U,
    scale: &F,
) -> (sound: bool)
    requires
        computes::<S>(),
        source_wf(*old(source)),
        forall|g: G| call_requires(*unity, (g,)),
        forall|g: G, s: S| call_requires(*scale, (g, s)),
    ensures
        source_wf(*final(source)),
        sound ==> brings(
            false,
            *unity,
            *scale,
            gain,
            *old(source),
            *final(source),
            final(buf)@,
        ),
        !sound ==> refused(*old(source), *final(source)),
{
    buf.clear();
    assert(buf@ =~= Seq::<S>::empty());
    if let Some(state) = source.as_mut() {
        if !state.drain_into(buf) {
            return false;
        }
    }
    let ghost raw = buf@;
    scale_in_place(buf, gain, unity, scale);
    assert(scales(*unity, *scale, gain, raw, buf@));
    true
}

fn hear_out<S: Amplitude + rubato::Sample, H, G: Copy, U: Fn(G) -> bool, F: Fn(G, S) -> S>(
    source: &mut Option<SourceState<S, H>>,
    buf: &mut Vec<S>,
    gain: G,
    unity: &U,
    scale: &F,
) -> (sound: bool)
    requires
        computes::<S>(),
        source_wf(*old(source)),
        *old(source) matches Some(state) ==> state.handle() is None,
        forall|g: G| call_requires(*unity, (g,)),
        forall|g: G, s: S| call_requires(*scale, (g, s)),
    ensures
        source_wf(*final(source)),
        sound ==> brings(
            true,
            *unity,
            *scale,
            gain,
            *old(source),
            *final(source),
            final(buf)@,
        ),
        !sound ==> refused(*old(source), *final(source)),
{
    buf.clear();
    assert(buf@ =~= Seq::<S>::empty());
    if let Some(state) = source.as_mut() {
        if !state.flush_into(buf) {
            return false;
        }
    }
    let ghost raw = buf@;
    scale_in_place(buf, gain, unity, scale);
    assert(scales(*unity, *scale, gain, raw, buf@));
    true
}

/// Everything the worker holds between two ticks.
#[verifier::reject_recursive_types(S)]
pub struct Session<S, H, G> {
    cfg: Config<G>,
    // The active delivery mode; switchable live.
    mode: Source,
    // Whether the latest tick is the last: capture was stopped.
    stopped: bool,
    mic_gain: G,
    system_gain: G,
    mic_state: Option<SourceState<S, H>>,
    sys_state: Option<SourceState<S, H>>,
    // One pipeline per output track. `Mic` / `System` / `Mixed` use exactly one;
    // `Separate` uses `mic_pipe` + `sys_pipe`.
    mixed_pipe: Option<TrackPipeline<S>>,
    mic_pipe: Option<TrackPipeline<S>>,
    sys_pipe: Option<TrackPipeline<S>>,
    sys_residual: Vec<S>,
    tap_mix: TapMix<S>,
    mic_buf: Vec<S>,
    sys_buf: Vec<S>,
    mixed: Vec<S>,
}

/// Whether a pipeline has taken in nothing and delivered nothing.
pub open spec fn is_fresh<S>(pipe: TrackPipeline<S>) -> bool {
    pipe.index() == 0 && pipe.pushed() == 0 && pipe.pending() == Seq::<S>::empty()
}

/// Whether a source is in order, where there is one.
pub open spec fn source_wf<S: Amplitude, H>(source: Option<SourceState<S, H>>) -> bool {
    source matches Some(state) ==> state.wf()
}

/// Whether a slot holds nothing or a pipeline for `track` with windows of `len` frames.
pub open spec fn pipe_wf<S>(slot: Option<TrackPipeline<S>>, track: Track, len: nat) -> bool {
    slot matches Some(pipe) ==> pipe.wf() && pipe.track() == track && pipe.full_length() == len
}

impl<S, H, G> Session<S, H, G> {
    /// The configuration.
    pub closed spec fn cfg(&self) -> Config<G> {
        self.cfg
    }

    /// The active delivery mode.
    pub closed spec fn mode(&self) -> Source {
        self.mode
    }

    /// Whether capture was stopped at the latest tick.
    pub closed spec fn stopped(&self) -> bool {
        self.stopped
    }

    /// The gains of the microphone and of system audio.
    pub closed spec fn gains(&self) -> (G, G) {
        (self.mic_gain, self.system_gain)
    }

    /// The microphone, where it is captured.
    pub closed spec fn mic(&self) -> Option<SourceState<S, H>> {
        self.mic_state
    }

    /// System audio, where it is captured.
    pub closed spec fn sys(&self) -> Option<SourceState<S, H>> {
        self.sys_state
    }

    /// The pipeline of a track, where it was ever used.
    pub closed spec fn pipe(&self, track: Track) -> Option<TrackPipeline<S>> {
        match track {
            Track::Mixed => self.mixed_pipe,
            Track::Mic => self.mic_pipe,
            Track::System => self.sys_pipe,
        }
    }

    /// What this tick brought on a track.
    pub closed spec fn stream(&self, track: Track) -> Seq<S> {
        match track {
            Track::Mixed => self.mixed@,
            Track::Mic => self.mic_buf@,
            Track::System => self.sys_buf@,
        }
    }

    /// The system samples that wait for the microphone in the delivered mix.
    pub closed spec fn sys_residual(&self) -> Seq<S> {
        self.sys_residual@
    }

    /// The tap's own mix.
    pub closed spec fn tap_mix(&self) -> TapMix<S> {
        self.tap_mix
    }

}

impl<S: Amplitude, H, G> Session<S, H, G> {
    /// The configuration is valid, the sources and the pipelines are in order, and no more
    /// system samples wait for the microphone than one second's, in the delivered mix and in
    /// the tap's.
    pub open spec fn wf(&self) -> bool {
        &&& self.cfg().wf()
        &&& self.cfg().valid()
        &&& source_wf(self.mic())
        &&& source_wf(self.sys())
        &&& pipe_wf(self.pipe(Track::Mixed), Track::Mixed, self.cfg().full_length())
        &&& pipe_wf(self.pipe(Track::Mic), Track::Mic, self.cfg().full_length())
        &&& pipe_wf(self.pipe(Track::System), Track::System, self.cfg().full_length())
        &&& self.sys_residual().len() <= self.cfg().sample_rate
        &&& self.tap_mix().residual().len() <= self.cfg().sample_rate
    }

}

impl<S, H, G> Session<S, H, G> {
    /// The tracks that are delivered this tick, in order.
    pub open spec fn tracks(&self) -> Seq<Track> {
        tracks_of(self.mode().is_separate(), self.mic() is Some, self.sys() is Some)
    }

    /// Whether nothing but the mode, the gains and the live sources may differ.
    pub open spec fn keeps_audio(&self, other: Session<S, H, G>) -> bool {
        &&& self.cfg() == other.cfg()
        &&& self.stopped() == other.stopped()
        &&& forall|t: Track| #[trigger] self.pipe(t) == other.pipe(t)
        &&& forall|t: Track| #[trigger] self.stream(t) == other.stream(t)
        &&& self.tap_mix() == other.tap_mix()
    }

    /// Whether the mode, the gains and the live sources are the same.
    pub open spec fn keeps_setup(&self, other: Session<S, H, G>) -> bool {
        &&& self.cfg() == other.cfg()
        &&& self.mode() == other.mode()
        &&& self.stopped() == other.stopped()
        &&& self.gains() == other.gains()
        &&& self.mic() == other.mic()
        &&& self.sys() == other.sys()
    }

    /// Whether everything but the pipeline of `track` is the same.
    pub open spec fn keeps_all_but(&self, track: Track, other: Session<S, H, G>) -> bool {
        &&& self.keeps_setup(other)
        &&& forall|t: Track| t != track ==> #[trigger] self.pipe(t) == other.pipe(t)
        &&& forall|t: Track| #[trigger] self.stream(t) == other.stream(t)
        &&& self.sys_residual() == other.sys_residual()
        &&& self.tap_mix() == other.tap_mix()
    }
}

/// Whether a session has taken in what its sources captured, or, where `stopping`, all that was
/// left in them: each source's stream at its gain, and, unless the tracks are kept apart, the mix
/// of two live sources, with what waited of system audio. The pipelines are as they were.
pub open spec fn listens<
    S: Default,
    H,
    G,
    U: Fn(G) -> bool,
    F: Fn(G, S) -> S,
    M: Fn(S, S) -> S,
>(
    before: Session<S, H, G>,
    stopping: bool,
    unity: U,
    scale: F,
    combine: M,
    after: Session<S, H, G>,
) -> bool {
    let (mic, system) = (
        after.stream(Track::Mic),
        before.sys_residual() + after.stream(Track::System),
    );
    &&& after.cfg() == before.cfg()
    &&& after.mode() == before.mode()
    &&& after.stopped() == stopping
    &&& after.gains() == before.gains()
    &&& after.tap_mix() == before.tap_mix()
    &&& forall|t: Track| #[trigger] after.pipe(t) == before.pipe(t)
    &&& brings(stopping, unity, scale, before.gains().0, before.mic(), after.mic(), mic)
    &&& brings(
        stopping,
        unity,
        scale,
        before.gains().1,
        before.sys(),
        after.sys(),
        after.stream(Track::System),
    )
    &&& if before.mode().is_separate() || before.mic() is None || before.sys() is None {
        &&& after.stream(Track::Mixed) == Seq::<S>::empty()
        &&& after.sys_residual() == before.sys_residual()
    } else {
        &&& mixes(combine, mic, system, after.stream(Track::Mixed))
        &&& after.sys_residual() == left_over(system, mic.len(), before.cfg().sample_rate as nat)
    }
}

/// Whether `frames` are what a tap hears of this tick: the mix of both sources where both are
/// live, made for the tap where the tracks are kept apart, and else the stream that is delivered.
pub open spec fn taps<S: Default, H, G, M: Fn(S, S) -> S>(
    before: Session<S, H, G>,
    now: i128,
    combine: M,
    after: Session<S, H, G>,
    frames: Option<Frames<'_, S>>,
) -> bool {
    let rate = before.cfg().sample_rate;
    if before.mode().is_separate() && before.mic() is Some && before.sys() is Some {
        let system = before.tap_mix().residual() + before.stream(Track::System);
        &&& mixes(combine, before.stream(Track::Mic), system, after.tap_mix().mixed())
        &&& after.tap_mix().residual() == left_over(
            system,
            before.stream(Track::Mic).len(),
            rate as nat,
        )
        &&& hands_over(frames, after.tap_mix().mixed(), rate, now)
    } else {
        &&& after.tap_mix() == before.tap_mix()
        &&& if before.tracks().len() == 0 {
            frames is None
        } else {
            hands_over(frames, before.stream(before.tracks()[0]), rate, now)
        }
    }
}

/// Whether a session has switched to `target`, with what could be opened for it. System audio
/// that waited is dropped where system audio is new, and kept otherwise.
pub open spec fn switches<S, H, G>(
    before: Session<S, H, G>,
    target: Source,
    opened_mic: Option<SourceState<S, H>>,
    opened_sys: Option<SourceState<S, H>>,
    after: Session<S, H, G>,
) -> bool {
    &&& after.keeps_audio(before)
    &&& after.gains() == before.gains()
    &&& after.mode() == target
    &&& (after.mic(), after.sys()) == matched(
        target,
        before.mic(),
        before.sys(),
        opened_mic,
        opened_sys,
    )
    &&& after.sys_residual() == if target.needs_system() && before.sys() is None
        && opened_sys is Some {
        Seq::empty()
    } else {
        before.sys_residual()
    }
}

impl<S: Amplitude + rubato::Sample, H, G: Copy> Session<S, H, G> {
    /// A session with the sources that were opened for `cfg`, and a pipeline for each track
    /// that its mode delivers. `clamp` brings a gain into the range of gains.
    pub fn new<C: Fn(G) -> G>(
        cfg: Config<G>,
        mic: Option<SourceState<S, H>>,
        sys: Option<SourceState<S, H>>,
        clamp: &C,
    ) -> (session: Self)
        requires
            cfg.wf(),
            cfg.valid(),
            source_wf(mic),
            source_wf(sys),
            forall|g: G| call_requires(*clamp, (g,)),
        ensures
            session.wf(),
            session.cfg() == cfg,
            session.mode() == cfg.source,
            !session.stopped(),
            call_ensures(*clamp, (cfg.mic_gain,), session.gains().0),
            call_ensures(*clamp, (cfg.system_gain,), session.gains().1),
            session.mic() == mic,
            session.sys() == sys,
            session.sys_residual() == Seq::<S>::empty(),
            session.tap_mix().residual() == Seq::<S>::empty(),
            forall|t: Track| #[trigger] session.stream(t) == Seq::<S>::empty(),
            forall|t: Track|
                match #[trigger] session.pipe(t) {
                    Some(pipe) => tracks_of(
                        cfg.source.is_separate(),
                        cfg.source.needs_mic(),
                        cfg.source.needs_system(),
                    ).contains(t) && is_fresh(pipe),
                    None => !tracks_of(
                        cfg.source.is_separate(),
                        cfg.source.needs_mic(),
                        cfg.source.needs_system(),
                    ).contains(t),
                },
    {
        let mic_gain: G = clamp(cfg.mic_gain);
        let system_gain: G = clamp(cfg.system_gain);
        let mode: Source = cfg.source;
        let mut session = Session {
            cfg,
            mode,
            stopped: false,
            mic_gain,
            system_gain,
            mic_state: mic,
            sys_state: sys,
            mixed_pipe: None,
            mic_pipe: None,
            sys_pipe: None,
            sys_residual: Vec::new(),
            tap_mix: TapMix::new(),
            mic_buf: Vec::new(),
            sys_buf: Vec::new(),
            mixed: Vec::new(),
        };
        let ghost tracks = tracks_of(
            cfg.source.is_separate(),
            cfg.source.needs_mic(),
            cfg.source.needs_system(),
        );
        match mode {
            Source::Mic => {
                session.add_pipe(Track::Mic);
                assert(tracks[0] == Track::Mic);
            },
            Source::System => {
                session.add_pipe(Track::System);
                assert(tracks[0] == Track::System);
            },
            Source::Mixed => {
                session.add_pipe(Track::Mixed);
                assert(tracks[0] == Track::Mixed);
            },
            Source::Separate => {
                session.add_pipe(Track::Mic);
                session.add_pipe(Track::System);
                assert(tracks[0] == Track::Mic && tracks[1] == Track::System);
            },
        }
        session
    }

    /// Whether the pipeline of a track is there.
    pub fn has_pipe(&self, track: Track) -> (there: bool)
        ensures
            there == (self.pipe(track) is Some),
    {
        match track {
            Track::Mixed => self.mixed_pipe.is_some(),
            Track::Mic => self.mic_pipe.is_some(),
            Track::System => self.sys_pipe.is_some(),
        }
    }

    /// Give a track its pipeline, unless it has one.
    pub fn add_pipe(&mut self, track: Track)
        requires
            old(self).wf(),
        ensures
            final(self).wf(),
            final(self).keeps_all_but(track, *old(self)),
            match old(self).pipe(track) {
                Some(pipe) => final(self).pipe(track) == Some(pipe),
                None => final(self).pipe(track) matches Some(pipe) && is_fresh(pipe),
            },
    {
        if self.has_pipe(track) {
            return ;
        }
        let pipe = TrackPipeline::new(track, &self.cfg);
        match track {
            Track::Mixed => {
                self.mixed_pipe = Some(pipe);
            },
            Track::Mic => {
                self.mic_pipe = Some(pipe);
            },
            Track::System => {
                self.sys_pipe = Some(pipe);
            },
        }
    }

    /// Switch the active source(s). `opened_mic` and `opened_sys` are the sources that were
    /// missing, as far as they could be opened.
    pub fn set_source(
        &mut self,
        target: Source,
        opened_mic: Option<SourceState<S, H>>,
        opened_sys: Option<SourceState<S, H>>,
    )
        requires
            old(self).wf(),
            source_wf(opened_mic),
            source_wf(opened_sys),
        ensures
            final(self).wf(),
            switches(*old(self), target, opened_mic, opened_sys, *final(self)),
            final(self).keeps_audio(*old(self)),
            final(self).gains() == old(self).gains(),
            final(self).mode() == target,
            (final(self).mic(), final(self).sys()) == matched(
                target,
                old(self).mic(),
                old(self).sys(),
                opened_mic,
                opened_sys,
            ),
            final(self).sys_residual() == if target.needs_system() && old(self).sys() is None
                && opened_sys is Some {
                Seq::empty()
            } else {
                old(self).sys_residual()
            },
    {
        apply_source(
            target,
            &mut self.mic_state,
            &mut self.sys_state,
            opened_mic,
            opened_sys,
            &mut self.sys_residual,
        );
        self.mode = target;
    }

    /// Set the gains. `clamp` brings a gain into the range of gains.
    pub fn set_gains<C: Fn(G) -> G>(&mut self, mic: G, system: G, clamp: &C)
        requires
            old(self).wf(),
            forall|g: G| call_requires(*clamp, (g,)),
        ensures
            final(self).wf(),
            final(self).keeps_audio(*old(self)),
            final(self).mode() == old(self).mode(),
            final(self).mic() == old(self).mic(),
            final(self).sys() == old(self).sys(),
            final(self).sys_residual() == old(self).sys_residual(),
            call_ensures(*clamp, (mic,), final(self).gains().0),
            call_ensures(*clamp, (system,), final(self).gains().1),
    {
        self.mic_gain = clamp(mic);
        self.system_gain = clamp(system);
    }

    /// Which sources must be opened before the recording can switch to `target`.
    pub fn missing_sources(&self, target: Source) -> (open: (bool, bool))
        ensures
            open.0 == (target.needs_mic() && self.mic() is None),
            open.1 == (target.needs_system() && self.sys() is None),
    {
        missing_sources(target, self.mic_state.is_some(), self.sys_state.is_some())
    }

    /// Take in what the live sources have captured: drain them, or, where `stopping`, stop
    /// them and take all that is left; apply the gains; and, unless the tracks are kept apart,
    /// mix two live sources, the microphone as the clock master. Says no where a source holds a
    /// frame that cannot be resampled; a recording cannot go on from there.
    pub fn listen<U: Fn(G) -> bool, F: Fn(G, S) -> S, M: Fn(S, S) -> S>(
        &mut self,
        stopping: bool,
        unity: &U,
        scale: &F,
        combine: &M,
    ) -> (heard: bool)
        requires
            computes::<S>(),
            old(self).wf(),
            forall|g: G| call_requires(*unity, (g,)),
            forall|g: G, s: S| call_requires(*scale, (g, s)),
            forall|m: S, s: S| call_requires(*combine, (m, s)),
        ensures
            final(self).wf(),
            final(self).cfg() == old(self).cfg(),
            final(self).mode() == old(self).mode(),
            final(self).stopped() == stopping,
            final(self).gains() == old(self).gains(),
            final(self).tap_mix() == old(self).tap_mix(),
            forall|t: Track| #[trigger] final(self).pipe(t) == old(self).pipe(t),
            !heard ==> refused(old(self).mic(), final(self).mic()) || refused(
                old(self).sys(),
                final(self).sys(),
            ),
            heard ==> listens(*old(self), stopping, *unity, *scale, *combine, *final(self)),
            heard ==> brings(
                stopping,
                *unity,
                *scale,
                old(self).gains().0,
                old(self).mic(),
                final(self).mic(),
                final(self).stream(Track::Mic),
            ),
            heard ==> brings(
                stopping,
                *unity,
                *scale,
                old(self).gains().1,
                old(self).sys(),
                final(self).sys(),
                final(self).stream(Track::System),
            ),
            heard ==> if old(self).mode().is_separate() || old(self).mic() is None || old(
                self,
            ).sys() is None {
                &&& final(self).stream(Track::Mixed) == Seq::<S>::empty()
                &&& final(self).sys_residual() == old(self).sys_residual()
            } else {
                let system = old(self).sys_residual() + final(self).stream(Track::System);
                &&& mixes(
                    *combine,
                    final(self).stream(Track::Mic),
                    system,
                    final(self).stream(Track::Mixed),
                )
                &&& final(self).sys_residual() == left_over(
                    system,
                    final(self).stream(Track::Mic).len(),
                    old(self).cfg().sample_rate as nat,
                )
            },
    {
        self.stopped = stopping;
        if stopping {
            if let Some(state) = self.mic_state.as_mut() {
                state.stop_stream();
            }
            if let Some(state) = self.sys_state.as_mut() {
                state.stop_stream();
            }
            if !hear_out(&mut self.mic_state, &mut self.mic_buf, self.mic_gain, unity, scale) {
                return false;
            }
            if !hear_out(&mut self.sys_state, &mut self.sys_buf, self.system_gain, unity, scale) {
                return false;
            }
        } else {
            if !hear(&mut self.mic_state, &mut self.mic_buf, self.mic_gain, unity, scale) {
                return false;
            }
            if !hear(&mut self.sys_state, &mut self.sys_buf, self.system_gain, unity, scale) {
                return false;
            }
        }
        if !self.mode.is_separate() && self.mic_state.is_some() && self.sys_state.is_some() {
            mix_into(
                self.mic_buf.as_slice(),
                self.sys_buf.as_slice(),
                &mut self.sys_residual,
                &mut self.mixed,
                self.cfg.sample_rate as usize,
                combine,
            );
        } else {
            self.mixed.clear();
            assert(self.mixed@ =~= Seq::<S>::empty());
        }
        true
    }

    /// What a tap hears of this tick, captured `now`: one mono stream, whichever tracks are
    /// delivered.
    pub fn tap<M: Fn(S, S) -> S>(&mut self, now: i128, combine: &M) -> (frames: Option<
        Frames<'_, S>,
    >)
        requires
            old(self).wf(),
            forall|m: S, s: S| call_requires(*combine, (m, s)),
        ensures
            final(self).wf(),
            final(self).keeps_setup(*old(self)),
            final(self).sys_residual() == old(self).sys_residual(),
            forall|t: Track| #[trigger] final(self).pipe(t) == old(self).pipe(t),
            forall|t: Track| #[trigger] final(self).stream(t) == old(self).stream(t),
            taps(*old(self), now, *combine, *final(self), frames),
            if old(self).mode().is_separate() && old(self).mic() is Some && old(self).sys()
                is Some {
                let system = old(self).tap_mix().residual() + old(self).stream(Track::System);
                &&& mixes(
                    *combine,
                    old(self).stream(Track::Mic),
                    system,
                    final(self).tap_mix().mixed(),
                )
                &&& final(self).tap_mix().residual() == left_over(
                    system,
                    old(self).stream(Track::Mic).len(),
                    old(self).cfg().sample_rate as nat,
                )
                &&& hands_over(
                    frames,
                    final(self).tap_mix().mixed(),
                    old(self).cfg().sample_rate,
                    now,
                )
            } else {
                &&& final(self).tap_mix() == old(self).tap_mix()
                &&& if old(self).tracks().len() == 0 {
                    frames is None
                } else {
                    hands_over(
                        frames,
                        old(self).stream(old(self).tracks()[0]),
                        old(self).cfg().sample_rate,
                        now,
                    )
                }
            },
    {
        let rate: u32 = self.cfg.sample_rate;
        let mic: bool = self.mic_state.is_some();
        let sys: bool = self.sys_state.is_some();
        if self.mode.is_separate() {
            tap_separate(
                &mut self.tap_mix,
                self.mic_buf.as_slice(),
                self.sys_buf.as_slice(),
                mic,
                sys,
                rate as usize,
                rate,
                now,
                combine,
            )
        } else if mic == sys {
            tap_single(true, self.mixed.as_slice(), rate, now)
        } else if mic {
            tap_single(true, self.mic_buf.as_slice(), rate, now)
        } else {
            tap_single(true, self.sys_buf.as_slice(), rate, now)
        }
    }

    /// The tracks that are delivered this tick, in order.
    pub fn live_tracks(&self) -> (tracks: Vec<Track>)
        ensures
            tracks@ == self.tracks(),
    {
        tracks_for(self.mode.is_separate(), self.mic_state.is_some(), self.sys_state.is_some())
    }

    /// The tracks that were ever used, in the order in which they are flushed.
    pub fn used_tracks(&self) -> (tracks: Vec<Track>)
        ensures
            tracks@ == seq![Track::Mixed, Track::Mic, Track::System].filter(
                |t: Track| self.pipe(t) is Some,
            ),
    {
        let mut tracks: Vec<Track> = Vec::new();
        if self.mixed_pipe.is_some() {
            tracks.push(Track::Mixed);
        }
        if self.mic_pipe.is_some() {
            tracks.push(Track::Mic);
        }
        if self.sys_pipe.is_some() {
            tracks.push(Track::System);
        }
        proof {
            let all = seq![Track::Mixed, Track::Mic, Track::System];
            let used = |t: Track| self.pipe(t) is Some;
            reveal_with_fuel(Seq::filter, 4);
            assert(all.drop_last() =~= seq![Track::Mixed, Track::Mic]);
            assert(all.drop_last().drop_last() =~= seq![Track::Mixed]);
            assert(all.drop_last().drop_last().drop_last() =~= Seq::<Track>::empty());
            assert(tracks@ =~= all.filter(used));
        }
        tracks
    }

    /// How many frames a track has taken in, and how many segments it delivered. Nothing,
    /// where it was never used.
    pub fn counts(&self, track: Track) -> (counts: (u64, u64))
        ensures
            match self.pipe(track) {
                Some(pipe) => counts.0 == pipe.pushed() && counts.1 == pipe.index(),
                None => counts == (0u64, 0u64),
            },
    {
        let slot = match track {
            Track::Mixed => &self.mixed_pipe,
            Track::Mic => &self.mic_pipe,
            Track::System => &self.sys_pipe,
        };
        match slot {
            Some(pipe) => (pipe.frames(), pipe.delivered()),
            None => (0, 0),
        }
    }

    /// How many frames this tick brought on a track.
    pub fn arrived(&self, track: Track) -> (n: usize)
        ensures
            n == self.stream(track).len(),
    {
        match track {
            Track::Mixed => self.mixed.len(),
            Track::Mic => self.mic_buf.len(),
            Track::System => self.sys_buf.len(),
        }
    }
}

fn cut_slot<S: Copy, G>(
    slot: &mut Option<TrackPipeline<S>>,
    samples: &[S],
    cfg: &Config<G>,
    now: i128,
    is_final: bool,
) -> (windows: Vec<Window<S>>)
    requires
        *old(slot) matches Some(pipe) ==> pipe.wf() && pipe.pushed() + samples@.len()
            <= MAX_FRAMES,
        cfg.wf(),
        cfg.sample_rate > 0,
        is_instant(now as int),
    ensures
        match (*old(slot), *final(slot)) {
            (Some(before), Some(after)) => after.wf() && cuts(
                before,
                samples@,
                cfg.sample_rate,
                now as int,
                stop_of(is_final, *cfg),
                after,
                windows@,
            ),
            (None, None) => windows@.len() == 0,
            _ => false,
        },
{
    match slot.as_mut() {
        Some(pipe) => pipe.push(samples, cfg, now, is_final),
        None => Vec::new(),
    }
}

fn flush_slot<S: Copy, G>(slot: &mut Option<TrackPipeline<S>>, cfg: &Config<G>) -> (tail: Option<
    Window<S>,
>)
    requires
        *old(slot) matches Some(pipe) ==> pipe.wf(),
        cfg.wf(),
        cfg.sample_rate > 0,
    ensures
        match (*old(slot), *final(slot)) {
            (Some(before), Some(after)) => after.wf() && flushes(
                before,
                cfg.min_tail(),
                cfg.sample_rate,
                after,
                tail,
            ),
            (None, None) => tail is None,
            _ => false,
        },
{
    match slot.as_mut() {
        Some(pipe) => pipe.flush(cfg),
        None => None,
    }
}

fn deliver_slot<S: Copy, G>(
    slot: &mut Option<TrackPipeline<S>>,
    window: Window<S>,
    cfg: &Config<G>,
    fate: Fate,
) -> (r: Option<Segment>)
    requires
        *old(slot) matches Some(pipe) && pipe.wf() && pipe.index() < u64::MAX,
        window.wf(),
    ensures
        match (*old(slot), *final(slot)) {
            (Some(before), Some(after)) => after.wf() && delivers(
                before,
                window,
                *cfg,
                fate,
                after,
                r,
            ),
            _ => false,
        },
{
    match slot.as_mut() {
        Some(pipe) => pipe.deliver(window, cfg, fate),
        None => None,
    }
}

impl<S: Amplitude + rubato::Sample, H, G: Copy> Session<S, H, G> {
    /// Cut what this tick, or the stop, brought on a track into windows. A track without a
    /// pipeline is skipped. At the stop the last window is final, where nothing comes after
    /// it.
    pub fn cut(&mut self, track: Track, now: i128) -> (windows: Vec<Window<S>>)
        requires
            old(self).wf(),
            is_instant(now as int),
            old(self).pipe(track) matches Some(pipe) ==> pipe.pushed() + old(self).stream(
                track,
            ).len() <= MAX_FRAMES,
        ensures
            final(self).wf(),
            final(self).keeps_all_but(track, *old(self)),
            match (old(self).pipe(track), final(self).pipe(track)) {
                (Some(before), Some(after)) => cuts(
                    before,
                    old(self).stream(track),
                    old(self).cfg().sample_rate,
                    now as int,
                    stop_of(old(self).stopped(), old(self).cfg()),
                    after,
                    windows@,
                ),
                (None, None) => windows@.len() == 0,
                _ => false,
            },
    {
        match track {
            Track::Mixed => cut_slot(
                &mut self.mixed_pipe,
                self.mixed.as_slice(),
                &self.cfg,
                now,
                self.stopped,
            ),
            Track::Mic => cut_slot(
                &mut self.mic_pipe,
                self.mic_buf.as_slice(),
                &self.cfg,
                now,
                self.stopped,
            ),
            Track::System => cut_slot(
                &mut self.sys_pipe,
                self.sys_buf.as_slice(),
                &self.cfg,
                now,
                self.stopped,
            ),
        }
    }

    /// Take out the partial remainder of a track's pipeline, if it was ever used, so no
    /// buffered tail is lost. It ends when the newest frame of that track was captured.
    pub fn flush(&mut self, track: Track) -> (tail: Option<Window<S>>)
        requires
            old(self).wf(),
        ensures
            final(self).wf(),
            final(self).keeps_all_but(track, *old(self)),
            match (old(self).pipe(track), final(self).pipe(track)) {
                (Some(before), Some(after)) => flushes(
                    before,
                    old(self).cfg().min_tail(),
                    old(self).cfg().sample_rate,
                    after,
                    tail,
                ),
                (None, None) => tail is None,
                _ => false,
            },
    {
        match track {
            Track::Mixed => flush_slot(&mut self.mixed_pipe, &self.cfg),
            Track::Mic => flush_slot(&mut self.mic_pipe, &self.cfg),
            Track::System => flush_slot(&mut self.sys_pipe, &self.cfg),
        }
    }

    /// Number and timestamp a window of a track, if it was heard and encoded.
    pub fn deliver(&mut self, track: Track, window: Window<S>, fate: Fate) -> (r: Option<
        Segment,
    >)
        requires
            old(self).wf(),
            window.wf(),
            old(self).pipe(track) matches Some(pipe) && pipe.index() < u64::MAX,
        ensures
            final(self).wf(),
            final(self).keeps_all_but(track, *old(self)),
            match (old(self).pipe(track), final(self).pipe(track)) {
                (Some(before), Some(after)) => delivers(
                    before,
                    window,
                    old(self).cfg(),
                    fate,
                    after,
                    r,
                ),
                _ => false,
            },
            r is Some <==> fate is Encoded,
            r matches Some(segment) ==> {
                &&& segment.track == track
                &&& segment.data@ == fate->Encoded_0@
                &&& segment.format == old(self).cfg().format
                &&& segment.sample_rate == old(self).cfg().sample_rate
                &&& segment.channels == 1
            },
    {
        match track {
            Track::Mixed => deliver_slot(&mut self.mixed_pipe, window, &self.cfg, fate),
            Track::Mic => deliver_slot(&mut self.mic_pipe, window, &self.cfg, fate),
            Track::System => deliver_slot(&mut self.sys_pipe, window, &self.cfg, fate),
        }
    }
}

/// The windows that one track's share of a tick completes.
pub struct Cut<S> {
    pub track: Track,
    pub windows: Vec<Window<S>>,
}

/// What remains of one track at the stop, unless it is nothing or too short.
pub struct Tail<S> {
    pub track: Track,
    pub window: Option<Window<S>>,
}

/// Whether a track's pipeline has gone on by what this tick brought; one that is not there is
/// skipped.
pub open spec fn cut_on<S, H, G>(
    before: Session<S, H, G>,
    track: Track,
    now: int,
    after: Session<S, H, G>,
    windows: Seq<Window<S>>,
) -> bool {
    match (before.pipe(track), after.pipe(track)) {
        (Some(old_pipe), Some(new_pipe)) => cuts(
            old_pipe,
            before.stream(track),
            before.cfg().sample_rate,
            now,
            stop_of(before.stopped(), before.cfg()),
            new_pipe,
            windows,
        ),
        (None, None) => windows.len() == 0,
        _ => false,
    }
}

/// Whether every live track was cut, in order, and nothing else has changed.
pub open spec fn cut_all<S, H, G>(
    before: Session<S, H, G>,
    now: int,
    after: Session<S, H, G>,
    cuts: Seq<Cut<S>>,
) -> bool {
    &&& after.keeps_setup(before)
    &&& after.sys_residual() == before.sys_residual()
    &&& after.tap_mix() == before.tap_mix()
    &&& forall|t: Track| #[trigger] after.stream(t) == before.stream(t)
    &&& forall|t: Track|
        !before.tracks().contains(t) ==> #[trigger] after.pipe(t) == before.pipe(t)
    &&& cuts.len() == before.tracks().len()
    &&& forall|i: int|
        0 <= i < cuts.len() ==> (#[trigger] cuts[i]).track == before.tracks()[i] && cut_on(
            before,
            before.tracks()[i],
            now,
            after,
            cuts[i].windows@,
        )
}

/// Whether what remained of a track came out.
pub open spec fn flushed_on<S, H, G>(
    before: Session<S, H, G>,
    track: Track,
    after: Session<S, H, G>,
    tail: Option<Window<S>>,
) -> bool {
    match (before.pipe(track), after.pipe(track)) {
        (Some(old_pipe), Some(new_pipe)) => flushes(
            old_pipe,
            before.cfg().min_tail(),
            before.cfg().sample_rate,
            new_pipe,
            tail,
        ),
        (None, None) => tail is None,
        _ => false,
    }
}

/// The tracks in the order in which they are flushed.
pub open spec fn flush_order() -> Seq<Track> {
    seq![Track::Mixed, Track::Mic, Track::System]
}

impl<S: Amplitude + rubato::Sample, H, G: Copy> Session<S, H, G> {
    /// Cut what this tick, or the stop, brought on every live track, in their order.
    pub fn cut_live(&mut self, now: i128) -> (cuts: Vec<Cut<S>>)
        requires
            old(self).wf(),
            is_instant(now as int),
            forall|t: Track|
                old(self).tracks().contains(t) ==> (#[trigger] old(self).pipe(t) matches Some(
                    pipe,
                ) ==> pipe.pushed() + old(self).stream(t).len() <= MAX_FRAMES),
        ensures
            final(self).wf(),
            cut_all(*old(self), now as int, *final(self), cuts@),
    {
        let tracks: Vec<Track> = self.live_tracks();
        let ghost before = *self;
        let mut cuts: Vec<Cut<S>> = Vec::new();
        let mut i: usize = 0;
        while i < tracks.len()
            invariant
                i <= tracks@.len(),
                before == *old(self),
                tracks@ == before.tracks(),
                self.wf(),
                is_instant(now as int),
                forall|t: Track|
                    before.tracks().contains(t) ==> (#[trigger] before.pipe(t) matches Some(pipe)
                        ==> pipe.pushed() + before.stream(t).len() <= MAX_FRAMES),
                self.keeps_setup(before),
                self.sys_residual() == before.sys_residual(),
                self.tap_mix() == before.tap_mix(),
                forall|t: Track| #[trigger] self.stream(t) == before.stream(t),
                forall|t: Track|
                    (forall|k: int| 0 <= k < i ==> tracks@[k] != t) ==> #[trigger] self.pipe(t)
                        == before.pipe(t),
                cuts@.len() == i,
                forall|k: int|
                    0 <= k < i ==> (#[trigger] cuts@[k]).track == tracks@[k] && cut_on(
                        before,
                        tracks@[k],
                        now as int,
                        *self,
                        cuts@[k].windows@,
                    ),
            decreases tracks.len() - i,
        {
            let track: Track = tracks[i];
            let ghost mid = *self;
            proof {
                lemma_tracks_differ(before.mode().is_separate(), before.mic() is Some, before.sys()
                    is Some);
                assert(before.tracks().contains(track));
                assert(self.pipe(track) == before.pipe(track));
                assert(before.stream(track) == self.stream(track));
            }
            let windows = self.cut(track, now);
            proof {
                assert forall|k: int| 0 <= k < i implies cut_on(
                    before,
                    #[trigger] tracks@[k],
                    now as int,
                    *self,
                    cuts@[k].windows@,
                ) by {
                    assert(self.pipe(tracks@[k]) == mid.pipe(tracks@[k]));
                }
                assert forall|t: Track|
                    (forall|k: int|
                        0 <= k < i + 1 ==> tracks@[k] != t) implies #[trigger] self.pipe(t)
                    == before.pipe(t) by {
                    assert(tracks@[i as int] != t);
                    assert(mid.pipe(t) == before.pipe(t));
                }
                assert forall|t: Track| #[trigger] self.stream(t) == before.stream(t) by {
                    assert(mid.stream(t) == before.stream(t));
                }
            }
            cuts.push(Cut { track, windows });
            i = i + 1;
        }
        proof {
            assert forall|t: Track| !before.tracks().contains(t) implies #[trigger] self.pipe(t)
                == before.pipe(t) by {
                assert forall|k: int| 0 <= k < i implies tracks@[k] != t by {}
            }
        }
        cuts
    }

    /// Take out what remains of every track that was ever used.
    pub fn flush_all(&mut self) -> (tails: Vec<Tail<S>>)
        requires
            old(self).wf(),
        ensures
            final(self).wf(),
            final(self).keeps_setup(*old(self)),
            tails@.len() == 3,
            forall|i: int|
                0 <= i < 3 ==> (#[trigger] tails@[i]).track == flush_order()[i] && flushed_on(
                    *old(self),
                    flush_order()[i],
                    *final(self),
                    tails@[i].window,
                ),
    {
        let mixed = self.flush(Track::Mixed);
        let mic = self.flush(Track::Mic);
        let system = self.flush(Track::System);
        let mut tails: Vec<Tail<S>> = Vec::new();
        tails.push(Tail { track: Track::Mixed, window: mixed });
        tails.push(Tail { track: Track::Mic, window: mic });
        tails.push(Tail { track: Track::System, window: system });
        tails
    }
}

pub(crate) proof fn lemma_tracks_differ(separate: bool, mic: bool, sys: bool)
    ensures
        forall|i: int, j: int|
            0 <= i < j < tracks_of(separate, mic, sys).len() ==> #[trigger] tracks_of(
                separate,
                mic,
                sys,
            )[i] != #[trigger] tracks_of(separate, mic, sys)[j],
{
}

/// Memory is flat: whatever was captured, less than a window waits on each track, less than a
/// chunk before each resampler, and no more than a second of system audio for the microphone.
pub proof fn law_memory_is_flat<S: Amplitude, H, G>(
    session: Session<S, H, G>,
    track: Track,
)
    requires
        session.wf(),
    ensures
        session.pipe(track) matches Some(pipe) ==> pipe.pending().len()
            < session.cfg().full_length(),
        session.mic() matches Some(source) ==> source.resampler().residual().len() < CHUNK_IN,
        session.sys() matches Some(source) ==> source.resampler().residual().len() < CHUNK_IN,
        session.sys_residual().len() <= session.cfg().sample_rate,
        session.tap_mix().residual().len() <= session.cfg().sample_rate,
{
    if let Some(pipe) = session.pipe(track) {
        law_less_than_a_window_waits(pipe);
    }
    if let Some(source) = session.mic() {
        law_source_waits_for_a_chunk(source);
    }
    if let Some(source) = session.sys() {
        law_source_waits_for_a_chunk(source);
    }
}

/// What came out of a source between two states: what was taken from its ring, as it is or
/// resampled.
pub open spec fn arrivals<S, H>(before: SourceState<S, H>, after: SourceState<S, H>) -> Seq<S> {
    if before.resampler().converts() {
        outputs(after.resampler().log().skip(before.resampler().log().len() as int))
    } else {
        taken(after.pops().skip(before.pops().len() as int))
    }
}

/// Whether a source is the same as before, but that more was read from it and resampled.
pub open spec fn continues<S, H>(before: SourceState<S, H>, after: SourceState<S, H>) -> bool {
    &&& after.captured() == before.captured()
    &&& after.resampler().converts() == before.resampler().converts()
    &&& before.pops().is_prefix_of(after.pops())
    &&& before.resampler().log().is_prefix_of(after.resampler().log())
    &&& after.resampler().converts() || after.resampler().residual().len() == 0
}

/// A source brings what came out of it, at its gain.
proof fn lemma_brings_arrivals<
    S: Default,
    H,
    G,
    U: Fn(G) -> bool,
    F: Fn(G, S) -> S,
>(
    stopping: bool,
    unity: U,
    scale: F,
    gain: G,
    source: SourceState<S, H>,
    source_after: SourceState<S, H>,
    stream: Seq<S>,
)
    requires
        source.resampler().converts() || source.resampler().residual().len() == 0,
        brings(stopping, unity, scale, gain, Some(source), Some(source_after), stream),
    ensures
        scales(unity, scale, gain, arrivals(source, source_after), stream),
        continues(source, source_after),
        stopping ==> source_after.handle() is None
            && source_after.resampler().residual().len() == 0,
{
    let raw = choose|raw: Seq<S>| #[trigger]
        scales(unity, scale, gain, raw, stream) && if stopping {
            stopped_and_flushed(source, source_after, raw)
        } else {
            drained(source, Seq::empty(), source_after, raw)
        };
    if stopping {
        let stopped = choose|stopped: SourceState<S, H>|
            {
                &&& stopped.handle() is None
                &&& stopped.captured() == source.captured()
                &&& stopped.pops() == source.pops()
                &&& stopped.resampler() == source.resampler()
                &&& #[trigger] drained_and_flushed(stopped, Seq::empty(), source_after, raw)
            };
        let (mid, out_mid) = choose|mid: SourceState<S, H>, out_mid: Seq<S>| #[trigger]
            drained(stopped, Seq::empty(), mid, out_mid) && source_after.handle() == mid.handle()
                && source_after.captured() == mid.captured() && source_after.pops() == mid.pops()
                && flushed(mid.resampler(), out_mid, source_after.resampler(), raw);
        lemma_drained_is_arrivals(stopped, mid, out_mid);
        lemma_flushing_adds_its_chunk(
            source.resampler(),
            mid.resampler(),
            source_after.resampler(),
        );
        assert(raw =~= arrivals(source, source_after));
    } else {
        lemma_drained_is_arrivals(source, source_after, raw);
    }
}

/// At unity gain a source brings what came out of it.
pub(crate) proof fn lemma_unity_brings_arrivals<
    S: Default,
    H,
    G,
    U: Fn(G) -> bool,
    F: Fn(G, S) -> S,
>(
    stopping: bool,
    unity: U,
    scale: F,
    gain: G,
    source: SourceState<S, H>,
    source_after: SourceState<S, H>,
    stream: Seq<S>,
)
    requires
        !call_ensures(unity, (gain,), false),
        source.resampler().converts() || source.resampler().residual().len() == 0,
        brings(stopping, unity, scale, gain, Some(source), Some(source_after), stream),
    ensures
        stream == arrivals(source, source_after),
        continues(source, source_after),
        stopping ==> source_after.handle() is None
            && source_after.resampler().residual().len() == 0,
{
    lemma_brings_arrivals(stopping, unity, scale, gain, source, source_after, stream);
}

proof fn lemma_drained_is_arrivals<S, H>(
    before: SourceState<S, H>,
    after: SourceState<S, H>,
    out: Seq<S>,
)
    requires
        before.resampler().converts() || before.resampler().residual().len() == 0,
        drained(before, Seq::empty(), after, out),
    ensures
        out == arrivals(before, after),
        continues(before, after),
        after.handle() == before.handle(),
{
    let new = after.resampler().log().skip(before.resampler().log().len() as int);
    assert(Seq::<S>::empty() + outputs(new) =~= outputs(new));
    let popped = taken(after.pops().skip(before.pops().len() as int));
    assert(Seq::<S>::empty() + popped =~= popped);
    assert(before.pops().is_prefix_of(after.pops()));
    assert(before.resampler().log().is_prefix_of(after.resampler().log()));
}

/// What came out of a source up to one time and from then on is what came out of it in all.
pub(crate) proof fn lemma_arrivals_joined<S, H>(
    first: SourceState<S, H>,
    mid: SourceState<S, H>,
    last: SourceState<S, H>,
)
    requires
        continues(first, mid),
        continues(mid, last),
    ensures
        continues(first, last),
        arrivals(first, last) == arrivals(first, mid) + arrivals(mid, last),
{
    let (l1, l2, l3) = (
        first.resampler().log(),
        mid.resampler().log(),
        last.resampler().log(),
    );
    let (p1, p2, p3) = (first.pops(), mid.pops(), last.pops());
    assert(l3.skip(l1.len() as int) =~= l2.skip(l1.len() as int) + l3.skip(l2.len() as int));
    assert(p3.skip(p1.len() as int) =~= p2.skip(p1.len() as int) + p3.skip(p2.len() as int));
    lemma_outputs_joined(l2.skip(l1.len() as int), l3.skip(l2.len() as int));
    lemma_taken_joined(p2.skip(p1.len() as int), p3.skip(p2.len() as int));
    assert(l1.is_prefix_of(l3));
    assert(p1.is_prefix_of(p3));
}

/// Every captured frame ends up in a segment or waits for one: at unity gain, the windows that
/// a tick completes on a source's own track and what then waits there, one after the other,
/// are what waited before and what came out of the source.
pub proof fn law_every_captured_frame_is_kept<
    S: Default,
    H,
    G,
    U: Fn(G) -> bool,
    F: Fn(G, S) -> S,
>(
    unity: U,
    scale: F,
    gain: G,
    source: SourceState<S, H>,
    source_after: SourceState<S, H>,
    stream: Seq<S>,
    pipe: TrackPipeline<S>,
    pipe_after: TrackPipeline<S>,
    rate: u32,
    now: int,
    windows: Seq<Window<S>>,
)
    requires
        !call_ensures(unity, (gain,), false),
        pipe.wf(),
        source.resampler().converts() || source.resampler().residual().len() == 0,
        brings(false, unity, scale, gain, Some(source), Some(source_after), stream),
        cuts(pipe, stream, rate, now, None, pipe_after, windows),
    ensures
        flattened(cut_samples(windows)) + pipe_after.pending() == pipe.pending() + arrivals(
            source,
            source_after,
        ),
{
    law_track_loses_nothing(pipe, stream, rate, now, None, pipe_after, windows);
    lemma_unity_brings_arrivals(false, unity, scale, gain, source, source_after, stream);
}

/// The same of a stop: at unity gain, the windows and the tail that come out of a source's own
/// track are what waited there and all that the source still held, but for a tail that is
/// shorter than the least length.
pub proof fn law_stopping_keeps_every_captured_frame<
    S: Default,
    H,
    G,
    U: Fn(G) -> bool,
    F: Fn(G, S) -> S,
>(
    unity: U,
    scale: F,
    gain: G,
    source: SourceState<S, H>,
    source_after: SourceState<S, H>,
    stream: Seq<S>,
    pipe: TrackPipeline<S>,
    pipe_cut: TrackPipeline<S>,
    rate: u32,
    now: int,
    windows: Seq<Window<S>>,
    min_tail: nat,
    pipe_after: TrackPipeline<S>,
    tail: Option<Window<S>>,
)
    requires
        !call_ensures(unity, (gain,), false),
        pipe.wf(),
        source.resampler().converts() || source.resampler().residual().len() == 0,
        brings(true, unity, scale, gain, Some(source), Some(source_after), stream),
        cuts(pipe, stream, rate, now, Some(min_tail), pipe_cut, windows),
        flushes(pipe_cut, min_tail, rate, pipe_after, tail),
    ensures
        source_after.handle() is None,
        source_after.resampler().residual().len() == 0,
        pipe_after.pending() == Seq::<S>::empty(),
        ({
            let kept = flattened(cut_samples(windows)) + match tail {
                Some(window) => window.samples@,
                None => Seq::empty(),
            };
            let whole = pipe.pending() + arrivals(source, source_after);
            &&& kept.len() <= whole.len()
            &&& kept == whole.take(kept.len() as int)
            &&& kept == whole || (tail is None && whole.len() < kept.len() + min_tail)
        }),
{
    law_track_loses_nothing(pipe, stream, rate, now, Some(min_tail), pipe_cut, windows);
    lemma_unity_brings_arrivals(true, unity, scale, gain, source, source_after, stream);
    let whole = pipe.pending() + stream;
    let full = flattened(cut_samples(windows));
    match tail {
        Some(window) => {
            assert(full + window.samples@ =~= whole);
        },
        None => {
            assert(full + Seq::<S>::empty() =~= full);
            assert(full =~= whole.take(full.len() as int));
            if pipe_cut.pending().len() == 0 {
                assert(full =~= whole);
            }
        },
    }
}

/// A tap hears the same in `Separate` mode as `Mixed` mode delivers: from the same streams and
/// the same waiting system samples, an addition that has one result for each pair of samples,
/// and one silence, makes the same mix.
pub proof fn law_tap_hears_the_mix<S: Default, M: Fn(S, S) -> S>(
    combine: M,
    mic: Seq<S>,
    system: Seq<S>,
    heard: Seq<S>,
    delivered: Seq<S>,
)
    requires
        forall|m: S, s: S, a: S, b: S|
            #![trigger call_ensures(combine, (m, s), a), call_ensures(combine, (m, s), b)]
            call_ensures(combine, (m, s), a) && call_ensures(combine, (m, s), b) ==> a == b,
        forall|x: S, y: S| #[trigger] is_silence(x) && #[trigger] is_silence(y) ==> x == y,
        mixes(combine, mic, system, heard),
        mixes(combine, mic, system, delivered),
    ensures
        heard == delivered,
{
    assert forall|i: int| 0 <= i < mic.len() implies heard[i] == delivered[i] by {
        if i < system.len() {
            assert(call_ensures(combine, (mic[i], system[i]), heard[i]));
            assert(call_ensures(combine, (mic[i], system[i]), delivered[i]));
        } else {
            assert(meets_silence(combine, mic[i], heard[i]));
            assert(meets_silence(combine, mic[i], delivered[i]));
            let a = choose|silence: S|
                is_silence(silence) && #[trigger] call_ensures(
                    combine,
                    (mic[i], silence),
                    heard[i],
                );
            let b = choose|silence: S|
                is_silence(silence) && #[trigger] call_ensures(
                    combine,
                    (mic[i], silence),
                    delivered[i],
                );
            assert(a == b);
        }
    }
    assert(heard =~= delivered);
}

/// Separate tracks are the live sources, each on its own; otherwise there is one track, which
/// is mixed where both sources are live and has the name of the one that is live where one is.
pub proof fn law_tracks_are_the_live_sources(mic: bool, sys: bool)
    ensures
        tracks_of(true, mic, sys).contains(Track::Mic) <==> mic,
        tracks_of(true, mic, sys).contains(Track::System) <==> sys,
        !tracks_of(true, mic, sys).contains(Track::Mixed),
        tracks_of(true, mic, sys).no_duplicates(),
        mic && sys ==> tracks_of(false, mic, sys) == seq![Track::Mixed],
        mic && !sys ==> tracks_of(false, mic, sys) == seq![Track::Mic],
        !mic && sys ==> tracks_of(false, mic, sys) == seq![Track::System],
{
    let tracks = tracks_of(true, mic, sys);
    if mic {
        assert(tracks[0] == Track::Mic);
    }
    if sys {
        assert(tracks[tracks.len() - 1] == Track::System);
    }
}

/// A source brings all that came out of it, each sample at its gain: unchanged where the gain is
/// unity, and otherwise scaled one by one, in order.
pub proof fn law_sources_bring_what_arrived<
    S: Default,
    H,
    G,
    U: Fn(G) -> bool,
    F: Fn(G, S) -> S,
>(
    stopping: bool,
    unity: U,
    scale: F,
    gain: G,
    source: SourceState<S, H>,
    source_after: SourceState<S, H>,
    stream: Seq<S>,
)
    requires
        source.resampler().converts() || source.resampler().residual().len() == 0,
        brings(stopping, unity, scale, gain, Some(source), Some(source_after), stream),
    ensures
        ({
            let raw = arrivals(source, source_after);
            &&& stream.len() == raw.len()
            &&& !call_ensures(unity, (gain,), false) ==> stream == raw
            &&& !call_ensures(unity, (gain,), true) ==> forall|i: int|
                0 <= i < raw.len() ==> call_ensures(scale, (gain, #[trigger] raw[i]), stream[i])
        }),
        continues(source, source_after),
        stopping ==> source_after.handle() is None
            && source_after.resampler().residual().len() == 0,
{
    lemma_brings_arrivals(stopping, unity, scale, gain, source, source_after, stream);
    law_gain_applies_to_every_sample(
        unity,
        scale,
        gain,
        arrivals(source, source_after),
        stream,
    );
}

/// A source that is drained resamples all that it reads: the frames that were converted and
/// those that wait, one after the other, are those that waited and those that were read.
pub proof fn law_source_resamples_all_it_reads<S, H>(
    before: SourceState<S, H>,
    out: Seq<S>,
    after: SourceState<S, H>,
    out_after: Seq<S>,
)
    requires
        before.resampler().converts(),
        drained(before, out, after, out_after),
    ensures
        ({
            let new = after.resampler().log().skip(before.resampler().log().len() as int);
            let read = taken(after.pops().skip(before.pops().len() as int));
            &&& consumed(new) + after.resampler().residual() == before.resampler().residual() + read
            &&& out_after == out + outputs(new)
            &&& after.captured() == before.captured()
        }),
{
    let read = taken(after.pops().skip(before.pops().len() as int));
    law_resampling_loses_no_input(before.resampler(), read, out, after.resampler(), out_after);
}

/// Two live sources that are not kept apart are mixed in full: the mixed stream has a sample for
/// each that the microphone brought, made of it and of the system sample that waited longest or
/// arrived at its place, or of silence; and the system samples that met none wait, in order, the
/// latest second of them.
pub proof fn law_two_sources_are_mixed<
    S: Default,
    H,
    G,
    U: Fn(G) -> bool,
    F: Fn(G, S) -> S,
    M: Fn(S, S) -> S,
>(
    before: Session<S, H, G>,
    stopping: bool,
    unity: U,
    scale: F,
    combine: M,
    after: Session<S, H, G>,
    i: int,
)
    requires
        listens(before, stopping, unity, scale, combine, after),
        !(before.mode() is Separate),
        before.mic() is Some,
        before.sys() is Some,
    ensures
        ({
            let mic = after.stream(Track::Mic);
            let system = before.sys_residual() + after.stream(Track::System);
            let mixed = after.stream(Track::Mixed);
            let waiting = after.sys_residual();
            let rate = before.cfg().sample_rate;
            &&& mixed.len() == mic.len()
            &&& 0 <= i < mic.len() && i < system.len() ==> call_ensures(
                combine,
                (mic[i], system[i]),
                mixed[i],
            )
            &&& system.len() <= i < mic.len() ==> exists|silence: S| #[trigger]
                call_ensures(combine, (mic[i], silence), mixed[i]) && is_silence(silence)
            &&& waiting.len() <= rate
            &&& waiting == system.skip(system.len() - waiting.len())
            &&& system.len() <= mic.len() ==> waiting.len() == 0
            &&& mic.len() < system.len() <= mic.len() + rate ==> waiting.len() == system.len()
                - mic.len()
            &&& system.len() > mic.len() + rate ==> waiting.len() == rate
        }),
{
    let mic = after.stream(Track::Mic);
    let system = before.sys_residual() + after.stream(Track::System);
    let mixed = after.stream(Track::Mixed);
    if 0 <= i < mic.len() {
        law_microphone_is_the_clock(combine, mic, system, mixed, i);
    }
    law_waiting_is_bounded(system, mic.len(), before.cfg().sample_rate as nat);
}

/// A source that is live alone, or on a track of its own, is not mixed with anything: its stream
/// is what came out of it at its gain, and nothing that waits is touched.
pub proof fn law_single_sources_are_not_mixed<
    S: Amplitude,
    H,
    G,
    U: Fn(G) -> bool,
    F: Fn(G, S) -> S,
    M: Fn(S, S) -> S,
>(
    before: Session<S, H, G>,
    stopping: bool,
    unity: U,
    scale: F,
    combine: M,
    after: Session<S, H, G>,
)
    requires
        before.wf(),
        listens(before, stopping, unity, scale, combine, after),
    ensures
        before.mode() is Separate || before.mic() is None || before.sys() is None ==> {
            &&& after.stream(Track::Mixed).len() == 0
            &&& after.sys_residual() == before.sys_residual()
        },
        before.mic() is None ==> after.mic() is None && after.stream(Track::Mic).len() == 0,
        before.sys() is None ==> after.sys() is None && after.stream(Track::System).len() == 0,
        before.mic() is Some ==> {
            &&& after.mic() is Some
            &&& after.stream(Track::Mic).len() == arrivals(before.mic()->0, after.mic()->0).len()
            &&& !call_ensures(unity, (before.gains().0,), false) ==> after.stream(Track::Mic)
                == arrivals(before.mic()->0, after.mic()->0)
        },
        before.sys() is Some ==> {
            &&& after.sys() is Some
            &&& after.stream(Track::System).len() == arrivals(
                before.sys()->0,
                after.sys()->0,
            ).len()
            &&& !call_ensures(unity, (before.gains().1,), false) ==> after.stream(Track::System)
                == arrivals(before.sys()->0, after.sys()->0)
        },
{
    if before.mic() is Some {
        law_source_waits_for_a_chunk(before.mic()->0);
        law_sources_bring_what_arrived(
            stopping,
            unity,
            scale,
            before.gains().0,
            before.mic()->0,
            after.mic()->0,
            after.stream(Track::Mic),
        );
    }
    if before.sys() is Some {
        law_source_waits_for_a_chunk(before.sys()->0);
        law_sources_bring_what_arrived(
            stopping,
            unity,
            scale,
            before.gains().1,
            before.sys()->0,
            after.sys()->0,
            after.stream(Track::System),
        );
    }
}

/// A tap hears one stream whatever is delivered: that of the only live source, or, where both
/// are live, one sample for each of the microphone's, made of it and of a system sample or
/// silence. It hears all of it, at the configured rate.
pub proof fn law_tap_hears_one_stream<S: Default, H, G, M: Fn(S, S) -> S>(
    before: Session<S, H, G>,
    now: i128,
    combine: M,
    after: Session<S, H, G>,
    frames: Option<Frames<'_, S>>,
)
    requires
        taps(before, now, combine, after, frames),
    ensures
        frames matches Some(f) ==> f.samples@.len() > 0 && f.sample_rate
            == before.cfg().sample_rate && f.captured_at == now,
        ({
            let heard = match frames {
                Some(f) => f.samples@,
                None => Seq::empty(),
            };
            let (mic, sys) = (before.stream(Track::Mic), before.stream(Track::System));
            &&& before.mic() is Some && before.sys() is None ==> heard == mic
            &&& before.mic() is None && before.sys() is Some ==> heard == sys
            &&& before.mic() is Some && before.sys() is Some && !(before.mode() is Separate)
                ==> heard == before.stream(Track::Mixed)
            &&& before.mic() is Some && before.sys() is Some && before.mode() is Separate ==> mixes(
                combine,
                mic,
                before.tap_mix().residual() + sys,
                heard,
            ) && heard.len() == mic.len()
        }),
{
    let (mic, sys) = (before.mic() is Some, before.sys() is Some);
    let tracks = before.tracks();
    if mic != sys {
        assert(tracks.len() == 1 && tracks[0] == if mic { Track::Mic } else { Track::System });
    }
    match frames {
        Some(_) => {},
        None => {
            if mic && !sys {
                assert(before.stream(Track::Mic) =~= Seq::<S>::empty());
            } else if !mic && sys {
                assert(before.stream(Track::System) =~= Seq::<S>::empty());
            } else if mic && sys {
                if before.mode() is Separate {
                    assert(after.tap_mix().mixed() =~= Seq::<S>::empty());
                } else {
                    assert(before.stream(Track::Mixed) =~= Seq::<S>::empty());
                }
            }
        },
    }
}

/// Switching sources is seamless: no pipeline, no stream and no gain changes, what is live and
/// needed stays the same, and system audio that waits is dropped only where a new device brings
/// what comes next.
pub proof fn law_switching_is_seamless<S, H, G>(
    before: Session<S, H, G>,
    target: Source,
    opened_mic: Option<SourceState<S, H>>,
    opened_sys: Option<SourceState<S, H>>,
    after: Session<S, H, G>,
    track: Track,
)
    requires
        switches(before, target, opened_mic, opened_sys, after),
        before.mic() is Some || before.sys() is Some,
    ensures
        after.mode() == target,
        after.cfg() == before.cfg(),
        after.gains() == before.gains(),
        after.stopped() == before.stopped(),
        after.pipe(track) == before.pipe(track),
        after.stream(track) == before.stream(track),
        after.mic() is Some || after.sys() is Some,
        !(target is System) && before.mic() is Some ==> after.mic() == before.mic(),
        !(target is Mic) && before.sys() is Some ==> after.sys() == before.sys(),
        before.sys() is Some || opened_sys is None || target is Mic ==> after.sys_residual()
            == before.sys_residual(),
        before.sys() is None && after.sys() is Some ==> after.sys_residual().len() == 0,
{
    law_switching_keeps_what_is_needed(
        target,
        before.mic(),
        before.sys(),
        opened_mic,
        opened_sys,
    );
    law_last_source_stays(target, before.mic(), before.sys(), opened_mic, opened_sys);
}

} // verus!
