//! One output track's tail of the pipeline: cut into fixed-length segments, place each on the
//! wall clock, number and deliver those that are kept.
//!
//! There is one pipeline in single-track modes and two, microphone and system, in
//! [`Source::Separate`](crate::config::Source::Separate), each with its own numbers.

use vstd::prelude::*;
use crate::config::Config;
use crate::error::Error;
use crate::segment::{Segment, Track};
use crate::segmenter::{
    contents, cut, flattened, law_cutting_loses_nothing, rest, Segmenter,
};
use crate::span::{
    frames_nanos, law_frames_of_whole_seconds, law_frames_take_their_time, nanos_of_frames,
};
use crate::timestamp::{is_instant, iso8601_utc, timestamp, EARLIEST};

verus! {

/// How many frames one track can count.
pub const MAX_FRAMES: u64 = 0xffff_ffff_ffff_fbff;

/// The time `nanos` before `t`, or `t` itself where no clock can show that time.
pub open spec fn back(t: int, nanos: nat) -> int {
    if t - nanos >= EARLIEST { t - nanos } else { t }
}

/// When a window of `n` frames started and ended, where `pending` frames were captured after
/// it and the latest of all frames was captured `now`.
pub open spec fn placed(now: int, rate: u32, pending: nat, n: nat) -> (int, int) {
    let end = back(now, frames_nanos(pending, rate));
    (back(end, frames_nanos(n, rate)), end)
}

fn go_back(t: i128, frames: u64, rate: u32) -> (earlier: i128)
    requires
        rate > 0,
        is_instant(t as int),
    ensures
        earlier == back(t as int, frames_nanos(frames as nat, rate)),
        is_instant(earlier as int),
{
    let nanos: i128 = nanos_of_frames(frames, rate) as i128;
    if t - nanos >= EARLIEST {
        t - nanos
    } else {
        t
    }
}

/// A stretch of one track, cut and placed on the clock, to be judged and encoded.
pub struct Window<S> {
    /// The samples, oldest first.
    pub samples: Vec<S>,
    /// When the first was captured, in nanoseconds since the Unix epoch.
    pub start: i128,
    /// When the last was captured.
    pub end: i128,
    /// Whether this is the last of its track.
    pub is_final: bool,
}

impl<S> Window<S> {
    /// Whether both times are times of a clock.
    pub open spec fn wf(&self) -> bool {
        is_instant(self.start as int) && is_instant(self.end as int)
    }

    /// Whether this window holds `samples` and was placed where `now` is the capture time of
    /// the latest of all frames and `pending` frames followed.
    pub open spec fn shows(
        &self,
        samples: Seq<S>,
        now: int,
        rate: u32,
        pending: nat,
        is_final: bool,
    ) -> bool {
        &&& self.samples@ == samples
        &&& (self.start as int, self.end as int) == placed(now, rate, pending, samples.len())
        &&& self.is_final == is_final
    }
}

/// Place `samples` on the clock, as the next window of a track that has `frames_done` frames in
/// completed windows of `pushed` in all, the latest captured `now`. A tail, the partial window
/// that is left at stop, is dropped where it is too short; its frames are counted all the
/// same, so that nothing dropped shifts what comes later.
pub fn place<S, G>(
    samples: Vec<S>,
    cfg: &Config<G>,
    frames_done: &mut u64,
    pushed: u64,
    now: i128,
    is_tail: bool,
    is_final: bool,
) -> (window: Option<Window<S>>)
    requires
        cfg.wf(),
        cfg.sample_rate > 0,
        is_instant(now as int),
        pushed <= MAX_FRAMES,
        *old(frames_done) + samples@.len() <= MAX_FRAMES,
    ensures
        *final(frames_done) == *old(frames_done) + samples@.len(),
        window is None <==> is_tail && samples@.len() < cfg.min_tail(),
        window matches Some(w) ==> w.wf() && w.shows(
            samples@,
            now as int,
            cfg.sample_rate,
            if *final(frames_done) <= pushed { (pushed - *final(frames_done)) as nat } else { 0 },
            is_final,
        ),
{
    let n: usize = samples.len();
    let frames_after: u64 = *frames_done + n as u64;
    // Frames captured after this window's end.
    let pending: u64 = if frames_after <= pushed { pushed - frames_after } else { 0 };
    *frames_done = frames_after;
    if is_tail && n < cfg.min_final_samples() {
        return None;
    }
    let end: i128 = go_back(now, pending, cfg.sample_rate);
    let start: i128 = go_back(end, n as u64, cfg.sample_rate);
    Some(Window { samples, start, end, is_final })
}

/// What became of a window: nothing was heard in it, it could not be encoded, or it was.
pub enum Fate {
    Silent,
    Failed,
    Encoded(Vec<u8>),
}

/// What becomes of a window in which something was or was not `heard`, and which `encoded` so;
/// where nothing was heard, it does not matter how.
pub fn fate(heard: bool, encoded: Result<Vec<u8>, Error>) -> (f: Fate)
    ensures
        heard && encoded is Ok ==> f == Fate::Encoded(encoded->Ok_0),
        !heard ==> f is Silent,
        heard && encoded is Err ==> f is Failed,
{
    if !heard {
        return Fate::Silent;
    }
    match encoded {
        Ok(data) => Fate::Encoded(data),
        Err(_) => Fate::Failed,
    }
}

/// Whether `window` became the segment `r` of `track` by its fate: delivered with the number
/// `index`, one more than the segment before it, if it was encoded, and dropped otherwise.
pub open spec fn becomes<S, G>(
    window: Window<S>,
    track: Track,
    cfg: Config<G>,
    fate: Fate,
    index_before: nat,
    index: nat,
    r: Option<Segment>,
) -> bool {
    match (fate, r) {
        (Fate::Encoded(data), Some(segment)) => {
            &&& index == index_before + 1
            &&& segment.track == track
            &&& segment.index == index
            &&& segment.data@ == data@
            &&& segment.format == cfg.format
            &&& segment.sample_rate == cfg.sample_rate
            &&& segment.channels == 1
            &&& segment.frames == window.samples@.len()
            &&& segment.start_time@ == timestamp(window.start as int)
            &&& segment.end_time@ == timestamp(window.end as int)
            &&& segment.is_final == window.is_final
        },
        (Fate::Encoded(_), None) => false,
        (_, Some(_)) => false,
        (_, None) => index == index_before,
    }
}

/// Number and timestamp `window`, if it was heard and encoded. A window that was not takes no
/// number.
pub fn number<S, G>(
    window: Window<S>,
    track: Track,
    cfg: &Config<G>,
    fate: Fate,
    index: &mut u64,
) -> (r: Option<Segment>)
    requires
        window.wf(),
        *old(index) < u64::MAX,
    ensures
        becomes(
            window,
            track,
            *cfg,
            fate,
            *old(index) as nat,
            *final(index) as nat,
            r,
        ),
        r is Some <==> fate is Encoded,
        r is None ==> *final(index) == *old(index),
        r matches Some(segment) ==> {
            &&& segment.track == track
            &&& segment.index == *old(index) + 1 == *final(index)
            &&& segment.data@ == fate->Encoded_0@
            &&& segment.format == cfg.format
            &&& segment.sample_rate == cfg.sample_rate
            &&& segment.channels == 1
            &&& segment.frames == window.samples@.len()
            &&& segment.is_final == window.is_final
        },
{
    match fate {
        Fate::Encoded(data) => {
            *index = *index + 1;
            Some(
                Segment {
                    track,
                    index: *index,
                    data,
                    format: cfg.format,
                    sample_rate: cfg.sample_rate,
                    channels: 1,
                    frames: window.samples.len(),
                    start_time: iso8601_utc(window.start),
                    end_time: iso8601_utc(window.end),
                    is_final: window.is_final,
                },
            )
        },
        Fate::Silent => None,
        Fate::Failed => None,
    }
}

/// The tail of the pipeline of one track.
pub struct TrackPipeline<S> {
    track: Track,
    segmenter: Segmenter<S>,
    index: u64,
    /// Audio frames this track has completed windows for (kept *and* dropped).
    frames_done: u64,
    /// Audio frames ever pushed into this track's segmenter. The newest one was
    /// captured ~`now` (this tick), so it ties the sample timeline to the clock.
    pushed: u64,
    /// When that newest frame was captured: the clock of the latest push.
    newest: i128,
}

impl<S> TrackPipeline<S> {
    /// The track whose segments come out.
    pub closed spec fn track(&self) -> Track {
        self.track
    }

    /// How many segments were delivered.
    pub closed spec fn index(&self) -> nat {
        self.index as nat
    }

    /// How many frames were ever pushed.
    pub closed spec fn pushed(&self) -> nat {
        self.pushed as nat
    }

    /// When the newest frame was captured, in nanoseconds since the Unix epoch.
    pub closed spec fn newest(&self) -> int {
        self.newest as int
    }

    /// The frames that wait for a full window.
    pub closed spec fn pending(&self) -> Seq<S> {
        self.segmenter.pending()
    }

    /// The length of a full window.
    pub closed spec fn full_length(&self) -> nat {
        self.segmenter.full_length()
    }

    /// Windows have a length, less than one waits, and every frame that was pushed is in a
    /// completed window or waits.
    pub closed spec fn wf(&self) -> bool {
        &&& self.segmenter.wf()
        &&& self.segmenter.full_length() > 0
        &&& self.frames_done + self.segmenter.pending().len() == self.pushed
        &&& self.pushed <= MAX_FRAMES
        &&& is_instant(self.newest as int)
    }

    /// Whether two pipelines are the same but for what they number.
    pub open spec fn keeps_time_with(&self, other: TrackPipeline<S>) -> bool {
        &&& self.track() == other.track()
        &&& self.pushed() == other.pushed()
        &&& self.newest() == other.newest()
        &&& self.pending() == other.pending()
        &&& self.full_length() == other.full_length()
    }
}

/// How a push marks its windows: `None` where the recording goes on, and at its stop the least
/// length of a tail.
pub open spec fn stop_of<G>(is_final: bool, cfg: Config<G>) -> Option<nat> {
    if is_final {
        Some(cfg.min_tail())
    } else {
        None
    }
}

/// Whether nothing comes after the windows of a push that leaves `left` frames: it is the last of
/// a recording, and the frames that are left are none, or too few for a tail.
pub open spec fn ends_track(stop: Option<nat>, left: nat) -> bool {
    stop matches Some(min_tail) && (left == 0 || left < min_tail)
}

/// Whether the pipeline `before` has gone on by `input`, whose latest frame was captured
/// `now`: every full window comes out, placed by how many frames followed it, and the rest
/// waits. The last window is final where nothing comes after it.
pub open spec fn cuts<S>(
    before: TrackPipeline<S>,
    input: Seq<S>,
    rate: u32,
    now: int,
    stop: Option<nat>,
    after: TrackPipeline<S>,
    windows: Seq<Window<S>>,
) -> bool {
    let len = before.full_length();
    let stream = before.pending() + input;
    &&& after.track() == before.track()
    &&& after.index() == before.index()
    &&& after.full_length() == len
    &&& after.pushed() == before.pushed() + input.len()
    &&& after.newest() == now
    &&& after.pending() == rest(stream, len)
    &&& windows.len() == cut(stream, len).len()
    &&& forall|i: int|
        0 <= i < windows.len() ==> (#[trigger] windows[i]).wf() && windows[i].shows(
            cut(stream, len)[i],
            now,
            rate,
            (stream.len() - (i + 1) * len) as nat,
            i == windows.len() - 1 && ends_track(stop, rest(stream, len).len()),
        )
}

/// Whether the pipeline `before` was flushed: what waited comes out, ending when its newest
/// frame was captured, unless there are fewer than `min_tail` frames of it, and nothing waits
/// any more.
pub open spec fn flushes<S>(
    before: TrackPipeline<S>,
    min_tail: nat,
    rate: u32,
    after: TrackPipeline<S>,
    tail: Option<Window<S>>,
) -> bool {
    &&& after.track() == before.track()
    &&& after.index() == before.index()
    &&& after.full_length() == before.full_length()
    &&& after.pushed() == before.pushed()
    &&& after.newest() == before.newest()
    &&& after.pending() == Seq::<S>::empty()
    &&& match tail {
        Some(window) => {
            &&& before.pending().len() > 0
            &&& before.pending().len() >= min_tail
            &&& window.wf()
            &&& window.shows(before.pending(), before.newest(), rate, 0, true)
        },
        None => before.pending().len() == 0 || before.pending().len() < min_tail,
    }
}

/// Whether `window` became the segment `r` by its fate, the next of the track's numbers
/// taken where it was delivered. Nothing else changes.
pub open spec fn delivers<S, G>(
    before: TrackPipeline<S>,
    window: Window<S>,
    cfg: Config<G>,
    fate: Fate,
    after: TrackPipeline<S>,
    r: Option<Segment>,
) -> bool {
    &&& after.keeps_time_with(before)
    &&& becomes(window, before.track(), cfg, fate, before.index(), after.index(), r)
}

impl<S: Copy> TrackPipeline<S> {
    /// A pipeline for `track`, with nothing delivered yet.
    pub fn new<G>(track: Track, cfg: &Config<G>) -> (pipeline: Self)
        requires
            cfg.wf(),
            cfg.valid(),
        ensures
            pipeline.wf(),
            pipeline.track() == track,
            pipeline.index() == 0,
            pipeline.pushed() == 0,
            pipeline.pending() == Seq::<S>::empty(),
            pipeline.full_length() == cfg.full_length(),
    {
        TrackPipeline {
            track,
            segmenter: Segmenter::new(cfg.segment_samples()),
            index: 0,
            frames_done: 0,
            pushed: 0,
            newest: 0,
        }
    }

    /// How many segments were delivered.
    pub fn delivered(&self) -> (n: u64)
        ensures
            n == self.index(),
    {
        self.index
    }

    /// How many frames were ever pushed.
    pub fn frames(&self) -> (n: u64)
        ensures
            n == self.pushed(),
    {
        self.pushed
    }

    /// Cut `samples` into windows, each placed on the clock. `now` is this tick's wall clock
    /// (when these samples were captured); `is_final` tells that these are the last samples of
    /// the recording, and tags the last window, unless a tail comes after it.
    ///
    /// Times are read from the wall clock, not accumulated: `now` is the capture time of the
    /// newest pushed frame, and a window ends as many frames before it as follow the window.
    /// So every window re-anchors to the real clock: no drift builds up even if frames were
    /// dropped earlier.
    pub fn push<G>(
        &mut self,
        samples: &[S],
        cfg: &Config<G>,
        now: i128,
        is_final: bool,
    ) -> (windows: Vec<Window<S>>)
        requires
            old(self).wf(),
            cfg.wf(),
            cfg.sample_rate > 0,
            is_instant(now as int),
            old(self).pushed() + samples@.len() <= MAX_FRAMES,
        ensures
            final(self).wf(),
            cuts(
                *old(self),
                samples@,
                cfg.sample_rate,
                now as int,
                stop_of(is_final, *cfg),
                *final(self),
                windows@,
            ),
    {
        let ghost stream = self.segmenter.pending() + samples@;
        let ghost len = self.segmenter.full_length();
        let ghost done = self.frames_done as int;
        self.pushed = self.pushed + samples.len() as u64;
        self.newest = now;
        let segments: Vec<Vec<S>> = self.segmenter.push(samples);
        let ghost pieces = cut(stream, len);
        let ghost list = segments@;
        proof {
            law_cutting_loses_nothing(stream, len);
            assert(contents(list).len() == list.len());
            assert forall|i: int| 0 <= i < list.len() implies (#[trigger] list[i])@ == pieces[i] by {
                assert(contents(list)[i] == list[i]@);
            }
            vstd::arithmetic::div_mod::lemma_fundamental_div_mod(stream.len() as int, len as int);
            assert(list.len() * len <= stream.len()) by (nonlinear_arith)
                requires
                    list.len() == stream.len() / len,
                    stream.len() == len * (stream.len() / len) + stream.len() % len,
            ;
            assert(0 * len == 0);
        }
        let total: usize = segments.len();
        let left: usize = self.segmenter.buffered();
        let ends: bool = is_final && (left == 0 || left < cfg.min_final_samples());
        let mut windows: Vec<Window<S>> = Vec::new();
        let ghost segmenter = self.segmenter;
        for samples in it: segments.into_iter()
            invariant
                self.segmenter == segmenter,
                self.track == old(self).track,
                self.index == old(self).index,
                self.newest == now,
                it.seq() == list,
                windows@.len() == it.index(),
                cfg.wf(),
                cfg.sample_rate > 0,
                is_instant(now as int),
                len > 0,
                self.pushed <= MAX_FRAMES,
                pieces == cut(stream, len),
                list.len() == pieces.len(),
                list.len() * len <= stream.len(),
                total == list.len(),
                ends == ends_track(stop_of(is_final, *cfg), rest(stream, len).len()),
                forall|i: int| 0 <= i < list.len() ==> (#[trigger] list[i])@ == pieces[i],
                forall|i: int| 0 <= i < pieces.len() ==> (#[trigger] pieces[i]).len() == len,
                self.frames_done == done + windows@.len() * len,
                self.pushed == done + stream.len(),
                forall|i: int|
                    0 <= i < windows@.len() ==> (#[trigger] windows@[i]).wf()
                        && windows@[i].shows(
                        pieces[i],
                        now as int,
                        cfg.sample_rate,
                        (stream.len() - (i + 1) * len) as nat,
                        i == total - 1 && ends,
                    ),
        {
            proof {
                let k = windows@.len() as int;
                assert(samples@ == pieces[k]);
                assert((k + 1) * len <= list.len() * len && (k + 1) * len == k * len + len)
                    by (nonlinear_arith)
                    requires
                        k + 1 <= list.len(),
                ;
            }
            let is_last: bool = ends && windows.len() + 1 == total;
            match place(samples, cfg, &mut self.frames_done, self.pushed, now, false, is_last) {
                Some(window) => windows.push(window),
                None => {},
            }
        }
        windows
    }

    /// Take out what remains (called once per track at stop), unless it is shorter than the
    /// least length of a final segment. Full windows are never held to that length. What remains
    /// ends when the newest frame of this track was captured: that may be long ago, where the
    /// recording has switched to other tracks since.
    pub fn flush<G>(&mut self, cfg: &Config<G>) -> (tail: Option<Window<S>>)
        requires
            old(self).wf(),
            cfg.wf(),
            cfg.sample_rate > 0,
        ensures
            final(self).wf(),
            flushes(
                *old(self),
                cfg.min_tail(),
                cfg.sample_rate,
                *final(self),
                tail,
            ),
    {
        match self.segmenter.flush() {
            Some(samples) => place(
                samples,
                cfg,
                &mut self.frames_done,
                self.pushed,
                self.newest,
                true,
                true,
            ),
            None => None,
        }
    }

    /// Number and timestamp `window`, if it was heard and encoded. A window that was not takes
    /// no number, and changes nothing.
    pub fn deliver<G>(&mut self, window: Window<S>, cfg: &Config<G>, fate: Fate) -> (r:
        Option<Segment>)
        requires
            old(self).wf(),
            window.wf(),
            old(self).index() < u64::MAX,
        ensures
            final(self).wf(),
            delivers(*old(self), window, *cfg, fate, *final(self), r),
            r is Some <==> fate is Encoded,
            r matches Some(segment) ==> {
                &&& segment.data@ == fate->Encoded_0@
                &&& segment.format == cfg.format
                &&& segment.sample_rate == cfg.sample_rate
                &&& segment.channels == 1
            },
    {
        number(window, self.track, cfg, fate, &mut self.index)
    }
}

/// The samples of each window.
pub open spec fn cut_samples<S>(windows: Seq<Window<S>>) -> Seq<Seq<S>> {
    windows.map_values(|window: Window<S>| window.samples@)
}

/// No captured frame is lost, changed or moved: the windows and what waits, one after the
/// other, are what waited before and what came in. Each window is full, and less than one
/// waits.
pub proof fn law_track_loses_nothing<S>(
    before: TrackPipeline<S>,
    input: Seq<S>,
    rate: u32,
    now: int,
    stop: Option<nat>,
    after: TrackPipeline<S>,
    windows: Seq<Window<S>>,
)
    requires
        before.wf(),
        cuts(before, input, rate, now, stop, after, windows),
    ensures
        flattened(cut_samples(windows)) + after.pending() == before.pending() + input,
        forall|i: int|
            0 <= i < windows.len() ==> (#[trigger] windows[i]).samples@.len()
                == before.full_length(),
        after.pending().len() < before.full_length(),
{
    let stream = before.pending() + input;
    let len = before.full_length();
    law_cutting_loses_nothing(stream, len);
    assert(cut_samples(windows) =~= cut(stream, len));
    assert forall|i: int| 0 <= i < windows.len() implies (#[trigger] windows[i]).samples@.len()
        == len by {
        assert(cut(stream, len)[i].len() == len);
    }
}

/// Stopping leaves nothing behind: the windows and the tail are all that waited and came in, and
/// the last of them, and no other, is final. Only a tail that is shorter than the least length
/// is dropped, so nothing at all is where every tail is kept.
pub proof fn law_stopping_leaves_nothing<S>(
    before: TrackPipeline<S>,
    input: Seq<S>,
    rate: u32,
    now: int,
    min_tail: nat,
    stopped: TrackPipeline<S>,
    windows: Seq<Window<S>>,
    after: TrackPipeline<S>,
    tail: Option<Window<S>>,
)
    requires
        before.wf(),
        cuts(before, input, rate, now, Some(min_tail), stopped, windows),
        flushes(stopped, min_tail, rate, after, tail),
    ensures
        after.pending() == Seq::<S>::empty(),
        tail matches Some(window) ==> window.is_final,
        forall|i: int|
            0 <= i < windows.len() ==> ((#[trigger] windows[i]).is_final <==> tail is None && i
                == windows.len() - 1),
        match tail {
            Some(window) => flattened(cut_samples(windows)) + window.samples@ == before.pending()
                + input,
            None => ({
                let kept = flattened(cut_samples(windows));
                let stream = before.pending() + input;
                &&& kept.len() <= stream.len()
                &&& kept == stream.take(kept.len() as int)
                &&& kept == stream || stream.len() < kept.len() + min_tail
            }),
        },
{
    law_track_loses_nothing(before, input, rate, now, Some(min_tail), stopped, windows);
    if tail is None {
        let kept = flattened(cut_samples(windows));
        let stream = before.pending() + input;
        assert(kept =~= stream.take(kept.len() as int));
        if stopped.pending().len() == 0 {
            assert(stream =~= kept);
        }
    }
}

/// What was kept and what was dropped does not move the clock: two tracks that differ only in
/// how many segments they delivered cut and place the same input alike.
pub proof fn law_dropping_moves_no_time<S>(
    one: TrackPipeline<S>,
    other: TrackPipeline<S>,
    input: Seq<S>,
    rate: u32,
    now: int,
    stop: Option<nat>,
    one_after: TrackPipeline<S>,
    other_after: TrackPipeline<S>,
    one_windows: Seq<Window<S>>,
    other_windows: Seq<Window<S>>,
)
    requires
        one.keeps_time_with(other),
        cuts(one, input, rate, now, stop, one_after, one_windows),
        cuts(other, input, rate, now, stop, other_after, other_windows),
    ensures
        one_after.keeps_time_with(other_after),
        one_windows.len() == other_windows.len(),
        forall|i: int|
            0 <= i < one_windows.len() ==> {
                let (a, b) = (#[trigger] one_windows[i], other_windows[i]);
                a.samples@ == b.samples@ && a.start == b.start && a.end == b.end
            },
{
    assert forall|i: int| 0 <= i < one_windows.len() implies {
        let (a, b) = (#[trigger] one_windows[i], other_windows[i]);
        a.samples@ == b.samples@ && a.start == b.start && a.end == b.end
    } by {
        assert(one_windows[i].wf() && other_windows[i].wf());
    }
}

/// What a track buffers is bounded: less than one window waits.
pub proof fn law_less_than_a_window_waits<S>(pipe: TrackPipeline<S>)
    requires
        pipe.wf(),
    ensures
        pipe.pending().len() < pipe.full_length(),
{
}

/// How many of `results` are segments.
pub open spec fn deliveries(results: Seq<Option<Segment>>) -> nat
    decreases results.len(),
{
    if results.len() == 0 {
        0
    } else {
        deliveries(results.drop_last()) + if results.last() is Some { 1nat } else { 0nat }
    }
}

/// Whether `results` came of a track that went through `states`, one window after the other.
pub open spec fn delivered_in_turn<S, G>(
    states: Seq<TrackPipeline<S>>,
    windows: Seq<Window<S>>,
    cfg: Config<G>,
    fates: Seq<Fate>,
    results: Seq<Option<Segment>>,
) -> bool {
    &&& states.len() == windows.len() + 1
    &&& fates.len() == windows.len()
    &&& results.len() == windows.len()
    &&& forall|i: int|
        0 <= i < windows.len() ==> #[trigger] delivers(
            states[i],
            windows[i],
            cfg,
            fates[i],
            states[i + 1],
            results[i],
        )
}

/// The segments that are delivered are numbered one after the other, without a gap, whatever
/// was dropped in between; all carry the track's own tag, so that no two of a recording have
/// the same tag and number.
pub proof fn law_deliveries_are_numbered<S, G>(
    states: Seq<TrackPipeline<S>>,
    windows: Seq<Window<S>>,
    cfg: Config<G>,
    fates: Seq<Fate>,
    results: Seq<Option<Segment>>,
)
    requires
        delivered_in_turn(states, windows, cfg, fates, results),
    ensures
        states.last().index() == states[0].index() + deliveries(results),
        states.last().keeps_time_with(states[0]),
        forall|i: int|
            0 <= i < results.len() && (#[trigger] results[i]) is Some ==> results[i]->0.index
                == states[0].index() + deliveries(results.take(i)) + 1 && results[i]->0.track
                == states[0].track(),
        forall|i: int, j: int|
            0 <= i < j < results.len() && (#[trigger] results[i]) is Some && (
            #[trigger] results[j]) is Some ==> results[i]->0.index < results[j]->0.index,
    decreases windows.len(),
{
    if windows.len() > 0 {
        let n = windows.len() - 1;
        let (s, w, v, r) = (
            states.drop_last(),
            windows.drop_last(),
            fates.drop_last(),
            results.drop_last(),
        );
        assert(delivered_in_turn(s, w, cfg, v, r)) by {
            assert forall|i: int| 0 <= i < w.len() implies #[trigger] delivers(
                s[i],
                w[i],
                cfg,
                v[i],
                s[i + 1],
                r[i],
            ) by {
                assert(delivers(
                    states[i],
                    windows[i],
                    cfg,
                    fates[i],
                    states[i + 1],
                    results[i],
                ));
            }
        }
        law_deliveries_are_numbered(s, w, cfg, v, r);
        assert(delivers(states[n], windows[n], cfg, fates[n], states[n + 1], results[n]));
        assert forall|i: int| 0 <= i < results.len() && (#[trigger] results[i])
            is Some implies results[i]->0.index == states[0].index() + deliveries(results.take(i))
            + 1 && results[i]->0.track == states[0].track() by {
            if i < n {
                assert(r[i] == results[i]);
                assert(r.take(i) =~= results.take(i));
            } else {
                assert(results.take(i) =~= r);
            }
        }
        assert forall|i: int, j: int|
            0 <= i < j < results.len() && (#[trigger] results[i]) is Some && (
            #[trigger] results[j]) is Some implies results[i]->0.index
            < results[j]->0.index by {
            assert(results.take(j).take(i + 1) =~= results.take(i + 1));
            assert(results.take(i + 1).drop_last() =~= results.take(i));
            lemma_deliveries_grow(results.take(j), i + 1);
        }
    }
}

proof fn lemma_deliveries_grow(results: Seq<Option<Segment>>, i: int)
    requires
        0 <= i <= results.len(),
    ensures
        deliveries(results.take(i)) <= deliveries(results),
    decreases results.len() - i,
{
    if i < results.len() {
        lemma_deliveries_grow(results, i + 1);
        assert(results.take(i + 1).drop_last() =~= results.take(i));
    } else {
        assert(results.take(i) =~= results);
    }
}

/// A window is delivered if it was encoded, and only then; what is delivered is the bytes that
/// its encoding gave, in the format and at the rate that were configured, and tells how many
/// frames it holds, when they were captured, and whether it is the last of its track.
pub proof fn law_segments_are_the_encoded_windows<S, G>(
    states: Seq<TrackPipeline<S>>,
    windows: Seq<Window<S>>,
    cfg: Config<G>,
    fates: Seq<Fate>,
    results: Seq<Option<Segment>>,
)
    requires
        delivered_in_turn(states, windows, cfg, fates, results),
    ensures
        results.len() == windows.len(),
        forall|i: int|
            0 <= i < windows.len() ==> ((#[trigger] results[i]) is Some <==> fates[i] is Encoded),
        forall|i: int|
            0 <= i < windows.len() && (#[trigger] results[i]) is Some ==> {
                &&& results[i]->0.data@ == fates[i]->Encoded_0@
                &&& results[i]->0.format == cfg.format
                &&& results[i]->0.sample_rate == cfg.sample_rate
                &&& results[i]->0.channels == 1
                &&& results[i]->0.frames == windows[i].samples@.len()
                &&& results[i]->0.start_time@ == timestamp(windows[i].start as int)
                &&& results[i]->0.end_time@ == timestamp(windows[i].end as int)
                &&& results[i]->0.is_final == windows[i].is_final
                &&& results[i]->0.track == states[0].track()
            },
{
    law_deliveries_are_numbered(states, windows, cfg, fates, results);
    assert forall|i: int| 0 <= i < windows.len() implies ((#[trigger] results[i]) is Some
        <==> fates[i] is Encoded) by {
        assert(delivers(states[i], windows[i], cfg, fates[i], states[i + 1], results[i]));
    }
    assert forall|i: int| 0 <= i < windows.len() && (#[trigger] results[i]) is Some implies {
        &&& results[i]->0.data@ == fates[i]->Encoded_0@
        &&& results[i]->0.format == cfg.format
        &&& results[i]->0.sample_rate == cfg.sample_rate
        &&& results[i]->0.channels == 1
        &&& results[i]->0.frames == windows[i].samples@.len()
        &&& results[i]->0.start_time@ == timestamp(windows[i].start as int)
        &&& results[i]->0.end_time@ == timestamp(windows[i].end as int)
        &&& results[i]->0.is_final == windows[i].is_final
    } by {
        assert(delivers(states[i], windows[i], cfg, fates[i], states[i + 1], results[i]));
    }
}

/// A window never starts after it ends, nor ends after the latest frame was captured.
pub proof fn law_windows_lie_in_the_past(now: int, rate: u32, pending: nat, n: nat)
    ensures
        placed(now, rate, pending, n).0 <= placed(now, rate, pending, n).1 <= now,
{
}

/// A window placed on the clock spans the time its frames take, and ends as long before `now`
/// as the frames after it take.
pub proof fn law_windows_span_their_frames(now: int, rate: u32, pending: nat, n: nat)
    requires
        now - frames_nanos(pending, rate) - frames_nanos(n, rate) >= EARLIEST,
    ensures
        placed(now, rate, pending, n).1 == now - frames_nanos(pending, rate),
        placed(now, rate, pending, n).0 == placed(now, rate, pending, n).1 - frames_nanos(n, rate),
{
}

/// Windows of whole seconds, with whole seconds captured after them, touch exactly: where one
/// ends, the next starts.
pub proof fn law_whole_second_windows_touch(now: int, rate: u32, after: u64, secs: u64, n: nat)
    requires
        rate > 0,
        rate * (after + secs) < crate::double::MANTISSA_END,
        now - (after + secs) * 1_000_000_000 >= EARLIEST,
    ensures
        placed(now, rate, (rate * after + rate * secs) as nat, n).1 == placed(
            now,
            rate,
            (rate * after) as nat,
            (rate * secs) as nat,
        ).0,
{
    assert(rate * (after + secs) == rate * after + rate * secs && 0 <= rate * after && 0 <= rate
        * secs && after + secs <= rate * (after + secs)) by (nonlinear_arith)
        requires
            rate >= 1,
            after >= 0,
            secs >= 0,
    ;
    law_frames_of_whole_seconds(rate, after);
    law_frames_of_whole_seconds(rate, secs);
    law_frames_of_whole_seconds(rate, (after + secs) as u64);
}

/// Windows of one batch touch to within two nanoseconds, whatever their length: no time
/// between them is missing or counted twice.
pub proof fn law_windows_touch(now: int, rate: u32, after: nat, len: nat, n: nat)
    requires
        rate > 0,
        after + len < crate::double::MANTISSA_END,
        after + len <= rate * 0x40_0000,
        now - 0x40_0000 * 1_000_000_000 - 2 >= EARLIEST,
    ensures
        -2 <= placed(now, rate, after + len, n).1 - placed(now, rate, after, len).0 <= 2,
{
    law_frames_take_their_time(after, rate);
    law_frames_take_their_time(len, rate);
    law_frames_take_their_time(after + len, rate);
    let r = rate as int;
    let (a, b, c) = (
        frames_nanos(after, rate) as int,
        frames_nanos(len, rate) as int,
        frames_nanos(after + len, rate) as int,
    );
    assert(-2 <= a + b - c <= 2) by (nonlinear_arith)
        requires
            r > 0,
            -r < a * r - after * 1_000_000_000 < r,
            -r < b * r - len * 1_000_000_000 < r,
            -r < c * r - (after + len) * 1_000_000_000 < r,
    ;
    assert(c <= 0x40_0000 * 1_000_000_000) by (nonlinear_arith)
        requires
            r > 0,
            c * r - (after + len) * 1_000_000_000 < r,
            after + len <= r * 0x40_0000,
    ;
}

/// One tick of a track: what came in and when, whether it is the last, the windows that were
/// cut from it, what became of each, and the track in between and after.
pub struct Tick<S> {
    pub input: Seq<S>,
    pub now: int,
    pub stopping: bool,
    pub cut: TrackPipeline<S>,
    pub windows: Seq<Window<S>>,
    pub results: Seq<Option<Segment>>,
    pub after: TrackPipeline<S>,
}

/// Whether `results` are what became of `windows`, one after the other, from `before` to `after`.
pub open spec fn delivered_from<S, G>(
    before: TrackPipeline<S>,
    windows: Seq<Window<S>>,
    cfg: Config<G>,
    after: TrackPipeline<S>,
    results: Seq<Option<Segment>>,
) -> bool {
    exists|states: Seq<TrackPipeline<S>>, fates: Seq<Fate>| #[trigger]
        delivered_in_turn(states, windows, cfg, fates, results) && states[0] == before
            && states.last() == after
}

/// Whether this is a tick of the track `before`.
pub open spec fn ticked<S, G>(before: TrackPipeline<S>, tick: Tick<S>, cfg: Config<G>) -> bool {
    &&& cuts(
        before,
        tick.input,
        cfg.sample_rate,
        tick.now,
        stop_of(tick.stopping, cfg),
        tick.cut,
        tick.windows,
    )
    &&& delivered_from(tick.cut, tick.windows, cfg, tick.after, tick.results)
}

/// A track after these ticks.
pub open spec fn after_ticks<S>(
    start: TrackPipeline<S>,
    history: Seq<Tick<S>>,
) -> TrackPipeline<S> {
    if history.len() == 0 {
        start
    } else {
        history.last().after
    }
}

/// Whether these are the ticks of a track, from `start` on.
pub open spec fn recorded<S, G>(
    start: TrackPipeline<S>,
    history: Seq<Tick<S>>,
    cfg: Config<G>,
) -> bool
    decreases history.len(),
{
    history.len() > 0 ==> recorded(start, history.drop_last(), cfg) && ticked(
        after_ticks(start, history.drop_last()),
        history.last(),
        cfg,
    )
}

/// Whether a recording was stopped at the last of these ticks, or not yet.
pub open spec fn stopped_last<S>(history: Seq<Tick<S>>) -> bool {
    forall|i: int| 0 <= i < history.len() - 1 ==> !(#[trigger] history[i]).stopping
}

/// Whether the last of these ticks stopped the recording and nothing comes after its windows.
pub open spec fn ends_with_window<S, G>(history: Seq<Tick<S>>, left: nat, cfg: Config<G>) -> bool {
    &&& history.len() > 0
    &&& history.last().windows.len() > 0
    &&& ends_track(stop_of(history.last().stopping, cfg), left)
}

/// All that came in.
pub open spec fn all_input<S>(history: Seq<Tick<S>>) -> Seq<S>
    decreases history.len(),
{
    if history.len() == 0 {
        Seq::empty()
    } else {
        all_input(history.drop_last()) + history.last().input
    }
}

/// All windows that were cut.
pub open spec fn all_windows<S>(history: Seq<Tick<S>>) -> Seq<Window<S>>
    decreases history.len(),
{
    if history.len() == 0 {
        Seq::empty()
    } else {
        all_windows(history.drop_last()) + history.last().windows
    }
}

/// What became of each of them.
pub open spec fn all_results<S>(history: Seq<Tick<S>>) -> Seq<Option<Segment>>
    decreases history.len(),
{
    if history.len() == 0 {
        Seq::empty()
    } else {
        all_results(history.drop_last()) + history.last().results
    }
}

/// The window that came out at stop, if one did.
pub open spec fn tail_windows<S>(tail: Option<Window<S>>) -> Seq<Window<S>> {
    match tail {
        Some(window) => seq![window],
        None => Seq::empty(),
    }
}

/// Whether each of `results` that is a segment is numbered on from `first`, without a gap, and
/// tells its window.
pub open spec fn tells_windows<S>(
    windows: Seq<Window<S>>,
    track: Track,
    first: nat,
    results: Seq<Option<Segment>>,
) -> bool {
    &&& results.len() == windows.len()
    &&& forall|i: int|
        0 <= i < results.len() && (#[trigger] results[i]) is Some ==> {
            &&& results[i]->0.track == track
            &&& results[i]->0.index == first + deliveries(results.take(i))
            &&& results[i]->0.frames == windows[i].samples@.len()
            &&& results[i]->0.start_time@ == timestamp(windows[i].start as int)
            &&& results[i]->0.end_time@ == timestamp(windows[i].end as int)
            &&& results[i]->0.is_final == windows[i].is_final
        }
}

/// Whether each of `results` that is a segment is in the format and at the rate that were
/// configured, in mono.
pub open spec fn as_configured<G>(results: Seq<Option<Segment>>, cfg: Config<G>) -> bool {
    forall|i: int|
        0 <= i < results.len() && (#[trigger] results[i]) is Some ==> {
            &&& results[i]->0.format == cfg.format
            &&& results[i]->0.sample_rate == cfg.sample_rate
            &&& results[i]->0.channels == 1
        }
}

proof fn lemma_row<S, G>(
    before: TrackPipeline<S>,
    windows: Seq<Window<S>>,
    cfg: Config<G>,
    after: TrackPipeline<S>,
    results: Seq<Option<Segment>>,
)
    requires
        delivered_from(before, windows, cfg, after, results),
    ensures
        after.keeps_time_with(before),
        after.index() == before.index() + deliveries(results),
        tells_windows(windows, before.track(), before.index() + 1, results),
        as_configured(results, cfg),
{
    let (states, fates) = choose|states: Seq<TrackPipeline<S>>, fates: Seq<Fate>| #[trigger]
        delivered_in_turn(states, windows, cfg, fates, results) && states[0] == before
            && states.last() == after;
    law_deliveries_are_numbered(states, windows, cfg, fates, results);
    assert forall|i: int| 0 <= i < results.len() && (#[trigger] results[i]) is Some implies {
        &&& results[i]->0.frames == windows[i].samples@.len()
        &&& results[i]->0.start_time@ == timestamp(windows[i].start as int)
        &&& results[i]->0.end_time@ == timestamp(windows[i].end as int)
        &&& results[i]->0.is_final == windows[i].is_final
    } by {
        assert(delivers(states[i], windows[i], cfg, fates[i], states[i + 1], results[i]));
    }
    law_segments_are_the_encoded_windows(states, windows, cfg, fates, results);
}

proof fn lemma_deliveries_joined(a: Seq<Option<Segment>>, b: Seq<Option<Segment>>)
    ensures
        deliveries(a + b) == deliveries(a) + deliveries(b),
    decreases b.len(),
{
    if b.len() == 0 {
        assert(a + b =~= a);
    } else {
        lemma_deliveries_joined(a, b.drop_last());
        assert((a + b).drop_last() =~= a + b.drop_last());
    }
}

proof fn lemma_rows_joined<S>(
    w1: Seq<Window<S>>,
    r1: Seq<Option<Segment>>,
    w2: Seq<Window<S>>,
    r2: Seq<Option<Segment>>,
    track: Track,
    first: nat,
)
    requires
        tells_windows(w1, track, first, r1),
        tells_windows(w2, track, first + deliveries(r1), r2),
    ensures
        tells_windows(w1 + w2, track, first, r1 + r2),
        deliveries(r1 + r2) == deliveries(r1) + deliveries(r2),
{
    let (w, r) = (w1 + w2, r1 + r2);
    lemma_deliveries_joined(r1, r2);
    assert forall|i: int| 0 <= i < r.len() && (#[trigger] r[i]) is Some implies {
        &&& r[i]->0.track == track
        &&& r[i]->0.index == first + deliveries(r.take(i))
        &&& r[i]->0.frames == w[i].samples@.len()
        &&& r[i]->0.start_time@ == timestamp(w[i].start as int)
        &&& r[i]->0.end_time@ == timestamp(w[i].end as int)
        &&& r[i]->0.is_final == w[i].is_final
    } by {
        if i < r1.len() {
            assert(r1[i] == r[i] && w1[i] == w[i]);
            assert(r.take(i) =~= r1.take(i));
        } else {
            let j = i - r1.len();
            assert(r2[j] == r[i] && w2[j] == w[i]);
            assert(r.take(i) =~= r1 + r2.take(j));
            lemma_deliveries_joined(r1, r2.take(j));
        }
    }
}

proof fn lemma_configured_joined<G>(
    a: Seq<Option<Segment>>,
    b: Seq<Option<Segment>>,
    cfg: Config<G>,
)
    requires
        as_configured(a, cfg),
        as_configured(b, cfg),
    ensures
        as_configured(a + b, cfg),
{
    assert forall|i: int| 0 <= i < (a + b).len() && (#[trigger] (a + b)[i]) is Some implies {
        &&& (a + b)[i]->0.format == cfg.format
        &&& (a + b)[i]->0.sample_rate == cfg.sample_rate
        &&& (a + b)[i]->0.channels == 1
    } by {
        if i < a.len() {
            assert(a[i] == (a + b)[i]);
        } else {
            assert(b[i - a.len()] == (a + b)[i]);
        }
    }
}

pub(crate) proof fn lemma_flattened_joined<S>(a: Seq<Seq<S>>, b: Seq<Seq<S>>)
    ensures
        flattened(a + b) == flattened(a) + flattened(b),
    decreases b.len(),
{
    if b.len() == 0 {
        assert(a + b =~= a);
        assert(flattened(a) + Seq::<S>::empty() =~= flattened(a));
    } else {
        lemma_flattened_joined(a, b.drop_last());
        assert((a + b).drop_last() =~= a + b.drop_last());
        assert(flattened(a) + (flattened(b.drop_last()) + b.last()) =~= (flattened(a) + flattened(
            b.drop_last(),
        )) + b.last());
    }
}

proof fn lemma_ticks<S, G>(start: TrackPipeline<S>, history: Seq<Tick<S>>, cfg: Config<G>)
    requires
        start.wf(),
        recorded(start, history, cfg),
        stopped_last(history),
    ensures
        ({
            let end = after_ticks(start, history);
            let windows = all_windows(history);
            let results = all_results(history);
            &&& end.track() == start.track()
            &&& end.full_length() == start.full_length() > 0
            &&& end.pending().len() < start.full_length()
            &&& flattened(cut_samples(windows)) + end.pending() == start.pending() + all_input(
                history,
            )
            &&& forall|i: int|
                0 <= i < windows.len() ==> (#[trigger] windows[i]).samples@.len()
                    == start.full_length() && (windows[i].is_final <==> i == windows.len() - 1
                    && ends_with_window(history, end.pending().len(), cfg))
            &&& end.index() == start.index() + deliveries(results)
            &&& tells_windows(windows, start.track(), start.index() + 1, results)
            &&& as_configured(results, cfg)
        }),
    decreases history.len(),
{
    if history.len() == 0 {
        assert(cut_samples(Seq::<Window<S>>::empty()) =~= Seq::<Seq<S>>::empty());
        assert(Seq::<S>::empty() + start.pending() =~= start.pending() + Seq::<S>::empty());
    } else {
        let earlier = history.drop_last();
        let tick = history.last();
        let mid = after_ticks(start, earlier);
        assert forall|i: int| 0 <= i < earlier.len() - 1 implies !(
        #[trigger] earlier[i]).stopping by {
            assert(earlier[i] == history[i]);
        }
        lemma_ticks(start, earlier, cfg);
        let len = start.full_length();
        let stream = mid.pending() + tick.input;
        law_cutting_loses_nothing(stream, len);
        assert(cut_samples(tick.windows) =~= cut(stream, len));
        lemma_row(tick.cut, tick.windows, cfg, tick.after, tick.results);
        lemma_rows_joined(
            all_windows(earlier),
            all_results(earlier),
            tick.windows,
            tick.results,
            start.track(),
            start.index() + 1,
        );
        lemma_configured_joined(all_results(earlier), tick.results, cfg);
        let windows = all_windows(history);
        assert(cut_samples(windows) =~= cut_samples(all_windows(earlier)) + cut_samples(
            tick.windows,
        ));
        lemma_flattened_joined(cut_samples(all_windows(earlier)), cut_samples(tick.windows));
        let (f1, f2) = (
            flattened(cut_samples(all_windows(earlier))),
            flattened(cut_samples(tick.windows)),
        );
        assert((f1 + f2) + tick.after.pending() =~= f1 + (f2 + tick.after.pending()));
        assert(f1 + (mid.pending() + tick.input) =~= (f1 + mid.pending()) + tick.input);
        assert((start.pending() + all_input(earlier)) + tick.input =~= start.pending() + (all_input(
            earlier,
        ) + tick.input));
        assert forall|i: int| 0 <= i < windows.len() implies (#[trigger] windows[i]).samples@.len()
            == len && (windows[i].is_final <==> i == windows.len() - 1 && ends_with_window(
            history,
            tick.after.pending().len(),
            cfg,
        )) by {
            let n = all_windows(earlier).len();
            if i < n {
                assert(windows[i] == all_windows(earlier)[i]);
                if earlier.len() > 0 {
                    assert(!history[earlier.len() - 1].stopping);
                }
            } else {
                assert(windows[i] == tick.windows[i - n]);
                assert(cut(stream, len)[i - n].len() == len);
            }
        }
    }
}

/// A whole recording of one track, whatever is kept of it: every window but the last is full,
/// the last not empty; what is delivered of them is numbered 1, 2, 3 and so on, in their order,
/// with the track's tag, in the format and at the rate that were configured; at most one is
/// final, and no other comes after it, and where the track was recorded to the stop the last
/// window that comes out then is; and the windows are all that came in, in order, but for a
/// last stretch shorter than the least length of a tail.
pub proof fn law_whole_recording<S, G>(
    start: TrackPipeline<S>,
    history: Seq<Tick<S>>,
    cfg: Config<G>,
    flushed: TrackPipeline<S>,
    tail: Option<Window<S>>,
    end: TrackPipeline<S>,
    last: Seq<Option<Segment>>,
)
    requires
        start.wf(),
        start.index() == 0,
        start.pending() == Seq::<S>::empty(),
        recorded(start, history, cfg),
        stopped_last(history),
        flushes(after_ticks(start, history), cfg.min_tail(), cfg.sample_rate, flushed, tail),
        delivered_from(flushed, tail_windows(tail), cfg, end, last),
    ensures
        ({
            let windows = all_windows(history) + tail_windows(tail);
            let results = all_results(history) + last;
            let kept = flattened(cut_samples(windows));
            let input = all_input(history);
            &&& tells_windows(windows, start.track(), 1, results)
            &&& as_configured(results, cfg)
            &&& forall|i: int|
                0 <= i < windows.len() - 1 ==> (#[trigger] windows[i]).samples@.len()
                    == start.full_length()
            &&& windows.len() > 0 ==> 0 < windows.last().samples@.len() <= start.full_length()
            &&& forall|i: int|
                0 <= i < results.len() && (#[trigger] results[i]) is Some && results[i]->0.is_final
                    ==> i == results.len() - 1
            &&& forall|i: int|
                0 <= i < windows.len() ==> ((#[trigger] windows[i]).is_final ==> i
                    == windows.len() - 1)
            &&& tail is Some || (history.len() > 0 && history.last().stopping
                && history.last().windows.len() > 0) ==> windows.last().is_final
            &&& end.pending() == Seq::<S>::empty()
            &&& kept.len() <= input.len()
            &&& kept == input.take(kept.len() as int)
            &&& kept == input || input.len() < kept.len() + cfg.min_tail()
        }),
{
    lemma_ticks(start, history, cfg);
    lemma_row(flushed, tail_windows(tail), cfg, end, last);
    lemma_rows_joined(
        all_windows(history),
        all_results(history),
        tail_windows(tail),
        last,
        start.track(),
        1,
    );
    lemma_configured_joined(all_results(history), last, cfg);
    let before = after_ticks(start, history);
    let regular = all_windows(history);
    let windows = regular + tail_windows(tail);
    let results = all_results(history) + last;
    let input = all_input(history);
    assert(Seq::<S>::empty() + input =~= input);
    assert(cut_samples(windows) =~= cut_samples(regular) + cut_samples(tail_windows(tail)));
    lemma_flattened_joined(cut_samples(regular), cut_samples(tail_windows(tail)));
    let kept = flattened(cut_samples(windows));
    match tail {
        Some(window) => {
            let one = cut_samples(tail_windows(tail));
            assert(one =~= seq![window.samples@]);
            assert(one.drop_last() =~= Seq::<Seq<S>>::empty());
            assert(flattened(one.drop_last()) =~= Seq::<S>::empty());
            assert(flattened(one) =~= window.samples@);
            assert(kept =~= input);
        },
        None => {
            let none = cut_samples(tail_windows(tail));
            assert(none =~= Seq::<Seq<S>>::empty());
            assert(kept =~= flattened(cut_samples(regular)));
            if before.pending().len() == 0 {
                assert(kept =~= input);
            }
        },
    }
    assert(kept =~= input.take(kept.len() as int));
    assert forall|i: int| 0 <= i < windows.len() - 1 implies (#[trigger] windows[i]).samples@.len()
        == start.full_length() by {
        assert(windows[i] == regular[i]);
    }
    if windows.len() > 0 && tail is None {
        assert(windows.last() == regular[regular.len() - 1]);
    }
    assert forall|i: int|
        0 <= i < results.len() && (#[trigger] results[i]) is Some
            && results[i]->0.is_final implies i == results.len() - 1 by {
        if i < regular.len() {
            assert(windows[i] == regular[i]);
        }
    }
}

/// What remains of a track ends when its own audio ended: at the clock of its last tick, however
/// late the recording is stopped.
pub proof fn law_remainder_ends_with_its_audio<S, G>(
    start: TrackPipeline<S>,
    history: Seq<Tick<S>>,
    cfg: Config<G>,
    flushed: TrackPipeline<S>,
    window: Window<S>,
)
    requires
        recorded(start, history, cfg),
        history.len() > 0,
        cfg.sample_rate > 0,
        is_instant(history.last().now),
        flushes(
            after_ticks(start, history),
            cfg.min_tail(),
            cfg.sample_rate,
            flushed,
            Some(window),
        ),
    ensures
        window.end == history.last().now,
        window.is_final,
{
    let tick = history.last();
    lemma_row(tick.cut, tick.windows, cfg, tick.after, tick.results);
    assert(cfg.sample_rate * 0 == 0);
    law_frames_of_whole_seconds(cfg.sample_rate, 0);
}

/// A recording that keeps every segment and every tail delivers all of its track: segments
/// numbered from 1 to their number, every one but the last full, and together, in order, exactly
/// what came in.
pub proof fn law_keeping_all_delivers_all<S, G>(
    start: TrackPipeline<S>,
    history: Seq<Tick<S>>,
    cfg: Config<G>,
    flushed: TrackPipeline<S>,
    tail: Option<Window<S>>,
    end: TrackPipeline<S>,
    last: Seq<Option<Segment>>,
)
    requires
        start.wf(),
        start.index() == 0,
        start.pending() == Seq::<S>::empty(),
        recorded(start, history, cfg),
        stopped_last(history),
        flushes(after_ticks(start, history), cfg.min_tail(), cfg.sample_rate, flushed, tail),
        delivered_from(flushed, tail_windows(tail), cfg, end, last),
        cfg.min_tail() == 0,
        forall|i: int|
            0 <= i < (all_results(history) + last).len() ==> (#[trigger] (all_results(history)
                + last)[i]) is Some,
    ensures
        ({
            let windows = all_windows(history) + tail_windows(tail);
            let results = all_results(history) + last;
            &&& results.len() == windows.len()
            &&& forall|i: int|
                0 <= i < results.len() ==> (#[trigger] results[i])->0.index == i + 1
                    && results[i]->0.track == start.track() && results[i]->0.frames
                    == windows[i].samples@.len()
            &&& forall|i: int|
                0 <= i < results.len() - 1 ==> (#[trigger] results[i])->0.frames
                    == start.full_length()
            &&& results.len() > 0 ==> 0 < results.last()->0.frames <= start.full_length()
            &&& flattened(cut_samples(windows)) == all_input(history)
        }),
{
    law_whole_recording(start, history, cfg, flushed, tail, end, last);
    let results = all_results(history) + last;
    let windows = all_windows(history) + tail_windows(tail);
    assert forall|i: int| 0 <= i < results.len() implies (#[trigger] results[i])->0.index == i + 1
        && results[i]->0.track == start.track() && results[i]->0.frames
        == windows[i].samples@.len() by {
        lemma_all_delivered(results, i);
    }
}

proof fn lemma_all_delivered(results: Seq<Option<Segment>>, i: int)
    requires
        0 <= i <= results.len(),
        forall|k: int| 0 <= k < results.len() ==> (#[trigger] results[k]) is Some,
    ensures
        deliveries(results.take(i)) == i,
    decreases i,
{
    if i > 0 {
        lemma_all_delivered(results, i - 1);
        assert(results.take(i).drop_last() =~= results.take(i - 1));
        assert(results[i - 1] is Some);
    }
}

proof fn lemma_length_of_lists<S>(lists: Seq<Seq<S>>, len: nat)
    requires
        forall|i: int| 0 <= i < lists.len() ==> (#[trigger] lists[i]).len() == len,
    ensures
        flattened(lists).len() == lists.len() * len,
    decreases lists.len(),
{
    if lists.len() > 0 {
        let fewer = lists.drop_last();
        assert forall|i: int| 0 <= i < fewer.len() implies (#[trigger] fewer[i]).len() == len by {
            assert(fewer[i] == lists[i]);
        }
        lemma_length_of_lists(fewer, len);
        assert(lists[lists.len() - 1].len() == len);
        assert(lists.len() * len == fewer.len() * len + len) by (nonlinear_arith)
            requires
                lists.len() == fewer.len() + 1,
        ;
    } else {
        assert(0 * len == 0);
    }
}

/// A window is placed by what followed it: it ends as long before the capture of the newest
/// frame as the frames take that are in later windows or still wait, and starts as long before
/// its end as its own frames take.
pub proof fn law_windows_end_before_what_follows<S>(
    before: TrackPipeline<S>,
    input: Seq<S>,
    rate: u32,
    now: int,
    stop: Option<nat>,
    after: TrackPipeline<S>,
    windows: Seq<Window<S>>,
    i: int,
)
    requires
        before.wf(),
        cuts(before, input, rate, now, stop, after, windows),
        0 <= i < windows.len(),
        now - frames_nanos(
            flattened(cut_samples(windows.skip(i + 1))).len() + after.pending().len(),
            rate,
        ) - frames_nanos(windows[i].samples@.len(), rate) >= EARLIEST,
    ensures
        windows[i].end == now - frames_nanos(
            flattened(cut_samples(windows.skip(i + 1))).len() + after.pending().len(),
            rate,
        ),
        windows[i].start == windows[i].end - frames_nanos(windows[i].samples@.len(), rate),
{
    let len = before.full_length();
    let stream = before.pending() + input;
    let later = windows.skip(i + 1);
    law_track_loses_nothing(before, input, rate, now, stop, after, windows);
    let all = cut_samples(windows);
    assert forall|k: int| 0 <= k < all.len() implies (#[trigger] all[k]).len() == len by {
        assert(windows[k].samples@.len() == len);
    }
    lemma_length_of_lists(all, len);
    let rows = cut_samples(later);
    assert forall|k: int| 0 <= k < rows.len() implies (#[trigger] rows[k]).len() == len by {
        assert(later[k] == windows[i + 1 + k]);
        assert(windows[i + 1 + k].samples@.len() == len);
    }
    lemma_length_of_lists(rows, len);
    let n = windows.len() as int;
    assert(n * len == (i + 1) * len + (n - i - 1) * len) by (nonlinear_arith);
    assert((flattened(all) + after.pending()).len() == stream.len());
    assert(windows[i].shows(
        cut(stream, len)[i],
        now,
        rate,
        (stream.len() - (i + 1) * len) as nat,
        i == windows.len() - 1 && ends_track(stop, rest(stream, len).len()),
    ));
}

/// What is left at the stop is delivered as the final window if there is any of it and it is
/// long enough, whole and unchanged, and is dropped otherwise; it ends when its newest frame was
/// captured.
pub proof fn law_tail_is_kept_if_long_enough<S>(
    before: TrackPipeline<S>,
    min_tail: nat,
    rate: u32,
    after: TrackPipeline<S>,
    tail: Option<Window<S>>,
)
    requires
        rate > 0,
        flushes(before, min_tail, rate, after, tail),
        before.newest() - frames_nanos(before.pending().len(), rate) >= EARLIEST,
    ensures
        tail is Some <==> before.pending().len() > 0 && before.pending().len() >= min_tail,
        tail matches Some(window) ==> {
            &&& window.samples@ == before.pending()
            &&& window.is_final
            &&& window.end == before.newest()
            &&& window.start == window.end - frames_nanos(before.pending().len(), rate)
        },
        after.pending().len() == 0,
        after.index() == before.index(),
        after.track() == before.track(),
{
    assert(rate * 0 == 0);
    law_frames_of_whole_seconds(rate, 0);
}

/// A track can be recorded for a hundred years at any usual rate before its frames can no longer
/// be counted.
pub proof fn law_frames_can_be_counted(rate: nat, secs: nat)
    requires
        rate <= 384_000,
        secs <= 100 * 366 * 86_400,
    ensures
        rate * secs <= MAX_FRAMES,
{
    assert(rate * secs <= 384_000 * (100 * 366 * 86_400)) by (nonlinear_arith)
        requires
            rate <= 384_000,
            secs <= 100 * 366 * 86_400,
    ;
}

/// Where no clock can show a time so long before `now`, a window ends `now`, and where none can
/// show one so long before its end, it starts where it ends.
pub proof fn law_clock_does_not_run_out(now: int, rate: u32, pending: nat, n: nat)
    ensures
        now - frames_nanos(pending, rate) < EARLIEST ==> placed(now, rate, pending, n).1 == now,
        placed(now, rate, pending, n).1 - frames_nanos(n, rate) < EARLIEST ==> placed(
            now,
            rate,
            pending,
            n,
        ).0 == placed(now, rate, pending, n).1,
        is_instant(now) ==> is_instant(placed(now, rate, pending, n).0) && is_instant(
            placed(now, rate, pending, n).1,
        ),
{
}

} // verus!
