//! What holds of a whole session, from its start to the last flush, on each of its tracks.

use vstd::prelude::*;
use crate::config::Config;
use crate::pipeline::{
    after_ticks, all_input, all_results, all_windows, as_configured, cut_samples, cuts,
    delivered_from,
    law_whole_recording, recorded, stop_of, stopped_last, tail_windows, tells_windows, ticked,
    Tick, TrackPipeline, Window,
};
use crate::sample::Amplitude;
use crate::segment::{Segment, Track};
use crate::segmenter::flattened;
use crate::source::{law_source_waits_for_a_chunk, SourceState};
use crate::worker::{
    arrivals, brings, continues, cut_all, flushed_on, is_fresh, lemma_arrivals_joined,
    lemma_tracks_differ, lemma_unity_brings_arrivals, Cut, Session,
};

verus! {

/// One tick of a session, or its stop: the session once it has listened, once each live track
/// has its pipeline, and once each was cut at `now`; what the cuts brought; and the session
/// once one track's windows were delivered, with what became of them.
#[verifier::reject_recursive_types(S)]
pub struct Round<S, H, G> {
    pub heard: Session<S, H, G>,
    pub ready: Session<S, H, G>,
    pub now: int,
    pub cut: Session<S, H, G>,
    pub cuts: Seq<Cut<S>>,
    pub after: Session<S, H, G>,
    pub results: Seq<Option<Segment>>,
}

/// The windows of one track among these cuts.
pub open spec fn windows_of<S>(cuts: Seq<Cut<S>>, track: Track) -> Seq<Window<S>>
    decreases cuts.len(),
{
    if cuts.len() == 0 {
        Seq::empty()
    } else if cuts.last().track == track {
        cuts.last().windows@
    } else {
        windows_of(cuts.drop_last(), track)
    }
}

/// Whether `results` are what became of one track's windows, one after the other.
pub open spec fn delivered_on<S, H, G>(
    before: Session<S, H, G>,
    track: Track,
    windows: Seq<Window<S>>,
    after: Session<S, H, G>,
    results: Seq<Option<Segment>>,
) -> bool {
    &&& after.cfg() == before.cfg()
    &&& match (before.pipe(track), after.pipe(track)) {
        (Some(old_pipe), Some(new_pipe)) => delivered_from(
            old_pipe,
            windows,
            before.cfg(),
            new_pipe,
            results,
        ),
        (None, None) => windows.len() == 0 && results.len() == 0,
        _ => false,
    }
}

/// Whether a session was made ready to deliver what it heard: it is the same, but that a track
/// without a pipeline may have got a fresh one.
pub open spec fn readied<S: Amplitude, H, G>(
    heard: Session<S, H, G>,
    track: Track,
    ready: Session<S, H, G>,
) -> bool {
    &&& ready.wf()
    &&& ready.keeps_setup(heard)
    &&& ready.stream(track) == heard.stream(track)
    &&& match heard.pipe(track) {
        Some(pipe) => ready.pipe(track) == Some(pipe),
        None => ready.pipe(track) matches Some(pipe) ==> is_fresh(pipe),
    }
}

/// Whether this is a round of the session `before`, as far as one track goes. Commands and
/// listening leave the pipelines as they are.
pub open spec fn round_of<S: Amplitude, H, G>(
    before: Session<S, H, G>,
    round: Round<S, H, G>,
    track: Track,
) -> bool {
    &&& round.heard.cfg() == before.cfg()
    &&& round.heard.pipe(track) == before.pipe(track)
    &&& readied(round.heard, track, round.ready)
    &&& cut_all(round.ready, round.now, round.cut, round.cuts)
    &&& delivered_on(
        round.cut,
        track,
        windows_of(round.cuts, track),
        round.after,
        round.results,
    )
}

/// A session after these rounds.
pub open spec fn after_rounds<S, H, G>(
    start: Session<S, H, G>,
    rounds: Seq<Round<S, H, G>>,
) -> Session<S, H, G> {
    if rounds.len() == 0 {
        start
    } else {
        rounds.last().after
    }
}

/// Whether these are the rounds of a session, from `start` on, as far as one track goes.
pub open spec fn ran<S: Amplitude, H, G>(
    start: Session<S, H, G>,
    rounds: Seq<Round<S, H, G>>,
    track: Track,
) -> bool
    decreases rounds.len(),
{
    rounds.len() > 0 ==> ran(start, rounds.drop_last(), track) && round_of(
        after_rounds(start, rounds.drop_last()),
        rounds.last(),
        track,
    )
}

/// Whether no round but the last is the stop.
pub open spec fn stops_last<S, H, G>(rounds: Seq<Round<S, H, G>>) -> bool {
    forall|i: int| 0 <= i < rounds.len() - 1 ==> !(#[trigger] rounds[i]).heard.stopped()
}

/// Whether a round delivers a track: it is live and has its pipeline.
pub open spec fn takes<S, H, G>(round: Round<S, H, G>, track: Track) -> bool {
    round.ready.tracks().contains(track) && round.ready.pipe(track) is Some
}

/// All that the rounds that deliver a track brought on it.
pub open spec fn brought<S, H, G>(rounds: Seq<Round<S, H, G>>, track: Track) -> Seq<S>
    decreases rounds.len(),
{
    if rounds.len() == 0 {
        Seq::empty()
    } else if takes(rounds.last(), track) {
        brought(rounds.drop_last(), track) + rounds.last().heard.stream(track)
    } else {
        brought(rounds.drop_last(), track)
    }
}

/// All windows that were cut on a track.
pub open spec fn windows_on<S, H, G>(rounds: Seq<Round<S, H, G>>, track: Track) -> Seq<Window<S>>
    decreases rounds.len(),
{
    if rounds.len() == 0 {
        Seq::empty()
    } else {
        windows_on(rounds.drop_last(), track) + windows_of(rounds.last().cuts, track)
    }
}

/// What became of each of them.
pub open spec fn results_on<S, H, G>(rounds: Seq<Round<S, H, G>>) -> Seq<Option<Segment>>
    decreases rounds.len(),
{
    if rounds.len() == 0 {
        Seq::empty()
    } else {
        results_on(rounds.drop_last()) + rounds.last().results
    }
}

/// The ticks of a track's pipeline in these rounds.
spec fn ticks_on<S, H, G>(rounds: Seq<Round<S, H, G>>, track: Track) -> Seq<Tick<S>>
    decreases rounds.len(),
{
    if rounds.len() == 0 {
        Seq::empty()
    } else {
        let round = rounds.last();
        let earlier = ticks_on(rounds.drop_last(), track);
        if takes(round, track) {
            earlier.push(
                Tick {
                    input: round.heard.stream(track),
                    now: round.now,
                    stopping: round.heard.stopped(),
                    cut: round.cut.pipe(track)->0,
                    windows: windows_of(round.cuts, track),
                    results: round.results,
                    after: round.after.pipe(track)->0,
                },
            )
        } else {
            earlier
        }
    }
}

proof fn lemma_windows_of<S>(cuts: Seq<Cut<S>>, track: Track, i: int)
    requires
        forall|a: int, b: int|
            0 <= a < b < cuts.len() ==> (#[trigger] cuts[a]).track != (#[trigger] cuts[b]).track,
        0 <= i < cuts.len(),
        cuts[i].track == track,
    ensures
        windows_of(cuts, track) == cuts[i].windows@,
    decreases cuts.len(),
{
    if i < cuts.len() - 1 {
        assert(cuts[i].track != cuts[cuts.len() - 1].track);
        lemma_windows_of(cuts.drop_last(), track, i);
    }
}

proof fn lemma_no_windows_of<S>(cuts: Seq<Cut<S>>, track: Track)
    requires
        forall|i: int| 0 <= i < cuts.len() ==> (#[trigger] cuts[i]).track != track,
    ensures
        windows_of(cuts, track).len() == 0,
    decreases cuts.len(),
{
    if cuts.len() > 0 {
        assert(cuts[cuts.len() - 1].track != track);
        lemma_no_windows_of(cuts.drop_last(), track);
    }
}

proof fn lemma_nothing_delivered<S, G>(
    before: TrackPipeline<S>,
    windows: Seq<Window<S>>,
    cfg: Config<G>,
    after: TrackPipeline<S>,
    results: Seq<Option<Segment>>,
)
    requires
        delivered_from(before, windows, cfg, after, results),
        windows.len() == 0,
    ensures
        after == before,
        results.len() == 0,
{
}

proof fn lemma_no_stop_among_ticks<S, H, G>(rounds: Seq<Round<S, H, G>>, track: Track)
    requires
        forall|i: int| 0 <= i < rounds.len() ==> !(#[trigger] rounds[i]).heard.stopped(),
    ensures
        forall|i: int|
            0 <= i < ticks_on(rounds, track).len() ==> !(#[trigger] ticks_on(
                rounds,
                track,
            )[i]).stopping,
    decreases rounds.len(),
{
    if rounds.len() > 0 {
        let earlier = rounds.drop_last();
        assert forall|i: int| 0 <= i < earlier.len() implies !(
        #[trigger] earlier[i]).heard.stopped() by {
            assert(earlier[i] == rounds[i]);
        }
        assert(!rounds[rounds.len() - 1].heard.stopped());
        lemma_no_stop_among_ticks(earlier, track);
        let (ticks, before) = (ticks_on(rounds, track), ticks_on(earlier, track));
        assert forall|i: int| 0 <= i < ticks.len() implies !(#[trigger] ticks[i]).stopping by {
            if i < before.len() {
                assert(ticks[i] == before[i]);
            }
        }
    }
}

proof fn lemma_ticks_stop_last<S, H, G>(rounds: Seq<Round<S, H, G>>, track: Track)
    requires
        stops_last(rounds),
    ensures
        stopped_last(ticks_on(rounds, track)),
{
    if rounds.len() > 0 {
        let earlier = rounds.drop_last();
        assert forall|i: int| 0 <= i < earlier.len() implies !(
        #[trigger] earlier[i]).heard.stopped() by {
            assert(earlier[i] == rounds[i]);
        }
        lemma_no_stop_among_ticks(earlier, track);
        let (ticks, before) = (ticks_on(rounds, track), ticks_on(earlier, track));
        assert forall|i: int| 0 <= i < ticks.len() - 1 implies !(#[trigger] ticks[i]).stopping by {
            assert(ticks[i] == before[i]);
        }
    }
}

proof fn lemma_round<S: Amplitude, H, G>(
    before: Session<S, H, G>,
    round: Round<S, H, G>,
    track: Track,
)
    requires
        round_of(before, round, track),
    ensures
        round.after.cfg() == before.cfg(),
        takes(round, track) ==> {
            &&& round.cut.pipe(track) is Some
            &&& round.after.pipe(track) is Some
            &&& cuts(
                round.ready.pipe(track)->0,
                round.heard.stream(track),
                before.cfg().sample_rate,
                round.now,
                stop_of(round.heard.stopped(), before.cfg()),
                round.cut.pipe(track)->0,
                windows_of(round.cuts, track),
            )
            &&& delivered_from(
                round.cut.pipe(track)->0,
                windows_of(round.cuts, track),
                before.cfg(),
                round.after.pipe(track)->0,
                round.results,
            )
        },
        !takes(round, track) ==> {
            &&& round.after.pipe(track) == round.ready.pipe(track)
            &&& windows_of(round.cuts, track).len() == 0
            &&& round.results.len() == 0
        },
{
    let (ready, all) = (round.ready, round.cuts);
    let windows = windows_of(all, track);
    lemma_tracks_differ(ready.mode().is_separate(), ready.mic() is Some, ready.sys() is Some);
    assert forall|a: int, b: int| 0 <= a < b < all.len() implies (#[trigger] all[a]).track != (
    #[trigger] all[b]).track by {
        assert(ready.tracks()[a] != ready.tracks()[b]);
    }
    if ready.tracks().contains(track) {
        let i = choose|i: int| 0 <= i < ready.tracks().len() && ready.tracks()[i] == track;
        assert(all[i].track == track);
        lemma_windows_of(all, track, i);
    } else {
        assert forall|i: int| 0 <= i < all.len() implies (#[trigger] all[i]).track != track by {
            assert(ready.tracks()[i] == all[i].track);
        }
        lemma_no_windows_of(all, track);
    }
    if !takes(round, track) {
        if round.cut.pipe(track) is Some && round.after.pipe(track) is Some {
            lemma_nothing_delivered(
                round.cut.pipe(track)->0,
                windows,
                before.cfg(),
                round.after.pipe(track)->0,
                round.results,
            );
        }
    }
}

/// The ticks of a track are a recording of it, from the fresh pipeline that is returned.
proof fn lemma_rounds<S: Amplitude, H, G>(
    start: Session<S, H, G>,
    rounds: Seq<Round<S, H, G>>,
    track: Track,
) -> (first: TrackPipeline<S>)
    requires
        start.wf(),
        start.pipe(track) matches Some(pipe) ==> is_fresh(pipe),
        ran(start, rounds, track),
    ensures
        ({
            let end = after_rounds(start, rounds);
            let ticks = ticks_on(rounds, track);
            &&& end.cfg() == start.cfg()
            &&& all_input(ticks) == brought(rounds, track)
            &&& all_windows(ticks) == windows_on(rounds, track)
            &&& all_results(ticks) == results_on(rounds)
            &&& match end.pipe(track) {
                Some(pipe) => {
                    &&& first.wf()
                    &&& is_fresh(first)
                    &&& first.track() == track
                    &&& first.full_length() == start.cfg().full_length()
                    &&& recorded(first, ticks, start.cfg())
                    &&& after_ticks(first, ticks) == pipe
                },
                None => ticks.len() == 0,
            }
        }),
    decreases rounds.len(),
{
    if rounds.len() == 0 {
        if start.pipe(track) is Some { start.pipe(track)->0 } else { arbitrary() }
    } else {
        let (earlier, round) = (rounds.drop_last(), rounds.last());
        let before = after_rounds(start, earlier);
        let old_first = lemma_rounds(start, earlier, track);
        lemma_round(before, round, track);
        let (ticks, old_ticks) = (ticks_on(rounds, track), ticks_on(earlier, track));
        let first = if before.pipe(track) is None && round.ready.pipe(track) is Some {
            round.ready.pipe(track)->0
        } else {
            old_first
        };
        if takes(round, track) {
            assert(ticks.drop_last() =~= old_ticks);
            if before.pipe(track) is None {
                assert(old_ticks =~= Seq::<Tick<S>>::empty());
                assert(recorded(first, old_ticks, start.cfg()));
            }
            assert(ticked(after_ticks(first, old_ticks), ticks.last(), start.cfg()));
        } else {
            assert(windows_on(rounds, track) =~= windows_on(earlier, track));
            assert(results_on(rounds) =~= results_on(earlier));
        }
        first
    }
}

/// A whole session loses nothing, on any of its tracks: from its start to the last flush, all
/// that listening brought on a track while it was delivered is, in order, what the track's
/// windows hold, but for a last stretch shorter than the least length of a tail. This holds
/// whichever sources were switched on and off in between and whatever was kept: every window
/// but the last is full, the last not empty; what is delivered of them is numbered 1, 2, 3 and
/// so on, in their order, with the track's tag, in the format and at the rate that were
/// configured; at most one is final, and none comes after it;
/// and the last window that comes out at the stop is.
pub proof fn law_session_loses_nothing<S: Amplitude, H, G>(
    start: Session<S, H, G>,
    rounds: Seq<Round<S, H, G>>,
    track: Track,
    flushed: Session<S, H, G>,
    tail: Option<Window<S>>,
    end: Session<S, H, G>,
    last: Seq<Option<Segment>>,
)
    requires
        start.wf(),
        start.pipe(track) matches Some(pipe) ==> is_fresh(pipe),
        ran(start, rounds, track),
        stops_last(rounds),
        flushed.cfg() == after_rounds(start, rounds).cfg(),
        flushed_on(after_rounds(start, rounds), track, flushed, tail),
        delivered_on(flushed, track, tail_windows(tail), end, last),
    ensures
        ({
            let full = start.cfg().full_length();
            let windows = windows_on(rounds, track) + tail_windows(tail);
            let results = results_on(rounds) + last;
            let kept = flattened(cut_samples(windows));
            let input = brought(rounds, track);
            &&& kept.len() <= input.len()
            &&& kept == input.take(kept.len() as int)
            &&& kept == input || input.len() < kept.len() + start.cfg().min_tail()
            &&& end.pipe(track) matches Some(pipe) ==> pipe.pending() == Seq::<S>::empty()
            &&& tells_windows(windows, track, 1, results)
            &&& as_configured(results, start.cfg())
            &&& forall|i: int|
                0 <= i < windows.len() - 1 ==> (#[trigger] windows[i]).samples@.len() == full
                    && !windows[i].is_final
            &&& windows.len() > 0 ==> 0 < windows.last().samples@.len() <= full
            &&& tail is Some || (rounds.len() > 0 && rounds.last().heard.stopped() && windows_of(
                rounds.last().cuts,
                track,
            ).len() > 0) ==> windows.last().is_final
        }),
{
    let ticks = ticks_on(rounds, track);
    let first = lemma_rounds(start, rounds, track);
    lemma_ticks_stop_last(rounds, track);
    match after_rounds(start, rounds).pipe(track) {
        Some(_) => {
            if rounds.len() > 0 {
                let before = after_rounds(start, rounds.drop_last());
                let old_first = lemma_rounds(start, rounds.drop_last(), track);
                lemma_round(before, rounds.last(), track);
            }
            law_whole_recording(
                first,
                ticks,
                start.cfg(),
                flushed.pipe(track)->0,
                tail,
                end.pipe(track)->0,
                last,
            );
        },
        None => {
            let windows = windows_on(rounds, track) + tail_windows(tail);
            assert(windows =~= Seq::<Window<S>>::empty());
            assert(cut_samples(windows) =~= Seq::<Seq<S>>::empty());
            assert(brought(rounds, track) =~= Seq::<S>::empty());
            if rounds.len() > 0 {
                let before = after_rounds(start, rounds.drop_last());
                let old_first = lemma_rounds(start, rounds.drop_last(), track);
                lemma_round(before, rounds.last(), track);
            }
        },
    }
}

/// The source whose own track this is, where it is captured.
pub open spec fn source_of<S, H, G>(session: Session<S, H, G>, track: Track) -> Option<
    SourceState<S, H>,
> {
    match track {
        Track::Mixed => None,
        Track::Mic => session.mic(),
        Track::System => session.sys(),
    }
}

/// Whether a source was live on its own track in all of these rounds, at this gain.
pub open spec fn hears<S: Default, H, G, U: Fn(G) -> bool, F: Fn(G, S) -> S>(
    start: Session<S, H, G>,
    rounds: Seq<Round<S, H, G>>,
    track: Track,
    unity: U,
    scale: F,
    gain: G,
) -> bool
    decreases rounds.len(),
{
    rounds.len() > 0 ==> {
        let before = after_rounds(start, rounds.drop_last());
        let round = rounds.last();
        &&& hears(start, rounds.drop_last(), track, unity, scale, gain)
        &&& takes(round, track)
        &&& source_of(round.after, track) == source_of(round.heard, track)
        &&& source_of(round.heard, track) is Some
        &&& brings(
            round.heard.stopped(),
            unity,
            scale,
            gain,
            source_of(before, track),
            source_of(round.heard, track),
            round.heard.stream(track),
        )
    }
}

proof fn lemma_brought_is_arrivals<S: Default, H, G, U: Fn(G) -> bool, F: Fn(G, S) -> S>(
    start: Session<S, H, G>,
    rounds: Seq<Round<S, H, G>>,
    track: Track,
    unity: U,
    scale: F,
    gain: G,
)
    requires
        !call_ensures(unity, (gain,), false),
        source_of(start, track) matches Some(source) && (source.resampler().converts()
            || source.resampler().residual().len() == 0),
        hears(start, rounds, track, unity, scale, gain),
    ensures
        ({
            let end = after_rounds(start, rounds);
            &&& source_of(end, track) is Some
            &&& continues(source_of(start, track)->0, source_of(end, track)->0)
            &&& brought(rounds, track) == arrivals(
                source_of(start, track)->0,
                source_of(end, track)->0,
            )
            &&& rounds.len() > 0 && rounds.last().heard.stopped() ==> source_of(
                end,
                track,
            )->0.handle() is None && source_of(end, track)->0.resampler().residual().len() == 0
        }),
    decreases rounds.len(),
{
    let first = source_of(start, track)->0;
    if rounds.len() == 0 {
        assert(first.pops().is_prefix_of(first.pops()));
        assert(first.resampler().log().is_prefix_of(first.resampler().log()));
        assert(arrivals(first, first) =~= Seq::<S>::empty());
    } else {
        let before = after_rounds(start, rounds.drop_last());
        let round = rounds.last();
        lemma_brought_is_arrivals(start, rounds.drop_last(), track, unity, scale, gain);
        let (mid, last) = (source_of(before, track)->0, source_of(round.heard, track)->0);
        lemma_unity_brings_arrivals(
            round.heard.stopped(),
            unity,
            scale,
            gain,
            mid,
            last,
            round.heard.stream(track),
        );
        lemma_arrivals_joined(first, mid, last);
    }
}

/// A whole session loses no captured frame: where a source is recorded at unity gain on its own
/// track from the start to the stop, what its windows hold is, in order, all that came out of
/// the source, but for a last stretch shorter than the least length of a tail. At the end its
/// stream is stopped and nothing waits to be resampled.
pub proof fn law_session_keeps_every_captured_frame<
    S: Amplitude,
    H,
    G,
    U: Fn(G) -> bool,
    F: Fn(G, S) -> S,
>(
    unity: U,
    scale: F,
    gain: G,
    start: Session<S, H, G>,
    rounds: Seq<Round<S, H, G>>,
    track: Track,
    flushed: Session<S, H, G>,
    tail: Option<Window<S>>,
    end: Session<S, H, G>,
    last: Seq<Option<Segment>>,
)
    requires
        !call_ensures(unity, (gain,), false),
        start.wf(),
        start.pipe(track) matches Some(pipe) ==> is_fresh(pipe),
        source_of(start, track) is Some,
        ran(start, rounds, track),
        hears(start, rounds, track, unity, scale, gain),
        stops_last(rounds),
        rounds.len() > 0,
        rounds.last().heard.stopped(),
        flushed.cfg() == after_rounds(start, rounds).cfg(),
        flushed_on(after_rounds(start, rounds), track, flushed, tail),
        delivered_on(flushed, track, tail_windows(tail), end, last),
    ensures
        ({
            let source = source_of(rounds.last().after, track)->0;
            let kept = flattened(cut_samples(windows_on(rounds, track) + tail_windows(tail)));
            let whole = arrivals(source_of(start, track)->0, source);
            &&& kept.len() <= whole.len()
            &&& kept == whole.take(kept.len() as int)
            &&& kept == whole || whole.len() < kept.len() + start.cfg().min_tail()
            &&& source.handle() is None
            &&& source.resampler().residual().len() == 0
        }),
{
    law_source_waits_for_a_chunk(source_of(start, track)->0);
    lemma_brought_is_arrivals(start, rounds, track, unity, scale, gain);
    law_session_loses_nothing(start, rounds, track, flushed, tail, end, last);
}

} // verus!
