//! One capture source on the worker's side: the stream that is kept alive, the ring it
//! writes to, and the resampler behind it.

use vstd::prelude::*;
use crate::config::Source;
use crate::converter::{rates_fit, shape_of, Exchange};
use crate::error::Error;
use crate::resample::{
    flushed, goes_on, law_pieces_do_not_matter, outputs, tells_refusal, StreamResampler, CHUNK_IN,
    SUB_CHUNKS,
};
use crate::sample::{are_bearable, computes, some_unbearable, Amplitude};
use crate::ring::{front_of, pop_slice, taken, Outlet, Pop};

verus! {

/// Samples popped from a ring buffer per step.
pub const POP_SCRATCH: usize = 4096;

/// One capture source: stream (kept alive), ring-buffer consumer, resampler.
#[verifier::reject_recursive_types(S)]
pub struct SourceState<S, H> {
    handle: Option<H>,
    consumer: Outlet<S>,
    resampler: StreamResampler<S>,
    pop_scratch: Vec<S>,
}

impl<S, H> SourceState<S, H> {
    /// The capture stream; `None` once it was stopped.
    pub closed spec fn handle(&self) -> Option<H> {
        self.handle
    }

    /// Every frame that is ever written to the ring.
    pub closed spec fn captured(&self) -> Seq<S> {
        self.consumer.stream()
    }

    /// Every read from the ring so far.
    pub closed spec fn pops(&self) -> Seq<Pop<S>> {
        self.consumer.pops()
    }

    /// The resampler that the frames go through.
    pub closed spec fn resampler(&self) -> StreamResampler<S> {
        self.resampler
    }

}

impl<S: Amplitude, H> SourceState<S, H> {
    /// The ring and the resampler are in order, and the reads have their fixed size.
    pub closed spec fn wf(&self) -> bool {
        self.consumer.wf() && self.resampler.wf() && self.pop_scratch@.len() == POP_SCRATCH
    }
}

/// Whether these reads drained a ring: each asked for the fixed number of frames and, up to
/// the last, got them; the last one came up short. (No ring yields so many full reads in a
/// row that they could not be counted.)
pub open spec fn drains<S>(pops: Seq<Pop<S>>) -> bool {
    &&& pops.len() > 0
    &&& forall|i: int| 0 <= i < pops.len() ==> (#[trigger] pops[i]).asked == POP_SCRATCH
    &&& forall|i: int|
        0 <= i < pops.len() - 1 ==> (#[trigger] pops[i]).got.len() == POP_SCRATCH
    &&& pops.last().got.len() < POP_SCRATCH || pops.len() == u64::MAX
}

/// Whether the source `before` was drained, which appended to `out`: reads that drained the
/// ring, and the resampler gone on by what they brought.
pub open spec fn drained<S, H>(
    before: SourceState<S, H>,
    out: Seq<S>,
    after: SourceState<S, H>,
    out_after: Seq<S>,
) -> bool {
    let new = after.pops().skip(before.pops().len() as int);
    &&& after.handle() == before.handle()
    &&& after.captured() == before.captured()
    &&& after.pops() == before.pops() + new
    &&& drains(new)
    &&& goes_on(before.resampler(), taken(new), out, after.resampler(), out_after)
}

/// Whether the source `before` was drained and then its resampler flushed.
pub open spec fn drained_and_flushed<S: Default, H>(
    before: SourceState<S, H>,
    out: Seq<S>,
    after: SourceState<S, H>,
    out_after: Seq<S>,
) -> bool {
    exists|mid: SourceState<S, H>, out_mid: Seq<S>| #[trigger]
        drained(before, out, mid, out_mid) && after.handle() == mid.handle() && after.captured()
            == mid.captured() && after.pops() == mid.pops() && flushed(
            mid.resampler(),
            out_mid,
            after.resampler(),
            out_after,
        )
}

/// Whether draining the source `before`, which appended to `out`, came upon a frame that cannot
/// be resampled: the last read holds one, and the resampler has gone on by the reads before it.
pub open spec fn choked<S: Amplitude, H>(
    before: SourceState<S, H>,
    out: Seq<S>,
    after: SourceState<S, H>,
    out_after: Seq<S>,
) -> bool {
    let new = after.pops().skip(before.pops().len() as int);
    &&& before.resampler().converts()
    &&& after.handle() == before.handle()
    &&& after.captured() == before.captured()
    &&& after.pops() == before.pops() + new
    &&& new.len() > 0
    &&& some_unbearable(new.last().got)
    &&& goes_on(before.resampler(), taken(new.drop_last()), out, after.resampler(), out_after)
}

impl<S: Amplitude + rubato::Sample, H> SourceState<S, H> {
    /// The state of a source whose stream `handle` delivers frames at `native_rate` to the
    /// other end of `consumer`.
    pub fn new(handle: H, native_rate: u32, target_rate: u32, consumer: Outlet<S>) -> (r: Result<
        Self,
        Error,
    >)
        requires
            consumer.wf(),
            native_rate != target_rate ==> rates_fit(native_rate, target_rate),
        ensures
            r is Ok <==> native_rate == target_rate || (native_rate > 0 && target_rate > 0),
            match r {
                Ok(source) => {
                    &&& source.wf()
                    &&& source.handle() == Some(handle)
                    &&& source.captured() == consumer.stream()
                    &&& source.pops() == consumer.pops()
                    &&& source.resampler().converts() <==> native_rate != target_rate
                    &&& source.resampler().converts() ==> source.resampler().shape() == shape_of(
                        native_rate as nat,
                        target_rate as nat,
                        CHUNK_IN as nat,
                        SUB_CHUNKS as nat,
                    )
                    &&& source.resampler().residual() == Seq::<S>::empty()
                    &&& source.resampler().log() == Seq::<Exchange<S>>::empty()
                },
                Err(e) => tells_refusal(e, native_rate, target_rate),
            },
    {
        match StreamResampler::new(native_rate, target_rate) {
            Ok(resampler) => {
                let mut pop_scratch: Vec<S> = Vec::new();
                crate::vad::fill_up(&mut pop_scratch, POP_SCRATCH);
                Ok(SourceState { handle: Some(handle), consumer, resampler, pop_scratch })
            },
            Err(e) => Err(e),
        }
    }

    /// Read once from the ring and resample what came, appending to `out`. Says whether as much
    /// came as was asked for, or nothing where it holds a frame that cannot be resampled.
    fn read_on(&mut self, out: &mut Vec<S>) -> (full: Option<bool>)
        requires
            computes::<S>(),
            old(self).wf(),
        ensures
            final(self).wf(),
            final(self).handle() == old(self).handle(),
            final(self).captured() == old(self).captured(),
            final(self).pops() == old(self).pops().push(final(self).pops().last()),
            final(self).pops().last().asked == POP_SCRATCH,
            final(self).pops().last().got.len() <= POP_SCRATCH,
            match full {
                Some(yes) => {
                    &&& yes == (final(self).pops().last().got.len() == POP_SCRATCH)
                    &&& goes_on(
                        old(self).resampler(),
                        final(self).pops().last().got,
                        old(out)@,
                        final(self).resampler(),
                        final(out)@,
                    )
                },
                None => {
                    &&& old(self).resampler().converts()
                    &&& some_unbearable(final(self).pops().last().got)
                    &&& final(self).resampler() == old(self).resampler()
                    &&& final(out)@ == old(out)@
                },
            },
    {
        let n: usize = pop_slice(&mut self.consumer, &mut self.pop_scratch);
        let ghost got = self.pop_scratch@.take(n as int);
        assert(self.pops().last().got == got);
        assert(self.pop_scratch@.subrange(0, n as int) =~= got);
        if self.resampler.is_converting() && !are_bearable(&self.pop_scratch.as_slice()[0..n]) {
            return None;
        }
        let _ = self.resampler.process(&self.pop_scratch.as_slice()[0..n], out);
        Some(n == self.pop_scratch.len())
    }

    /// Resample what waits in the ring, appending to `out`. Stops short, and says so, at a
    /// frame that cannot be resampled.
    pub fn drain_into(&mut self, out: &mut Vec<S>) -> (sound: bool)
        requires
            computes::<S>(),
            old(self).wf(),
        ensures
            final(self).wf(),
            sound ==> drained(*old(self), old(out)@, *final(self), final(out)@),
            !sound ==> choked(*old(self), old(out)@, *final(self), final(out)@),
    {
        let ghost before = self.pops();
        let ghost mut new: Seq<Pop<S>> = Seq::empty();
        let mut rounds: u64 = u64::MAX;
        let mut full: bool = true;
        proof {
            assert(before + new =~= before);
            lemma_goes_on_by_nothing(self.resampler(), out@);
        }
        while full && rounds > 0
            invariant
                computes::<S>(),
                before == old(self).pops(),
                self.handle() == old(self).handle(),
                self.captured() == old(self).captured(),
                self.wf(),
                self.pops() == before + new,
                rounds == u64::MAX - new.len(),
                forall|i: int| 0 <= i < new.len() ==> (#[trigger] new[i]).asked == POP_SCRATCH,
                forall|i: int|
                    0 <= i < new.len() - 1 ==> (#[trigger] new[i]).got.len() == POP_SCRATCH,
                full ==> new.len() > 0 ==> new.last().got.len() == POP_SCRATCH,
                !full ==> new.len() > 0 && new.last().got.len() < POP_SCRATCH,
                goes_on(old(self).resampler(), taken(new), old(out)@, self.resampler(), out@),
            decreases rounds,
        {
            let ghost mid = *self;
            let ghost out_mid = out@;
            let came = self.read_on(out);
            let ghost step = self.pops().last();
            proof {
                assert(self.pops() =~= before + new.push(step));
                assert(self.pops().skip(before.len() as int) =~= new.push(step));
                assert(new.push(step).drop_last() =~= new);
            }
            match came {
                Some(yes) => {
                    proof {
                        law_pieces_do_not_matter(
                            old(self).resampler(),
                            taken(new),
                            old(out)@,
                            mid.resampler(),
                            out_mid,
                            step.got,
                            self.resampler(),
                            out@,
                        );
                        new = new.push(step);
                    }
                    rounds = rounds - 1;
                    full = yes;
                },
                None => {
                    return false;
                },
            }
        }
        assert(self.pops().skip(before.len() as int) =~= new);
        true
    }

    /// Resample what waits in the ring and what waits for a full chunk, appending to `out`.
    /// Stops short, and says so, at a frame that cannot be resampled.
    pub fn flush_into(&mut self, out: &mut Vec<S>) -> (sound: bool)
        requires
            computes::<S>(),
            old(self).wf(),
        ensures
            final(self).wf(),
            sound ==> drained_and_flushed(*old(self), old(out)@, *final(self), final(out)@),
            !sound ==> choked(*old(self), old(out)@, *final(self), final(out)@),
    {
        if !self.drain_into(out) {
            return false;
        }
        let ghost mid = *self;
        let ghost out_mid = out@;
        let _ = self.resampler.flush(out);
        assert(drained(*old(self), old(out)@, mid, out_mid));
        true
    }

    /// Stop capturing: drops the stream.
    pub fn stop_stream(&mut self)
        ensures
            final(self).handle() == None::<H>,
            final(self).captured() == old(self).captured(),
            final(self).pops() == old(self).pops(),
            final(self).resampler() == old(self).resampler(),
            old(self).wf() ==> final(self).wf(),
    {
        self.handle = None;
    }
}

/// What a source has read is the beginning of what was captured: nothing is skipped, changed
/// or read twice.
pub proof fn law_source_reads_in_order<S: Amplitude, H>(source: SourceState<S, H>)
    requires
        source.wf(),
    ensures
        front_of(taken(source.pops()), source.captured()),
{
}

/// What a source buffers behind its ring is bounded: less than one chunk waits, and nothing
/// where frames are not resampled.
pub proof fn law_source_waits_for_a_chunk<S: Amplitude, H>(source: SourceState<S, H>)
    requires
        source.wf(),
    ensures
        source.resampler().residual().len() < CHUNK_IN,
        source.resampler().converts() || source.resampler().residual().len() == 0,
{
}

/// Which sources must be opened before the live set can match `target`: the microphone, and
/// system audio.
pub fn missing_sources(target: Source, mic_live: bool, sys_live: bool) -> (open: (bool, bool))
    ensures
        open.0 == (target.needs_mic() && !mic_live),
        open.1 == (target.needs_system() && !sys_live),
{
    (target.needs_mic() && !mic_live, target.needs_system() && !sys_live)
}

/// A source that was missing, where it could be opened; the one that is there otherwise.
pub open spec fn with_opened<P>(needed: bool, live: Option<P>, opened: Option<P>) -> Option<P> {
    if needed && live is None {
        opened
    } else {
        live
    }
}

/// The microphone and the system source once the live set was matched to `target`. What could
/// be opened is added first; then what is not needed is removed, unless it is the last.
pub open spec fn matched<P>(
    target: Source,
    mic: Option<P>,
    sys: Option<P>,
    opened_mic: Option<P>,
    opened_sys: Option<P>,
) -> (Option<P>, Option<P>) {
    let mic = with_opened(target.needs_mic(), mic, opened_mic);
    let sys = with_opened(target.needs_system(), sys, opened_sys);
    if mic is Some && sys is Some {
        (
            if target.needs_mic() { mic } else { None },
            if target.needs_system() { sys } else { None },
        )
    } else {
        (mic, sys)
    }
}

/// Open/close sources so the live set matches `target`. `opened_mic` and `opened_sys` are the
/// missing sources, as far as they could be opened. New sources are added before old ones are
/// closed, and the last remaining source is never dropped, so a failed open can't leave the
/// recording with nothing. What waits of system audio is dropped where system audio is new.
pub fn apply_source<S, P>(
    target: Source,
    mic_state: &mut Option<P>,
    sys_state: &mut Option<P>,
    opened_mic: Option<P>,
    opened_sys: Option<P>,
    sys_residual: &mut Vec<S>,
)
    ensures
        (*final(mic_state), *final(sys_state)) == matched(
            target,
            *old(mic_state),
            *old(sys_state),
            opened_mic,
            opened_sys,
        ),
        final(sys_residual)@ == if target.needs_system() && *old(sys_state) is None && opened_sys
            is Some {
            Seq::empty()
        } else {
            old(sys_residual)@
        },
{
    if target.needs_mic() && mic_state.is_none() {
        *mic_state = opened_mic;
    }
    if target.needs_system() && sys_state.is_none() {
        if opened_sys.is_some() {
            sys_residual.clear();
        }
        *sys_state = opened_sys;
    }
    if !target.needs_mic() && mic_state.is_some() && sys_state.is_some() {
        *mic_state = None;
    }
    if !target.needs_system() && sys_state.is_some() && mic_state.is_some() {
        *sys_state = None;
    }
}

/// Switching never leaves a recording that has a source with nothing, whatever could be opened.
pub proof fn law_last_source_stays<P>(
    target: Source,
    mic: Option<P>,
    sys: Option<P>,
    opened_mic: Option<P>,
    opened_sys: Option<P>,
)
    requires
        mic is Some || sys is Some,
    ensures
        ({
            let live = matched(target, mic, sys, opened_mic, opened_sys);
            live.0 is Some || live.1 is Some
        }),
{
}

/// Where everything missing could be opened, the live set is exactly what `target` needs, and
/// a source that was live and is needed stays the one it was.
pub proof fn law_live_set_matches<P>(
    target: Source,
    mic: Option<P>,
    sys: Option<P>,
    opened_mic: Option<P>,
    opened_sys: Option<P>,
)
    requires
        target.needs_mic() && mic is None ==> opened_mic is Some,
        target.needs_system() && sys is None ==> opened_sys is Some,
    ensures
        ({
            let live = matched(target, mic, sys, opened_mic, opened_sys);
            &&& live.0 is Some <==> target.needs_mic()
            &&& live.1 is Some <==> target.needs_system()
            &&& target.needs_mic() && mic is Some ==> live.0 == mic
            &&& target.needs_system() && sys is Some ==> live.1 == sys
        }),
{
}

proof fn lemma_goes_on_by_nothing<S: Amplitude>(resampler: StreamResampler<S>, out: Seq<S>)
    requires
        resampler.wf(),
    ensures
        goes_on(resampler, Seq::empty(), out, resampler, out),
{
    let log = resampler.log();
    assert(log.skip(log.len() as int) =~= Seq::<Exchange<S>>::empty());
    assert(log + log.skip(log.len() as int) =~= log);
    assert(resampler.residual() + Seq::<S>::empty() =~= resampler.residual());
    assert(resampler.residual().skip(0) =~= resampler.residual());
    assert(out + outputs(Seq::<Exchange<S>>::empty()) =~= out);
    assert(out + Seq::<S>::empty() =~= out);
}

/// Switching keeps only what is needed, unless nothing else is live; adds what is needed and
/// could be opened; leaves what is live and needed as it is; and makes up nothing.
pub proof fn law_switching_keeps_what_is_needed<P>(
    target: Source,
    mic: Option<P>,
    sys: Option<P>,
    opened_mic: Option<P>,
    opened_sys: Option<P>,
)
    ensures
        ({
            let live = matched(target, mic, sys, opened_mic, opened_sys);
            &&& target is System && live.0 is Some ==> live.1 is None
            &&& target is Mic && live.1 is Some ==> live.0 is None
            &&& !(target is System) && mic is Some ==> live.0 == mic
            &&& !(target is Mic) && sys is Some ==> live.1 == sys
            &&& !(target is System) && mic is None ==> live.0 == opened_mic
            &&& !(target is Mic) && sys is None ==> live.1 == opened_sys
            &&& target is System ==> live.0 is None || live.0 == mic
            &&& target is Mic ==> live.1 is None || live.1 == sys
        }),
{
}

} // verus!
