//! Streaming mono resampler: native capture rate (44.1/48 kHz, ...) to the output rate.
//!
//! Capture callbacks deliver arbitrary-sized chunks, but the converter wants exactly
//! [`CHUNK_IN`] input frames per call. A small residual is buffered and full chunks are fed;
//! leftover frames (less than one chunk) wait for the next call. Memory is bounded: the
//! residual is drained back below one chunk by every `process`.

use vstd::prelude::*;
use crate::buffer::{append_all, append_range, remove_front};
use crate::converter::{
    common, open_fft, rates_fit, refusal, run_fft, shape_of, tame, Exchange, FftConverter, Shape,
};
use crate::error::{joined, Error};
use crate::sample::{all_bearable, headroom, Amplitude};
use crate::timestamp::{decimal, is_number, law_decimals_read_back, number_at, padded};
use crate::vad::{fill_up, filled_up};

verus! {

/// Input frames consumed per resampler step. About 21 ms at 48 kHz: small enough to
/// keep latency low, large enough for the FFT resampler to be efficient.
pub const CHUNK_IN: usize = 1024;

/// Into how many parts the converter is asked to divide a chunk.
pub const SUB_CHUNKS: usize = 2;

/// Chunk number `k` of a stream.
pub open spec fn chunk_at<S>(stream: Seq<S>, k: int) -> Seq<S> {
    stream.subrange(k * CHUNK_IN, (k + 1) * CHUNK_IN)
}

/// What came out of these chunks, in order.
pub open spec fn outputs<S>(log: Seq<Exchange<S>>) -> Seq<S>
    decreases log.len(),
{
    if log.len() == 0 {
        Seq::empty()
    } else {
        outputs(log.drop_last()) + log.last().reply
    }
}

/// Whether `log` holds the chunks of `stream`, from the first on, in order.
pub open spec fn fed<S>(log: Seq<Exchange<S>>, stream: Seq<S>) -> bool {
    &&& log.len() * CHUNK_IN <= stream.len()
    &&& forall|j: int| 0 <= j < log.len() ==> (#[trigger] log[j]).chunk == chunk_at(stream, j)
}

/// Whether each chunk of `log` gave as many frames as a converter of this shape makes of it.
pub open spec fn in_shape<S>(shape: Shape, log: Seq<Exchange<S>>) -> bool {
    forall|j: int|
        0 <= j < log.len() ==> (#[trigger] log[j]).reply.len() == shape.made((j + 1) as nat)
            - shape.made(j as nat)
}

/// Resamples a stream that arrives in pieces of any size.
#[verifier::reject_recursive_types(S)]
pub struct StreamResampler<S> {
    // `None` means input rate already equals output rate: pass-through.
    inner: Option<FftConverter<S>>,
    residual: Vec<S>,
}

impl<S> StreamResampler<S> {
    /// Whether the rates differ, so that frames are converted and not passed through.
    pub closed spec fn converts(&self) -> bool {
        self.inner is Some
    }

    /// How the converter works, where there is one.
    pub closed spec fn shape(&self) -> Shape {
        self.inner->0.shape()
    }

    /// The frames that wait for a full chunk.
    pub closed spec fn residual(&self) -> Seq<S> {
        self.residual@
    }

    /// Every chunk that was converted so far, with what came of it.
    pub closed spec fn log(&self) -> Seq<Exchange<S>> {
        match self.inner {
            Some(converter) => converter.log(),
            None => Seq::empty(),
        }
    }

}

impl<S: Amplitude> StreamResampler<S> {
    /// Less than one chunk waits, of samples that can be converted, and nothing at all where
    /// frames pass through. Every chunk gave as many frames as it should.
    pub open spec fn wf(&self) -> bool {
        if self.converts() {
            &&& self.residual().len() < CHUNK_IN
            &&& all_bearable(self.residual())
            &&& self.shape().chunk == CHUNK_IN
            &&& in_shape(self.shape(), self.log())
        } else {
            self.residual().len() == 0
        }
    }
}

/// Whether the resampler `before` has gone on by `input`, which appended to `out`. Where it
/// converts, every whole chunk of what waited and what came in was converted, in order, and
/// the rest waits; where it does not, the input was passed on.
pub open spec fn goes_on<S>(
    before: StreamResampler<S>,
    input: Seq<S>,
    out: Seq<S>,
    after: StreamResampler<S>,
    out_after: Seq<S>,
) -> bool {
    let stream = before.residual() + input;
    let new = after.log().skip(before.log().len() as int);
    &&& after.converts() == before.converts()
    &&& after.shape() == before.shape()
    &&& if before.converts() {
        &&& after.log() == before.log() + new
        &&& new.len() == stream.len() / CHUNK_IN as nat
        &&& fed(new, stream)
        &&& after.residual() == stream.skip((new.len() * CHUNK_IN) as int)
        &&& out_after == out + outputs(new)
    } else {
        &&& after.log() == before.log()
        &&& after.residual() == before.residual()
        &&& out_after == out + input
    }
}

/// Whether the resampler `before` was flushed, which appended to `out`. What waited was filled
/// up with silence to one chunk and converted, and nothing waits any more; nothing happened
/// where nothing waited.
pub open spec fn flushed<S: Default>(
    before: StreamResampler<S>,
    out: Seq<S>,
    after: StreamResampler<S>,
    out_after: Seq<S>,
) -> bool {
    let last = after.log().last();
    &&& after.converts() == before.converts()
    &&& after.shape() == before.shape()
    &&& after.residual().len() == 0
    &&& if before.residual().len() == 0 {
        after.log() == before.log() && out_after == out
    } else {
        &&& after.log() == before.log().push(last)
        &&& filled_up(last.chunk, before.residual(), CHUNK_IN as nat)
        &&& out_after == out + last.reply
    }
}

/// Whether `e` tells that there is no resampler between these rates, and why.
pub open spec fn tells_refusal(e: Error, in_rate: u32, out_rate: u32) -> bool {
    e matches Error::Resample(why) && why@ == padded(in_rate as nat, 1) + "->"@ + padded(
        out_rate as nat,
        1,
    ) + ": "@ + refusal(in_rate, out_rate)
}

impl<S: Amplitude + rubato::Sample> StreamResampler<S> {
    /// A resampler from `in_rate` to `out_rate`, which passes frames through where they are
    /// the same.
    pub fn new(in_rate: u32, out_rate: u32) -> (r: Result<Self, Error>)
        requires
            in_rate != out_rate ==> rates_fit(in_rate, out_rate),
        ensures
            r is Ok <==> in_rate == out_rate || (in_rate > 0 && out_rate > 0),
            match r {
                Ok(resampler) => {
                    &&& resampler.wf()
                    &&& resampler.converts() <==> in_rate != out_rate
                    &&& resampler.converts() ==> resampler.shape() == shape_of(
                        in_rate as nat,
                        out_rate as nat,
                        CHUNK_IN as nat,
                        SUB_CHUNKS as nat,
                    )
                    &&& resampler.residual() == Seq::<S>::empty()
                    &&& resampler.log() == Seq::<Exchange<S>>::empty()
                },
                Err(e) => tells_refusal(e, in_rate, out_rate),
            },
    {
        if in_rate == out_rate {
            return Ok(StreamResampler { inner: None, residual: Vec::new() });
        }
        match open_fft::<S>(in_rate, out_rate, CHUNK_IN, SUB_CHUNKS) {
            Ok(converter) => Ok(
                StreamResampler { inner: Some(converter), residual: Vec::new() },
            ),
            Err(reason) => {
                let rates = decimal(in_rate as u64).concat("->").concat(
                    decimal(out_rate as u64).as_str(),
                ).concat(": ");
                Err(Error::Resample(joined(rates.as_str(), reason.as_str())))
            },
        }
    }

    /// Whether frames are converted and not passed through.
    pub fn is_converting(&self) -> (converts: bool)
        ensures
            converts == self.converts(),
    {
        self.inner.is_some()
    }

    /// Resample `input` (native-rate mono), appending output-rate mono frames to `out`. Where
    /// frames are converted, every sample has headroom for the transform.
    pub fn process(&mut self, input: &[S], out: &mut Vec<S>) -> (r: Result<(), Error>)
        requires
            old(self).wf(),
            old(self).converts() ==> all_bearable(input@),
        ensures
            r is Ok,
            final(self).wf(),
            goes_on(*old(self), input@, old(out)@, *final(self), final(out)@),
    {
        if self.inner.is_none() {
            append_all(out, input);
            return Ok(());
        }
        append_all(&mut self.residual, input);
        let ghost stream = self.residual@;
        let ghost before = self.log();
        let ghost mut new: Seq<Exchange<S>> = Seq::empty();
        proof {
            assert(before + new =~= before);
            assert(stream.skip(0) =~= stream);
            assert(out@ =~= old(out)@ + outputs(new));
            assert forall|i: int| 0 <= i < stream.len() implies headroom(
                #[trigger] stream[i],
                true,
            ) by {
                if i < old(self).residual@.len() {
                    assert(headroom(old(self).residual()[i], true));
                } else {
                    assert(headroom(input@[i - old(self).residual@.len()], true));
                }
            }
        }
        while self.residual.len() >= CHUNK_IN
            invariant
                old(self).inner is Some,
                self.inner is Some,
                self.inner->0.shape() == old(self).shape(),
                self.inner->0.shape().chunk == CHUNK_IN,
                before == old(self).log(),
                stream == old(self).residual@ + input@,
                all_bearable(stream),
                self.log() == before + new,
                in_shape(self.inner->0.shape(), self.log()),
                fed(new, stream),
                self.residual@ == stream.skip((new.len() * CHUNK_IN) as int),
                out@ == old(out)@ + outputs(new),
            decreases self.residual.len(),
        {
            let mut chunk: Vec<S> = Vec::new();
            append_range(&mut chunk, self.residual.as_slice(), 0, CHUNK_IN);
            let ghost log = self.log();
            assert(chunk@ =~= chunk_at(stream, new.len() as int));
            assert forall|i: int| 0 <= i < chunk@.len() implies tame(#[trigger] chunk@[i]) by {
                assert(headroom(stream[new.len() * CHUNK_IN + i], true));
            }
            let reply = match self.inner.as_mut() {
                Some(converter) => run_fft(converter, chunk.as_slice()),
                None => Ok(Vec::new()),
            };
            match reply {
                Ok(frames) => {
                    proof {
                        let step = Exchange { chunk: chunk@, reply: frames@ };
                        assert(self.log() == log.push(step));
                        assert(log.push(step) =~= before + new.push(step));
                        assert(new.push(step).drop_last() =~= new);
                        new = new.push(step);
                    }
                    append_all(out, frames.as_slice());
                    remove_front(&mut self.residual, CHUNK_IN);
                    assert(self.residual@ =~= stream.skip((new.len() * CHUNK_IN) as int));
                    assert(out@ =~= old(out)@ + outputs(new));
                },
                Err(reason) => {
                    return Err(Error::Resample(reason));
                },
            }
        }
        proof {
            assert forall|i: int| 0 <= i < self.residual().len() implies headroom(
                #[trigger] self.residual()[i],
                true,
            ) by {
                assert(headroom(stream[new.len() * CHUNK_IN + i], true));
            }
            assert(self.log().skip(before.len() as int) =~= new);
            vstd::arithmetic::div_mod::lemma_fundamental_div_mod_converse(
                stream.len() as int,
                CHUNK_IN as int,
                new.len() as int,
                self.residual@.len() as int,
            );
        }
        Ok(())
    }

    /// Flush the tail (less than one chunk) at stop time by filling it up with silence to a
    /// full chunk. A few milliseconds of trailing silence is acceptable and avoids dropping
    /// the very end of speech.
    pub fn flush(&mut self, out: &mut Vec<S>) -> (r: Result<(), Error>)
        requires
            old(self).wf(),
        ensures
            r is Ok,
            final(self).wf(),
            flushed(*old(self), old(out)@, *final(self), final(out)@),
    {
        if self.inner.is_none() {
            return Ok(());
        }
        if self.residual.len() == 0 {
            return Ok(());
        }
        let ghost log = self.log();
        fill_up(&mut self.residual, CHUNK_IN);
        assert forall|i: int| 0 <= i < self.residual@.len() implies tame(
            #[trigger] self.residual@[i],
        ) by {
            if i < old(self).residual@.len() {
                assert(self.residual@.take(old(self).residual@.len() as int)[i] == old(
                    self,
                ).residual()[i]);
                assert(headroom(old(self).residual()[i], true));
            }
        }
        let reply = match self.inner.as_mut() {
            Some(converter) => run_fft(converter, self.residual.as_slice()),
            None => Ok(Vec::new()),
        };
        match reply {
            Ok(frames) => {
                append_all(out, frames.as_slice());
                self.residual.clear();
                assert(self.log() == log.push(self.log().last()));
                Ok(())
            },
            Err(reason) => Err(Error::Resample(reason)),
        }
    }
}

/// The frames of these chunks, in order.
pub open spec fn consumed<S>(log: Seq<Exchange<S>>) -> Seq<S>
    decreases log.len(),
{
    if log.len() == 0 {
        Seq::empty()
    } else {
        consumed(log.drop_last()) + log.last().chunk
    }
}

/// No frame is lost, changed or converted twice: the chunks and what waits, one after the
/// other, are what waited before and what came in.
pub proof fn law_resampling_loses_no_input<S>(
    before: StreamResampler<S>,
    input: Seq<S>,
    out: Seq<S>,
    after: StreamResampler<S>,
    out_after: Seq<S>,
)
    requires
        before.converts(),
        goes_on(before, input, out, after, out_after),
    ensures
        consumed(after.log().skip(before.log().len() as int)) + after.residual()
            == before.residual() + input,
{
    let stream = before.residual() + input;
    let new = after.log().skip(before.log().len() as int);
    lemma_consumed(new, stream);
    let k = (new.len() * CHUNK_IN) as int;
    assert(stream.take(k) + stream.skip(k) =~= stream);
}

proof fn lemma_consumed<S>(log: Seq<Exchange<S>>, stream: Seq<S>)
    requires
        fed(log, stream),
    ensures
        consumed(log) == stream.take((log.len() * CHUNK_IN) as int),
    decreases log.len(),
{
    if log.len() == 0 {
        assert(stream.take(0) =~= Seq::<S>::empty());
    } else {
        let shorter = log.drop_last();
        assert forall|j: int| 0 <= j < shorter.len() implies (#[trigger] shorter[j]).chunk
            == chunk_at(stream, j) by {
            assert(log[j].chunk == shorter[j].chunk);
        }
        lemma_consumed(shorter, stream);
        let k = shorter.len() as int;
        assert(log[k].chunk == chunk_at(stream, k));
        assert(stream.take((k + 1) * CHUNK_IN) =~= stream.take(k * CHUNK_IN) + chunk_at(
            stream,
            k,
        ));
    }
}

pub(crate) proof fn lemma_outputs_joined<S>(a: Seq<Exchange<S>>, b: Seq<Exchange<S>>)
    ensures
        outputs(a + b) == outputs(a) + outputs(b),
    decreases b.len(),
{
    if b.len() == 0 {
        assert(a + b =~= a);
        assert(outputs(a) + Seq::<S>::empty() =~= outputs(a));
    } else {
        lemma_outputs_joined(a, b.drop_last());
        assert((a + b).drop_last() =~= a + b.drop_last());
        assert(outputs(a) + (outputs(b.drop_last()) + b.last().reply) =~= (outputs(a) + outputs(
            b.drop_last(),
        )) + b.last().reply);
    }
}

/// Chunks of the front of a stream and then chunks of what is left of it are chunks of the
/// stream.
proof fn lemma_fed_joined<S>(
    a: Seq<Exchange<S>>,
    front: Seq<S>,
    b: Seq<Exchange<S>>,
    stream: Seq<S>,
)
    requires
        fed(a, front),
        front.len() <= stream.len(),
        front == stream.take(front.len() as int),
        fed(b, stream.skip((a.len() * CHUNK_IN) as int)),
    ensures
        fed(a + b, stream),
{
    let k = a.len() as int;
    let left = stream.skip(k * CHUNK_IN);
    assert forall|j: int| 0 <= j < (a + b).len() implies (#[trigger] (a + b)[j]).chunk == chunk_at(
        stream,
        j,
    ) by {
        if j < k {
            assert(a[j].chunk == chunk_at(front, j));
            assert(chunk_at(stream, j) =~= chunk_at(front, j));
        } else {
            assert(b[j - k].chunk == chunk_at(left, j - k));
            assert(chunk_at(stream, j) =~= chunk_at(left, j - k));
        }
    }
}

/// As many chunks as there are in the front of a stream and then in what is left of it are as
/// many as there are in the stream.
proof fn lemma_chunks_joined(k1: nat, k2: nat, front: nat, more: nat)
    requires
        k1 == front / CHUNK_IN as nat,
        k2 == ((front - k1 * CHUNK_IN) as nat + more) / CHUNK_IN as nat,
    ensures
        k1 + k2 == (front + more) / CHUNK_IN as nat,
{
}

/// What waits once both pieces came in, where `joined` is what waited and both of them.
proof fn lemma_rest_joined<S>(joined: Seq<S>, k1: int, k2: int)
    requires
        0 <= k1,
        0 <= k2,
        (k1 + k2) * CHUNK_IN <= joined.len(),
    ensures
        joined.skip(k1 * CHUNK_IN).skip(k2 * CHUNK_IN) == joined.skip((k1 + k2) * CHUNK_IN),
{
    assert(joined.skip(k1 * CHUNK_IN).skip(k2 * CHUNK_IN) =~= joined.skip((k1 + k2) * CHUNK_IN));
}

/// It does not matter in which pieces a stream arrives: going on by one piece and then by
/// another is going on by both at once.
#[verifier::spinoff_prover]
pub proof fn law_pieces_do_not_matter<S>(
    before: StreamResampler<S>,
    first: Seq<S>,
    out: Seq<S>,
    mid: StreamResampler<S>,
    out_mid: Seq<S>,
    second: Seq<S>,
    after: StreamResampler<S>,
    out_after: Seq<S>,
)
    requires
        goes_on(before, first, out, mid, out_mid),
        goes_on(mid, second, out_mid, after, out_after),
    ensures
        goes_on(before, first + second, out, after, out_after),
{
    if before.converts() {
        let front = before.residual() + first;
        let stream = before.residual() + (first + second);
        let a = mid.log().skip(before.log().len() as int);
        let b = after.log().skip(mid.log().len() as int);
        assert(after.log().skip(before.log().len() as int) =~= a + b);
        assert(after.log() =~= before.log() + (a + b));
        assert(front =~= stream.take(front.len() as int));
        assert(mid.residual() + second =~= stream.skip((a.len() * CHUNK_IN) as int));
        lemma_fed_joined(a, front, b, stream);
        lemma_chunks_joined(a.len(), b.len(), front.len(), second.len());
        lemma_rest_joined(stream, a.len() as int, b.len() as int);
        lemma_outputs_joined(a, b);
        assert((out + outputs(a)) + outputs(b) =~= out + (outputs(a) + outputs(b)));
    } else {
        assert((out + first) + second =~= out + (first + second));
    }
}

/// Flushing adds what came of one more chunk, if any frame waited: the outputs since an earlier
/// time are those up to the flush and, where a frame waited, those of the last chunk.
pub(crate) proof fn lemma_flushing_adds_its_chunk<S>(
    earlier: StreamResampler<S>,
    before: StreamResampler<S>,
    after: StreamResampler<S>,
)
    requires
        earlier.log().len() <= before.log().len(),
        after.log() == before.log() || after.log() == before.log().push(after.log().last()),
    ensures
        outputs(after.log().skip(earlier.log().len() as int)) == outputs(
            before.log().skip(earlier.log().len() as int),
        ) + if after.log() == before.log() {
            Seq::empty()
        } else {
            after.log().last().reply
        },
{
    let n = earlier.log().len() as int;
    if after.log() == before.log() {
        assert(outputs(before.log().skip(n)) + Seq::<S>::empty() =~= outputs(
            before.log().skip(n),
        ));
    } else {
        assert(after.log().skip(n).drop_last() =~= before.log().skip(n));
        assert(after.log().skip(n).last() == after.log().last());
    }
}

/// What divides evenly: a common divisor divides both numbers.
proof fn lemma_common_divides(a: nat, b: nat)
    requires
        a > 0 || b > 0,
    ensures
        common(a, b) > 0,
        a % common(a, b) == 0,
        b % common(a, b) == 0,
    decreases b,
{
    if b > 0 {
        lemma_common_divides(b, a % b);
        crate::converter::lemma_step_divisor(a as int, b as int, common(b, a % b) as int);
    } else {
        assert(a % a == 0) by (nonlinear_arith)
            requires
                a > 0,
        ;
    }
}

/// A block lasts equally long at both rates, and is not empty.
proof fn lemma_blocks_last_equally(in_rate: nat, out_rate: nat)
    requires
        in_rate > 0,
        out_rate > 0,
    ensures
        ({
            let shape = shape_of(in_rate, out_rate, CHUNK_IN as nat, SUB_CHUNKS as nat);
            shape.block_in > 0 && shape.block_out > 0 && shape.block_in * out_rate
                == shape.block_out * in_rate
        }),
{
    let g = common(in_rate, out_rate);
    lemma_common_divides(in_rate, out_rate);
    let ui = in_rate / g;
    let uo = out_rate / g;
    let m = (CHUNK_IN as nat / SUB_CHUNKS as nat + ui - 1) as nat / ui;
    vstd::arithmetic::div_mod::lemma_fundamental_div_mod(in_rate as int, g as int);
    vstd::arithmetic::div_mod::lemma_fundamental_div_mod(out_rate as int, g as int);
    assert(ui > 0 && uo > 0) by (nonlinear_arith)
        requires
            in_rate == g * ui,
            out_rate == g * uo,
            in_rate > 0,
            out_rate > 0,
    ;
    assert(m > 0) by {
        vstd::arithmetic::div_mod::lemma_div_is_ordered(ui as int, 512 + ui - 1, ui as int);
        vstd::arithmetic::div_mod::lemma_div_by_self(ui as int);
    }
    assert(m * ui > 0 && m * uo > 0) by (nonlinear_arith)
        requires
            m > 0,
            ui > 0,
            uo > 0,
    ;
    assert((m * ui) * out_rate == (m * uo) * in_rate) by (nonlinear_arith)
        requires
            in_rate == g * ui,
            out_rate == g * uo,
    ;
}

proof fn lemma_outputs_length<S>(shape: Shape, log: Seq<Exchange<S>>)
    requires
        shape.block_in > 0,
        in_shape(shape, log),
    ensures
        outputs(log).len() == shape.made(log.len()),
    decreases log.len(),
{
    if log.len() == 0 {
        assert(0nat * shape.chunk / shape.block_in * shape.block_out == 0) by (nonlinear_arith)
            requires
                shape.block_in > 0,
        ;
    } else {
        let shorter = log.drop_last();
        assert forall|j: int| 0 <= j < shorter.len() implies (#[trigger] shorter[j]).reply.len()
            == shape.made((j + 1) as nat) - shape.made(j as nat) by {
            assert(log[j].reply == shorter[j].reply);
        }
        lemma_outputs_length(shape, shorter);
        assert(log[log.len() - 1].reply.len() == shape.made(log.len()) - shape.made(
            (log.len() - 1) as nat,
        ));
    }
}

/// What comes out lasts as long as what went in, but for what still fills a block: of frames
/// that came in at `in_rate`, as many have come out as there are at `out_rate` in the same
/// time, less than one block of them missing.
pub proof fn law_output_keeps_time<S: Amplitude>(
    resampler: StreamResampler<S>,
    in_rate: u32,
    out_rate: u32,
)
    requires
        resampler.wf(),
        resampler.converts(),
        in_rate > 0,
        out_rate > 0,
        resampler.shape() == shape_of(
            in_rate as nat,
            out_rate as nat,
            CHUNK_IN as nat,
            SUB_CHUNKS as nat,
        ),
    ensures
        ({
            let came_in = resampler.log().len() * CHUNK_IN;
            let came_out = outputs(resampler.log()).len();
            &&& came_out * in_rate <= came_in * out_rate
            &&& came_in * out_rate < (came_out + resampler.shape().block_out) * in_rate
        }),
{
    let shape = resampler.shape();
    let n = resampler.log().len();
    lemma_blocks_last_equally(in_rate as nat, out_rate as nat);
    lemma_outputs_length(shape, resampler.log());
    let total = n * CHUNK_IN as nat;
    let blocks = total / shape.block_in;
    let rest = total % shape.block_in;
    vstd::arithmetic::div_mod::lemma_fundamental_div_mod(total as int, shape.block_in as int);
    let (bi, bo, i, o) = (
        shape.block_in as int,
        shape.block_out as int,
        in_rate as int,
        out_rate as int,
    );
    assert((blocks * bo) * i <= total * o && total * o < (blocks * bo + bo) * i)
        by (nonlinear_arith)
        requires
            total == bi * blocks + rest,
            0 <= rest < bi,
            bi * o == bo * i,
            o > 0,
    ;
}

/// Frames pass through unchanged where the rates are the same.
pub proof fn law_same_rate_passes_through<S>(
    before: StreamResampler<S>,
    input: Seq<S>,
    out: Seq<S>,
    after: StreamResampler<S>,
    out_after: Seq<S>,
)
    requires
        !before.converts(),
        goes_on(before, input, out, after, out_after),
    ensures
        out_after == out + input,
        !after.converts(),
{
}

/// Flushing loses no frame either: what is converted then begins with all that waited, in order,
/// and is silence from there on to the end of one chunk. What comes out is appended.
pub proof fn law_flushing_loses_no_input<S: Default>(
    before: StreamResampler<S>,
    out: Seq<S>,
    after: StreamResampler<S>,
    out_after: Seq<S>,
)
    requires
        before.residual().len() < CHUNK_IN,
        flushed(before, out, after, out_after),
    ensures
        ({
            let new = after.log().skip(before.log().len() as int);
            let waited = before.residual();
            &&& after.residual().len() == 0
            &&& consumed(new).len() == if waited.len() == 0 { 0 } else { CHUNK_IN as int }
            &&& consumed(new).take(waited.len() as int) == waited
            &&& forall|i: int|
                waited.len() <= i < consumed(new).len() ==> crate::mix::is_silence(
                    #[trigger] consumed(new)[i],
                )
            &&& out_after == out + outputs(new)
        }),
{
    let new = after.log().skip(before.log().len() as int);
    let waited = before.residual();
    if waited.len() == 0 {
        assert(new =~= Seq::<Exchange<S>>::empty());
        assert(consumed(new).take(0) =~= waited);
        assert(out + outputs(new) =~= out);
    } else {
        let last = after.log().last();
        assert(new =~= seq![last]);
        assert(new.drop_last() =~= Seq::<Exchange<S>>::empty());
        assert(consumed(new.drop_last()) =~= Seq::<S>::empty());
        assert(outputs(new.drop_last()) =~= Seq::<S>::empty());
        assert(consumed(new) =~= last.chunk);
        assert(outputs(new) =~= last.reply);
    }
}

/// Whether `text` begins with two numbers and marks, as in "48000->16000:", that read so; the
/// first takes `a` digits, and the second ends at place `b`.
pub open spec fn tells_rates(text: Seq<char>, a: int, b: int, in_rate: u32, out_rate: u32) -> bool {
    &&& 0 < a < a + 2 < b < text.len()
    &&& is_number(text.subrange(0, a)) && number_at(text, 0, a) == in_rate
    &&& text[a] == '-' && text[a + 1] == '>'
    &&& is_number(text.subrange(a + 2, b)) && number_at(text, a + 2, b) == out_rate
    &&& text[b] == ':'
}

/// The error for rates between which there is no resampler tells both.
pub proof fn law_refused_rates_are_told(e: Error, in_rate: u32, out_rate: u32)
    requires
        tells_refusal(e, in_rate, out_rate),
    ensures
        e is Resample,
        exists|a: int, b: int| tells_rates(e->Resample_0@, a, b, in_rate, out_rate),
{
    reveal_strlit("->");
    reveal_strlit(": ");
    let (x, y) = (padded(in_rate as nat, 1), padded(out_rate as nat, 1));
    let text = e->Resample_0@;
    law_decimals_read_back(in_rate as nat, 1);
    law_decimals_read_back(out_rate as nat, 1);
    let a = x.len() as int;
    let b = a + 2 + y.len();
    assert(text.subrange(0, a) =~= x);
    assert(text.subrange(a + 2, b) =~= y);
    assert(tells_rates(text, a, b, in_rate, out_rate));
}

} // verus!
