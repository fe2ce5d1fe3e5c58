//! Sample-rate conversion of one fixed-size chunk at a time.

use vstd::prelude::*;
use rubato::Resampler;
use crate::mix::is_silence;
use crate::sample::{headroom, Amplitude};
use crate::timestamp::padded;

verus! {

/// One chunk handed to a converter, and the frames that came of it.
#[verifier::ext_equal]
pub struct Exchange<S> {
    pub chunk: Seq<S>,
    pub reply: Seq<S>,
}

/// The FFT resampler with a fixed number of input frames.
#[verifier::external_type_specification]
#[verifier::external_body]
#[verifier::reject_recursive_types(T)]
pub struct ExFftFixedIn<T>(rubato::FftFixedIn<T>);

/// 2 to the power of 24, up to which single precision tells whole numbers apart: the greatest
/// number of input frames, after dividing both rates by a common divisor, that a converter
/// turns into a whole number of output frames.
pub const MAX_UNIT: u32 = 16_777_216;

/// The greatest chunk a converter takes.
pub const MAX_CHUNK: usize = 1024;

/// Whether a converter can count the frames of these rates: it does so in single precision,
/// which is exact only up to a limit, and in machine words.
pub open spec fn rates_fit(in_rate: u32, out_rate: u32) -> bool {
    &&& in_rate * MAX_CHUNK <= usize::MAX
    &&& out_rate * MAX_CHUNK <= usize::MAX
    &&& exists|g: u32|
        g > 0 && in_rate % g == 0 && out_rate % g == 0 && #[trigger] (in_rate / g) <= MAX_UNIT
}

/// The greatest common divisor.
pub open spec fn common(a: nat, b: nat) -> nat
    decreases b,
{
    if b == 0 {
        a
    } else {
        common(b, a % b)
    }
}

/// How a converter works: it takes `chunk` frames at a time, saves them up, and turns each
/// `block_in` of them into `block_out`.
pub struct Shape {
    pub chunk: nat,
    pub block_in: nat,
    pub block_out: nat,
}

impl Shape {
    /// How many frames have come out after `n` chunks.
    pub open spec fn made(self, n: nat) -> nat {
        n * self.chunk / self.block_in * self.block_out
    }
}

/// The shape of a converter of these rates: a block is the least number of frames, of those
/// that last equally long at both rates, that fills one of `sub_chunks` parts of a chunk.
pub open spec fn shape_of(in_rate: nat, out_rate: nat, chunk: nat, sub_chunks: nat) -> Shape {
    let g = common(in_rate, out_rate);
    let unit_in = in_rate / g;
    let unit_out = out_rate / g;
    let units = (chunk / sub_chunks + unit_in - 1) as nat / unit_in;
    Shape { chunk, block_in: units * unit_in, block_out: units * unit_out }
}

fn gcd(a: u32, b: u32) -> (g: u32)
    requires
        a > 0 || b > 0,
    ensures
        g > 0,
        a % g == 0,
        b % g == 0,
        forall|d: u32| d > 0 && #[trigger] (a % d) == 0 && b % d == 0 ==> d <= g,
    decreases b,
{
    if b == 0 {
        assert forall|d: u32| d > 0 && #[trigger] (a % d) == 0 implies d <= a by {
            if d > a {
                vstd::arithmetic::div_mod::lemma_small_mod(a as nat, d as nat);
            }
        }
        a
    } else {
        let g = gcd(b, a % b);
        proof {
            lemma_step_divisor(a as int, b as int, g as int);
            assert forall|d: u32| d > 0 && #[trigger] (a % d) == 0 && b % d == 0 implies d
                <= g by {
                lemma_step_remainder(a as int, b as int, d as int);
                assert(b % d == 0);
            }
        }
        g
    }
}

/// What divides `b` and the remainder of `a` by `b` divides `a`.
pub(crate) proof fn lemma_step_divisor(a: int, b: int, d: int)
    requires
        a >= 0,
        b > 0,
        d > 0,
        b % d == 0,
        (a % b) % d == 0,
    ensures
        a % d == 0,
{
    let q = a / b;
    let m = b / d;
    let n = (a % b) / d;
    vstd::arithmetic::div_mod::lemma_fundamental_div_mod(a, b);
    vstd::arithmetic::div_mod::lemma_fundamental_div_mod(b, d);
    vstd::arithmetic::div_mod::lemma_fundamental_div_mod(a % b, d);
    assert(a == (m * q + n) * d) by (nonlinear_arith)
        requires
            a == b * q + a % b,
            b == d * m,
            a % b == d * n,
    ;
    vstd::arithmetic::div_mod::lemma_mod_multiples_basic(m * q + n, d);
}

/// What divides `a` and `b` divides the remainder of `a` by `b`.
proof fn lemma_step_remainder(a: int, b: int, d: int)
    requires
        a >= 0,
        b > 0,
        d > 0,
        a % d == 0,
        b % d == 0,
    ensures
        (a % b) % d == 0,
{
    let q = a / b;
    let m = b / d;
    let n = a / d;
    vstd::arithmetic::div_mod::lemma_fundamental_div_mod(a, b);
    vstd::arithmetic::div_mod::lemma_fundamental_div_mod(b, d);
    vstd::arithmetic::div_mod::lemma_fundamental_div_mod(a, d);
    assert(a % b == (n - m * q) * d) by (nonlinear_arith)
        requires
            a == b * q + a % b,
            b == d * m,
            a == d * n,
    ;
    vstd::arithmetic::div_mod::lemma_mod_multiples_basic(n - m * q, d);
}

/// Whether a converter can count the frames of these rates.
pub fn check_rates(in_rate: u32, out_rate: u32) -> (fit: bool)
    ensures
        fit == rates_fit(in_rate, out_rate),
{
    let chunk: u64 = MAX_CHUNK as u64;
    if in_rate as u64 * chunk > usize::MAX as u64 || out_rate as u64 * chunk > usize::MAX as u64 {
        return false;
    }
    if in_rate == 0 {
        assert(0u32 % 1u32 == 0 && out_rate % 1 == 0 && (in_rate / 1u32) <= MAX_UNIT);
        return true;
    }
    let g = gcd(in_rate, out_rate);
    let fit: bool = in_rate / g <= MAX_UNIT;
    proof {
        if !fit {
            assert forall|d: u32|
                d > 0 && in_rate % d == 0 && out_rate % d == 0 implies #[trigger] (in_rate / d)
                > MAX_UNIT by {
                assert(d <= g);
                vstd::arithmetic::div_mod::lemma_div_is_ordered_by_denominator(
                    in_rate as int,
                    d as int,
                    g as int,
                );
            }
        }
    }
    fit
}

/// Converts a stream of mono frames from one rate to another, chunk by chunk. It keeps state
/// from chunk to chunk, so what it replies depends on all that it was handed.
#[verifier::reject_recursive_types(S)]
pub struct FftConverter<S> {
    inner: rubato::FftFixedIn<S>,
    shape: Ghost<Shape>,
    log: Ghost<Seq<Exchange<S>>>,
}

impl<S> FftConverter<S> {
    /// How this converter works.
    pub closed spec fn shape(&self) -> Shape {
        self.shape@
    }

    /// Everything this converter was handed and replied, oldest first.
    pub closed spec fn log(&self) -> Seq<Exchange<S>> {
        self.log@
    }
}

/// The text of the error for rates of which one is zero.
pub open spec fn refusal(in_rate: u32, out_rate: u32) -> Seq<char> {
    "Input and output sample rates must both be > 0. Provided input: "@ + padded(
        in_rate as nat,
        1,
    ) + ", provided output: "@ + padded(out_rate as nat, 1)
}

/// Calls `rubato::FftFixedIn::new` for a converter of one channel that takes `chunk` frames at
/// a time, worked on in `sub_chunks` pieces. It fails where a rate is zero and on nothing
/// else, and the text of its error says so. The blocks a converter works on follow from the
/// rates, and a new one has been handed nothing.
#[verifier::external_body]
pub(crate) fn open_fft<S: rubato::Sample>(
    in_rate: u32,
    out_rate: u32,
    chunk: usize,
    sub_chunks: usize,
) -> (r: Result<FftConverter<S>, String>)
    requires
        0 < sub_chunks <= chunk <= MAX_CHUNK,
        rates_fit(in_rate, out_rate),
    ensures
        r is Ok <==> (in_rate > 0 && out_rate > 0),
        r is Ok ==> r->Ok_0.log() == Seq::<Exchange<S>>::empty(),
        r is Ok ==> r->Ok_0.shape() == shape_of(
            in_rate as nat,
            out_rate as nat,
            chunk as nat,
            sub_chunks as nat,
        ),
        r is Err ==> r->Err_0@ == refusal(in_rate, out_rate),
{
    let (from, to) = (in_rate as usize, out_rate as usize);
    let opened = rubato::FftFixedIn::<S>::new(from, to, chunk, sub_chunks, 1);
    let inner = opened.map_err(|e| e.to_string())?;
    Ok(FftConverter { inner, shape: Ghost(arbitrary()), log: Ghost(Seq::empty()) })
}

/// Whether the transform can take a sample: silence, or one with headroom.
pub open spec fn tame<S: Amplitude>(x: S) -> bool {
    headroom(x, true) || is_silence(x)
}

/// Calls `process_into_buffer` of `rubato::FftFixedIn` with an output buffer of the size it
/// asks for, and keeps the part that was written. It succeeds on every chunk of the
/// converter's length whose samples are tame, and writes the frames of the blocks that the
/// chunk completes. The transform panics where a sum that it forms is no finite number, and no
/// sum that it forms of a chunk outgrows the headroom of the samples; which chunks beyond
/// that it would bear is left unsaid, for it hangs on the order in which it adds. The log
/// takes down the chunk and the frames. What the frames are is left unsaid: they come out of a
/// Fourier transform in floating point.
#[verifier::external_body]
pub(crate) fn run_fft<S: Amplitude + rubato::Sample>(
    converter: &mut FftConverter<S>,
    chunk: &[S],
) -> (r: Result<Vec<S>, String>)
    requires
        chunk@.len() == old(converter).shape().chunk,
        forall|i: int| 0 <= i < chunk@.len() ==> tame(#[trigger] chunk@[i]),
    ensures
        final(converter).shape() == old(converter).shape(),
        r is Ok,
        r->Ok_0@.len() == old(converter).shape().made(old(converter).log().len() + 1) - old(
            converter,
        ).shape().made(old(converter).log().len()),
        final(converter).log() == old(converter).log().push(
            (Exchange { chunk: chunk@, reply: r->Ok_0@ }),
        ),
{
    let mut out = vec![vec![S::zero(); converter.inner.output_frames_max()]];
    let done = converter.inner.process_into_buffer(&[chunk], &mut out, None);
    let (_, made) = done.map_err(|e| e.to_string())?;
    out[0].truncate(made);
    Ok(out.remove(0))
}

/// A converter can be had between any two rates up to four million frames in a second.
pub proof fn law_usual_rates_fit(in_rate: u32, out_rate: u32)
    requires
        in_rate <= 4_000_000,
        out_rate <= 4_000_000,
    ensures
        rates_fit(in_rate, out_rate),
{
    let g: u32 = 1;
    assert(in_rate % g == 0 && out_rate % g == 0 && (in_rate / g) <= MAX_UNIT);
}

/// What `common` gives divides both numbers, and no greater number does.
pub proof fn law_common_divisor_is_the_greatest(a: nat, b: nat, d: nat)
    requires
        a > 0 || b > 0,
        d > 0,
        a % d == 0,
        b % d == 0,
    ensures
        common(a, b) > 0,
        a % common(a, b) == 0,
        b % common(a, b) == 0,
        d <= common(a, b),
    decreases b,
{
    if b > 0 {
        lemma_step_remainder(a as int, b as int, d as int);
        law_common_divisor_is_the_greatest(b, a % b, d);
        lemma_step_divisor(a as int, b as int, common(b, a % b) as int);
    } else {
        vstd::arithmetic::div_mod::lemma_mod_self_0(a as int);
        if d > a {
            vstd::arithmetic::div_mod::lemma_small_mod(a, d);
        }
        vstd::arithmetic::div_mod::lemma_small_mod(0, a);
    }
}

} // verus!
