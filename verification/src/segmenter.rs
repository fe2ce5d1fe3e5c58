//! Splits a continuous mono stream into segments of a fixed length.
//!
//! Memory: what is buffered is always less than one segment.

use vstd::prelude::*;
use crate::buffer::append_range;

verus! {

/// The samples of each list in turn.
pub open spec fn flattened<S>(lists: Seq<Seq<S>>) -> Seq<S>
    decreases lists.len(),
{
    if lists.len() == 0 {
        Seq::empty()
    } else {
        flattened(lists.drop_last()) + lists.last()
    }
}

/// The full segments that `stream` holds when it is cut every `len` samples.
pub open spec fn cut<S>(stream: Seq<S>, len: nat) -> Seq<Seq<S>> {
    Seq::new(stream.len() / len, |i: int| stream.subrange(i * len, (i + 1) * len))
}

/// What is left of `stream` after its full segments of `len` samples.
pub open spec fn rest<S>(stream: Seq<S>, len: nat) -> Seq<S> {
    stream.skip((stream.len() / len * len) as int)
}

/// The samples in each of `lists`.
pub open spec fn contents<S>(lists: Seq<Vec<S>>) -> Seq<Seq<S>> {
    lists.map_values(|list: Vec<S>| list@)
}

/// Cuts a stream of samples into segments.
pub struct Segmenter<S> {
    buf: Vec<S>,
    segment_samples: usize,
}

impl<S> Segmenter<S> {
    /// What has arrived since the last full segment.
    pub closed spec fn pending(&self) -> Seq<S> {
        self.buf@
    }

    /// The length of a full segment.
    pub closed spec fn full_length(&self) -> nat {
        self.segment_samples as nat
    }

    /// What is buffered never makes a full segment.
    pub open spec fn wf(&self) -> bool {
        self.pending().len() == 0 || self.pending().len() < self.full_length()
    }
}

impl<S: Copy> Segmenter<S> {
    /// A segmenter for segments of `segment_samples` samples, with nothing buffered.
    pub fn new(segment_samples: usize) -> (segmenter: Self)
        ensures
            segmenter.wf(),
            segmenter.pending() == Seq::<S>::empty(),
            segmenter.full_length() == segment_samples,
    {
        Segmenter { buf: Vec::new(), segment_samples }
    }

    /// Append `input` and take out every segment that it completes, oldest first. What
    /// remains stays buffered.
    pub fn push(&mut self, input: &[S]) -> (segments: Vec<Vec<S>>)
        requires
            old(self).wf(),
            old(self).full_length() > 0,
        ensures
            final(self).wf(),
            final(self).full_length() == old(self).full_length(),
            contents(segments@) == cut(old(self).pending() + input@, old(self).full_length()),
            final(self).pending() == rest(old(self).pending() + input@, old(self).full_length()),
    {
        let mut segments: Vec<Vec<S>> = Vec::new();
        let mut idx: usize = 0;
        let ghost before = self.buf@;
        let ghost stream = before + input@;
        let ghost len = self.segment_samples as int;
        assert(0 * len == 0);
        assert(self.buf@ =~= stream.subrange(0, before.len() as int));
        while idx < input.len()
            invariant
                idx <= input@.len(),
                len == self.segment_samples > 0,
                stream == before + input@,
                before.len() < len,
                self.buf@.len() < len,
                self.buf@.len() + segments@.len() * len == before.len() + idx,
                self.buf@ == stream.subrange(segments@.len() * len, before.len() + idx),
                forall|i: int|
                    0 <= i < segments@.len() ==> (#[trigger] segments@[i])@ == stream.subrange(
                        i * len,
                        (i + 1) * len,
                    ),
            decreases input.len() - idx,
        {
            let remaining: usize = self.segment_samples - self.buf.len();
            let take: usize = if remaining < input.len() - idx {
                remaining
            } else {
                input.len() - idx
            };
            append_range(&mut self.buf, input, idx, idx + take);
            assert(self.buf@ =~= stream.subrange(
                segments@.len() * len,
                before.len() + idx + take,
            ));
            idx = idx + take;
            if self.buf.len() == self.segment_samples {
                let mut segment: Vec<S> = Vec::new();
                std::mem::swap(&mut segment, &mut self.buf);
                segments.push(segment);
                proof {
                    let k = segments@.len() - 1;
                    assert((k + 1) * len == k * len + len) by (nonlinear_arith);
                    assert(self.buf@ =~= stream.subrange(
                        segments@.len() * len,
                        before.len() + idx,
                    ));
                }
            }
        }
        proof {
            lemma_quotient(stream.len(), self.segment_samples as nat, segments@.len(), self.buf@.len());
            assert(contents(segments@) =~= cut(stream, len as nat));
            assert(self.buf@ =~= rest(stream, len as nat));
        }
        segments
    }

    /// How many samples have arrived since the last full segment.
    pub fn buffered(&self) -> (n: usize)
        ensures
            n == self.pending().len(),
    {
        self.buf.len()
    }

    /// Take out whatever partial segment remains (called once at stop), so trailing speech
    /// is not lost. Nothing comes out where nothing is buffered.
    pub fn flush(&mut self) -> (tail: Option<Vec<S>>)
        requires
            old(self).wf(),
        ensures
            final(self).wf(),
            final(self).full_length() == old(self).full_length(),
            final(self).pending() == Seq::<S>::empty(),
            match tail {
                Some(samples) => samples@.len() > 0 && samples@ == old(self).pending(),
                None => old(self).pending().len() == 0,
            },
    {
        if self.buf.len() == 0 {
            assert(self.buf@ =~= Seq::<S>::empty());
            return None;
        }
        let mut tail: Vec<S> = Vec::new();
        std::mem::swap(&mut tail, &mut self.buf);
        Some(tail)
    }
}

/// Nothing is lost and nothing is changed by cutting: the full segments and what is left,
/// one after the other, are the stream.
pub proof fn law_cutting_loses_nothing<S>(stream: Seq<S>, len: nat)
    requires
        len > 0,
    ensures
        flattened(cut(stream, len)) + rest(stream, len) == stream,
        rest(stream, len).len() < len,
        forall|i: int|
            0 <= i < cut(stream, len).len() ==> (#[trigger] cut(stream, len)[i]).len() == len,
{
    let count = stream.len() / len;
    vstd::arithmetic::div_mod::lemma_fundamental_div_mod(stream.len() as int, len as int);
    vstd::arithmetic::mul::lemma_mul_is_commutative(len as int, count as int);
    lemma_flattened_prefix(stream, len, count);
    assert(cut(stream, len).take(count as int) =~= cut(stream, len));
    assert(stream.take((count * len) as int) + stream.skip((count * len) as int) =~= stream);
    assert forall|i: int| 0 <= i < cut(stream, len).len() implies (#[trigger] cut(
        stream,
        len,
    )[i]).len() == len by {
        lemma_segment_in_stream(stream.len(), len, i);
    }
}

proof fn lemma_segment_in_stream(total: nat, len: nat, i: int)
    requires
        len > 0,
        0 <= i < total / len,
    ensures
        0 <= i * len <= (i + 1) * len <= total,
        (i + 1) * len == i * len + len,
{
    vstd::arithmetic::div_mod::lemma_fundamental_div_mod(total as int, len as int);
    let count = (total / len) as int;
    assert((i + 1) * len == i * len + len && 0 <= i * len && (i + 1) * len <= len * count)
        by (nonlinear_arith)
        requires
            0 <= i,
            i + 1 <= count,
    ;
}

proof fn lemma_flattened_prefix<S>(stream: Seq<S>, len: nat, n: nat)
    requires
        len > 0,
        n <= stream.len() / len,
    ensures
        n * len <= stream.len(),
        flattened(cut(stream, len).take(n as int)) == stream.take((n * len) as int),
    decreases n,
{
    let segments = cut(stream, len);
    if n == 0 {
        assert(0 * len == 0);
        assert(segments.take(0) =~= Seq::<Seq<S>>::empty());
        assert(stream.take(0) =~= Seq::<S>::empty());
    } else {
        lemma_flattened_prefix(stream, len, (n - 1) as nat);
        lemma_segment_in_stream(stream.len(), len, n - 1);
        assert(segments.take(n as int).drop_last() =~= segments.take(n - 1));
        assert(segments.take(n as int).last() == stream.subrange(
            (n - 1) * len,
            (n * len) as int,
        ));
        assert(stream.take((n * len) as int) =~= stream.take((n - 1) * len) + stream.subrange(
            (n - 1) * len,
            (n * len) as int,
        ));
    }
}

/// It does not matter how a stream arrives: cutting a first part, and then what it left
/// together with a second part, gives what cutting both at once gives.
pub proof fn law_cutting_goes_on<S>(first: Seq<S>, second: Seq<S>, len: nat)
    requires
        len > 0,
    ensures
        cut(first + second, len) == cut(first, len) + cut(rest(first, len) + second, len),
        rest(first + second, len) == rest(rest(first, len) + second, len),
{
    let whole = first + second;
    let c1 = first.len() / len;
    let tail = rest(first, len) + second;
    let c2 = tail.len() / len;
    vstd::arithmetic::div_mod::lemma_fundamental_div_mod(first.len() as int, len as int);
    vstd::arithmetic::div_mod::lemma_fundamental_div_mod(tail.len() as int, len as int);
    vstd::arithmetic::mul::lemma_mul_is_commutative(len as int, c1 as int);
    vstd::arithmetic::mul::lemma_mul_is_commutative(len as int, c2 as int);
    assert((c1 + c2) * len == c1 * len + c2 * len) by (nonlinear_arith);
    assert(tail =~= whole.skip((c1 * len) as int));
    lemma_quotient(whole.len(), len, c1 + c2, (tail.len() % len) as nat);
    assert forall|i: int| 0 <= i < c1 + c2 implies cut(whole, len)[i] == (cut(first, len) + cut(
        tail,
        len,
    ))[i] by {
        if i < c1 {
            lemma_segment_in_stream(first.len(), len, i);
            assert(whole.subrange(i * len, (i + 1) * len) =~= first.subrange(
                i * len,
                (i + 1) * len,
            ));
        } else {
            let k = i - c1;
            lemma_segment_in_stream(tail.len(), len, k);
            assert(i * len == c1 * len + k * len && (i + 1) * len == c1 * len + (k + 1) * len)
                by (nonlinear_arith)
                requires
                    i == c1 + k,
            ;
            assert(whole.subrange(i * len, (i + 1) * len) =~= tail.subrange(
                k * len,
                (k + 1) * len,
            ));
        }
    }
    assert(cut(whole, len) =~= cut(first, len) + cut(tail, len));
    assert(rest(whole, len) =~= rest(tail, len));
}

proof fn lemma_quotient(total: nat, len: nat, count: nat, left: nat)
    requires
        len > 0,
        left < len,
        left + count * len == total,
    ensures
        total / len == count,
        total / len * len == total - left,
{
    vstd::arithmetic::div_mod::lemma_fundamental_div_mod_converse(
        total as int,
        len as int,
        count as int,
        left as int,
    );
}

} // verus!
