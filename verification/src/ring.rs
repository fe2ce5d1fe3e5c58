//! The ring that carries captured frames from the audio thread to the worker.
//!
//! The two ends belong to two threads, so what one end finds depends on how far the other has
//! got. Each end keeps a log of what went through it, and both know the ring's stream: all the
//! frames that are ever written to it, in order.

use vstd::prelude::*;
use ringbuf::traits::{Consumer, Producer, Split};

verus! {

/// ~4 s of headroom at 48 kHz mono. Fixed at startup, never grows.
pub const RING_CAPACITY: usize = 192_000;

/// The writing end of a `ringbuf` ring on the heap.
#[verifier::external_body]
#[verifier::reject_recursive_types(S)]
pub struct RawInlet<S>(ringbuf::HeapProd<S>);

/// The reading end of a `ringbuf` ring on the heap.
#[verifier::external_body]
#[verifier::reject_recursive_types(S)]
pub struct RawOutlet<S>(ringbuf::HeapCons<S>);

/// One read from a ring: how many frames were asked for, and those that came.
#[verifier::ext_equal]
pub struct Pop<S> {
    pub asked: nat,
    pub got: Seq<S>,
}

/// The frames of these reads, in order.
pub open spec fn taken<S>(pops: Seq<Pop<S>>) -> Seq<S>
    decreases pops.len(),
{
    if pops.len() == 0 {
        Seq::empty()
    } else {
        taken(pops.drop_last()) + pops.last().got
    }
}

pub(crate) proof fn lemma_taken_joined<S>(a: Seq<Pop<S>>, b: Seq<Pop<S>>)
    ensures
        taken(a + b) == taken(a) + taken(b),
    decreases b.len(),
{
    if b.len() == 0 {
        assert(a + b =~= a);
        assert(taken(a) + Seq::<S>::empty() =~= taken(a));
    } else {
        lemma_taken_joined(a, b.drop_last());
        assert((a + b).drop_last() =~= a + b.drop_last());
        assert(taken(a) + (taken(b.drop_last()) + b.last().got) =~= (taken(a) + taken(
            b.drop_last(),
        )) + b.last().got);
    }
}

/// Whether `whole` begins with `part`.
pub open spec fn front_of<S>(part: Seq<S>, whole: Seq<S>) -> bool {
    part.len() <= whole.len() && whole.take(part.len() as int) == part
}

/// Where the audio thread writes.
#[verifier::reject_recursive_types(S)]
pub struct Inlet<S> {
    raw: RawInlet<S>,
    capacity: Ghost<nat>,
    stream: Ghost<Seq<S>>,
    accepted: Ghost<Seq<S>>,
}

/// Where the worker reads.
#[verifier::reject_recursive_types(S)]
pub struct Outlet<S> {
    raw: RawOutlet<S>,
    capacity: Ghost<nat>,
    stream: Ghost<Seq<S>>,
    pops: Ghost<Seq<Pop<S>>>,
}

impl<S> Inlet<S> {
    /// How many frames the ring holds at most.
    pub closed spec fn capacity(&self) -> nat {
        self.capacity@
    }

    /// Every frame that is ever written to the ring, oldest first.
    pub closed spec fn stream(&self) -> Seq<S> {
        self.stream@
    }

    /// Every frame that was written so far, oldest first.
    pub closed spec fn accepted(&self) -> Seq<S> {
        self.accepted@
    }

    /// What was written is the beginning of the stream.
    pub open spec fn wf(&self) -> bool {
        front_of(self.accepted(), self.stream())
    }
}

impl<S> Outlet<S> {
    /// How many frames the ring holds at most.
    pub closed spec fn capacity(&self) -> nat {
        self.capacity@
    }

    /// Every frame that is ever written to the ring, oldest first.
    pub closed spec fn stream(&self) -> Seq<S> {
        self.stream@
    }

    /// Every read so far, oldest first.
    pub closed spec fn pops(&self) -> Seq<Pop<S>> {
        self.pops@
    }

    /// What was read is the beginning of the stream.
    pub open spec fn wf(&self) -> bool {
        front_of(taken(self.pops()), self.stream())
    }
}

/// Calls `ringbuf::HeapRb::new` and `split`: the two ends of one ring of this capacity, through
/// which nothing has gone yet.
#[verifier::external_body]
fn make_ring<S>(capacity: usize) -> (ends: (Inlet<S>, Outlet<S>))
    requires
        0 < capacity <= RING_CAPACITY,
    ensures
        ends.0.capacity() == capacity,
        ends.0.accepted() == Seq::<S>::empty(),
        ends.1.capacity() == capacity,
        ends.1.pops() == Seq::<Pop<S>>::empty(),
        ends.0.stream() == ends.1.stream(),
{
    let (inlet, outlet) = ringbuf::HeapRb::<S>::new(capacity).split();
    let (capacity, stream) = (Ghost(arbitrary()), Ghost(arbitrary()));
    let accepted = Ghost(arbitrary());
    let inlet = Inlet { raw: RawInlet(inlet), capacity, stream, accepted };
    (inlet, Outlet { raw: RawOutlet(outlet), capacity, stream, pops: Ghost(arbitrary()) })
}

/// Calls `push_slice` of the writing end: appends as many of `frames`, from the first on, as
/// there is room for, and returns how many: so they are the next of the ring's stream. There
/// is room at least for what the capacity exceeds all that was written so far; how much more
/// depends on what the other thread has read meanwhile.
#[verifier::external_body]
fn push_slice<S: Copy>(inlet: &mut Inlet<S>, frames: &[S]) -> (n: usize)
    requires
        old(inlet).wf(),
    ensures
        n <= frames@.len(),
        n <= old(inlet).capacity(),
        n < frames@.len() ==> old(inlet).accepted().len() + n >= old(inlet).capacity(),
        final(inlet).capacity() == old(inlet).capacity(),
        final(inlet).accepted() == old(inlet).accepted() + frames@.take(n as int),
        final(inlet).stream() == old(inlet).stream(),
        final(inlet).wf(),
{
    inlet.raw.0.push_slice(frames)
}

/// Calls `pop_slice` of the reading end: removes as many frames as are there and as `buf` has
/// places, writes them to its front, oldest first, leaves its other places as they are, and
/// returns how many. They are the next of the ring's stream; how many there are depends on what
/// the other thread has written.
#[verifier::external_body]
pub(crate) fn pop_slice<S: Copy>(outlet: &mut Outlet<S>, buf: &mut Vec<S>) -> (n: usize)
    requires
        old(outlet).wf(),
    ensures
        n <= old(buf)@.len(),
        n <= old(outlet).capacity(),
        final(buf)@.len() == old(buf)@.len(),
        final(buf)@.skip(n as int) == old(buf)@.skip(n as int),
        final(outlet).capacity() == old(outlet).capacity(),
        final(outlet).pops() == old(outlet).pops().push(
            (Pop { asked: old(buf)@.len(), got: final(buf)@.take(n as int) }),
        ),
        final(outlet).stream() == old(outlet).stream(),
        final(outlet).wf(),
{
    outlet.raw.0.pop_slice(buf)
}

/// The two ends of a new ring.
pub fn ring<S>() -> (ends: (Inlet<S>, Outlet<S>))
    ensures
        ends.0.capacity() == RING_CAPACITY,
        ends.0.accepted() == Seq::<S>::empty(),
        ends.1.capacity() == RING_CAPACITY,
        ends.1.pops() == Seq::<Pop<S>>::empty(),
        ends.0.wf(),
        ends.1.wf(),
        ends.0.stream() == ends.1.stream(),
{
    let ends: (Inlet<S>, Outlet<S>) = make_ring(RING_CAPACITY);
    assert(ends.0.stream().take(0) =~= Seq::<S>::empty());
    ends
}

/// Whether all of `frames` but the last `lost` were written to the ring, which is full where any
/// was lost.
pub open spec fn accepts<S>(before: Inlet<S>, frames: Seq<S>, lost: nat, after: Inlet<S>) -> bool {
    &&& lost <= frames.len() <= lost + before.capacity()
    &&& lost > 0 ==> before.accepted().len() + (frames.len() - lost) >= before.capacity()
    &&& after.capacity() == before.capacity()
    &&& after.accepted() == before.accepted() + frames.take(frames.len() - lost)
    &&& after.stream() == before.stream()
}

impl<S: Copy> Inlet<S> {
    /// Write `frames`. Where the consumer fell behind, the overflow is dropped (bounded
    /// memory); the result counts it.
    pub fn feed(&mut self, frames: &[S]) -> (lost: usize)
        requires
            old(self).wf(),
        ensures
            accepts(*old(self), frames@, lost as nat, *final(self)),
            lost <= frames@.len() <= lost + old(self).capacity(),
            lost > 0 ==> old(self).accepted().len() + (frames@.len() - lost)
                >= old(self).capacity(),
            final(self).capacity() == old(self).capacity(),
            final(self).accepted() == old(self).accepted() + frames@.take(frames@.len() - lost),
            final(self).stream() == old(self).stream(),
            final(self).wf(),
    {
        let pushed: usize = push_slice(self, frames);
        frames.len() - pushed
    }
}

/// What comes out of a ring is what went in, in order: at any time, the frames that were read
/// are the first of those that were written.
pub proof fn law_first_in_first_out<S>(inlet: Inlet<S>, outlet: Outlet<S>)
    requires
        inlet.wf(),
        outlet.wf(),
        inlet.stream() == outlet.stream(),
        taken(outlet.pops()).len() <= inlet.accepted().len(),
    ensures
        taken(outlet.pops()) == inlet.accepted().take(taken(outlet.pops()).len() as int),
{
    let n = taken(outlet.pops()).len() as int;
    assert(inlet.accepted().take(n) =~= inlet.stream().take(n));
}

/// The ring has room for four seconds of what a device captures at 48 kHz or less.
pub proof fn law_ring_holds_four_seconds<S>(inlet: Inlet<S>, rate: nat)
    requires
        inlet.capacity() == RING_CAPACITY,
        rate <= 48_000,
    ensures
        4 * rate <= inlet.capacity(),
{
}

/// What is lost of a write is its end, and nothing is lost as long as all that was ever written
/// fits in the ring.
pub proof fn law_what_fits_is_not_lost<S>(
    before: Inlet<S>,
    frames: Seq<S>,
    lost: nat,
    after: Inlet<S>,
)
    requires
        accepts(before, frames, lost, after),
        before.accepted().len() + frames.len() <= before.capacity(),
    ensures
        lost == 0,
        after.accepted() == before.accepted() + frames,
{
    assert(frames.take(frames.len() as int) =~= frames);
}

} // verus!
