//! The course of an Ogg Opus encoding.
//!
//! The encoder is pulled: pages are collected into memory as it hands them out, so nothing
//! is written to disk. [`OpusEncoding`] says what to ask of the encoder next, and takes each
//! reply.

use vstd::prelude::*;
use crate::buffer::append_all;
use crate::error::{joined, Error};
use crate::timestamp::decimal;

verus! {

/// A sample rate that Opus encodes.
#[derive(Debug, Clone, Copy, PartialEq, Eq, Structural)]
pub enum OpusRate {
    Hz48000,
    Hz24000,
    Hz16000,
    Hz12000,
    Hz8000,
}

impl OpusRate {
    /// The rate in samples per second.
    pub open spec fn hz(self) -> int {
        match self {
            OpusRate::Hz48000 => 48_000,
            OpusRate::Hz24000 => 24_000,
            OpusRate::Hz16000 => 16_000,
            OpusRate::Hz12000 => 12_000,
            OpusRate::Hz8000 => 8_000,
        }
    }
}

/// Whether Opus encodes samples at this rate.
pub open spec fn opus_supports(sample_rate: u32) -> bool {
    exists|rate: OpusRate| #[trigger] rate.hz() == sample_rate
}

/// Whether `e` tells that Opus has no such rate.
pub open spec fn tells_unsupported(e: Error, sample_rate: u32) -> bool {
    e matches Error::Encode(why) && why@ == "unsupported Opus sample rate "@
        + crate::timestamp::padded(sample_rate as nat, 1)
}

/// The Opus rate for `sample_rate`, or an error where Opus has none.
pub fn opus_rate(sample_rate: u32) -> (r: Result<OpusRate, Error>)
    ensures
        match r {
            Ok(rate) => rate.hz() == sample_rate,
            Err(e) => !opus_supports(sample_rate) && tells_unsupported(e, sample_rate),
        },
{
    match sample_rate {
        48_000 => Ok(OpusRate::Hz48000),
        24_000 => Ok(OpusRate::Hz24000),
        16_000 => Ok(OpusRate::Hz16000),
        12_000 => Ok(OpusRate::Hz12000),
        8_000 => Ok(OpusRate::Hz8000),
        other => {
            let number = decimal(other as u64);
            Err(Error::Encode(joined("unsupported Opus sample rate ", number.as_str())))
        },
    }
}

/// What to ask of the encoder.
#[derive(Debug, Clone, Copy, PartialEq, Eq, Structural)]
pub enum OpusAction {
    /// Create the comment block.
    CreateComments,
    /// Add the comment that names the encoder.
    AddComment,
    /// Create a pull encoder for this rate and number of channels.
    CreateEncoder(OpusRate, u8),
    /// Set voice application, variable bitrate, and this bitrate.
    Configure(u32),
    /// Write the samples.
    WriteSamples,
    /// Get the next page, flushing where asked.
    PullPage {
        flush: bool,
    },
    /// Finalise the stream.
    Drain,
    /// Nothing: the file is complete.
    Finished,
}

/// What the encoder replied.
#[derive(Debug)]
pub enum OpusReply {
    /// It did what was asked.
    Done,
    /// It failed, for this reason.
    Failed(String),
    /// A page.
    Page(Vec<u8>),
    /// No page is ready.
    NoPage,
}

impl OpusReply {
    /// The bytes that come with this reply.
    pub open spec fn bytes(self) -> Seq<u8> {
        match self {
            OpusReply::Page(page) => page@,
            _ => Seq::empty(),
        }
    }
}

/// Whether the encoder can reply so when `action` was asked of it.
pub open spec fn answers(action: OpusAction, reply: OpusReply) -> bool {
    match action {
        OpusAction::PullPage { .. } => reply is Page || reply is NoPage,
        OpusAction::Finished => false,
        _ => reply is Done || reply is Failed,
    }
}

/// What is asked after `action` got `reply`, or `None` where the encoding has failed. That
/// the comment could not be added is no failure.
pub open spec fn next_action(
    action: OpusAction,
    reply: OpusReply,
    rate: OpusRate,
    channels: u8,
    bitrate: u32,
) -> Option<OpusAction> {
    match action {
        OpusAction::AddComment => Some(OpusAction::CreateEncoder(rate, channels)),
        OpusAction::PullPage { flush } => if reply is Page {
            Some(action)
        } else if flush {
            Some(OpusAction::Finished)
        } else {
            Some(OpusAction::Drain)
        },
        _ => if reply is Failed {
            None
        } else {
            match action {
                OpusAction::CreateComments => Some(OpusAction::AddComment),
                OpusAction::CreateEncoder(_, _) => Some(OpusAction::Configure(bitrate)),
                OpusAction::Configure(_) => Some(OpusAction::WriteSamples),
                OpusAction::WriteSamples => Some(OpusAction::PullPage { flush: false }),
                OpusAction::Drain => Some(OpusAction::PullPage { flush: true }),
                _ => None,
            }
        },
    }
}

/// Whether the encoding `before` has taken a reply: its bytes are collected behind those before
/// it, and the encoding goes on, or has failed for the reason that the encoder gave.
pub open spec fn takes_reply(
    before: OpusEncoding,
    reply: OpusReply,
    after: OpusEncoding,
    r: Result<(), Error>,
) -> bool {
    let (rate, channels, bitrate) = before.settings();
    &&& answers(before.asked(), reply)
    &&& after.settings() == before.settings()
    &&& after.collected() == before.collected() + reply.bytes()
    &&& match next_action(before.asked(), reply, rate, channels, bitrate) {
        Some(action) => r is Ok && after.asked() == action,
        None => {
            &&& reply matches OpusReply::Failed(why)
            &&& r matches Err(e)
            &&& e matches Error::Encode(told)
            &&& told@ == why@
            &&& after.asked() == before.asked()
        },
    }
}

/// An encoding under way.
pub struct OpusEncoding {
    action: OpusAction,
    rate: OpusRate,
    channels: u8,
    bitrate: u32,
    out: Vec<u8>,
}

impl OpusEncoding {
    /// What is to be asked of the encoder now.
    pub closed spec fn asked(&self) -> OpusAction {
        self.action
    }

    /// The settings: rate, number of channels, bitrate.
    pub closed spec fn settings(&self) -> (OpusRate, u8, u32) {
        (self.rate, self.channels, self.bitrate)
    }

    /// The bytes collected so far.
    pub closed spec fn collected(&self) -> Seq<u8> {
        self.out@
    }

    /// Begin an encoding, or fail where Opus does not have the rate.
    pub fn begin(sample_rate: u32, channels: u16, bitrate: u32) -> (r: Result<Self, Error>)
        ensures
            r is Ok <==> opus_supports(sample_rate),
            match r {
                Ok(encoding) => {
                    &&& encoding.asked() == OpusAction::CreateComments
                    &&& encoding.settings().0.hz() == sample_rate
                    &&& encoding.settings().1 == channels % 256
                    &&& encoding.settings().2 == bitrate
                    &&& encoding.collected() == Seq::<u8>::empty()
                },
                Err(e) => tells_unsupported(e, sample_rate),
            },
    {
        match opus_rate(sample_rate) {
            Ok(rate) => Ok(
                OpusEncoding {
                    action: OpusAction::CreateComments,
                    rate,
                    channels: (channels % 256) as u8,
                    bitrate,
                    out: Vec::new(),
                },
            ),
            Err(e) => Err(e),
        }
    }

    /// What to ask of the encoder now.
    pub fn action(&self) -> (action: OpusAction)
        ensures
            action == self.asked(),
    {
        self.action
    }

    /// Take the encoder's reply. A failure ends the encoding.
    pub fn advance(&mut self, reply: OpusReply) -> (r: Result<(), Error>)
        requires
            answers(old(self).asked(), reply),
        ensures
            takes_reply(*old(self), reply, *final(self), r),
            final(self).settings() == old(self).settings(),
            final(self).collected() == old(self).collected() + reply.bytes(),
            reply matches OpusReply::Page(page) ==> final(self).collected() == old(
                self,
            ).collected() + page@,
            !(reply is Page) ==> final(self).collected() == old(self).collected(),
            r is Ok && final(self).asked() is CreateEncoder ==> final(self).asked()
                == OpusAction::CreateEncoder(old(self).settings().0, old(self).settings().1),
            r is Ok && final(self).asked() is Configure ==> final(self).asked()
                == OpusAction::Configure(old(self).settings().2),
            r is Err <==> reply is Failed && !(old(self).asked() is AddComment),
    {
        let ghost before = self.out@;
        let next = match (self.action, reply) {
            (OpusAction::AddComment, _) => OpusAction::CreateEncoder(self.rate, self.channels),
            (OpusAction::PullPage { flush }, OpusReply::Page(page)) => {
                append_all(&mut self.out, page.as_slice());
                OpusAction::PullPage { flush }
            },
            (OpusAction::PullPage { flush }, _) => if flush {
                OpusAction::Finished
            } else {
                OpusAction::Drain
            },
            (_, OpusReply::Failed(why)) => {
                assert(self.out@ =~= before + Seq::<u8>::empty());
                return Err(Error::Encode(why));
            },
            (OpusAction::CreateComments, _) => OpusAction::AddComment,
            (OpusAction::CreateEncoder(_, _), _) => OpusAction::Configure(self.bitrate),
            (OpusAction::Configure(_), _) => OpusAction::WriteSamples,
            (OpusAction::WriteSamples, _) => OpusAction::PullPage { flush: false },
            (OpusAction::Drain, _) => OpusAction::PullPage { flush: true },
            (OpusAction::Finished, _) => OpusAction::Finished,
        };
        assert(before + Seq::<u8>::empty() =~= before);
        self.action = next;
        Ok(())
    }

    /// The complete file.
    pub fn into_bytes(self) -> (bytes: Vec<u8>)
        requires
            self.asked() is Finished,
        ensures
            bytes@ == self.collected(),
    {
        self.out
    }
}

/// The action that is asked after a row of replies, or `None` where one of them was a failure
/// or no answer to what was asked.
pub open spec fn asked_after(
    action: OpusAction,
    replies: Seq<OpusReply>,
    rate: OpusRate,
    channels: u8,
    bitrate: u32,
) -> Option<OpusAction>
    decreases replies.len(),
{
    if replies.len() == 0 {
        Some(action)
    } else {
        match asked_after(action, replies.drop_last(), rate, channels, bitrate) {
            Some(a) if answers(a, replies.last()) => next_action(
                a,
                replies.last(),
                rate,
                channels,
                bitrate,
            ),
            _ => None,
        }
    }
}

/// Whether one of `replies` to these questions had no page where the stream was finalised.
pub open spec fn ends_with_no_page(replies: Seq<OpusReply>) -> bool {
    replies.len() > 0 && replies.last() is NoPage
}

/// An encoding is complete only when the finalised stream has no page left.
pub proof fn law_complete_only_when_drained(
    replies: Seq<OpusReply>,
    rate: OpusRate,
    channels: u8,
    bitrate: u32,
)
    requires
        asked_after(OpusAction::CreateComments, replies, rate, channels, bitrate) == Some(
            OpusAction::Finished,
        ),
    ensures
        ends_with_no_page(replies),
        asked_after(
            OpusAction::CreateComments,
            replies.drop_last(),
            rate,
            channels,
            bitrate,
        ) == Some(OpusAction::PullPage { flush: true }),
{
}

/// The bytes of these replies, one after the other.
pub open spec fn pages(replies: Seq<OpusReply>) -> Seq<u8>
    decreases replies.len(),
{
    if replies.len() == 0 {
        Seq::empty()
    } else {
        pages(replies.drop_last()) + replies.last().bytes()
    }
}

/// A file is all the pages that the encoder gave, in order: an encoding that took these replies
/// one by one has collected exactly their bytes.
pub proof fn law_file_is_all_pages(states: Seq<OpusEncoding>, replies: Seq<OpusReply>)
    requires
        states.len() == replies.len() + 1,
        states[0].collected() == Seq::<u8>::empty(),
        forall|i: int|
            0 <= i < replies.len() ==> states[i + 1].collected() == states[i].collected() + (
            #[trigger] replies[i]).bytes(),
    ensures
        states.last().collected() == pages(replies),
    decreases replies.len(),
{
    if replies.len() > 0 {
        let n = replies.len() - 1;
        let (s, r) = (states.drop_last(), replies.drop_last());
        assert forall|i: int| 0 <= i < r.len() implies s[i + 1].collected() == s[i].collected() + (
        #[trigger] r[i]).bytes() by {
            assert(r[i] == replies[i]);
        }
        law_file_is_all_pages(s, r);
        assert(states[n + 1].collected() == states[n].collected() + replies[n].bytes());
    }
}

/// Opus encodes five rates, and no other.
pub proof fn law_opus_has_five_rates(sample_rate: u32)
    ensures
        opus_supports(sample_rate) <==> sample_rate == 48_000 || sample_rate == 24_000
            || sample_rate == 16_000 || sample_rate == 12_000 || sample_rate == 8_000,
        forall|a: OpusRate, b: OpusRate| #![auto] a.hz() == b.hz() ==> a == b,
{
    assert(OpusRate::Hz48000.hz() == 48_000 && OpusRate::Hz24000.hz() == 24_000
        && OpusRate::Hz16000.hz() == 16_000 && OpusRate::Hz12000.hz() == 12_000
        && OpusRate::Hz8000.hz() == 8_000);
}

/// Whether an encoding went through `states`, taking these replies one after the other, none of
/// which ended it.
pub open spec fn runs_through(states: Seq<OpusEncoding>, replies: Seq<OpusReply>) -> bool {
    &&& states.len() == replies.len() + 1
    &&& states[0].asked() is CreateComments
    &&& states[0].collected() == Seq::<u8>::empty()
    &&& forall|i: int|
        0 <= i < replies.len() ==> takes_reply(
            states[i],
            #[trigger] replies[i],
            states[i + 1],
            Ok(()),
        )
}

/// Whether pages were pulled up to state `k`, the stream finalised at state `d` among these,
/// or not yet where `d` is negative.
spec fn pulled(states: Seq<OpusEncoding>, replies: Seq<OpusReply>, k: int, d: int) -> bool {
    if d < 0 {
        &&& forall|i: int|
            5 <= i <= k ==> (#[trigger] states[i]).asked() == (OpusAction::PullPage { flush: false })
        &&& forall|i: int| 5 <= i < k ==> (#[trigger] replies[i]) is Page
    } else {
        &&& 6 <= d <= k
        &&& forall|i: int|
            5 <= i < d ==> (#[trigger] states[i]).asked() == (OpusAction::PullPage { flush: false })
        &&& states[d].asked() is Drain
        &&& forall|i: int|
            d < i < k ==> (#[trigger] states[i]).asked() == (OpusAction::PullPage { flush: true })
        &&& k > d ==> states[k].asked() is Finished || states[k].asked() == (
        OpusAction::PullPage { flush: true })
        &&& forall|i: int| 5 <= i < d - 1 ==> (#[trigger] replies[i]) is Page
        &&& replies[d - 1] is NoPage
        &&& forall|i: int| d < i < k - 1 ==> (#[trigger] replies[i]) is Page
        &&& k > d + 1 ==> (states[k].asked() is Finished <==> replies[k - 1] is NoPage)
        &&& k == d + 1 ==> !(states[k].asked() is Finished)
    }
}

proof fn lemma_start(states: Seq<OpusEncoding>, replies: Seq<OpusReply>)
    requires
        runs_through(states, replies),
        states.last().asked() is Finished,
    ensures
        replies.len() > 5,
        states[1].asked() is AddComment,
        states[2].asked() == OpusAction::CreateEncoder(
            states[0].settings().0,
            states[0].settings().1,
        ),
        states[3].asked() == OpusAction::Configure(states[0].settings().2),
        states[4].asked() is WriteSamples,
        states[5].asked() == (OpusAction::PullPage { flush: false }),
{
    assert(takes_reply(states[0], replies[0], states[1], Ok(())));
    assert(takes_reply(states[1], replies[1], states[2], Ok(())));
    assert(takes_reply(states[2], replies[2], states[3], Ok(())));
    assert(takes_reply(states[3], replies[3], states[4], Ok(())));
    assert(takes_reply(states[4], replies[4], states[5], Ok(())));
}

proof fn lemma_pulled(states: Seq<OpusEncoding>, replies: Seq<OpusReply>, k: int) -> (d: int)
    requires
        runs_through(states, replies),
        states.last().asked() is Finished,
        5 <= k <= replies.len(),
    ensures
        pulled(states, replies, k, d),
    decreases k,
{
    lemma_start(states, replies);
    if k == 5 {
        -1
    } else {
        let d = lemma_pulled(states, replies, k - 1);
        assert(takes_reply(states[k - 1], replies[k - 1], states[k], Ok(())));
        if d < 0 && states[k].asked() is Drain {
            k
        } else {
            d
        }
    }
}

proof fn lemma_collected(states: Seq<OpusEncoding>, replies: Seq<OpusReply>)
    requires
        runs_through(states, replies),
    ensures
        states.last().collected() == pages(replies),
        forall|i: int|
            0 <= i < states.len() ==> (#[trigger] states[i]).settings() == states[0].settings(),
    decreases replies.len(),
{
    if replies.len() > 0 {
        let n = replies.len() - 1;
        let (s, r) = (states.drop_last(), replies.drop_last());
        assert forall|i: int| 0 <= i < r.len() implies takes_reply(
            s[i],
            #[trigger] r[i],
            s[i + 1],
            Ok(()),
        ) by {
            assert(r[i] == replies[i]);
        }
        lemma_collected(s, r);
        assert(takes_reply(states[n], replies[n], states[n + 1], Ok(())));
        assert forall|i: int| 0 <= i < states.len() implies (#[trigger] states[i]).settings()
            == states[0].settings() by {
            if i < s.len() {
                assert(s[i] == states[i]);
            } else {
                assert(s[n] == states[n]);
            }
        }
    }
}

/// A complete encoding asks, in this order: for the comments; for one encoder, with the rate and
/// the channels of the settings; for one configuration, with the bitrate of the settings; to
/// write the samples, once; for pages, until there is none; to finalise the stream, once; and
/// for the pages that this brought, until there is none. What was collected is all of these
/// pages, in order.
pub proof fn law_complete_encoding(states: Seq<OpusEncoding>, replies: Seq<OpusReply>)
    requires
        runs_through(states, replies),
        states.last().asked() is Finished,
    ensures
        states.last().collected() == pages(replies),
        forall|i: int|
            0 <= i < states.len() ==> ((#[trigger] states[i]).asked() is CreateComments <==> i == 0),
        forall|i: int|
            0 <= i < states.len() ==> ((#[trigger] states[i]).asked() is AddComment <==> i == 1),
        forall|i: int|
            0 <= i < states.len() ==> ((#[trigger] states[i]).asked() is CreateEncoder <==> i == 2),
        states[2].asked() == OpusAction::CreateEncoder(
            states[0].settings().0,
            states[0].settings().1,
        ),
        forall|i: int|
            0 <= i < states.len() ==> ((#[trigger] states[i]).asked() is Configure <==> i == 3),
        states[3].asked() == OpusAction::Configure(states[0].settings().2),
        forall|i: int|
            0 <= i < states.len() ==> ((#[trigger] states[i]).asked() is WriteSamples <==> i == 4),
        exists|d: int|
            {
                &&& 6 <= d < replies.len() - 1
                &&& #[trigger] states[d].asked() is Drain
                &&& forall|i: int|
                    5 <= i < d ==> (#[trigger] states[i]).asked() == (OpusAction::PullPage {
                        flush: false,
                    })
                &&& forall|i: int|
                    d < i < replies.len() ==> (#[trigger] states[i]).asked() == (
                    OpusAction::PullPage { flush: true })
                &&& forall|i: int|
                    5 <= i < replies.len() && i != d ==> ((#[trigger] replies[i]) is NoPage <==> i
                        == d - 1 || i == replies.len() - 1)
            },
{
    let n = replies.len() as int;
    lemma_start(states, replies);
    lemma_collected(states, replies);
    let d = lemma_pulled(states, replies, n);
    assert(states[n].asked() is Finished);
    assert(states[d].asked() is Drain);
    assert forall|i: int| 5 <= i < replies.len() && i != d implies ((#[trigger] replies[i]) is NoPage
        <==> i == d - 1 || i == replies.len() - 1) by {}
    assert forall|i: int| 5 <= i < states.len() implies {
        ||| (#[trigger] states[i]).asked() is PullPage
        ||| states[i].asked() is Drain
        ||| states[i].asked() is Finished
    } by {
        if i == n {
        } else if i == d {
        } else if i < d {
        }
    }
    assert forall|i: int| 0 <= i < states.len() implies {
        let a = (#[trigger] states[i]).asked();
        &&& a is CreateComments <==> i == 0
        &&& a is AddComment <==> i == 1
        &&& a is CreateEncoder <==> i == 2
        &&& a is Configure <==> i == 3
        &&& a is WriteSamples <==> i == 4
    } by {
        if i == 0 || i == 1 || i == 2 || i == 3 || i == 4 {
        } else {
            assert(5 <= i);
        }
    }
}

/// Every page is in the file, whole: that of reply number `i` stands behind those of the replies
/// before it.
pub proof fn law_every_page_is_in_the_file(
    states: Seq<OpusEncoding>,
    replies: Seq<OpusReply>,
    i: int,
)
    requires
        runs_through(states, replies),
        0 <= i < replies.len(),
    ensures
        states[i].collected().len() <= states.last().collected().len(),
        states.last().collected().take(states[i].collected().len() as int)
            == states[i].collected(),
        replies[i] matches OpusReply::Page(page) ==> {
            let from = states[i].collected().len() as int;
            &&& from + page@.len() <= states.last().collected().len()
            &&& states.last().collected().subrange(from, from + page@.len()) == page@
            &&& states[i + 1].collected() == states[i].collected() + page@
        },
        !(replies[i] is Page) ==> states[i + 1].collected() == states[i].collected(),
{
    lemma_grows(states, replies, i, replies.len() as int);
    lemma_grows(states, replies, i + 1, replies.len() as int);
    assert(takes_reply(states[i], replies[i], states[i + 1], Ok(())));
    let (early, file) = (states[i].collected(), states.last().collected());
    if let OpusReply::Page(page) = replies[i] {
        let next = states[i + 1].collected();
        let from = early.len() as int;
        assert(file.take(next.len() as int) == next);
        assert(file.subrange(from, from + page@.len()) =~= page@) by {
            assert forall|k: int| 0 <= k < page@.len() implies file.subrange(
                from,
                from + page@.len(),
            )[k] == page@[k] by {
                assert(file.take(next.len() as int)[from + k] == next[from + k]);
            }
        }
    }
}

proof fn lemma_grows(states: Seq<OpusEncoding>, replies: Seq<OpusReply>, i: int, j: int)
    requires
        runs_through(states, replies),
        0 <= i <= j <= replies.len(),
    ensures
        states[i].collected().len() <= states[j].collected().len(),
        states[j].collected().take(states[i].collected().len() as int) == states[i].collected(),
    decreases j - i,
{
    let n = states[i].collected().len() as int;
    if i < j {
        lemma_grows(states, replies, i, j - 1);
        assert(takes_reply(states[j - 1], replies[j - 1], states[j - 1 + 1], Ok(())));
        assert(states[j].collected().take(n) =~= states[j - 1].collected().take(n));
    } else {
        assert(states[j].collected().take(n) =~= states[i].collected());
    }
}

/// The error for a rate that Opus does not have tells that rate.
pub proof fn law_unsupported_rate_is_told(e: Error, sample_rate: u32)
    requires
        tells_unsupported(e, sample_rate),
    ensures
        e is Encode,
        e->Encode_0@.take(29) == "unsupported Opus sample rate "@,
        crate::timestamp::is_number(e->Encode_0@.skip(29)),
        crate::timestamp::value(e->Encode_0@.skip(29)) == sample_rate,
{
    reveal_strlit("unsupported Opus sample rate ");
    let (first, number) = (
        "unsupported Opus sample rate "@,
        crate::timestamp::padded(sample_rate as nat, 1),
    );
    crate::timestamp::law_decimals_read_back(sample_rate as nat, 1);
    assert((first + number).take(29) =~= first);
    assert((first + number).skip(29) =~= number);
}

} // verus!
