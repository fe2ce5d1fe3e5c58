//! Activity detection: decide whether a finished segment is kept or dropped.
//!
//! A detector scores the segment window by window and keeps it only when the fraction of
//! *active* windows is enough (and at least one window is active). How loud a window is, and
//! which fraction is enough, is the caller's to judge: it is a matter of floating point.

use vstd::prelude::*;
use crate::buffer::append_range;
use crate::mix::is_silence;
use crate::segmenter::{contents, flattened};

verus! {

/// The number of `true` among `verdicts`.
pub open spec fn count_true(verdicts: Seq<bool>) -> nat
    decreases verdicts.len(),
{
    if verdicts.len() == 0 {
        0
    } else {
        count_true(verdicts.drop_last()) + if verdicts.last() { 1nat } else { 0nat }
    }
}

/// Whether `kept` is the decision on `active` of `total` windows: never with no active window,
/// and otherwise as `enough` says.
pub open spec fn decides<R: Fn(usize, usize) -> bool>(
    enough: R,
    active: nat,
    total: nat,
    kept: bool,
) -> bool {
    if active == 0 || total == 0 {
        !kept
    } else {
        call_ensures(enough, (active as usize, total as usize), kept)
    }
}

/// Keep iff there is at least one active window and the active fraction is `enough`.
pub fn keep<R: Fn(usize, usize) -> bool>(active: usize, total: usize, enough: &R) -> (kept: bool)
    requires
        forall|a: usize, t: usize| call_requires(*enough, (a, t)),
    ensures
        decides(*enough, active as nat, total as nat, kept),
{
    active > 0 && total > 0 && enough(active, total)
}

/// Whether `kept` is the decision by these verdicts.
pub open spec fn keeps_by<R: Fn(usize, usize) -> bool>(
    enough: R,
    verdicts: Seq<bool>,
    kept: bool,
) -> bool {
    decides(enough, count_true(verdicts), verdicts.len(), kept)
}

/// Keep or drop by the verdicts on the windows of a segment.
pub fn keep_by_verdicts<R: Fn(usize, usize) -> bool>(verdicts: &[bool], enough: &R) -> (kept: bool)
    requires
        forall|a: usize, t: usize| call_requires(*enough, (a, t)),
    ensures
        keeps_by(*enough, verdicts@, kept),
        decides(*enough, count_true(verdicts@), verdicts@.len(), kept),
        decides(*enough, verdicts@.to_multiset().count(true), verdicts@.len(), kept),
        kept ==> exists|i: int| 0 <= i < verdicts@.len() && verdicts@[i],
{
    let mut active: usize = 0;
    let mut i: usize = 0;
    while i < verdicts.len()
        invariant
            0 <= i <= verdicts@.len(),
            active == count_true(verdicts@.take(i as int)),
            active <= i,
        decreases verdicts.len() - i,
    {
        assert(verdicts@.take(i + 1).drop_last() =~= verdicts@.take(i as int));
        if verdicts[i] {
            active = active + 1;
        }
        i = i + 1;
    }
    assert(verdicts@.take(i as int) =~= verdicts@);
    proof {
        law_active_windows_are_counted(verdicts@);
        if forall|i: int| 0 <= i < verdicts@.len() ==> !#[trigger] verdicts@[i] {
            lemma_none_true(verdicts@);
        }
    }
    keep(active, verdicts.len(), enough)
}

/// Keeps every segment.
pub struct KeepAll;

impl KeepAll {
    /// Always keep.
    pub fn is_active<S>(&self, samples: &[S]) -> (kept: bool)
        ensures
            kept,
    {
        true
    }
}

/// The number of windows of `window` samples that `n` samples fill, the last perhaps in part.
pub open spec fn window_count(n: nat, window: nat) -> nat {
    (n + window - 1) as nat / window
}

/// Window number `i` of `samples`: `window` samples, or those that remain.
pub open spec fn window_at<S>(samples: Seq<S>, window: nat, i: int) -> Seq<S> {
    let end = (i + 1) * window;
    samples.subrange(i * window, if end <= samples.len() { end } else { samples.len() as int })
}

/// Whether `verdict` is what `loud` says of the samples `heard`.
pub open spec fn hears<S, L: Fn(&[S]) -> bool>(loud: L, heard: Seq<S>, verdict: bool) -> bool {
    exists|w: &[S]| w@ == heard && #[trigger] call_ensures(loud, (w,), verdict)
}

/// Whether `verdicts` are what `loud` says of the windows of `samples`, one for each.
pub open spec fn verdicts_on<S, L: Fn(&[S]) -> bool>(
    loud: L,
    samples: Seq<S>,
    window: nat,
    verdicts: Seq<bool>,
) -> bool {
    &&& verdicts.len() == window_count(samples.len(), window)
    &&& forall|i: int|
        0 <= i < verdicts.len() ==> hears(
            loud,
            window_at(samples, window, i),
            #[trigger] verdicts[i],
        )
}

/// The samples in a window of the energy gate.
pub open spec fn gate_window(sample_rate: u32) -> nat {
    if sample_rate < 50 { 1 } else { sample_rate as nat / 50 }
}

/// A window of the energy gate lasts twenty milliseconds, to less than one sample, and has at
/// least one.
pub proof fn law_gate_windows_last_twenty_milliseconds(sample_rate: u32)
    ensures
        gate_window(sample_rate) >= 1,
        sample_rate >= 50 ==> gate_window(sample_rate) * 1000 <= 20 * sample_rate < (gate_window(
            sample_rate,
        ) + 1) * 1000,
        sample_rate < 50 ==> gate_window(sample_rate) == 1,
{
}

/// Whether `kept` is the decision on `samples` by what `loud` says of their windows.
pub open spec fn gates<S, L: Fn(&[S]) -> bool, R: Fn(usize, usize) -> bool>(
    loud: L,
    enough: R,
    samples: Seq<S>,
    window: nat,
    kept: bool,
) -> bool {
    exists|verdicts: Seq<bool>| #[trigger]
        verdicts_on(loud, samples, window, verdicts) && keeps_by(enough, verdicts, kept)
}

/// Dependency-free RMS energy gate (20 ms windows). Lets steady noise through.
pub struct EnergyGate<L, R> {
    loud: L,
    enough: R,
    window: usize,
}

impl<L, R> EnergyGate<L, R> {
    /// The samples in a window.
    pub closed spec fn window(&self) -> nat {
        self.window as nat
    }

    /// What judges a window.
    pub closed spec fn loud(&self) -> L {
        self.loud
    }

    /// What judges the active fraction.
    pub closed spec fn enough(&self) -> R {
        self.enough
    }

    /// A gate for segments at `sample_rate`: `loud` tells whether the level of a window
    /// reaches the threshold, and `enough` whether so many active windows of so many
    /// reach the ratio.
    pub fn new(sample_rate: u32, loud: L, enough: R) -> (gate: Self)
        ensures
            gate.window() == if sample_rate < 50 { 1 } else { sample_rate as nat / 50 },
            gate.window() == gate_window(sample_rate),
            gate.window() > 0,
            sample_rate >= 50 ==> gate.window() * 1000 <= 20 * sample_rate < (gate.window() + 1)
                * 1000,
            gate.loud() == loud,
            gate.enough() == enough,
    {
        let window: u32 = if sample_rate / 50 > 1 { sample_rate / 50 } else { 1 };
        EnergyGate { loud, enough, window: window as usize }
    }

    /// Whether enough windows of `samples` are loud.
    pub fn is_active<S>(&self, samples: &[S]) -> (kept: bool) where
        L: Fn(&[S]) -> bool,
        R: Fn(usize, usize) -> bool,

        requires
            self.window() > 0,
            forall|w: &[S]| call_requires(self.loud(), (w,)),
            forall|a: usize, t: usize| call_requires(self.enough(), (a, t)),
        ensures
            gates(self.loud(), self.enough(), samples@, self.window(), kept),
            exists|verdicts: Seq<bool>| #[trigger]
                verdicts_on(self.loud(), samples@, self.window(), verdicts) && decides(
                    self.enough(),
                    count_true(verdicts),
                    verdicts.len(),
                    kept,
                ),
    {
        let mut verdicts: Vec<bool> = Vec::new();
        let mut start: usize = 0;
        let ghost w = self.window as int;
        assert forall|s: &[S]| call_requires(self.loud, (s,)) by {
            assert(call_requires(self.loud(), (s,)));
        }
        assert forall|a: usize, t: usize| call_requires(self.enough, (a, t)) by {
            assert(call_requires(self.enough(), (a, t)));
        }
        proof {
            assert(0 * w == 0);
            vstd::arithmetic::div_mod::lemma_basic_div(w - 1, w);
        }
        while start < samples.len()
            invariant
                start <= samples@.len(),
                w == self.window > 0,
                start == verdicts@.len() * w || start == samples@.len(),
                start == samples@.len() ==> verdicts@.len() == window_count(
                    samples@.len(),
                    w as nat,
                ),
                forall|s: &[S]| call_requires(self.loud, (s,)),
                forall|i: int|
                    0 <= i < verdicts@.len() ==> hears(
                        self.loud,
                        window_at(samples@, w as nat, i),
                        #[trigger] verdicts@[i],
                    ),
            decreases samples.len() - start,
        {
            let end: usize = if samples.len() - start > self.window {
                start + self.window
            } else {
                samples.len()
            };
            let piece = &samples[start..end];
            let verdict: bool = (self.loud)(piece);
            proof {
                let i = verdicts@.len() as int;
                assert((i + 1) * w == i * w + w) by (nonlinear_arith);
                assert(piece@ =~= window_at(samples@, w as nat, i));
                assert(hears(self.loud, window_at(samples@, w as nat, i), verdict));
                if end == samples@.len() {
                    lemma_last_window(samples@.len(), w as nat, i as nat);
                }
            }
            verdicts.push(verdict);
            start = end;
        }
        let kept: bool = keep_by_verdicts(verdicts.as_slice(), &self.enough);
        assert(verdicts_on(self.loud(), samples@, self.window(), verdicts@));
        kept
    }
}

/// The samples in a window of the speech model.
pub const SPEECH_WINDOW: usize = 512;

/// Whether `full` is `part`, filled up with silence to `len` samples.
pub open spec fn filled_up<S: Default>(full: Seq<S>, part: Seq<S>, len: nat) -> bool {
    &&& full.len() == len
    &&& part.len() <= len
    &&& full.take(part.len() as int) == part
    &&& forall|i: int| part.len() <= i < len ==> is_silence(#[trigger] full[i])
}

/// Fill `buf` up with silence to `len` samples.
pub(crate) fn fill_up<S: Copy + Default>(buf: &mut Vec<S>, len: usize)
    requires
        old(buf)@.len() <= len,
    ensures
        filled_up(final(buf)@, old(buf)@, len as nat),
{
    let ghost part = buf@;
    assert(buf@.take(part.len() as int) =~= part);
    while buf.len() < len
        invariant
            part.len() <= buf@.len() <= len,
            buf@.take(part.len() as int) == part,
            forall|i: int| part.len() <= i < buf@.len() ==> is_silence(#[trigger] buf@[i]),
        decreases len - buf.len(),
    {
        let ghost before = buf@;
        let silence: S = S::default();
        buf.push(silence);
        assert(buf@.take(part.len() as int) =~= before.take(part.len() as int));
    }
}

/// Whether `windows` are those of `samples`, one for each stretch of the length that the speech
/// model takes, filled up with silence where samples run out.
pub open spec fn speech_windows_of<S: Default>(samples: Seq<S>, windows: Seq<Seq<S>>) -> bool {
    &&& windows.len() == window_count(samples.len(), SPEECH_WINDOW as nat)
    &&& forall|i: int|
        0 <= i < windows.len() ==> filled_up(
            #[trigger] windows[i],
            window_at(samples, SPEECH_WINDOW as nat, i),
            SPEECH_WINDOW as nat,
        )
}

/// The windows of a segment as the speech model takes them: 512 samples each, the last filled
/// up with silence where samples run out.
pub fn speech_windows<S: Copy + Default>(samples: &[S]) -> (windows: Vec<Vec<S>>)
    ensures
        speech_windows_of(samples@, contents(windows@)),
        windows@.len() == window_count(samples@.len(), SPEECH_WINDOW as nat),
        forall|i: int|
            0 <= i < windows@.len() ==> filled_up(
                (#[trigger] windows@[i])@,
                window_at(samples@, SPEECH_WINDOW as nat, i),
                SPEECH_WINDOW as nat,
            ),
{
    let mut windows: Vec<Vec<S>> = Vec::new();
    let mut start: usize = 0;
    while start < samples.len()
        invariant
            start <= samples@.len(),
            start == windows@.len() * 512 || start == samples@.len(),
            start == samples@.len() ==> windows@.len() == window_count(samples@.len(), 512),
            forall|i: int|
                0 <= i < windows@.len() ==> filled_up(
                    (#[trigger] windows@[i])@,
                    window_at(samples@, 512, i),
                    512,
                ),
        decreases samples.len() - start,
    {
        let end: usize = if samples.len() - start > SPEECH_WINDOW {
            start + SPEECH_WINDOW
        } else {
            samples.len()
        };
        let mut window: Vec<S> = Vec::new();
        append_range(&mut window, samples, start, end);
        proof {
            let i = windows@.len() as int;
            assert(window@ =~= window_at(samples@, 512, i));
            if end == samples@.len() {
                lemma_last_window(samples@.len(), 512, i as nat);
            }
        }
        fill_up(&mut window, SPEECH_WINDOW);
        windows.push(window);
        start = end;
    }
    windows
}

pub(crate) proof fn lemma_last_window(n: nat, w: nat, i: nat)
    requires
        w > 0,
        i * w < n <= i * w + w,
    ensures
        window_count(n, w) == i + 1,
{
    let rest = n + w - 1 - (i + 1) * w;
    assert((i + 1) * w == i * w + w) by (nonlinear_arith);
    vstd::arithmetic::div_mod::lemma_fundamental_div_mod_converse(
        n + w - 1,
        w as int,
        (i + 1) as int,
        rest,
    );
}

/// The places of the active windows.
pub open spec fn active_places(verdicts: Seq<bool>) -> Set<int> {
    Set::new(|i: int| 0 <= i < verdicts.len() && verdicts[i])
}

/// What is counted is the active windows, wherever they stand: as many as there are places
/// with an active one, and as often as an active one occurs.
pub proof fn law_active_windows_are_counted(verdicts: Seq<bool>)
    ensures
        active_places(verdicts).finite(),
        count_true(verdicts) == active_places(verdicts).len(),
        count_true(verdicts) == verdicts.to_multiset().count(true),
        count_true(verdicts) <= verdicts.len(),
    decreases verdicts.len(),
{
    broadcast use vstd::seq_lib::group_to_multiset_ensures;

    if verdicts.len() == 0 {
        assert(active_places(verdicts) =~= Set::<int>::empty());
    } else {
        let (fewer, last, n) = (verdicts.drop_last(), verdicts.last(), verdicts.len() - 1);
        law_active_windows_are_counted(fewer);
        assert(verdicts =~= fewer.push(last));
        if last {
            assert(active_places(verdicts) =~= active_places(fewer).insert(n));
        } else {
            assert(active_places(verdicts) =~= active_places(fewer));
        }
    }
}

/// Windows are counted one by one: those of two stretches are those of the first and those of
/// the second, and one window counts as one if it is active and not at all otherwise.
pub proof fn law_active_windows_add_up(first: Seq<bool>, second: Seq<bool>, one: bool)
    ensures
        count_true(first + second) == count_true(first) + count_true(second),
        count_true(seq![one]) == if one { 1nat } else { 0nat },
    decreases second.len(),
{
    let single = seq![one];
    assert(single.drop_last() =~= Seq::<bool>::empty());
    assert(count_true(single.drop_last()) == 0);
    if second.len() == 0 {
        assert(first + second =~= first);
    } else {
        law_active_windows_add_up(first, second.drop_last(), one);
        assert((first + second).drop_last() =~= first + second.drop_last());
    }
}

/// The order of the windows does not matter: where as many are active, the decision is the same.
pub proof fn law_order_of_windows_does_not_matter<R: Fn(usize, usize) -> bool>(
    enough: R,
    verdicts: Seq<bool>,
    others: Seq<bool>,
    kept: bool,
)
    requires
        verdicts.to_multiset() == others.to_multiset(),
        keeps_by(enough, verdicts, kept),
    ensures
        keeps_by(enough, others, kept),
{
    broadcast use vstd::seq_lib::group_to_multiset_ensures;

    law_active_windows_are_counted(verdicts);
    law_active_windows_are_counted(others);
    assert(verdicts.len() == verdicts.to_multiset().len());
    assert(others.len() == others.to_multiset().len());
}

/// A segment is kept exactly where some window is active and the fraction of active windows
/// reaches the ratio that is asked for, here `num / den`.
pub proof fn law_fraction_decides<R: Fn(usize, usize) -> bool>(
    enough: R,
    num: nat,
    den: nat,
    verdicts: Seq<bool>,
    kept: bool,
)
    requires
        den > 0,
        verdicts.len() <= usize::MAX,
        forall|a: usize, t: usize, reached: bool|
            call_ensures(enough, (a, t), reached) ==> reached == (a * den >= num * t),
        keeps_by(enough, verdicts, kept),
    ensures
        kept <==> active_places(verdicts).len() > 0 && active_places(verdicts).len() * den >= num
            * verdicts.len(),
{
    law_active_windows_are_counted(verdicts);
}

/// Every window is judged on its own samples, and by nothing else: where `loud` goes by what a
/// window holds, the verdicts are what it says of each window in turn.
pub proof fn law_every_window_is_judged<S, L: Fn(&[S]) -> bool>(
    loud: L,
    says: spec_fn(Seq<S>) -> bool,
    samples: Seq<S>,
    window: nat,
    verdicts: Seq<bool>,
)
    requires
        window > 0,
        forall|w: &[S], verdict: bool|
            #[trigger] call_ensures(loud, (w,), verdict) ==> verdict == says(w@),
        verdicts_on(loud, samples, window, verdicts),
    ensures
        exists|windows: Seq<Seq<S>>| #[trigger]
            flattened(windows) == samples && windows.len() == verdicts.len() && (forall|i: int|
                0 <= i < windows.len() - 1 ==> (#[trigger] windows[i]).len() == window) && (
            forall|i: int|
                0 <= i < windows.len() ==> 0 < (#[trigger] windows[i]).len() <= window
                    && verdicts[i] == says(windows[i])),
{
    law_windows_cover_the_samples(samples, window);
    let n = window_count(samples.len(), window);
    let windows = Seq::new(n, |i: int| window_at(samples, window, i));
    assert forall|i: int| 0 <= i < windows.len() implies 0 < (#[trigger] windows[i]).len() <= window
        && verdicts[i] == says(windows[i]) by {
        assert(hears(loud, window_at(samples, window, i), verdicts[i]));
        if i < n - 1 {
            assert(windows[i].len() == window);
        } else {
            assert(windows[i] == windows.last());
        }
    }
    assert(flattened(windows) == samples);
}

/// The windows of a segment are all of its samples, each in one window and in order: every
/// window but the last is full, and the last not empty.
pub proof fn law_windows_cover_the_samples<S>(samples: Seq<S>, window: nat)
    requires
        window > 0,
    ensures
        ({
            let n = window_count(samples.len(), window);
            let windows = Seq::new(n, |i: int| window_at(samples, window, i));
            &&& flattened(windows) == samples
            &&& forall|i: int| 0 <= i < n - 1 ==> (#[trigger] windows[i]).len() == window
            &&& n > 0 ==> 0 < windows.last().len() <= window
        }),
{
    let n = window_count(samples.len(), window);
    let windows = Seq::new(n, |i: int| window_at(samples, window, i));
    let top = (samples.len() + window - 1) as nat;
    vstd::arithmetic::div_mod::lemma_fundamental_div_mod(top as int, window as int);
    assert(n * window <= top < n * window + window) by (nonlinear_arith)
        requires
            top == window * n + top % window,
            0 <= top % window < window,
    ;
    lemma_windows_so_far(samples, window, n);
    assert(windows.take(n as int) =~= windows);
    assert(samples.take(samples.len() as int) =~= samples);
    assert forall|i: int| 0 <= i < n - 1 implies (#[trigger] windows[i]).len() == window by {
        assert(0 <= i * window && (i + 1) * window == i * window + window && (i + 1) * window <= (n
            - 1) * window && (n - 1) * window == n * window - window) by (nonlinear_arith)
            requires
                0 <= i < n - 1,
        ;
    }
    if n > 0 {
        assert((n - 1) * window == n * window - window && 0 <= (n - 1) * window)
            by (nonlinear_arith)
            requires
                n >= 1,
        ;
    }
}

proof fn lemma_windows_so_far<S>(samples: Seq<S>, window: nat, k: nat)
    requires
        window > 0,
        k <= window_count(samples.len(), window),
    ensures
        ({
            let n = window_count(samples.len(), window);
            let windows = Seq::new(n, |i: int| window_at(samples, window, i));
            let end = k * window;
            flattened(windows.take(k as int)) == samples.take(
                if end <= samples.len() { end as int } else { samples.len() as int },
            )
        }),
    decreases k,
{
    let n = window_count(samples.len(), window);
    let windows = Seq::new(n, |i: int| window_at(samples, window, i));
    if k == 0 {
        assert(0 * window == 0);
        assert(windows.take(0) =~= Seq::<Seq<S>>::empty());
        assert(samples.take(0) =~= Seq::<S>::empty());
    } else {
        let j = (k - 1) as nat;
        lemma_windows_so_far(samples, window, j);
        let top = (samples.len() + window - 1) as nat;
        vstd::arithmetic::div_mod::lemma_fundamental_div_mod(top as int, window as int);
        assert(k * window == j * window + window && 0 <= j * window && k * window <= top)
            by (nonlinear_arith)
            requires
                top == window * n + top % window,
                0 <= top % window,
                1 <= k <= n,
                j == k - 1,
        ;
        assert(windows.take(k as int).drop_last() =~= windows.take(j as int));
        let end = if k * window <= samples.len() { (k * window) as int } else { samples.len() as int };
        assert(samples.take(end) =~= samples.take((j * window) as int) + window_at(
            samples,
            window,
            j as int,
        ));
    }
}

/// A segment in which no window is active is never kept, whatever fraction is asked for.
pub proof fn law_silence_is_dropped<R: Fn(usize, usize) -> bool>(
    enough: R,
    verdicts: Seq<bool>,
    kept: bool,
)
    requires
        forall|i: int| 0 <= i < verdicts.len() ==> !#[trigger] verdicts[i],
        decides(enough, count_true(verdicts), verdicts.len(), kept),
    ensures
        !kept,
{
    lemma_none_true(verdicts);
}

proof fn lemma_none_true(verdicts: Seq<bool>)
    requires
        forall|i: int| 0 <= i < verdicts.len() ==> !#[trigger] verdicts[i],
    ensures
        count_true(verdicts) == 0,
    decreases verdicts.len(),
{
    if verdicts.len() > 0 {
        assert forall|i: int| 0 <= i < verdicts.drop_last().len() implies !(
        #[trigger] verdicts.drop_last()[i]) by {
            assert(verdicts.drop_last()[i] == verdicts[i]);
        }
        lemma_none_true(verdicts.drop_last());
        assert(!verdicts[verdicts.len() - 1]);
    }
}

/// The speech model hears every sample of a segment, in order: its windows begin with the
/// segment's samples, one stretch after the other, and only the last is filled up, with silence.
pub proof fn law_speech_windows_hold_the_samples<S: Default>(
    samples: Seq<S>,
    windows: Seq<Seq<S>>,
)
    requires
        speech_windows_of(samples, windows),
    ensures
        ({
            let n = windows.len() as int;
            let left = samples.len() - (n - 1) * SPEECH_WINDOW;
            &&& forall|i: int| 0 <= i < n ==> (#[trigger] windows[i]).len() == SPEECH_WINDOW
            &&& n == 0 ==> samples.len() == 0
            &&& n > 0 ==> {
                &&& 0 < left <= SPEECH_WINDOW
                &&& flattened(windows.drop_last()) + windows.last().take(left) == samples
                &&& forall|k: int|
                    left <= k < SPEECH_WINDOW ==> is_silence(#[trigger] windows.last()[k])
            }
        }),
{
    let w = SPEECH_WINDOW as nat;
    let n = windows.len();
    law_windows_cover_the_samples(samples, w);
    let plain = Seq::new(n, |i: int| window_at(samples, w, i));
    assert(plain =~= Seq::new(
        window_count(samples.len(), w),
        |i: int| window_at(samples, w, i),
    ));
    if n > 0 {
        assert((n - 1) * w < samples.len() <= n * w);
        assert forall|i: int| 0 <= i < n - 1 implies windows[i] == plain[i] by {
            assert(filled_up(windows[i], window_at(samples, w, i), w));
            assert(plain[i].len() == w);
            assert(windows[i].take(w as int) =~= windows[i]);
        }
        assert(windows.drop_last() =~= plain.drop_last());
        let last = n - 1;
        assert(filled_up(windows[last], window_at(samples, w, last), w));
        assert(plain.last().len() == samples.len() - last * w);
    } else {
        assert(flattened(plain) =~= Seq::<S>::empty());
    }
}

/// Which of these windows are loud.
pub open spec fn loud_places<S>(windows: Seq<Seq<S>>, says: spec_fn(Seq<S>) -> bool) -> Set<int> {
    Set::new(|i: int| 0 <= i < windows.len() && says(windows[i]))
}

/// A gate keeps a segment by the fraction of its windows that are loud: cut into windows, which
/// are returned, all of them full but the last, it is kept exactly where one of them is loud and
/// the number of loud ones is at least `num / den` of all.
pub proof fn law_gate_keeps_by_the_fraction<
    S,
    L: Fn(&[S]) -> bool,
    R: Fn(usize, usize) -> bool,
>(
    loud: L,
    says: spec_fn(Seq<S>) -> bool,
    enough: R,
    num: nat,
    den: nat,
    samples: Seq<S>,
    window: nat,
    kept: bool,
) -> (windows: Seq<Seq<S>>)
    requires
        window > 0,
        den > 0,
        samples.len() <= usize::MAX,
        forall|w: &[S], verdict: bool|
            #[trigger] call_ensures(loud, (w,), verdict) ==> verdict == says(w@),
        forall|a: usize, t: usize, reached: bool|
            call_ensures(enough, (a, t), reached) ==> reached == (a * den >= num * t),
        gates(loud, enough, samples, window, kept),
    ensures
        flattened(windows) == samples,
        forall|i: int| 0 <= i < windows.len() - 1 ==> (#[trigger] windows[i]).len() == window,
        forall|i: int| 0 <= i < windows.len() ==> 0 < (#[trigger] windows[i]).len() <= window,
        kept <==> loud_places(windows, says).len() > 0 && loud_places(windows, says).len() * den
            >= num * windows.len(),
{
    let verdicts = choose|verdicts: Seq<bool>| #[trigger]
        verdicts_on(loud, samples, window, verdicts) && keeps_by(enough, verdicts, kept);
    law_every_window_is_judged(loud, says, samples, window, verdicts);
    let windows = choose|windows: Seq<Seq<S>>| #[trigger]
        flattened(windows) == samples && windows.len() == verdicts.len() && (forall|i: int|
            0 <= i < windows.len() - 1 ==> (#[trigger] windows[i]).len() == window) && (forall|
            i: int,
        |
            0 <= i < windows.len() ==> 0 < (#[trigger] windows[i]).len() <= window && verdicts[i]
                == says(windows[i]));
    assert(verdicts.len() <= samples.len()) by {
        vstd::arithmetic::div_mod::lemma_fundamental_div_mod(
            samples.len() + window - 1,
            window as int,
        );
        let n = window_count(samples.len(), window);
        let top = samples.len() + window - 1;
        assert(n <= samples.len()) by (nonlinear_arith)
            requires
                top == window * n + top % (window as int),
                0 <= top % (window as int),
                top == samples.len() + window - 1,
                window > 0,
        ;
    }
    law_fraction_decides(enough, num, den, verdicts, kept);
    assert forall|i: int| active_places(verdicts).contains(i) == loud_places(windows, says).contains(
        i,
    ) by {
        if 0 <= i < windows.len() {
            assert(windows[i].len() > 0);
        }
    }
    assert(active_places(verdicts) =~= loud_places(windows, says));
    windows
}

} // verus!
