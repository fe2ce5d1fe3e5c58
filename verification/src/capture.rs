//! What the capture callbacks decide: which device carries system audio, how an interleaved
//! frame becomes one sample, and what is remembered of a stream that faults.
//!
//! The data callback runs on a realtime audio thread, so it does the *minimum*: downmix each
//! frame to a single mono sample and feed the ring.

use vstd::prelude::*;
use crate::error::joined;
use crate::mix::is_silence;
use crate::segmenter::flattened;
use crate::vad::{law_windows_cover_the_samples, lemma_last_window, window_at, window_count};

verus! {

/// What `str::to_lowercase` makes of a text.
pub uninterp spec fn lowercased(text: Seq<char>) -> Seq<char>;

/// Calls `str::to_lowercase`. Which letter becomes which follows from Unicode's tables and is
/// left unsaid.
#[verifier::external_body]
fn lowercase(text: &str) -> (lower: String)
    ensures
        lower@ == lowercased(text@),
{
    text.to_lowercase()
}

/// Whether `needle` stands in `text`, starting at place `i`.
pub open spec fn stands_at(text: Seq<char>, needle: Seq<char>, i: int) -> bool {
    0 <= i && i + needle.len() <= text.len() && text.subrange(i, i + needle.len()) == needle
}

/// Whether `needle` stands somewhere in `text`.
pub open spec fn stands_in(text: Seq<char>, needle: Seq<char>) -> bool {
    exists|i: int| stands_at(text, needle, i)
}

/// Whether `needle` stands in `text`, starting at place `i`.
fn agrees(text: &str, needle: &str, i: usize) -> (found: bool)
    requires
        i + needle@.len() <= text@.len(),
        text@.len() <= usize::MAX,
    ensures
        found == stands_at(text@, needle@, i as int),
{
    let m: usize = needle.unicode_len();
    let mut k: usize = 0;
    while k < m
        invariant
            m == needle@.len(),
            i + m <= text@.len() <= usize::MAX,
            k <= m,
            forall|j: int| 0 <= j < k ==> text@[i + j] == needle@[j],
        decreases m - k,
    {
        if text.get_char(i + k) != needle.get_char(k) {
            assert(!stands_at(text@, needle@, i as int)) by {
                if stands_at(text@, needle@, i as int) {
                    assert(text@.subrange(i as int, i + m)[k as int] == needle@[k as int]);
                }
            }
            return false;
        }
        k = k + 1;
    }
    assert(text@.subrange(i as int, i + m) =~= needle@);
    true
}

/// Whether `needle` stands somewhere in `text`.
pub fn holds(text: &str, needle: &str) -> (found: bool)
    ensures
        found == stands_in(text@, needle@),
{
    let n: usize = text.unicode_len();
    let m: usize = needle.unicode_len();
    if m > n {
        return false;
    }
    let mut i: usize = 0;
    while i <= n - m
        invariant
            n == text@.len(),
            m == needle@.len(),
            m <= n,
            i <= n - m + 1,
            forall|k: int| 0 <= k < i ==> !stands_at(text@, needle@, k),
        decreases n - m + 1 - i,
    {
        if agrees(text, needle, i) {
            return true;
        }
        assert(m > 0) by {
            if m == 0 {
                assert(text@.subrange(i as int, i as int) =~= needle@);
            }
        }
        i = i + 1;
    }
    false
}

/// Whether `text` ends with `needle`.
pub open spec fn stands_last(text: Seq<char>, needle: Seq<char>) -> bool {
    stands_at(text, needle, text.len() - needle.len())
}

/// Whether `text` ends with `needle`.
pub fn ends_with(text: &str, needle: &str) -> (found: bool)
    ensures
        found == stands_last(text@, needle@),
{
    let n: usize = text.unicode_len();
    let m: usize = needle.unicode_len();
    if m > n {
        return false;
    }
    agrees(text, needle, n - m)
}

/// Whether a PulseAudio source of this name, in lower case, monitors an output.
pub open spec fn is_monitor(lower: Seq<char>) -> bool {
    stands_in(lower, "monitor"@)
}

/// How closely the name of a source, in lower case, fits the output of that name.
pub enum Fit {
    /// It ends with the output's name, as in "monitor of speakers".
    Ends,
    /// It holds the output's name somewhere.
    Holds,
    /// It monitors some output.
    Any,
}

/// Whether a source of this name, in lower case, is a monitor that fits the output so closely.
pub open spec fn monitors(lower: Seq<char>, output: Seq<char>, fit: Fit) -> bool {
    is_monitor(lower) && match fit {
        Fit::Ends => stands_last(lower, output),
        Fit::Holds => stands_in(lower, output),
        Fit::Any => true,
    }
}

/// Whether `found` is the first place at which `wanted` holds, where there is one.
pub open spec fn is_first(wanted: Seq<bool>, found: Option<usize>) -> bool {
    match found {
        Some(i) => i < wanted.len() && wanted[i as int] && forall|k: int|
            0 <= k < i ==> !#[trigger] wanted[k],
        None => forall|k: int| 0 <= k < wanted.len() ==> !#[trigger] wanted[k],
    }
}

/// Which of these names, in lower case, are monitors that fit the output so closely.
pub open spec fn fitting(lower: Seq<Seq<char>>, output: Seq<char>, fit: Fit) -> Seq<bool> {
    lower.map_values(|name: Seq<char>| monitors(name, output, fit))
}

/// The names, in lower case, of which one is taken: the monitors whose names end with the
/// output's; where there is none, those that hold it; and where there is none of these
/// either, or the output is unknown, all monitors.
pub open spec fn candidates(lower: Seq<Seq<char>>, output: Option<Seq<char>>) -> Seq<bool> {
    match output {
        Some(out) => if fitting(lower, out, Fit::Ends).contains(true) {
            fitting(lower, out, Fit::Ends)
        } else if fitting(lower, out, Fit::Holds).contains(true) {
            fitting(lower, out, Fit::Holds)
        } else {
            fitting(lower, out, Fit::Any)
        },
        None => fitting(lower, Seq::empty(), Fit::Any),
    }
}

/// The texts of these strings.
pub open spec fn texts(names: Seq<String>) -> Seq<Seq<char>> {
    names.map_values(|name: String| name@)
}

/// The text of this string, where there is one.
pub open spec fn text_of(name: Option<&str>) -> Option<Seq<char>> {
    match name {
        Some(text) => Some(text@),
        None => None,
    }
}

fn first_fitting(lower: &Vec<String>, output: &str, fit: Fit) -> (found: Option<usize>)
    ensures
        is_first(fitting(texts(lower@), output@, fit), found),
        found is Some <==> fitting(texts(lower@), output@, fit).contains(true),
{
    let ghost wanted = fitting(texts(lower@), output@, fit);
    let mut i: usize = 0;
    while i < lower.len()
        invariant
            i <= lower@.len(),
            wanted == fitting(texts(lower@), output@, fit),
            forall|k: int| 0 <= k < i ==> !#[trigger] wanted[k],
        decreases lower.len() - i,
    {
        let name = lower[i].as_str();
        let fits: bool = match fit {
            Fit::Ends => ends_with(name, output),
            Fit::Holds => holds(name, output),
            Fit::Any => true,
        };
        if fits && holds(name, "monitor") {
            assert(wanted[i as int] == true);
            return Some(i);
        }
        i = i + 1;
    }
    None
}

/// The source that monitors the default output, of the sources whose names, in lower case, are
/// given: the first monitor whose name ends with the output's, or else the first whose name
/// holds it. Where the output is unknown, or no monitor bears its name, the first of all.
pub fn pick_monitor(lower: &Vec<String>, output: Option<&str>) -> (found: Option<usize>)
    ensures
        is_first(candidates(texts(lower@), text_of(output)), found),
{
    match output {
        Some(name) => {
            let found = first_fitting(lower, name, Fit::Ends);
            if found.is_some() {
                return found;
            }
            let found = first_fitting(lower, name, Fit::Holds);
            if found.is_some() {
                return found;
            }
            first_fitting(lower, name, Fit::Any)
        },
        None => {
            proof {
                reveal_strlit("");
                assert(""@ =~= Seq::<char>::empty());
            }
            first_fitting(lower, "", Fit::Any)
        },
    }
}

/// Whether `found` is the source to take of those with these names, in any spelling.
pub open spec fn finds(
    names: Seq<Seq<char>>,
    output: Option<Seq<char>>,
    found: Option<usize>,
) -> bool {
    is_first(
        candidates(
            names.map_values(|name: Seq<char>| lowercased(name)),
            match output {
                Some(text) => Some(lowercased(text)),
                None => None,
            },
        ),
        found,
    )
}

/// What is found for system audio is a monitor, and there is one to be found exactly where some
/// source is one. Where the default output is known, none whose name ends with the output's
/// comes before it, in any spelling; where it is not, no monitor at all does.
pub proof fn law_found_source_is_a_monitor(
    names: Seq<Seq<char>>,
    output: Option<Seq<char>>,
    found: Option<usize>,
    k: int,
)
    requires
        finds(names, output, found),
        0 <= k < names.len(),
    ensures
        found matches Some(i) ==> i < names.len() && stands_in(
            lowercased(names[i as int]),
            "monitor"@,
        ),
        stands_in(lowercased(names[k]), "monitor"@) ==> found is Some,
        output is None && stands_in(lowercased(names[k]), "monitor"@) ==> found->0 <= k,
        output is Some && stands_in(lowercased(names[k]), "monitor"@) && stands_last(
            lowercased(names[k]),
            lowercased(output->0),
        ) ==> found->0 <= k && stands_last(
            lowercased(names[found->0 as int]),
            lowercased(output->0),
        ),
{
    let lower = names.map_values(|name: Seq<char>| lowercased(name));
    assert(lower[k] == lowercased(names[k]));
    match output {
        Some(text) => {
            law_monitor_is_the_outputs(lower, lowercased(text), found);
            assert(monitors(lower[k], lowercased(text), Fit::Any) == is_monitor(lower[k]));
        },
        None => {
            let any = fitting(lower, Seq::empty(), Fit::Any);
            assert(any[k] == is_monitor(lower[k]));
            if found is Some {
                assert(any[found->0 as int]);
            }
        },
    }
}

/// The source that monitors the default output, in any spelling of the names: the first
/// monitor whose name ends with the output's, or else the first whose name holds it. Where
/// the output is unknown, or no monitor bears its name, the first of all.
pub fn find_monitor(names: &Vec<String>, default_output: Option<&str>) -> (found: Option<usize>)
    ensures
        finds(texts(names@), text_of(default_output), found),
        is_first(
            candidates(
                texts(names@).map_values(|name: Seq<char>| lowercased(name)),
                match default_output {
                    Some(output) => Some(lowercased(output@)),
                    None => None,
                },
            ),
            found,
        ),
{
    let mut lower: Vec<String> = Vec::new();
    let mut i: usize = 0;
    while i < names.len()
        invariant
            i <= names@.len(),
            lower@.len() == i,
            forall|k: int| 0 <= k < i ==> (#[trigger] lower@[k])@ == lowercased(names@[k]@),
        decreases names.len() - i,
    {
        lower.push(lowercase(names[i].as_str()));
        i = i + 1;
    }
    assert(texts(lower@) =~= texts(names@).map_values(|name: Seq<char>| lowercased(name)));
    match default_output {
        Some(output) => {
            let output = lowercase(output);
            pick_monitor(&lower, Some(output.as_str()))
        },
        None => pick_monitor(&lower, None),
    }
}

/// There is a monitor to be found exactly where some source monitors an output, and none fits
/// the default output more closely than what is found: it is the first whose name ends with
/// the output's if any does, and else the first whose name holds it if any does.
pub proof fn law_monitor_is_the_outputs(
    lower: Seq<Seq<char>>,
    output: Seq<char>,
    found: Option<usize>,
)
    requires
        is_first(candidates(lower, Some(output)), found),
    ensures
        found is None <==> forall|k: int|
            0 <= k < lower.len() ==> !is_monitor(#[trigger] lower[k]),
        found matches Some(i) ==> i < lower.len() && is_monitor(lower[i as int]),
        forall|k: int|
            0 <= k < lower.len() && monitors(#[trigger] lower[k], output, Fit::Ends) ==> found
                is Some && found->0 <= k && monitors(lower[found->0 as int], output, Fit::Ends),
        forall|k: int|
            0 <= k < lower.len() && monitors(#[trigger] lower[k], output, Fit::Holds) ==> found
                is Some && monitors(lower[found->0 as int], output, Fit::Holds) && (found->0 <= k
                || monitors(lower[found->0 as int], output, Fit::Ends)),
{
    let ends = fitting(lower, output, Fit::Ends);
    let held = fitting(lower, output, Fit::Holds);
    let any = fitting(lower, output, Fit::Any);
    let wanted = candidates(lower, Some(output));
    assert forall|k: int| 0 <= k < lower.len() && monitors(#[trigger] lower[k], output, Fit::Ends)
        implies found is Some && found->0 <= k && monitors(
        lower[found->0 as int],
        output,
        Fit::Ends,
    ) by {
        assert(ends[k] == true);
        assert(ends.contains(true));
        assert(wanted[k]);
        assert(ends[found->0 as int]);
    }
    assert forall|k: int| 0 <= k < lower.len() && monitors(#[trigger] lower[k], output, Fit::Holds)
        implies found is Some && monitors(lower[found->0 as int], output, Fit::Holds) && (found->0
        <= k || monitors(lower[found->0 as int], output, Fit::Ends)) by {
        assert(held[k] == true);
        assert(held.contains(true));
        if ends.contains(true) {
            let e = choose|e: int| 0 <= e < ends.len() && ends[e] == true;
            assert(wanted[e]);
            assert(ends[found->0 as int]);
            let name = lower[found->0 as int];
            assert(stands_at(name, output, name.len() - output.len()));
        } else {
            assert(wanted[k]);
            assert(held[found->0 as int]);
        }
    }
    if found is None {
        assert forall|k: int| 0 <= k < lower.len() implies !is_monitor(#[trigger] lower[k]) by {
            assert(!wanted[k]);
            assert(any[k] == is_monitor(lower[k]));
        }
    } else {
        assert(wanted[found->0 as int]);
    }
}

/// Whether `sums` runs from silence over the samples of `frame`, each step what `plus` makes
/// of the sum so far and the next sample.
pub open spec fn sums_up<T, S: Default, F: Fn(S, T) -> S>(
    plus: F,
    frame: Seq<T>,
    sums: Seq<S>,
) -> bool {
    &&& sums.len() == frame.len() + 1
    &&& is_silence(sums[0])
    &&& forall|k: int|
        0 <= k < frame.len() ==> call_ensures(plus, (sums[k], #[trigger] frame[k]), sums[k + 1])
}

/// Whether `mono` is the share that one channel has of the sum of `frame`.
pub open spec fn downmixes<T, S: Default, F: Fn(S, T) -> S, D: Fn(S) -> S>(
    plus: F,
    share: D,
    frame: Seq<T>,
    mono: S,
) -> bool {
    exists|sums: Seq<S>| #[trigger]
        sums_up(plus, frame, sums) && call_ensures(share, (sums.last(),), mono)
}

/// Whether `out` has one mono sample for each frame of `channels` samples, the last frame perhaps
/// in part.
pub open spec fn downmixed<T, S: Default, F: Fn(S, T) -> S, D: Fn(S) -> S>(
    plus: F,
    share: D,
    data: Seq<T>,
    channels: nat,
    out: Seq<S>,
) -> bool {
    &&& out.len() == window_count(data.len(), channels)
    &&& forall|i: int|
        0 <= i < out.len() ==> downmixes(
            plus,
            share,
            window_at(data, channels, i),
            #[trigger] out[i],
        )
}

/// Downmixing hears every sample, each in one frame and in order: the frames, one after the
/// other, are the samples, and all but the last hold a sample of every channel.
pub proof fn law_downmix_hears_every_sample<T, S: Default, F: Fn(S, T) -> S, D: Fn(S) -> S>(
    plus: F,
    share: D,
    data: Seq<T>,
    channels: nat,
    out: Seq<S>,
) -> (frames: Seq<Seq<T>>)
    requires
        channels > 0,
        downmixed(plus, share, data, channels, out),
    ensures
        flattened(frames) == data,
        frames.len() == out.len(),
        forall|i: int| 0 <= i < frames.len() - 1 ==> (#[trigger] frames[i]).len() == channels,
        forall|i: int| 0 <= i < frames.len() ==> 0 < (#[trigger] frames[i]).len() <= channels,
        forall|i: int|
            0 <= i < frames.len() ==> downmixes(plus, share, #[trigger] frames[i], out[i]),
{
    law_windows_cover_the_samples(data, channels);
    let frames = Seq::new(
        window_count(data.len(), channels),
        |i: int| window_at(data, channels, i),
    );
    assert forall|i: int| 0 <= i < frames.len() implies 0 < (#[trigger] frames[i]).len()
        <= channels by {
        if i == frames.len() - 1 {
            assert(frames[i] == frames.last());
        }
    }
    assert forall|i: int| 0 <= i < frames.len() implies downmixes(
        plus,
        share,
        #[trigger] frames[i],
        out[i],
    ) by {
        assert(downmixes(plus, share, window_at(data, channels, i), out[i]));
    }
    frames
}

/// The share that one channel has of the sum of `frame`.
fn mono_of<T: Copy, S: Copy + Default, F: Fn(S, T) -> S, D: Fn(S) -> S>(
    frame: &[T],
    plus: &F,
    share: &D,
) -> (mono: S)
    requires
        forall|a: S, s: T| call_requires(*plus, (a, s)),
        forall|a: S| call_requires(*share, (a,)),
    ensures
        downmixes(*plus, *share, frame@, mono),
{
    let mut acc: S = S::default();
    let ghost mut sums: Seq<S> = seq![acc];
    let mut k: usize = 0;
    while k < frame.len()
        invariant
            k <= frame@.len(),
            forall|a: S, s: T| call_requires(*plus, (a, s)),
            sums.len() == k + 1,
            sums.last() == acc,
            is_silence(sums[0]),
            forall|j: int|
                0 <= j < k ==> call_ensures(*plus, (sums[j], #[trigger] frame@[j]), sums[j + 1]),
        decreases frame.len() - k,
    {
        let ghost before = sums;
        acc = plus(acc, frame[k]);
        proof {
            sums = sums.push(acc);
            assert forall|j: int| 0 <= j < k + 1 implies call_ensures(
                *plus,
                (sums[j], #[trigger] frame@[j]),
                sums[j + 1],
            ) by {
                if j < k {
                    assert(sums[j] == before[j] && sums[j + 1] == before[j + 1]);
                }
            }
        }
        k = k + 1;
    }
    let mono: S = share(acc);
    assert(sums_up(*plus, frame@, sums));
    mono
}

/// Downmix interleaved samples: one mono sample in `out` for each frame of `channels` samples,
/// the last frame perhaps in part. `plus` adds a sample to a sum, `share` divides a sum by the
/// number of channels.
pub fn downmix<T: Copy, S: Copy + Default, F: Fn(S, T) -> S, D: Fn(S) -> S>(
    data: &[T],
    channels: usize,
    plus: &F,
    share: &D,
    out: &mut Vec<S>,
)
    requires
        channels > 0,
        forall|a: S, s: T| call_requires(*plus, (a, s)),
        forall|a: S| call_requires(*share, (a,)),
    ensures
        downmixed(*plus, *share, data@, channels as nat, final(out)@),
        final(out)@.len() == window_count(data@.len(), channels as nat),
        forall|i: int|
            0 <= i < final(out)@.len() ==> downmixes(
                *plus,
                *share,
                window_at(data@, channels as nat, i),
                #[trigger] final(out)@[i],
            ),
{
    out.clear();
    let ghost w = channels as int;
    let mut start: usize = 0;
    proof {
        assert(0 * w == 0);
        vstd::arithmetic::div_mod::lemma_basic_div(w - 1, w);
    }
    while start < data.len()
        invariant
            start <= data@.len(),
            w == channels > 0,
            forall|a: S, s: T| call_requires(*plus, (a, s)),
            forall|a: S| call_requires(*share, (a,)),
            start == out@.len() * w || start == data@.len(),
            start == data@.len() ==> out@.len() == window_count(data@.len(), w as nat),
            forall|i: int|
                0 <= i < out@.len() ==> downmixes(
                    *plus,
                    *share,
                    window_at(data@, w as nat, i),
                    #[trigger] out@[i],
                ),
        decreases data.len() - start,
    {
        let end: usize = if data.len() - start > channels { start + channels } else { data.len() };
        let frame = &data[start..end];
        let mono: S = mono_of(frame, plus, share);
        proof {
            let i = out@.len() as int;
            assert((i + 1) * w == i * w + w) by (nonlinear_arith);
            assert(frame@ =~= window_at(data@, w as nat, i));
            if end == data@.len() {
                lemma_last_window(data@.len(), w as nat, i as nat);
            }
        }
        out.push(mono);
        start = end;
    }
}

/// What is remembered of a fault of the stream `label`.
pub open spec fn fault_text(label: Seq<char>, reason: Seq<char>) -> Seq<char> {
    "["@ + label + "] "@ + reason
}

/// Whether `after` is what is remembered once the stream `label` has faulted.
pub open spec fn remembers(
    before: Option<String>,
    label: Seq<char>,
    reason: Seq<char>,
    after: Option<String>,
) -> bool {
    match before {
        Some(_) => after == before,
        None => after matches Some(text) && text@ == fault_text(label, reason),
    }
}

/// A fault is remembered with the name of its stream, in brackets, and its reason in full; and
/// of two faults the first.
pub proof fn law_first_fault_is_remembered(
    label: Seq<char>,
    reason: Seq<char>,
    first: Option<String>,
    other: Seq<char>,
    later: Seq<char>,
    second: Option<String>,
)
    requires
        remembers(None, label, reason, first),
        remembers(first, other, later, second),
    ensures
        second == first,
        first is Some,
        first->0@.len() == label.len() + reason.len() + 3,
        first->0@[0] == '[',
        first->0@.subrange(1, label.len() as int + 1) == label,
        first->0@[label.len() as int + 1] == ']',
        first->0@[label.len() as int + 2] == ' ',
        first->0@.skip(label.len() as int + 3) == reason,
{
    reveal_strlit("[");
    reveal_strlit("] ");
    let text = fault_text(label, reason);
    assert(text.subrange(1, label.len() as int + 1) =~= label);
    assert(text.skip(label.len() as int + 3) =~= reason);
}

/// Remember the first fault of any stream, for the worker to stop on and to report.
pub fn record_fault(slot: &mut Option<String>, label: &str, reason: &str)
    ensures
        remembers(*old(slot), label@, reason@, *final(slot)),
        match *old(slot) {
            Some(_) => *final(slot) == *old(slot),
            None => *final(slot) is Some && (*final(slot))->0@ == "["@ + label@ + "] "@ + reason@,
        },
{
    if slot.is_none() {
        *slot = Some(joined("[", label).concat("] ").concat(reason));
    }
}

/// A text holds another wherever it is made of what stands before it, of it, and of what stands
/// behind it, and ends with it where nothing stands behind it.
pub proof fn law_texts_are_found_where_they_stand(
    before: Seq<char>,
    needle: Seq<char>,
    behind: Seq<char>,
)
    ensures
        stands_in(before + needle + behind, needle),
        stands_last(before + needle, needle),
{
    let text = before + needle + behind;
    let i = before.len() as int;
    assert(text.subrange(i, i + needle.len()) =~= needle);
    assert(stands_at(text, needle, i));
    assert((before + needle).subrange(i, i + needle.len()) =~= needle);
}

/// Where a text is found to hold another, it is made of two stretches, which are returned, with
/// the other between them; and where it is found to end with it, the second is empty.
pub proof fn law_found_texts_stand_there(text: Seq<char>, needle: Seq<char>) -> (around: (
    Seq<char>,
    Seq<char>,
))
    requires
        stands_in(text, needle),
    ensures
        text == around.0 + needle + around.1,
        stands_last(text, needle) ==> around.1.len() == 0,
{
    let i = if stands_last(text, needle) {
        text.len() - needle.len()
    } else {
        choose|i: int| stands_at(text, needle, i)
    };
    assert(stands_at(text, needle, i));
    let around = (text.take(i), text.skip(i + needle.len()));
    assert(text =~= around.0 + needle + around.1) by {
        assert forall|k: int| 0 <= k < text.len() implies text[k] == (around.0 + needle
            + around.1)[k] by {
            if i <= k < i + needle.len() {
                assert(text.subrange(i, i + needle.len())[k - i] == needle[k - i]);
            }
        }
    }
    around
}

/// The sum of what each sample of a frame counts for.
pub open spec fn total<T>(frame: Seq<T>, counts: spec_fn(T) -> int) -> int
    decreases frame.len(),
{
    if frame.len() == 0 {
        0
    } else {
        total(frame.drop_last(), counts) + counts(frame.last())
    }
}

/// Every channel takes part in a mono sample, once: where adding a sample adds what it counts
/// for, and silence counts for nothing, what is divided is the sum over all channels.
pub proof fn law_downmix_sums_every_channel<T, S: Default, F: Fn(S, T) -> S, D: Fn(S) -> S>(
    plus: F,
    share: D,
    frame: Seq<T>,
    mono: S,
    weight: spec_fn(S) -> int,
    counts: spec_fn(T) -> int,
)
    requires
        forall|silence: S| is_silence(silence) ==> #[trigger] weight(silence) == 0,
        forall|a: S, s: T, sum: S|
            #[trigger] call_ensures(plus, (a, s), sum) ==> weight(sum) == weight(a) + counts(s),
        downmixes(plus, share, frame, mono),
    ensures
        exists|sum: S| #[trigger]
            call_ensures(share, (sum,), mono) && weight(sum) == total(frame, counts),
{
    let sums = choose|sums: Seq<S>| #[trigger]
        sums_up(plus, frame, sums) && call_ensures(share, (sums.last(),), mono);
    lemma_sums_weigh(plus, frame, sums, weight, counts, frame.len() as int);
    assert(frame.take(frame.len() as int) =~= frame);
    assert(call_ensures(share, (sums.last(),), mono));
}

proof fn lemma_sums_weigh<T, S: Default, F: Fn(S, T) -> S>(
    plus: F,
    frame: Seq<T>,
    sums: Seq<S>,
    weight: spec_fn(S) -> int,
    counts: spec_fn(T) -> int,
    k: int,
)
    requires
        forall|silence: S| is_silence(silence) ==> #[trigger] weight(silence) == 0,
        forall|a: S, s: T, sum: S|
            #[trigger] call_ensures(plus, (a, s), sum) ==> weight(sum) == weight(a) + counts(s),
        sums_up(plus, frame, sums),
        0 <= k <= frame.len(),
    ensures
        weight(sums[k]) == total(frame.take(k), counts),
    decreases k,
{
    if k > 0 {
        lemma_sums_weigh(plus, frame, sums, weight, counts, k - 1);
        assert(call_ensures(plus, (sums[k - 1], frame[k - 1]), sums[k - 1 + 1]));
        assert(frame.take(k).drop_last() =~= frame.take(k - 1));
    }
}

} // verus!
