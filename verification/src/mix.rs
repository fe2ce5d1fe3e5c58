//! Summing microphone and system audio into one mono stream, and scaling by a gain.
//!
//! The arithmetic on samples is the caller's: these functions decide which samples meet.

use vstd::prelude::*;
use crate::buffer::{append_all, remove_front};

verus! {

/// Whether `silence` is the default value of the sample type.
pub open spec fn is_silence<S: Default>(silence: S) -> bool {
    call_ensures(S::default, (), silence)
}

/// Whether `out` is what `combine` makes of the microphone sample `m` and silence.
pub open spec fn meets_silence<S: Default, F: Fn(S, S) -> S>(combine: F, m: S, out: S) -> bool {
    exists|silence: S|
        is_silence(silence) && #[trigger] call_ensures(combine, (m, silence), out)
}

/// Whether each sample of `out` is what `combine` makes of the microphone sample at its place
/// and of the system sample there, or of silence where the system is behind.
pub open spec fn mixes<S: Default, F: Fn(S, S) -> S>(
    combine: F,
    mic: Seq<S>,
    system: Seq<S>,
    out: Seq<S>,
) -> bool {
    &&& out.len() == mic.len()
    &&& forall|i: int|
        0 <= i < mic.len() && i < system.len() ==> #[trigger] call_ensures(
            combine,
            (mic[i], system[i]),
            out[i],
        )
    &&& forall|i: int|
        system.len() <= i < mic.len() ==> #[trigger] meets_silence(combine, mic[i], out[i])
}

/// The system samples that wait for the microphone after `n` microphone samples: those that
/// have not met one, the latest `cap` of them where there are more.
pub open spec fn left_over<S>(system: Seq<S>, n: nat, cap: nat) -> Seq<S> {
    let waiting = system.skip(if n <= system.len() { n as int } else { system.len() as int });
    if waiting.len() > cap { waiting.skip(waiting.len() - cap) } else { waiting }
}

/// Mix one stretch: the microphone is the clock master; each of its samples meets the next
/// system sample, or silence where the system is behind. System samples that are ahead wait
/// in `sys_residual`, which is bounded by `cap` so that drift cannot grow memory.
pub fn mix_into<S: Copy + Default, F: Fn(S, S) -> S>(
    mic: &[S],
    sys: &[S],
    sys_residual: &mut Vec<S>,
    out: &mut Vec<S>,
    cap: usize,
    combine: &F,
)
    requires
        forall|m: S, s: S| call_requires(*combine, (m, s)),
    ensures
        mixes(*combine, mic@, old(sys_residual)@ + sys@, final(out)@),
        final(sys_residual)@ == left_over(old(sys_residual)@ + sys@, mic@.len(), cap as nat),
        final(sys_residual)@.len() <= cap,
{
    out.clear();
    append_all(sys_residual, sys);
    let ghost system = sys_residual@;
    let mut i: usize = 0;
    while i < mic.len()
        invariant
            0 <= i <= mic@.len(),
            sys_residual@ == system,
            forall|m: S, s: S| call_requires(*combine, (m, s)),
            out@.len() == i,
            forall|k: int|
                0 <= k < i && k < system.len() ==> #[trigger] call_ensures(
                    *combine,
                    (mic@[k], system[k]),
                    out@[k],
                ),
            forall|k: int|
                system.len() <= k < i ==> #[trigger] meets_silence(*combine, mic@[k], out@[k]),
        decreases mic.len() - i,
    {
        let ghost before = out@;
        let s: S = if i < sys_residual.len() { sys_residual[i] } else { S::default() };
        let mixed: S = combine(mic[i], s);
        out.push(mixed);
        proof {
            assert forall|k: int| 0 <= k < i + 1 && k < system.len() implies #[trigger] call_ensures(
                *combine,
                (mic@[k], system[k]),
                out@[k],
            ) by {
                if k < i {
                    assert(out@[k] == before[k]);
                }
            }
            assert forall|k: int| system.len() <= k < i + 1 implies #[trigger] meets_silence(
                *combine,
                mic@[k],
                out@[k],
            ) by {
                if k < i {
                    assert(out@[k] == before[k]);
                } else {
                    assert(is_silence(s) && call_ensures(*combine, (mic@[k], s), out@[k]));
                }
            }
        }
        i = i + 1;
    }
    let consumed: usize = if mic.len() < sys_residual.len() {
        mic.len()
    } else {
        sys_residual.len()
    };
    remove_front(sys_residual, consumed);
    if sys_residual.len() > cap {
        let excess: usize = sys_residual.len() - cap;
        remove_front(sys_residual, excess);
    }
}

/// Whether `scaled` is `samples` with `gain` applied, or `samples` itself where `unity` says
/// that the gain changes nothing.
pub open spec fn scales<S, G, U: Fn(G) -> bool, F: Fn(G, S) -> S>(
    unity: U,
    scale: F,
    gain: G,
    samples: Seq<S>,
    scaled: Seq<S>,
) -> bool {
    ||| call_ensures(unity, (gain,), true) && scaled == samples
    ||| call_ensures(unity, (gain,), false) && scaled.len() == samples.len() && forall|i: int|
        0 <= i < samples.len() ==> call_ensures(
            scale,
            (gain, #[trigger] samples[i]),
            scaled[i],
        )
}

/// Apply a gain in place. No-op for unity gain.
pub fn scale_in_place<S: Copy, G: Copy, U: Fn(G) -> bool, F: Fn(G, S) -> S>(
    buf: &mut Vec<S>,
    gain: G,
    unity: &U,
    scale: &F,
)
    requires
        call_requires(*unity, (gain,)),
        forall|s: S| call_requires(*scale, (gain, s)),
    ensures
        scales(*unity, *scale, gain, old(buf)@, final(buf)@),
{
    if unity(gain) {
        return ;
    }
    let mut i: usize = 0;
    while i < buf.len()
        invariant
            0 <= i <= buf@.len(),
            buf@.len() == old(buf)@.len(),
            forall|s: S| call_requires(*scale, (gain, s)),
            forall|k: int| i <= k < buf@.len() ==> buf@[k] == old(buf)@[k],
            forall|k: int|
                0 <= k < i ==> call_ensures(*scale, (gain, #[trigger] old(buf)@[k]), buf@[k]),
        decreases buf.len() - i,
    {
        let scaled: S = scale(gain, buf[i]);
        buf.set(i, scaled);
        i = i + 1;
    }
}

/// However far the system runs ahead of the microphone, no more than `cap` samples wait, and
/// they are the latest that have not met a microphone sample.
pub proof fn law_waiting_is_bounded<S>(system: Seq<S>, n: nat, cap: nat)
    ensures
        left_over(system, n, cap).len() <= cap,
        left_over(system, n, cap) == system.skip(system.len() - left_over(system, n, cap).len()),
        system.len() >= n + cap ==> left_over(system, n, cap).len() == cap,
        system.len() <= n + cap ==> left_over(system, n, cap).len() == if system.len() <= n {
            0
        } else {
            system.len() - n
        },
{
    assert(left_over(system, n, cap) =~= system.skip(
        system.len() - left_over(system, n, cap).len(),
    ));
}

/// The microphone is the clock: the mix has a sample for each of the microphone's, made of it
/// and of the system sample that arrived at the same place, or of silence where none has.
pub proof fn law_microphone_is_the_clock<S: Default, F: Fn(S, S) -> S>(
    combine: F,
    mic: Seq<S>,
    system: Seq<S>,
    out: Seq<S>,
    i: int,
)
    requires
        mixes(combine, mic, system, out),
        0 <= i < mic.len(),
    ensures
        out.len() == mic.len(),
        i < system.len() ==> call_ensures(combine, (mic[i], system[i]), out[i]),
        i >= system.len() ==> exists|silence: S| #[trigger]
            call_ensures(combine, (mic[i], silence), out[i]) && is_silence(silence),
{
    if i >= system.len() {
        assert(meets_silence(combine, mic[i], out[i]));
    }
}

/// It does not matter in which stretches two streams are mixed, as long as the system has not
/// fallen behind the microphone nor run too far ahead of it: what is mixed of a first stretch and
/// then of a second, with what waited, is the mix of both at once.
pub proof fn law_mixing_goes_on<S: Default, F: Fn(S, S) -> S>(
    combine: F,
    mic: Seq<S>,
    system: Seq<S>,
    cap: nat,
    out: Seq<S>,
    mic_next: Seq<S>,
    system_next: Seq<S>,
    out_next: Seq<S>,
)
    requires
        mic.len() <= system.len() <= mic.len() + cap,
        mixes(combine, mic, system, out),
        mixes(combine, mic_next, left_over(system, mic.len(), cap) + system_next, out_next),
    ensures
        mixes(combine, mic + mic_next, system + system_next, out + out_next),
{
    let (m, s, o) = (mic + mic_next, system + system_next, out + out_next);
    let k = mic.len() as int;
    let later = left_over(system, mic.len(), cap) + system_next;
    assert(later =~= s.skip(k));
    assert forall|i: int| 0 <= i < m.len() && i < s.len() implies #[trigger] call_ensures(
        combine,
        (m[i], s[i]),
        o[i],
    ) by {
        if i < k {
            assert(call_ensures(combine, (mic[i], system[i]), out[i]));
        } else {
            assert(call_ensures(combine, (mic_next[i - k], later[i - k]), out_next[i - k]));
        }
    }
    assert forall|i: int| s.len() <= i < m.len() implies #[trigger] meets_silence(
        combine,
        m[i],
        o[i],
    ) by {
        assert(meets_silence(combine, mic_next[i - k], out_next[i - k]));
    }
}

/// A gain applies to every sample, in its place; unity gain changes nothing.
pub proof fn law_gain_applies_to_every_sample<S, G, U: Fn(G) -> bool, F: Fn(G, S) -> S>(
    unity: U,
    scale: F,
    gain: G,
    samples: Seq<S>,
    scaled: Seq<S>,
)
    requires
        scales(unity, scale, gain, samples, scaled),
    ensures
        scaled.len() == samples.len(),
        !call_ensures(unity, (gain,), false) ==> scaled == samples,
        !call_ensures(unity, (gain,), true) ==> forall|i: int|
            0 <= i < samples.len() ==> call_ensures(
                scale,
                (gain, #[trigger] samples[i]),
                scaled[i],
            ),
{
}

} // verus!
