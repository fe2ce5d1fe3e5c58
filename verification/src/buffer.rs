//! Small operations on buffers of samples.

use vstd::prelude::*;

verus! {

/// Append `input[from..to]` to `buf`.
pub(crate) fn append_range<S: Copy>(buf: &mut Vec<S>, input: &[S], from: usize, to: usize)
    requires
        from <= to <= input@.len(),
    ensures
        final(buf)@ == old(buf)@ + input@.subrange(from as int, to as int),
{
    let mut i: usize = from;
    while i < to
        invariant
            from <= i <= to <= input@.len(),
            buf@ == old(buf)@ + input@.subrange(from as int, i as int),
        decreases to - i,
    {
        buf.push(input[i]);
        i = i + 1;
        assert(input@.subrange(from as int, i as int) =~= input@.subrange(
            from as int,
            i - 1,
        ).push(input@[i - 1]));
    }
}

/// Append `input` to `buf`.
pub(crate) fn append_all<S: Copy>(buf: &mut Vec<S>, input: &[S])
    ensures
        final(buf)@ == old(buf)@ + input@,
{
    append_range(buf, input, 0, input.len());
    assert(input@.subrange(0, input@.len() as int) =~= input@);
}

/// Remove the first `n` samples of `buf`.
pub(crate) fn remove_front<S>(buf: &mut Vec<S>, n: usize)
    requires
        n <= old(buf)@.len(),
    ensures
        final(buf)@ == old(buf)@.skip(n as int),
{
    let tail = buf.split_off(n);
    *buf = tail;
    assert(buf@ =~= old(buf)@.skip(n as int));
}

} // verus!
