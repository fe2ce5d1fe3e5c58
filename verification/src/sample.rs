//! What a sample type has to offer, and which samples a resampler can take.
//!
//! The transform behind a resampler adds up thousands of samples, scaled ones among them, and
//! cannot go on from a sum that is no finite number. So a sample needs headroom: scaled up by
//! more than any sum can grow, it is still finite.

use core::ops::{Mul, Sub};
use vstd::prelude::*;
use vstd::std_specs::ops::{MulSpec, SubSpec};

verus! {

/// A type of samples: it has silence, an order, products and differences, and the whole numbers
/// of 16 bits.
pub trait Amplitude: Copy + Default + PartialOrd + From<i16> + Mul<Output = Self> + Sub<
    Output = Self,
> {

}

impl<
    S: Copy + Default + PartialOrd + From<i16> + Mul<Output = S> + Sub<Output = S>,
> Amplitude for S {

}

/// Whether the type has a product and a difference of any two samples, as floating-point types
/// do.
pub open spec fn computes<S: Amplitude>() -> bool {
    &&& forall|a: S, b: S| #[trigger] a.mul_req(b)
    &&& forall|a: S, b: S| #[trigger] a.sub_req(b)
}

/// The number whose fourth power is the scale of the headroom.
pub const ROOT: i16 = 32767;

/// Whether `c` is what the sample type makes of the product of `a` and `b`.
pub open spec fn product<S: Amplitude>(a: S, b: S, c: S) -> bool {
    call_ensures(<S as Mul>::mul, (a, b), c)
}

/// Whether `x` is what the sample type makes of the whole number `n`.
pub open spec fn is_whole<S: Amplitude>(n: i16, x: S) -> bool {
    call_ensures(<S as From<i16>>::from, (n,), x)
}

/// Whether `scale` is the fourth power of the root: about 2 to the power of 60.
pub open spec fn is_scale<S: Amplitude>(scale: S) -> bool {
    exists|root: S, square: S|
        is_whole(ROOT, root) && #[trigger] product(root, root, square) && #[trigger] product(
            square,
            square,
            scale,
        )
}

/// Whether `x` was found to be finite, or not to be: of a finite number, and of no other, the
/// difference from itself is a number, which is no greater than itself.
pub open spec fn finite<S: Amplitude>(x: S, answer: bool) -> bool {
    exists|zero: S| #[trigger]
        call_ensures(<S as Sub>::sub, (x, x), zero) && call_ensures(
            <S as PartialOrd>::le,
            (&zero, &zero),
            answer,
        )
}

/// Whether `x` was found to have headroom, or not to have it.
pub open spec fn headroom<S: Amplitude>(x: S, answer: bool) -> bool {
    exists|scale: S, scaled: S|
        is_scale(scale) && #[trigger] product(x, scale, scaled) && finite(scaled, answer)
}

/// Whether `x` has headroom.
pub fn has_headroom<S: Amplitude>(x: S) -> (answer: bool)
    requires
        computes::<S>(),
    ensures
        headroom(x, answer),
{
    let root = S::from(ROOT);
    let square = root.mul(root);
    let scale = square.mul(square);
    let scaled = x.mul(scale);
    let zero = scaled.sub(scaled);
    let answer: bool = zero.le(&zero);
    assert(product(root, root, square) && product(square, square, scale));
    assert(is_scale(scale));
    assert(finite(scaled, answer));
    assert(product(x, scale, scaled));
    answer
}

/// Whether every sample has headroom.
pub open spec fn all_bearable<S: Amplitude>(samples: Seq<S>) -> bool {
    forall|i: int| 0 <= i < samples.len() ==> headroom(#[trigger] samples[i], true)
}

/// Whether some sample has none.
pub open spec fn some_unbearable<S: Amplitude>(samples: Seq<S>) -> bool {
    exists|i: int| 0 <= i < samples.len() && headroom(#[trigger] samples[i], false)
}

/// Whether every sample has headroom.
pub fn are_bearable<S: Amplitude>(samples: &[S]) -> (sound: bool)
    requires
        computes::<S>(),
    ensures
        sound ==> all_bearable(samples@),
        !sound ==> some_unbearable(samples@),
{
    let mut i: usize = 0;
    while i < samples.len()
        invariant
            computes::<S>(),
            i <= samples@.len(),
            forall|k: int| 0 <= k < i ==> headroom(#[trigger] samples@[k], true),
        decreases samples.len() - i,
    {
        if !has_headroom(samples[i]) {
            assert(headroom(samples@[i as int], false));
            return false;
        }
        i = i + 1;
    }
    true
}

/// The headroom that a sample needs is wide: where numbers multiply as they should, it is left
/// when the sample is scaled up by more than 2 to the power of 59.
pub proof fn law_headroom_is_wide<S: Amplitude>(
    x: S,
    scale: S,
    scaled: S,
    weight: spec_fn(S) -> int,
)
    requires
        forall|n: i16, whole: S| #[trigger] is_whole(n, whole) ==> weight(whole) == n,
        forall|a: S, b: S, c: S|
            #[trigger] product(a, b, c) ==> weight(c) == weight(a) * weight(b),
        is_scale(scale),
        product(x, scale, scaled),
    ensures
        0x800_0000_0000_0000 < weight(scale) < 0x1000_0000_0000_0000,
        weight(scaled) == weight(x) * weight(scale),
{
    let (root, square) = choose|root: S, square: S|
        is_whole(ROOT, root) && #[trigger] product(root, root, square) && #[trigger] product(
            square,
            square,
            scale,
        );
    assert(weight(root) == 32_767);
    assert(weight(square) == 32_767 * 32_767);
    let w = weight(square);
    assert(w * w == 1_152_780_773_560_811_521) by (nonlinear_arith)
        requires
            w == 1_073_676_289,
    ;
}

} // verus!
