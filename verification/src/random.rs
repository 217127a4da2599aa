//! The draws that the simulation makes from a seedable random number
//! generator. The generator is handed in by the caller; nothing here creates
//! one.

use rand::seq::SliceRandom;
use rand::Rng;
use vstd::prelude::*;

verus! {

/// `rand::rngs::StdRng`, the seedable generator that every draw comes from.
/// Nothing is known of its state: it is only handed on to the draws.
#[verifier::external_type_specification]
#[verifier::external_body]
pub struct ExStdRng(rand::rngs::StdRng);

/// A probability given as a fraction.
#[derive(Clone, Copy, Debug, PartialEq, Eq, Structural)]
pub struct Ratio {
    pub numerator: u32,
    pub denominator: u32,
}

impl Ratio {
    /// The fraction stands for a probability: it lies between zero and one.
    pub open spec fn wf(self) -> bool {
        0 < self.denominator && self.numerator <= self.denominator
    }

    /// The probability zero.
    pub open spec fn is_never(self) -> bool {
        self.numerator == 0
    }

    /// The probability one.
    pub open spec fn is_always(self) -> bool {
        self.numerator == self.denominator
    }

    /// Whether the fraction stands for a probability.
    pub fn is_wf(&self) -> (ok: bool)
        ensures
            ok == self.wf(),
    {
        0 < self.denominator && self.numerator <= self.denominator
    }

    /// The probability `numerator / denominator`, or `None` where that is no
    /// probability.
    pub fn new(numerator: u32, denominator: u32) -> (ratio: Option<Ratio>)
        ensures
            ratio is Some <==> 0 < denominator && numerator <= denominator,
            ratio matches Some(r) ==> r.wf() && r.numerator == numerator && r.denominator
                == denominator,
    {
        if 0 < denominator && numerator <= denominator {
            Some(Ratio { numerator, denominator })
        } else {
            None
        }
    }

    /// The probability zero.
    pub fn never() -> (ratio: Ratio)
        ensures
            ratio.wf(),
            ratio.is_never(),
            ratio == (Ratio { numerator: 0, denominator: 1 }),
    {
        Ratio { numerator: 0, denominator: 1 }
    }

    /// The probability one.
    pub fn always() -> (ratio: Ratio)
        ensures
            ratio.wf(),
            ratio.is_always(),
            ratio == (Ratio { numerator: 1, denominator: 1 }),
    {
        Ratio { numerator: 1, denominator: 1 }
    }

    /// One half.
    pub fn half() -> (ratio: Ratio)
        ensures
            ratio.wf(),
            ratio == (Ratio { numerator: 1, denominator: 2 }),
    {
        Ratio { numerator: 1, denominator: 2 }
    }

    /// Draws a yes or no that is yes with this probability. Probability
    /// zero never gives yes and probability one always does; in between the
    /// answer is the generator's.
    pub fn sample(&self, rng: &mut rand::rngs::StdRng) -> (yes: bool)
        requires
            self.wf(),
        ensures
            self.is_never() ==> !yes,
            self.is_always() ==> yes,
    {
        draw_ratio(rng, self.numerator, self.denominator)
    }
}

/// Calls `rand::Rng::gen_range` on the inclusive range `lo..=hi`. The range
/// is not empty, so the call does not panic; all that is claimed of the
/// number drawn is that it lies in the range.
#[verifier::external_body]
pub(crate) fn draw_between(rng: &mut rand::rngs::StdRng, lo: i64, hi: i64) -> (drawn: i64)
    requires
        lo <= hi,
    ensures
        lo <= drawn <= hi,
{
    rng.gen_range(lo..=hi)
}

/// Calls `rand::Rng::gen_ratio`, which panics on a zero denominator and on a
/// numerator above the denominator. Its documentation guarantees `false` for
/// a numerator of zero and `true` for a numerator equal to the denominator;
/// nothing is claimed of the other draws.
#[verifier::external_body]
pub(crate) fn draw_ratio(rng: &mut rand::rngs::StdRng, numerator: u32, denominator: u32) -> (yes:
    bool)
    requires
        0 < denominator,
        numerator <= denominator,
    ensures
        numerator == 0 ==> !yes,
        numerator == denominator ==> yes,
{
    rng.gen_ratio(numerator, denominator)
}

/// Calls `rand::seq::SliceRandom::choose` on the names and copies the one it
/// points at. The call gives `None` exactly for an empty slice, and otherwise
/// one of the slice's elements; which one is the generator's choice.
#[verifier::external_body]
pub(crate) fn draw_name(rng: &mut rand::rngs::StdRng, names: &Vec<String>) -> (drawn: Option<
    String,
>)
    ensures
        drawn is None <==> names@.len() == 0,
        drawn matches Some(name) ==> exists|i: int| 0 <= i < names@.len() && names@[i]@ == name@,
{
    names.choose(rng).cloned()
}

} // verus!
