use rand::Rng;
use rand::SeedableRng;
use rand_pcg::Pcg32;
use vstd::prelude::*;

verus! {

/// The generator `rand_pcg::Pcg32` (`Lcg64Xsh32`). Verus sees nothing
/// inside it.
#[verifier::external_type_specification]
#[verifier::external_body]
pub struct ExPcg32(rand_pcg::Lcg64Xsh32);

/// The generator that `SeedableRng::from_seed` of `rand_pcg::Pcg32` makes
/// from the 16 bytes `seed`, before anything was drawn from it.
pub uninterp spec fn seeded_from(seed: Seq<u8>) -> Pcg32;

/// `SeedableRng::from_seed` of `rand_pcg::Pcg32`: a generator made from 16
/// bytes. The bytes alone decide which: the call reads them as two numbers,
/// low byte first, and takes nothing else in. What the generator then
/// gives is not said here.
#[verifier::external_body]
pub(crate) fn seeded(seed: [u8; 16]) -> (rng: Pcg32)
    ensures
        rng == seeded_from(seed@),
{
    Pcg32::from_seed(seed)
}

/// `Rng::gen_range(0, n)` of `rand` on a `Pcg32`: some number below `n`,
/// whichever the generator gives. `n` must not be zero: the call panics on
/// an empty range.
#[verifier::external_body]
pub(crate) fn pick_below(rng: &mut Pcg32, n: usize) -> (i: usize)
    requires
        n > 0,
    ensures
        i < n,
{
    rng.gen_range(0, n)
}

/// `Rng::gen_ratio` of `rand` on a `Pcg32`: `true` with the probability
/// `numerator / denominator`, so always for a ratio of one and never for a
/// ratio of zero. The ratio must be one that there is: the call panics on
/// a denominator of zero and on a numerator above the denominator.
#[verifier::external_body]
pub(crate) fn roll(rng: &mut Pcg32, numerator: u32, denominator: u32) -> (hit: bool)
    requires
        denominator > 0,
        numerator <= denominator,
    ensures
        numerator == denominator ==> hit,
        numerator == 0 ==> !hit,
{
    rng.gen_ratio(numerator, denominator)
}

} // verus!
