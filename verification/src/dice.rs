//! Random draws from a seeded generator.
use rand::rngs::StdRng;
use rand::{Rng, SeedableRng};
use vstd::prelude::*;

verus! {

/// `rand`'s standard generator.
#[verifier::external_type_specification]
#[verifier::external_body]
pub struct ExStdRng(StdRng);

/// A generator for the seed: `rand::SeedableRng::seed_from_u64` of `StdRng`.
/// Nothing is claimed of what it will draw; the same seed draws the same.
#[verifier::external_body]
fn seeded(seed: u64) -> (r: StdRng) {
    StdRng::seed_from_u64(seed)
}

/// A uniform draw below `n`: `rand::Rng::gen_range` over `0..n`, which draws
/// within its range and panics on an empty one.
#[verifier::external_body]
fn roll_below(rng: &mut StdRng, n: u64) -> (r: u64)
    requires
        n > 0,
    ensures
        r < n,
{
    rng.gen_range(0..n)
}

/// A uniform draw from one to `most`: `rand::Rng::gen_range` over `1..=most`,
/// which draws within its range and panics on an empty one.
#[verifier::external_body]
fn roll_up_to(rng: &mut StdRng, most: u64) -> (r: u64)
    requires
        most >= 1,
    ensures
        1 <= r <= most,
{
    rng.gen_range(1..=most)
}

/// Whether the generator is one that the seed gives.
pub closed spec fn grown_from(seed: u64, rng: StdRng) -> bool {
    call_ensures(seeded, (seed,), rng)
}

/// Whether a draw below `n` may give the number.
pub closed spec fn drawn_below(n: u64, r: u64) -> bool {
    exists|g: &mut StdRng| #[trigger] call_ensures(roll_below, (g, n), r)
}

/// Whether a draw from one to `most` may give the number.
pub closed spec fn drawn_up_to(most: u64, r: u64) -> bool {
    exists|g: &mut StdRng| #[trigger] call_ensures(roll_up_to, (g, most), r)
}

/// A generator for the seed.
pub(crate) fn generator(seed: u64) -> (r: StdRng)
    ensures
        grown_from(seed, r),
{
    seeded(seed)
}

/// A uniform draw below `n`.
pub(crate) fn draw_below(rng: &mut StdRng, n: u64) -> (r: u64)
    requires
        n > 0,
    ensures
        r < n,
        drawn_below(n, r),
{
    roll_below(rng, n)
}

/// A uniform draw from one to `most`.
pub(crate) fn draw_up_to(rng: &mut StdRng, most: u64) -> (r: u64)
    requires
        most >= 1,
    ensures
        1 <= r <= most,
        drawn_up_to(most, r),
{
    roll_up_to(rng, most)
}

} // verus!
