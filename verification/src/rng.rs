//! The seeded pseudo-random source of the initialiser.

use vstd::prelude::*;
use rand::rngs::StdRng;
use rand::{Rng, SeedableRng};

verus! {

/// `StdRng` of the rand crate, of which the verifier sees nothing but the
/// type.
#[verifier::external_type_specification]
#[verifier::external_body]
pub struct ExStdRng(StdRng);

/// Calls `StdRng::seed_from_u64` of the rand crate. Nothing is claimed of
/// the generator that comes back.
#[verifier::external_body]
pub(crate) fn seeded_rng(seed: u64) -> (rng: StdRng) {
    StdRng::seed_from_u64(seed)
}

/// Calls `Rng::gen_range` of the rand crate on the range `0..bound`.
/// The range must not be empty, since `gen_range` panics on an empty range;
/// the number drawn lies in the range. Which number it is, and how the
/// generator changes, is left open.
#[verifier::external_body]
pub(crate) fn draw_below(rng: &mut StdRng, bound: u32) -> (draw: u32)
    requires
        bound > 0,
    ensures
        draw < bound,
{
    rng.gen_range(0..bound)
}

} // verus!
