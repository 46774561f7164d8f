//! The random source that drives the carving, `rand`'s small generator.
use rand::rngs::SmallRng;
use rand::seq::SliceRandom;
use rand::Rng;
use vstd::prelude::*;

use crate::maze::Direction;

verus! {

#[verifier::external_type_specification]
#[verifier::external_body]
pub struct ExSmallRng(SmallRng);

/// Relies on `Rng::gen_range`: a value drawn from `0..n`; it panics on an
/// empty range, which `requires` leaves out.
#[verifier::external_body]
pub(crate) fn draw_below(rng: &mut SmallRng, n: u32) -> (r: u32)
    requires
        n > 0,
    ensures
        r < n,
{
    rng.gen_range(0..n)
}

/// Relies on `SliceRandom::shuffle`: the candidates are put in a random order,
/// each one kept.
#[verifier::external_body]
pub(crate) fn shuffle_candidates(rng: &mut SmallRng, v: &mut Vec<(usize, usize, Direction)>)
    ensures
        final(v)@.len() == old(v)@.len(),
        final(v)@.to_multiset() == old(v)@.to_multiset(),
{
    v.shuffle(rng);
}

} // verus!
