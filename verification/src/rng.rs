//! The randomness the simulation draws on, behind trusted declarations.
//!
//! The engine randomizes only two things: the order in which a dirty
//! region's points are visited, and whatever the cell logic draws from its
//! own shared state. Nothing here is deterministic, so the contracts state
//! only what holds of every outcome.

use vstd::prelude::*;
use crate::math::Point;

verus! {

#[verifier::external_type_specification]
#[verifier::external_body]
pub struct ExThreadRng(rand::rngs::ThreadRng);

/// Relies on rand's slice shuffle: an in-place permutation of the points,
/// so the multiset of points is kept whatever order comes out.
#[verifier::external_body]
pub fn shuffle_points(points: &mut Vec<Point>, rng: &mut rand::rngs::ThreadRng)
    ensures
        final(points)@.to_multiset() == old(points)@.to_multiset(),
{
    rand::seq::SliceRandom::shuffle(points.as_mut_slice(), rng)
}

/// Relies on rand's sample_iter: draws `n` values of the distribution. The
/// values are random, so only the count is stated.
#[verifier::external_body]
pub fn sample_cells<T, R: rand::Rng, D: rand::distributions::Distribution<T>>(
    rng: &mut R,
    distribution: D,
    n: usize,
) -> (r: Vec<T>)
    ensures
        r@.len() == n,
{
    rand::Rng::sample_iter(&mut *rng, distribution).take(n).collect()
}

} // verus!
