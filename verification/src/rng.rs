//! The pool's random source: a fast, seedable generator local to each pool,
//! and the draw of two distinct uniform indices.

use vstd::prelude::*;
use rand::rngs::SmallRng;
use rand::Rng;
use rand::SeedableRng;

verus! {

#[verifier::external_type_specification]
#[verifier::external_body]
pub struct ExSmallRng(SmallRng);

/// Relies on rand's `SeedableRng::from_rng` and `thread_rng`: seeds a fast
/// per-pool generator from the thread-local entropy source. Nothing is
/// promised of a random value.
#[verifier::external_body]
pub(crate) fn fresh_rng() -> SmallRng {
    match SmallRng::from_rng(&mut rand::thread_rng()) {
        Ok(rng) => rng,
        Err(_) => SmallRng::seed_from_u64(0),
    }
}

/// Relies on rand's `Rng::gen_range`: a uniform draw from `0..n`, defined
/// (and free of panic) for a non-empty range.
#[verifier::external_body]
pub(crate) fn rng_below(rng: &mut SmallRng, n: usize) -> (r: usize)
    requires
        1 <= n,
    ensures
        r < n,
{
    rng.gen_range(0..n)
}

/// Draws two distinct uniform indices in `[0, len)`: the second draw is taken
/// from a range one shorter and shifted past the first on a collision.
pub fn gen_pair(rng: &mut SmallRng, len: usize) -> (r: (usize, usize))
    requires
        2 <= len,
    ensures
        r.0 < len,
        r.1 < len,
        r.0 != r.1,
{
    let aidx = rng_below(rng, len);
    let mut bidx = rng_below(rng, len - 1);
    if bidx >= aidx {
        bidx = bidx + 1;
    }
    (aidx, bidx)
}

} // verus!
