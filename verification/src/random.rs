//! The random source: a ChaCha stream cipher with 8 rounds, used as a
//! generator of uniform integers.

use rand::Rng;
use rand::SeedableRng;
use rand_chacha::ChaCha8Rng;
use vstd::prelude::*;

verus! {

/// `rand_chacha::ChaCha8Rng`, of which nothing is seen but that it is a
/// value.
#[verifier::external_type_specification]
#[verifier::external_body]
pub struct ExChaCha8Rng(rand_chacha::ChaCha8Rng);

/// `SeedableRng::from_entropy` for `ChaCha8Rng`: a generator seeded by the
/// operating system. Nothing is claimed of it. The call panics where the
/// operating system can give no entropy.
#[verifier::external_body]
pub(crate) fn fresh_rng() -> ChaCha8Rng {
    ChaCha8Rng::from_entropy()
}

/// `Rng::gen_range` on `0..n`: some integer below `n`. Which one depends on
/// the state of `rng`, of which the contract says nothing. The call panics on
/// an empty range, hence `n > 0`.
#[verifier::external_body]
pub(crate) fn draw_below(rng: &mut ChaCha8Rng, n: u128) -> (r: u128)
    requires
        n > 0,
    ensures
        r < n,
{
    rng.gen_range(0..n)
}

} // verus!
