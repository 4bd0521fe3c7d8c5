use rand::Rng;
use rand::SeedableRng;
use rand_chacha::ChaCha20Rng;
use vstd::prelude::*;

verus! {

/// The value that the ChaCha20 generator keyed with `seed` gives on its
/// stream number `round` when it is asked for a uniform value below `bound`.
pub uninterp spec fn chacha_uniform(seed: Seq<u8>, round: u64, bound: u128) -> u128;

/// Draws a uniform value below `bound` from stream `round` of the ChaCha20
/// generator keyed with `seed`.
///
/// Trusted: the body makes a `rand_chacha::ChaCha20Rng` with `from_seed`,
/// moves it to the stream with `set_stream`, and takes one value from
/// `rand::Rng::gen_range(0, bound)`. The contract claims that this value
/// depends on the seed, the stream and the bound alone, and that it lies
/// below the bound, as `gen_range` documents for a range that is not empty.
#[verifier::external_body]
pub(crate) fn uniform_below(seed: &[u8; 32], round: u64, bound: u128) -> (value: u128)
    requires
        bound > 0,
    ensures
        value == chacha_uniform(seed@, round, bound),
        value < bound,
{
    let mut generator = ChaCha20Rng::from_seed(*seed);
    generator.set_stream(round);
    generator.gen_range(0, bound)
}

} // verus!
