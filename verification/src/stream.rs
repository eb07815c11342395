use vstd::prelude::*;
use rand_chacha::rand_core::SeedableRng;
use rand_chacha::ChaCha8Rng;

verus! {

/// The ChaCha generator with eight rounds, as `rand_chacha` defines it.
/// Nothing is known here of what such a value holds.
#[verifier::external_type_specification]
#[verifier::external_body]
pub struct ExChaCha8Rng(rand_chacha::ChaCha8Rng);

/// The random stream that belongs to a seed, before anything is drawn from
/// it.
pub uninterp spec fn seeded_stream(seed: u64) -> rand_chacha::ChaCha8Rng;

/// Starts the random stream of a seed by `ChaCha8Rng::seed_from_u64`, which
/// stretches the 64 bits to a key with a fixed PCG32 sequence and has no
/// failing input. The contract claims only that the stream is a function of
/// the seed: the same seed starts the same stream.
#[verifier::external_body]
pub(crate) fn seed_stream(seed: u64) -> (stream: ChaCha8Rng)
    ensures
        stream == seeded_stream(seed),
{
    ChaCha8Rng::seed_from_u64(seed)
}

} // verus!
