//! The random streams that batches are drawn from.
use rand::rngs::StdRng;
use rand::{Rng, SeedableRng};
use vstd::prelude::*;

verus! {

/// `rand::rngs::StdRng`: a seeded random number generator.
#[verifier::external_type_specification]
#[verifier::external_body]
pub struct ExStdRng(rand::rngs::StdRng);

/// A random stream, with the seed that it was started from and what has been drawn from it.
pub struct Sampler {
    seed: u64,
    rng: StdRng,
    record: Ghost<Seq<(usize, usize)>>,
}

/// The seed of the stream of worker `rank` in the experiment repeat `seed`.
pub open spec fn stream_seed(seed: int, rank: int) -> int {
    seed * 10_000 % 0x1_0000_0000_0000_0000 + 1234 + rank
}

/// `StdRng::seed_from_u64`: a stream started from `seed`, from which nothing has been drawn.
/// Which numbers it gives is left open.
#[verifier::external_body]
fn start_stream(seed: u64) -> (sampler: Sampler)
    ensures
        sampler.seed() == seed,
        sampler.record() == Seq::<(usize, usize)>::empty(),
{
    Sampler { seed, rng: StdRng::seed_from_u64(seed), record: Ghost(Seq::empty()) }
}

/// `Rng::gen_range` on `0..=max`: draws some number up to `max`. The record shows what was
/// asked for and what came; which number comes is left open.
#[verifier::external_body]
pub(crate) fn draw(sampler: &mut Sampler, max: usize) -> (n: usize)
    ensures
        n <= max,
        final(sampler).seed() == old(sampler).seed(),
        final(sampler).record() == old(sampler).record().push((max, n)),
{
    sampler.rng.gen_range(0..=max)
}

impl Sampler {
    /// The seed that the stream was started from.
    pub closed spec fn seed(self) -> u64 {
        self.seed
    }

    /// What has been drawn so far: each time the largest number that was asked for, and the
    /// number that came.
    pub closed spec fn record(self) -> Seq<(usize, usize)> {
        self.record@
    }

    /// The stream of one worker. The seed separates experiment repeats, the rank separates
    /// workers within a run.
    pub fn new(seed: u64, rank: u64) -> (sampler: Sampler)
        requires
            stream_seed(seed as int, rank as int) <= u64::MAX,
        ensures
            sampler.seed() == stream_seed(seed as int, rank as int),
            sampler.record() == Seq::<(usize, usize)>::empty(),
    {
        start_stream(seed.wrapping_mul(10_000) + 1234 + rank)
    }
}

/// Within a run, no two workers start from the same seed.
pub proof fn law_ranks_have_own_streams(seed: int, a: int, b: int)
    requires
        a != b,
    ensures
        stream_seed(seed, a) != stream_seed(seed, b),
{
}

/// Repeats with seeds that do not overflow share no stream, as long as no run has more than
/// ten thousand workers.
pub proof fn law_repeats_have_own_streams(seed: int, other: int, rank: int, other_rank: int)
    requires
        0 <= seed <= u64::MAX as int / 10_000,
        0 <= other <= u64::MAX as int / 10_000,
        0 <= rank < 10_000,
        0 <= other_rank < 10_000,
        seed != other,
    ensures
        stream_seed(seed, rank) != stream_seed(other, other_rank),
{
}

/// A stream's seed is ten thousand times the experiment's seed, plus 1234, plus the rank; of
/// the product only what fits into 64 bits counts.
pub proof fn law_streams_are_numbered(seed: int, rank: int)
    requires
        0 <= seed,
        0 <= rank,
    ensures
        (stream_seed(seed, rank) - (10_000 * seed + 1234 + rank)) % 0x1_0000_0000_0000_0000 == 0,
        1234 + rank <= stream_seed(seed, rank) < 1234 + rank + 0x1_0000_0000_0000_0000,
        10_000 * seed < 0x1_0000_0000_0000_0000 ==> stream_seed(seed, rank) == 10_000 * seed + 1234
            + rank,
        stream_seed(seed, rank + 1) == stream_seed(seed, rank) + 1,
{
}

} // verus!
