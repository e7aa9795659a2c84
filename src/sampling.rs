use vstd::prelude::*;

use rand::SeedableRng;

verus! {

/// The indices that rand's seeded sampler draws for a seed.
pub uninterp spec fn seeded_indices(seed: u64, length: usize, amount: usize) -> Seq<usize>;

/// Relies on rand's `StdRng::seed_from_u64` and `rand::seq::index::sample`:
/// exactly `amount` distinct indices from `0..length`, a deterministic
/// function of the seed. `sample` panics when `amount > length`.
#[verifier::external_body]
pub(crate) fn sample_indices(seed: u64, length: usize, amount: usize) -> (r: Vec<usize>)
    requires
        amount <= length,
    ensures
        r@ == seeded_indices(seed, length, amount),
        r.len() == amount,
        forall|i: int| 0 <= i < r.len() ==> #[trigger] r@[i] < length,
        forall|i: int, j: int| 0 <= i < j < r.len() ==> r@[i] != r@[j],
{
    let mut rng = rand::rngs::StdRng::seed_from_u64(seed);
    rand::seq::index::sample(&mut rng, length, amount).into_vec()
}

/// Relies on `rand::random`: a value from the thread-local generator, of
/// which nothing is known.
pub assume_specification<T>[ rand::random::<T> ]() -> (r: T)
    where
        rand::distributions::Standard: rand::distributions::Distribution<T>,
;

} // verus!
