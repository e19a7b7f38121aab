use vstd::prelude::*;

verus! {

/// fastrand's pseudo-random generator, held as an opaque outside type.
#[verifier::external_type_specification]
#[verifier::external_body]
pub struct ExRng(fastrand::Rng);

/// Relies on fastrand::Rng::with_seed: builds a generator from the given
/// seed. Nothing is assumed about the values it will produce.
#[verifier::external_body]
pub(crate) fn rng_from_seed(seed: u64) -> (r: fastrand::Rng) {
    fastrand::Rng::with_seed(seed)
}

/// Relies on fastrand::Rng::u128 over the range `0..n`: the result is always
/// below `n`; the call panics only on an empty range, which `n >= 1` rules
/// out.
#[verifier::external_body]
pub(crate) fn rng_below(rng: &mut fastrand::Rng, n: u128) -> (r: u128)
    requires
        n >= 1,
    ensures
        r < n,
{
    rng.u128(0..n)
}

} // verus!
