//! Trusted boundary to the rand crate: the random generator type and the
//! two operations the engine draws on, a bounded sample and a shuffle.
//!
//! The generator is passed explicitly into each task, so a caller can seed
//! it deterministically and reproduce a run.

use vstd::prelude::*;
use rand::Rng;
use rand::seq::SliceRandom;

verus! {

/// The rand crate's standard generator, opaque to the verifier.
#[verifier::external_type_specification]
#[verifier::external_body]
pub struct ExStdRng(rand::rngs::StdRng);

/// Relies on rand's `Rng::gen_range` over `lo..hi`: it returns a value of
/// the half-open range, and panics only on an empty range, which the bound
/// here rules out.
#[verifier::external_body]
pub(crate) fn rand_in_range(rng: &mut rand::rngs::StdRng, lo: u64, hi: u64) -> (r: u64)
    requires
        lo < hi,
    ensures
        lo <= r < hi,
{
    rng.gen_range(lo..hi)
}

/// Relies on rand's `SliceRandom::shuffle`: a Fisher-Yates pass that
/// permutes the slice in place, so the elements are kept as a multiset.
#[verifier::external_body]
pub(crate) fn shuffle_vec<T>(rng: &mut rand::rngs::StdRng, v: &mut Vec<T>)
    ensures
        final(v)@.to_multiset() == old(v)@.to_multiset(),
        final(v)@.len() == old(v)@.len(),
{
    v.as_mut_slice().shuffle(rng);
}

} // verus!
