//! A stand-alone linear feedback shift register generator.
use vstd::prelude::*;
use crate::rng::{rng, Rng};

verus! {

/// A generator seeded with `seed`; the same register as `rng::rng`.
pub fn lfsr(seed: u64) -> (r: Rng)
    ensures
        r.state() == seed,
{
    rng(seed)
}

} // verus!
