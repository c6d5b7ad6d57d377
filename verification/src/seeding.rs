//! Deriving per-component seeds from one generator.

use rand::rngs::Xoshiro256PlusPlus;
use vstd::prelude::*;

use crate::outside::next_u64;

verus! {

/// `n` consecutive draws of `rng`, one seed per component (tree, sketch).
pub fn draw_seeds(n: usize, rng: &mut Xoshiro256PlusPlus) -> (seeds: Vec<u64>)
    ensures
        seeds@.len() == n,
{
    let mut seeds: Vec<u64> = Vec::new();
    let mut i: usize = 0;
    while i < n
        invariant
            i <= n,
            seeds@.len() == i,
        decreases n - i,
    {
        seeds.push(next_u64(rng));
        i = i + 1;
    }
    seeds
}

} // verus!
