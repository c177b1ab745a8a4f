use vstd::prelude::*;

use rand::rngs::ThreadRng;

use crate::utils::rng::random_i32_inclusive;

verus! {

/// A random whole-pixel offset: each coordinate drawn uniformly from -1, 0
/// and 1 (the caller turns it into a vector).
pub fn random_offset_by_one(rng: &mut ThreadRng) -> (r: (i32, i32))
    ensures
        -1 <= r.0 <= 1,
        -1 <= r.1 <= 1,
{
    let x = random_i32_inclusive(rng, -1, 1);
    let y = random_i32_inclusive(rng, -1, 1);
    (x, y)
}

} // verus!
