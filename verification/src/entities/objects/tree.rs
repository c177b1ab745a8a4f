use vstd::prelude::*;

use rand::rngs::ThreadRng;

use crate::utils::draws::{Draw, DrawSource, RandomDraws};

verus! {

/// The two looks of a tree.
#[derive(Clone, Copy, Debug, PartialEq, Eq, Structural)]
pub enum TreeVariant {
    One,
    Two,
}

impl TreeVariant {
    /// The variant numbered `k`: 0 is the first, anything else the second.
    pub fn from_number(k: i32) -> (v: TreeVariant)
        ensures
            v == (if k == 0 { TreeVariant::One } else { TreeVariant::Two }),
    {
        if k == 0 {
            TreeVariant::One
        } else {
            TreeVariant::Two
        }
    }

    /// A variant drawn uniformly: a number from 0 to 1 picks it (see
    /// `from_number`). For given draws, `random_variant_with` states which.
    pub fn random_variant(rng: &mut ThreadRng) -> (v: TreeVariant) {
        let mut draws = RandomDraws::new(rng);
        TreeVariant::random_variant_with(&mut draws)
    }

    /// The variant of `random_variant`, with the draw taken from `draws`: one
    /// number picked from 0 to 1, 0 for the first variant and 1 for the
    /// second.
    pub fn random_variant_with<D: DrawSource>(draws: &mut D) -> (v: TreeVariant)
        ensures
            final(draws).drawn() == old(draws).drawn().push(
                Draw::PickI32 { lo: 0, hi: 1, value: if v == TreeVariant::One { 0i32 } else { 1i32 } },
            ),
    {
        let k = draws.pick_i32(0, 1);
        TreeVariant::from_number(k)
    }
}

/// Whether a new tree is drawn mirrored: with probability 1/2. For given
/// draws, `random_flip_with` states which.
pub fn random_flip(rng: &mut ThreadRng) -> (b: bool) {
    let mut draws = RandomDraws::new(rng);
    random_flip_with(&mut draws)
}

/// The mirroring of `random_flip`, with the draw taken from `draws`: the
/// outcome of one chance of 1 in 2.
pub fn random_flip_with<D: DrawSource>(draws: &mut D) -> (b: bool)
    ensures
        final(draws).drawn() == old(draws).drawn().push(Draw::Flip { numerator: 1, denominator: 2, outcome: b }),
{
    draws.chance(1, 2)
}

/// The side a hit tree leans to for the outcome of its coin flip: 1 on
/// heads, -1 on tails.
pub fn hit_offset_from(heads: bool) -> (x: i32)
    ensures
        x == (if heads { 1i32 } else { -1i32 }),
{
    if heads {
        1
    } else {
        -1
    }
}

/// The side a hit tree leans to, in pixels: 1 or -1, each with probability
/// 1/2 (see `hit_offset_from`). For given draws, `random_hit_offset_with`
/// states which.
pub fn random_hit_offset(rng: &mut ThreadRng) -> (x: i32)
    ensures
        x == 1 || x == -1,
{
    let mut draws = RandomDraws::new(rng);
    random_hit_offset_with(&mut draws)
}

/// The side of `random_hit_offset`, with the draw taken from `draws`: one
/// chance of 1 in 2, and `hit_offset_from` of its outcome.
pub fn random_hit_offset_with<D: DrawSource>(draws: &mut D) -> (x: i32)
    ensures
        final(draws).drawn() == old(draws).drawn().push(Draw::Flip { numerator: 1, denominator: 2, outcome: x == 1 }),
        x == 1 || x == -1,
{
    let heads = draws.chance(1, 2);
    hit_offset_from(heads)
}

} // verus!
