use vstd::prelude::*;

use rand::rngs::ThreadRng;

use crate::utils::draws::{Draw, DrawSource, RandomDraws};

verus! {

/// The looks of a grass object.
#[derive(Clone, Copy, Debug, PartialEq, Eq, Structural)]
pub enum GrassType {
    Wheaty,
    Flowery,
    Bushy,
    Stalky,
}

/// The tallest grass level.
pub const MAX_GRASS_LEVEL: u8 = 2;

impl GrassType {
    /// The type numbered `k` (0 to 3) in declaration order.
    pub open spec fn from_number(k: int) -> GrassType {
        if k == 0 {
            GrassType::Wheaty
        } else if k == 1 {
            GrassType::Flowery
        } else if k == 2 {
            GrassType::Bushy
        } else {
            GrassType::Stalky
        }
    }

    /// The type numbered `k` in declaration order (0 to 3).
    pub fn from_index(k: usize) -> (t: GrassType)
        requires
            k <= 3,
        ensures
            t == GrassType::from_number(k as int),
    {
        if k == 0 {
            GrassType::Wheaty
        } else if k == 1 {
            GrassType::Flowery
        } else if k == 2 {
            GrassType::Bushy
        } else {
            GrassType::Stalky
        }
    }

    /// The number of type `t` in declaration order.
    pub open spec fn number(t: GrassType) -> usize {
        match t {
            GrassType::Wheaty => 0,
            GrassType::Flowery => 1,
            GrassType::Bushy => 2,
            GrassType::Stalky => 3,
        }
    }

    /// A grass type drawn uniformly: a number from 0 to 3 picks the type in
    /// declaration order (see `from_index`). For given draws,
    /// `random_type_with` states which.
    pub fn random_type(rng: &mut ThreadRng) -> (t: GrassType) {
        let mut draws = RandomDraws::new(rng);
        GrassType::random_type_with(&mut draws)
    }

    /// The grass type of `random_type`, with the draw taken from `draws`: one
    /// number picked from 0 to 3, and the type it numbers.
    pub fn random_type_with<D: DrawSource>(draws: &mut D) -> (t: GrassType)
        ensures
            final(draws).drawn() == old(draws).drawn().push(
                Draw::PickUsize { lo: 0, hi: 3, value: GrassType::number(t) },
            ),
    {
        let k = draws.pick_usize(0, 3);
        GrassType::from_index(k)
    }
}

/// The grass level numbered `k` (0 to 2).
pub fn level_from_number(k: usize) -> (level: u8)
    requires
        k <= 2,
    ensures
        level == k,
{
    if k == 0 {
        0
    } else if k == 1 {
        1
    } else {
        2
    }
}

/// A grass level drawn uniformly from 0 to 2 (see `level_from_number`).
/// For given draws, `random_level_with` states which.
pub fn random_level(rng: &mut ThreadRng) -> (level: u8)
    ensures
        level <= MAX_GRASS_LEVEL,
{
    let mut draws = RandomDraws::new(rng);
    random_level_with(&mut draws)
}

/// The level of `random_level`, with the draw taken from `draws`: one
/// number picked from 0 to 2, which is the level.
pub fn random_level_with<D: DrawSource>(draws: &mut D) -> (level: u8)
    ensures
        level <= MAX_GRASS_LEVEL,
        final(draws).drawn() == old(draws).drawn().push(Draw::PickUsize { lo: 0, hi: 2, value: level as usize }),
{
    let k = draws.pick_usize(0, 2);
    level_from_number(k)
}

/// The level that the draws of `small_likely_level` pick: 0 on the first
/// draw, else 1 on the second, else 2.
pub open spec fn small_likely_value(first: bool, second: bool) -> int {
    if first {
        0
    } else if second {
        1
    } else {
        2
    }
}

/// The level that the draws of `large_likely_level` pick: 2 on the first
/// draw, else 1 on the second, else 0.
pub open spec fn large_likely_value(first: bool, second: bool) -> int {
    if first {
        2
    } else if second {
        1
    } else {
        0
    }
}

/// The small-likely level for the outcomes of its two draws.
pub fn small_likely_from(first: bool, second: bool) -> (level: u8)
    ensures
        level == small_likely_value(first, second),
{
    if first {
        0
    } else if second {
        1
    } else {
        2
    }
}

/// The large-likely level for the outcomes of its two draws.
pub fn large_likely_from(first: bool, second: bool) -> (level: u8)
    ensures
        level == large_likely_value(first, second),
{
    if first {
        2
    } else if second {
        1
    } else {
        0
    }
}

/// Mostly small grass: the first draw (chance 9/10) gives level 0;
/// otherwise a second draw (chance 4/5) gives level 1, else level 2 (see
/// `small_likely_from`). For given draws, `small_likely_level_with` states
/// which.
pub fn small_likely_level(rng: &mut ThreadRng) -> (level: u8)
    ensures
        level <= MAX_GRASS_LEVEL,
{
    let mut draws = RandomDraws::new(rng);
    small_likely_level_with(&mut draws)
}

/// The level of `small_likely_level`, with the draws taken from `draws`: a
/// chance of 9 in 10, then, only when it fails, a chance of 4 in 5; the
/// level is `small_likely_value` of their outcomes.
pub fn small_likely_level_with<D: DrawSource>(draws: &mut D) -> (level: u8)
    ensures
        level <= MAX_GRASS_LEVEL,
        final(draws).drawn() == (if level == 0 {
            old(draws).drawn().push(Draw::Flip { numerator: 9, denominator: 10, outcome: true })
        } else {
            old(draws).drawn().push(Draw::Flip { numerator: 9, denominator: 10, outcome: false }).push(
                Draw::Flip { numerator: 4, denominator: 5, outcome: level == 1 },
            )
        }),
        ({
            let d = final(draws).drawn();
            let o = old(draws).drawn();
            let first = d[o.len() as int] == Draw::Flip { numerator: 9, denominator: 10, outcome: true };
            let second = !first && d[o.len() + 1int] == Draw::Flip { numerator: 4, denominator: 5, outcome: true };
            level == small_likely_value(first, second)
        }),
{
    let first = draws.chance(9, 10);
    let second = if first {
        false
    } else {
        draws.chance(4, 5)
    };
    small_likely_from(first, second)
}

/// Mostly tall grass: the first draw (chance 9/10) gives level 2;
/// otherwise a second draw (chance 4/5) gives level 1, else level 0 (see
/// `large_likely_from`). For given draws, `large_likely_level_with` states
/// which.
pub fn large_likely_level(rng: &mut ThreadRng) -> (level: u8)
    ensures
        level <= MAX_GRASS_LEVEL,
{
    let mut draws = RandomDraws::new(rng);
    large_likely_level_with(&mut draws)
}

/// The level of `large_likely_level`, with the draws taken from `draws`: a
/// chance of 9 in 10, then, only when it fails, a chance of 4 in 5; the
/// level is `large_likely_value` of their outcomes.
pub fn large_likely_level_with<D: DrawSource>(draws: &mut D) -> (level: u8)
    ensures
        level <= MAX_GRASS_LEVEL,
        final(draws).drawn() == (if level == 2 {
            old(draws).drawn().push(Draw::Flip { numerator: 9, denominator: 10, outcome: true })
        } else {
            old(draws).drawn().push(Draw::Flip { numerator: 9, denominator: 10, outcome: false }).push(
                Draw::Flip { numerator: 4, denominator: 5, outcome: level == 1 },
            )
        }),
        ({
            let d = final(draws).drawn();
            let o = old(draws).drawn();
            let first = d[o.len() as int] == Draw::Flip { numerator: 9, denominator: 10, outcome: true };
            let second = !first && d[o.len() + 1int] == Draw::Flip { numerator: 4, denominator: 5, outcome: true };
            level == large_likely_value(first, second)
        }),
{
    let first = draws.chance(9, 10);
    let second = if first {
        false
    } else {
        draws.chance(4, 5)
    };
    large_likely_from(first, second)
}

/// Growing one level, up to the tallest: the new level, and whether the
/// grass just became tall (its drawing then moves up to fit the taller
/// sprite).
pub fn level_up(level: u8) -> (r: (u8, bool))
    requires
        level <= MAX_GRASS_LEVEL,
    ensures
        r.0 == (if level < MAX_GRASS_LEVEL { level + 1 } else { MAX_GRASS_LEVEL as int }),
        r.1 == (r.0 == MAX_GRASS_LEVEL),
{
    let new_level = if level + 1 > MAX_GRASS_LEVEL { MAX_GRASS_LEVEL } else { level + 1 };
    (new_level, new_level == MAX_GRASS_LEVEL)
}

} // verus!
