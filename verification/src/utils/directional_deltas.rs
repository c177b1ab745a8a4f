use vstd::prelude::*;

use crate::utils::map_cord::MapCord;

verus! {

/// A cardinal direction. Its number (`repr`) is 0 for north, then clockwise.
#[derive(Copy, Clone, Debug, Hash, PartialEq, Eq, Structural)]
pub enum Direction {
    North,
    East,
    South,
    West,
}

/// The number of a direction: 0 north, 1 east, 2 south, 3 west.
pub open spec fn dir_num(d: Direction) -> int {
    match d {
        Direction::North => 0,
        Direction::East => 1,
        Direction::South => 2,
        Direction::West => 3,
    }
}

/// The direction with number `n` (taken modulo 4).
pub open spec fn dir_from_num(n: int) -> Direction {
    let m = n % 4;
    if m == 0 {
        Direction::North
    } else if m == 1 {
        Direction::East
    } else if m == 2 {
        Direction::South
    } else {
        Direction::West
    }
}

/// The unit step of cardinal direction number `i` (north is `y - 1`).
pub open spec fn cardinal_step(i: int) -> (int, int) {
    if i == 0 {
        (0, -1)
    } else if i == 1 {
        (1, 0)
    } else if i == 2 {
        (0, 1)
    } else {
        (-1, 0)
    }
}

/// The unit step of the eight-way direction number `i`, starting north and
/// going clockwise; even numbers are straight steps, odd ones diagonal.
pub open spec fn orthogonal_step(i: int) -> (int, int) {
    if i == 0 {
        (0, -1)
    } else if i == 1 {
        (1, -1)
    } else if i == 2 {
        (1, 0)
    } else if i == 3 {
        (1, 1)
    } else if i == 4 {
        (0, 1)
    } else if i == 5 {
        (-1, 1)
    } else if i == 6 {
        (-1, 0)
    } else {
        (-1, -1)
    }
}

impl Direction {
    /// The direction whose number is `repr`; any other number is refused.
    pub fn get_enum_from_repr(repr: i8) -> (d: Direction)
        requires
            0 <= repr <= 3,
        ensures
            dir_num(d) == repr,
    {
        match repr {
            0 => Direction::North,
            1 => Direction::East,
            2 => Direction::South,
            _ => Direction::West,
        }
    }

    /// The number of this direction.
    pub fn repr(&self) -> (r: i8)
        ensures
            r == dir_num(*self),
    {
        match self {
            Direction::North => 0,
            Direction::East => 1,
            Direction::South => 2,
            Direction::West => 3,
        }
    }

    /// The direction one quarter turn to the left (counter-clockwise).
    pub fn turn_left(&self) -> (d: Direction)
        ensures
            dir_num(d) == (dir_num(*self) + 3) % 4,
            d == dir_from_num(dir_num(*self) - 1),
    {
        let val = self.repr();
        let new_val: i8 = if val == 0 { 3 } else { val - 1 };
        Self::get_enum_from_repr(new_val)
    }

    /// The direction one quarter turn to the right (clockwise).
    pub fn turn_right(&self) -> (d: Direction)
        ensures
            dir_num(d) == (dir_num(*self) + 1) % 4,
            d == dir_from_num(dir_num(*self) + 1),
    {
        let val = self.repr();
        let new_val: i8 = if val == 3 { 0 } else { val + 1 };
        Self::get_enum_from_repr(new_val)
    }
}

/// Turning left and then right gives back the direction, and so does turning
/// right and then left.
pub proof fn lemma_turns_cancel(d: Direction)
    ensures
        dir_from_num(dir_num(dir_from_num(dir_num(d) - 1)) + 1) == d,
        dir_from_num(dir_num(dir_from_num(dir_num(d) + 1)) - 1) == d,
{
}

/// Four quarter turns in the same sense give back the direction.
pub proof fn lemma_four_turns(d: Direction)
    ensures
        dir_from_num(dir_num(dir_from_num(dir_num(dir_from_num(dir_num(dir_from_num(dir_num(d) + 1)) + 1)) + 1)) + 1) == d,
        dir_from_num(dir_num(dir_from_num(dir_num(dir_from_num(dir_num(dir_from_num(dir_num(d) - 1)) - 1)) - 1)) - 1) == d,
{
}

/// The unit step of cardinal direction number `i` (0 north, 1 east, 2 south,
/// 3 west).
pub fn cardinal_delta(i: usize) -> (c: MapCord)
    requires
        i < 4,
    ensures
        (c.x as int, c.y as int) == cardinal_step(i as int),
{
    match i {
        0 => MapCord { x: 0, y: -1 },
        1 => MapCord { x: 1, y: 0 },
        2 => MapCord { x: 0, y: 1 },
        _ => MapCord { x: -1, y: 0 },
    }
}

/// The unit step of eight-way direction number `i` (0 north, then clockwise).
pub fn orthogonal_delta(i: usize) -> (c: MapCord)
    requires
        i < 8,
    ensures
        (c.x as int, c.y as int) == orthogonal_step(i as int),
{
    match i {
        0 => MapCord { x: 0, y: -1 },
        1 => MapCord { x: 1, y: -1 },
        2 => MapCord { x: 1, y: 0 },
        3 => MapCord { x: 1, y: 1 },
        4 => MapCord { x: 0, y: 1 },
        5 => MapCord { x: -1, y: 1 },
        6 => MapCord { x: -1, y: 0 },
        _ => MapCord { x: -1, y: -1 },
    }
}

} // verus!
