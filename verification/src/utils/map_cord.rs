use vstd::prelude::*;

verus! {

/// A tile coordinate on the map. `i16` is used so that coordinates just
/// outside the map (negative ones in particular) can be represented.
#[derive(PartialEq, Eq, Structural, Clone, Copy, Debug, Hash)]
pub struct MapCord {
    pub x: i16,
    pub y: i16,
}

/// Whether the componentwise sum of two coordinates fits in `i16`.
pub open spec fn sum_fits(a: MapCord, b: MapCord) -> bool {
    &&& i16::MIN <= a.x + b.x <= i16::MAX
    &&& i16::MIN <= a.y + b.y <= i16::MAX
}

/// Whether the componentwise difference of two coordinates fits in `i16`.
pub open spec fn diff_fits(a: MapCord, b: MapCord) -> bool {
    &&& i16::MIN <= a.x - b.x <= i16::MAX
    &&& i16::MIN <= a.y - b.y <= i16::MAX
}

/// Whether scaling a coordinate by `k` fits in `i16`.
pub open spec fn scale_fits(a: MapCord, k: int) -> bool {
    &&& i16::MIN <= a.x * k <= i16::MAX
    &&& i16::MIN <= a.y * k <= i16::MAX
}

impl MapCord {
    pub fn new(x: i16, y: i16) -> (c: MapCord)
        ensures
            c.x == x,
            c.y == y,
    {
        MapCord { x, y }
    }

    /// Componentwise sum; the sum must not overflow `i16`.
    pub fn plus(self, rhs: MapCord) -> (c: MapCord)
        requires
            sum_fits(self, rhs),
        ensures
            c.x == self.x + rhs.x,
            c.y == self.y + rhs.y,
    {
        MapCord { x: self.x + rhs.x, y: self.y + rhs.y }
    }

    /// Componentwise difference; the difference must not overflow `i16`.
    pub fn minus(self, rhs: MapCord) -> (c: MapCord)
        requires
            diff_fits(self, rhs),
        ensures
            c.x == self.x - rhs.x,
            c.y == self.y - rhs.y,
    {
        MapCord { x: self.x - rhs.x, y: self.y - rhs.y }
    }

    /// Scales both components by `k`; the products must not overflow `i16`.
    pub fn times(self, k: i16) -> (c: MapCord)
        requires
            scale_fits(self, k as int),
        ensures
            c.x == self.x * k,
            c.y == self.y * k,
    {
        MapCord { x: self.x * k, y: self.y * k }
    }
}

} // verus!
