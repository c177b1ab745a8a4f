use vstd::prelude::*;

verus! {

/// The zoom levels of the view: the virtual screen is the window divided by
/// 2 to 6.
#[derive(Clone, Copy, Debug, PartialEq, Eq, Structural)]
pub enum ZoomSizes {
    TwoX,
    ThreeX,
    FourX,
    FiveX,
    SixX,
}

/// The number of a zoom level: 0 for `TwoX` up to 4 for `SixX`.
pub open spec fn zoom_num(z: ZoomSizes) -> int {
    match z {
        ZoomSizes::TwoX => 0,
        ZoomSizes::ThreeX => 1,
        ZoomSizes::FourX => 2,
        ZoomSizes::FiveX => 3,
        ZoomSizes::SixX => 4,
    }
}

/// The zoom level with number `n`, clamped to the range 0 to 4.
pub open spec fn zoom_from_num(n: int) -> ZoomSizes {
    if n <= 0 {
        ZoomSizes::TwoX
    } else if n == 1 {
        ZoomSizes::ThreeX
    } else if n == 2 {
        ZoomSizes::FourX
    } else if n == 3 {
        ZoomSizes::FiveX
    } else {
        ZoomSizes::SixX
    }
}

impl ZoomSizes {
    fn num(self) -> (n: usize)
        ensures
            n == zoom_num(self),
    {
        match self {
            ZoomSizes::TwoX => 0,
            ZoomSizes::ThreeX => 1,
            ZoomSizes::FourX => 2,
            ZoomSizes::FiveX => 3,
            ZoomSizes::SixX => 4,
        }
    }

    /// One level closer in (`up`, towards `TwoX`) or further out (towards
    /// `SixX`); the ends stay where they are.
    pub fn change_res(self, up: bool) -> (z: ZoomSizes)
        ensures
            z == zoom_from_num(if up { zoom_num(self) - 1 } else { zoom_num(self) + 1 }),
    {
        let current_index = self.num();
        let idx: usize = if up {
            if current_index == 0 {
                0
            } else {
                current_index - 1
            }
        } else {
            current_index + 1
        };
        Self::get_zoom_from_index(idx)
    }

    /// The zoom level with number `idx`; numbers past 4 give `SixX`.
    pub fn get_zoom_from_index(idx: usize) -> (z: ZoomSizes)
        ensures
            z == zoom_from_num(idx as int),
    {
        match idx {
            0 => ZoomSizes::TwoX,
            1 => ZoomSizes::ThreeX,
            2 => ZoomSizes::FourX,
            3 => ZoomSizes::FiveX,
            _ => ZoomSizes::SixX,
        }
    }

    /// Width of the virtual screen for a window `screen_width` wide.
    pub fn v_width(self, screen_width: u32) -> (w: u32)
        ensures
            w == screen_width / (zoom_num(self) + 2) as u32,
    {
        screen_width / (self.num() as u32 + 2)
    }

    /// Height of the virtual screen for a window `screen_height` high.
    pub fn v_height(self, screen_height: u32) -> (h: u32)
        ensures
            h == screen_height / (zoom_num(self) + 2) as u32,
    {
        screen_height / (self.num() as u32 + 2)
    }

    /// The magnification factor, 2 to 6.
    pub fn zoom(self) -> (z: u32)
        ensures
            z == zoom_num(self) + 2,
    {
        self.num() as u32 + 2
    }
}

/// Zooming in and then out again, or out and then in again, returns to the
/// same level, except at the end where the first step could not move.
pub proof fn lemma_change_res_round_trip(z: ZoomSizes)
    ensures
        z != ZoomSizes::TwoX ==> zoom_from_num(zoom_num(zoom_from_num(zoom_num(z) - 1)) + 1) == z,
        z != ZoomSizes::SixX ==> zoom_from_num(zoom_num(zoom_from_num(zoom_num(z) + 1)) - 1) == z,
{
}

/// Every zoom level lies between `TwoX` and `SixX`, and changing the level
/// moves it by at most one step.
pub proof fn lemma_change_res_step(z: ZoomSizes, up: bool)
    ensures
        0 <= zoom_num(zoom_from_num(if up { zoom_num(z) - 1 } else { zoom_num(z) + 1 })) <= 4,
        up ==> zoom_num(zoom_from_num(zoom_num(z) - 1)) == if zoom_num(z) == 0 { 0 } else { zoom_num(z) - 1 },
        !up ==> zoom_num(zoom_from_num(zoom_num(z) + 1)) == if zoom_num(z) == 4 { 4 } else { zoom_num(z) + 1 },
{
}

} // verus!
