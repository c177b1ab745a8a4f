use vstd::prelude::*;

verus! {

/// The ground of one tile.
#[derive(Copy, Clone, Debug, PartialEq, Eq, Structural)]
pub enum TileType {
    Grass,
    Lake,
    River,
}

/// Which shore and corner overlays a lake tile shows. Each field is a bitmask;
/// 0 means no overlay of that kind.
#[derive(Copy, Clone, Debug, PartialEq, Eq, Structural)]
pub struct LakeSpriteData {
    pub shore_animation_index: u8,
    pub corner_animation_index: u8,
}

/// How a river tile joins its neighbours.
#[derive(Copy, Clone, Debug, PartialEq, Eq, Structural)]
pub enum RiverType {
    Straight,
    Corner,
    TSection,
    Inlet,
    Outlet,
}

/// How a sprite is mirrored when drawn.
#[derive(Copy, Clone, Debug, PartialEq, Eq, Structural)]
pub enum SpriteFlip {
    NoFlip,
    Horizontal,
    Vertical,
}

/// The river piece a river tile shows, and which sprite of that kind.
#[derive(Copy, Clone, Debug, PartialEq, Eq, Structural)]
pub struct RiverSpriteData {
    pub river_type: RiverType,
    pub river_sprite_index: u8,
}

} // verus!
