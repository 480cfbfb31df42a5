//! Plain world-position data shared by the world modules.

use vstd::prelude::*;

use crate::direction::Direction;

verus! {

/// Authoritative facing direction for players, NPCs and oriented objects.
#[derive(Clone, Copy, Debug, PartialEq, Eq, Structural)]
pub struct Facing(pub Direction);

/// Runtime identifier of a space (overworld, dungeon instance, …).
#[derive(Clone, Copy, Debug, PartialEq, Eq, Hash, Structural)]
pub struct SpaceId(pub u64);

/// A tile in a space: `z` is in half-block units (see `floor_index`).
#[derive(Clone, Copy, Debug, PartialEq, Eq, Hash, Structural)]
pub struct TilePosition {
    pub x: i32,
    pub y: i32,
    pub z: i32,
}

/// Raw `z` of the ground floor.
pub const GROUND_FLOOR: i32 = 0;

impl TilePosition {
    pub fn new(x: i32, y: i32, z: i32) -> (p: Self)
        ensures
            p == (TilePosition { x, y, z }),
    {
        TilePosition { x, y, z }
    }

    /// A tile on the ground floor (`z = 0`).
    pub fn ground(x: i32, y: i32) -> (p: Self)
        ensures
            p == (TilePosition { x, y, z: GROUND_FLOOR }),
    {
        TilePosition { x, y, z: GROUND_FLOOR }
    }
}

/// The floor a raw half-block `z` belongs to: `0/1 → 0`, `2/3 → 1`,
/// `-1/-2 → -1`, … (Euclidean division by two).
pub fn floor_index(z: i32) -> (f: i32)
    ensures
        f == z as int / 2,
{
    if z >= 0 {
        z / 2
    } else {
        -((-(z + 1)) / 2) - 1
    }
}

/// A tile together with the space it is in.
#[derive(Clone, Copy, Debug, PartialEq, Eq, Structural)]
pub struct SpacePosition {
    pub space_id: SpaceId,
    pub tile_position: TilePosition,
}

impl SpacePosition {
    pub fn new(space_id: SpaceId, tile_position: TilePosition) -> (p: Self)
        ensures
            p == (SpacePosition { space_id, tile_position }),
    {
        SpacePosition { space_id, tile_position }
    }
}

/// The space an entity lives in.
#[derive(Clone, Copy, Debug, PartialEq, Eq, Structural)]
pub struct SpaceResident {
    pub space_id: SpaceId,
}

/// Presentation-only position used by client-side rendering.
#[derive(Clone, Copy, Debug, PartialEq, Eq, Structural)]
pub struct ViewPosition {
    pub space_id: SpaceId,
    pub tile: TilePosition,
}

/// Stack size of a world object on the ground; absent means one.
#[derive(Clone, Copy, Debug, PartialEq, Eq, Structural)]
pub struct Quantity(pub u32);

/// Renderer-side placement order for objects sharing a tile.
#[derive(Clone, Copy, Debug, PartialEq, Eq, Structural)]
pub struct RenderStackOrder(pub u64);

/// Whether an entity's health bar is always shown.
#[derive(Clone, Copy, Debug, PartialEq, Eq, Structural)]
pub struct HealthBarDisplayPolicy {
    pub always_visible: bool,
}

/// Chebyshev (king-move) distance between two tiles, ignoring `z`.
pub fn chebyshev_distance(a: TilePosition, b: TilePosition) -> (d: i32)
    requires
        i32::MIN < a.x - b.x <= i32::MAX,
        i32::MIN < a.y - b.y <= i32::MAX,
    ensures
        ({
            let dx = if a.x - b.x < 0 { b.x - a.x } else { a.x - b.x };
            let dy = if a.y - b.y < 0 { b.y - a.y } else { a.y - b.y };
            d == if dx >= dy { dx } else { dy }
        }),
{
    let dx = a.x - b.x;
    let dy = a.y - b.y;
    let adx = if dx < 0 { -dx } else { dx };
    let ady = if dy < 0 { -dy } else { dy };
    if adx >= ady { adx } else { ady }
}

} // verus!
