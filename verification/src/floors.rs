//! Multi-storey rendering rules: roofs, indoor tiles and the visible floor
//! window.

use vstd::prelude::*;

use crate::column::view_tile;
use crate::components::{floor_index, SpaceId, TilePosition};
use crate::direction::Direction;
use crate::floor_definitions::FloorTilesetDefinitions;
use crate::floor_map::{FloorMap, FloorMaps};

verus! {

/// How many floors above the player the visible-floor scan looks for a roof.
pub const MAX_FLOORS_ABOVE: i32 = 16;

/// Index of the tileset painted at `(x, y)` of a floor grid, when loaded.
pub open spec fn tile_def(floor: Option<FloorMap>, defs: FloorTilesetDefinitions, x: int, y: int) -> Option<int> {
    match floor {
        Some(m) => match m.tile(x, y) {
            Some(id) => defs.index_of(id@),
            None => None,
        },
        None => None,
    }
}

fn tile_def_index(floor: Option<&FloorMap>, defs: &FloorTilesetDefinitions, x: i32, y: i32) -> (r: Option<usize>)
    requires
        defs.wf(),
        floor is Some ==> floor->0.wf(),
    ensures
        r is Some <==> tile_def(match floor { Some(m) => Some(*m), None => None }, *defs, x as int, y as int) is Some,
        r is Some ==> r->0 == tile_def(match floor { Some(m) => Some(*m), None => None }, *defs, x as int, y as int)->0
            && r->0 < defs.by_id@.len(),
{
    let m = match floor {
        Some(m) => m,
        None => return None,
    };
    let id = match m.get(x, y) {
        Some(id) => id,
        None => return None,
    };
    let ghost target = tile_def(match floor { Some(m) => Some(*m), None => None }, *defs, x as int, y as int);
    assert(target == defs.index_of(id@));
    match defs.get(id.as_str()) {
        Some(_) => {
            let mut i: usize = 0;
            while i < defs.by_id.len()
                invariant
                    defs.wf(),
                    target == defs.index_of(id@),
                    target == tile_def(match floor { Some(m) => Some(*m), None => None }, *defs, x as int, y as int),
                    defs.index_of(id@) is Some,
                    i <= defs.by_id@.len(),
                    forall|k: int| 0 <= k < i ==> (#[trigger] defs.by_id@[k]).id@ != id@,
                decreases defs.by_id@.len() - i,
            {
                if crate::text::str_eq(defs.by_id[i].id.as_str(), id.as_str()) {
                    proof {
                        let c = choose|k: int| 0 <= k < defs.by_id@.len() && (#[trigger] defs.by_id@[k]).id@ == id@;
                        if c > i as int {
                            assert(defs.by_id@[i as int].id@ != defs.by_id@[c].id@);
                        }
                    }
                    return Some(i);
                }
                i = i + 1;
            }
            proof {
                let c = choose|k: int| 0 <= k < defs.by_id@.len() && (#[trigger] defs.by_id@[k]).id@ == id@;
                assert(defs.by_id@[c].id@ == id@);
            }
            None
        },
        None => None,
    }
}

/// True iff the tile at `(x, y)` of `floor` is painted with a tileset that
/// occludes the floor below it (acts as a roof).
pub fn floormap_tile_occludes(floor: Option<&FloorMap>, floor_defs: &FloorTilesetDefinitions, x: i32, y: i32) -> (b: bool)
    requires
        floor_defs.wf(),
        floor is Some ==> floor->0.wf(),
    ensures
        b == match tile_def(match floor { Some(m) => Some(*m), None => None }, *floor_defs, x as int, y as int) {
            Some(k) => floor_defs.by_id@[k].occludes_floor_above,
            None => false,
        },
{
    match tile_def_index(floor, floor_defs, x, y) {
        Some(k) => floor_defs.by_id[k].occludes_floor_above,
        None => false,
    }
}

/// True iff the tile at `(x, y)` of `floor` is painted with a walkable tileset.
pub fn floormap_tile_walkable(floor: Option<&FloorMap>, floor_defs: &FloorTilesetDefinitions, x: i32, y: i32) -> (b: bool)
    requires
        floor_defs.wf(),
        floor is Some ==> floor->0.wf(),
    ensures
        b == match tile_def(match floor { Some(m) => Some(*m), None => None }, *floor_defs, x as int, y as int) {
            Some(k) => floor_defs.by_id@[k].walkable_surface,
            None => false,
        },
{
    match tile_def_index(floor, floor_defs, x, y) {
        Some(k) => floor_defs.by_id[k].walkable_surface,
        None => false,
    }
}

/// Set of indoor tiles `(space, x, y, floor_idx)`: tiles covered by an
/// occluder on the floor above.
pub struct IndoorTileMap {
    pub tiles: Vec<(SpaceId, i32, i32, i32)>,
}

/// Entry `k` of `objects` occludes and marks tile `t` indoor.
pub open spec fn object_roof_at(objects: Seq<(SpaceId, TilePosition, bool)>, k: int, t: (SpaceId, i32, i32, i32)) -> bool {
    &&& objects[k].2
    &&& t == (objects[k].0, objects[k].1.x, objects[k].1.y, (objects[k].1.z as int / 2 - 1) as i32)
}

/// The tiles the occluding objects of `objects` mark indoor.
pub open spec fn object_roofs(objects: Seq<(SpaceId, TilePosition, bool)>) -> Set<(SpaceId, i32, i32, i32)> {
    Set::new(|t: (SpaceId, i32, i32, i32)| exists|k: int| 0 <= k < objects.len() && #[trigger] object_roof_at(objects, k, t))
}

impl IndoorTileMap {
    pub open spec fn view_set(&self) -> Set<(SpaceId, i32, i32, i32)> {
        Set::new(|t: (SpaceId, i32, i32, i32)| self.tiles@.contains(t))
    }

    pub fn new() -> (m: IndoorTileMap)
        ensures
            m.view_set() == Set::<(SpaceId, i32, i32, i32)>::empty(),
    {
        let m = IndoorTileMap { tiles: Vec::new() };
        assert(m.view_set() =~= Set::<(SpaceId, i32, i32, i32)>::empty());
        m
    }

    pub fn contains(&self, space_id: SpaceId, x: i32, y: i32, floor_idx: i32) -> (b: bool)
        ensures
            b == self.view_set().contains((space_id, x, y, floor_idx)),
    {
        let mut i: usize = 0;
        while i < self.tiles.len()
            invariant
                i <= self.tiles@.len(),
                forall|k: int| 0 <= k < i ==> self.tiles@[k] != (space_id, x, y, floor_idx),
            decreases self.tiles@.len() - i,
        {
            let t = self.tiles[i];
            if t.0 == space_id && t.1 == x && t.2 == y && t.3 == floor_idx {
                assert(self.tiles@.contains((space_id, x, y, floor_idx)));
                return true;
            }
            i = i + 1;
        }
        false
    }

    /// Adds one tile.
    pub fn insert(&mut self, space_id: SpaceId, x: i32, y: i32, floor_idx: i32)
        ensures
            final(self).view_set() == old(self).view_set().insert((space_id, x, y, floor_idx)),
    {
        self.tiles.push((space_id, x, y, floor_idx));
        assert forall|t: (SpaceId, i32, i32, i32)| self.tiles@.contains(t) <==> (old(self).tiles@.contains(t) || t == (space_id, x, y, floor_idx)) by {
            if old(self).tiles@.contains(t) {
                let k = choose|k: int| 0 <= k < old(self).tiles@.len() && old(self).tiles@[k] == t;
                assert(self.tiles@[k] == t);
            }
            if t == (space_id, x, y, floor_idx) {
                assert(self.tiles@[self.tiles@.len() - 1] == t);
            }
            if self.tiles@.contains(t) {
                let k = choose|k: int| 0 <= k < self.tiles@.len() && self.tiles@[k] == t;
                if k < old(self).tiles@.len() {
                    assert(old(self).tiles@[k] == t);
                }
            }
        }
        assert(self.view_set() =~= old(self).view_set().insert((space_id, x, y, floor_idx)));
    }

    /// Empties the set.
    pub fn clear(&mut self)
        ensures
            final(self).view_set() == Set::<(SpaceId, i32, i32, i32)>::empty(),
    {
        self.tiles = Vec::new();
        assert(self.view_set() =~= Set::<(SpaceId, i32, i32, i32)>::empty());
    }

    /// An occluding object standing at raw height `z` makes the tile below
    /// its floor indoor: `(space, x, y, floor_index(z) - 1)`.
    pub fn mark_object_roof(&mut self, space_id: SpaceId, x: i32, y: i32, z: i32)
        ensures
            final(self).view_set() == old(self).view_set().insert((space_id, x, y, (z as int / 2 - 1) as i32)),
    {
        let f = floor_index(z);
        self.insert(space_id, x, y, f - 1);
    }

    /// Every occluding object of `objects` — `(space, tile, occludes)` —
    /// marks the tile below its floor indoor (see `mark_object_roof`).
    pub fn mark_object_roofs(&mut self, objects: &Vec<(SpaceId, TilePosition, bool)>)
        ensures
            final(self).view_set() == old(self).view_set().union(object_roofs(objects@)),
    {
        let ghost start = self.view_set();
        let mut i: usize = 0;
        while i < objects.len()
            invariant
                i <= objects@.len(),
                start == old(self).view_set(),
                self.view_set() == start.union(object_roofs(objects@.take(i as int))),
            decreases objects@.len() - i,
        {
            let (space_id, tile, occludes) = objects[i];
            let ghost before = self.view_set();
            if occludes {
                self.mark_object_roof(space_id, tile.x, tile.y, tile.z);
            }
            proof {
                let a = object_roofs(objects@.take(i as int));
                let b = object_roofs(objects@.take(i + 1));
                assert forall|t: (SpaceId, i32, i32, i32)| #[trigger] b.contains(t) <==> a.contains(t)
                    || (occludes && t == (space_id, tile.x, tile.y, (tile.z as int / 2 - 1) as i32)) by {
                    if b.contains(t) {
                        let k = choose|k: int| 0 <= k < i + 1 && #[trigger] object_roof_at(objects@.take(i + 1), k, t);
                        if k < i {
                            assert(object_roof_at(objects@.take(i as int), k, t));
                        }
                    }
                    if a.contains(t) {
                        let k = choose|k: int| 0 <= k < i && #[trigger] object_roof_at(objects@.take(i as int), k, t);
                        assert(object_roof_at(objects@.take(i + 1), k, t));
                    }
                    if occludes && t == (space_id, tile.x, tile.y, (tile.z as int / 2 - 1) as i32) {
                        assert(object_roof_at(objects@.take(i + 1), i as int, t));
                    }
                }
                assert(self.view_set() =~= start.union(b));
            }
            i = i + 1;
        }
        assert(objects@.take(objects@.len() as int) == objects@);
    }

    /// Every painted tile whose tileset occludes the floor above it marks
    /// the same `(x, y)` one floor down as indoor.
    pub fn mark_painted_roofs(&mut self, maps: &FloorMaps, floor_defs: &FloorTilesetDefinitions)
        requires
            maps.wf(),
            floor_defs.wf(),
            forall|e: int| 0 <= e < maps.maps@.len() ==> (#[trigger] maps.maps@[e]).0.1 > i32::MIN,
        ensures
            final(self).view_set() == old(self).view_set().union(painted_roofs(*maps, *floor_defs)),
    {
        let ghost start = self.view_set();
        let mut e: usize = 0;
        while e < maps.maps.len()
            invariant
                maps.wf(),
                floor_defs.wf(),
                forall|q: int| 0 <= q < maps.maps@.len() ==> (#[trigger] maps.maps@[q]).0.1 > i32::MIN,
                e <= maps.maps@.len(),
                self.view_set() == start.union(painted_roofs_upto(*maps, *floor_defs, e as int)),
            decreases maps.maps@.len() - e,
        {
            let space_id = maps.maps[e].0.0;
            let floor_idx = maps.maps[e].0.1;
            let grid = &maps.maps[e].1;
            assert(maps.maps@[e as int].1.wf());
            let ghost before = self.view_set();
            let mut y: i32 = 0;
            while y < grid.height
                invariant
                    grid.wf(),
                    floor_defs.wf(),
                    0 <= y <= grid.height,
                    floor_idx > i32::MIN,
                    self.view_set() == before.union(Set::new(|t: (SpaceId, i32, i32, i32)| roof_from(space_id, floor_idx, *grid, *floor_defs, t) && t.2 < y)),
                decreases grid.height - y,
            {
                let ghost row_before = self.view_set();
                let mut x: i32 = 0;
                while x < grid.width
                    invariant
                        grid.wf(),
                        floor_defs.wf(),
                        0 <= y < grid.height,
                        0 <= x <= grid.width,
                        floor_idx > i32::MIN,
                        self.view_set() == row_before.union(Set::new(|t: (SpaceId, i32, i32, i32)| roof_from(space_id, floor_idx, *grid, *floor_defs, t) && t.2 == y && t.1 < x)),
                    decreases grid.width - x,
                {
                    if floormap_tile_occludes(Some(grid), floor_defs, x, y) {
                        self.insert(space_id, x, y, floor_idx - 1);
                    }
                    proof {
                        assert(self.view_set() =~= row_before.union(Set::new(|t: (SpaceId, i32, i32, i32)| roof_from(space_id, floor_idx, *grid, *floor_defs, t) && t.2 == y && t.1 < x + 1)));
                    }
                    x = x + 1;
                }
                proof {
                    assert(self.view_set() =~= before.union(Set::new(|t: (SpaceId, i32, i32, i32)| roof_from(space_id, floor_idx, *grid, *floor_defs, t) && t.2 < y + 1)));
                }
                y = y + 1;
            }
            proof {
                assert(Set::new(|t: (SpaceId, i32, i32, i32)| roof_from(space_id, floor_idx, *grid, *floor_defs, t) && t.2 < y)
                    =~= Set::new(|t: (SpaceId, i32, i32, i32)| roof_from(space_id, floor_idx, *grid, *floor_defs, t)));
                assert(self.view_set() =~= start.union(painted_roofs_upto(*maps, *floor_defs, e + 1)));
            }
            e = e + 1;
        }
        proof {
            assert(painted_roofs_upto(*maps, *floor_defs, maps.maps@.len() as int) =~= painted_roofs(*maps, *floor_defs));
        }
    }
}

/// `t` is the tile below an occluding painted tile of `grid` (floor
/// `floor_idx` of `space`).
pub open spec fn roof_from(space: SpaceId, floor_idx: i32, grid: FloorMap, defs: FloorTilesetDefinitions, t: (SpaceId, i32, i32, i32)) -> bool {
    &&& t.0 == space
    &&& t.3 == floor_idx - 1
    &&& grid.in_bounds_spec(t.1 as int, t.2 as int)
    &&& match tile_def(Some(grid), defs, t.1 as int, t.2 as int) {
        Some(k) => defs.by_id@[k].occludes_floor_above,
        None => false,
    }
}

/// Indoor tiles contributed by the first `n` stored grids.
pub open spec fn painted_roofs_upto(maps: FloorMaps, defs: FloorTilesetDefinitions, n: int) -> Set<(SpaceId, i32, i32, i32)> {
    Set::new(|t: (SpaceId, i32, i32, i32)| exists|e: int| 0 <= e < n && e < maps.maps@.len()
        && roof_from(maps.maps@[e].0.0, maps.maps@[e].0.1, maps.maps@[e].1, defs, t))
}

/// Indoor tiles contributed by every stored grid.
pub open spec fn painted_roofs(maps: FloorMaps, defs: FloorTilesetDefinitions) -> Set<(SpaceId, i32, i32, i32)> {
    painted_roofs_upto(maps, defs, maps.maps@.len() as int)
}

/// The tile a sprite's indoor tint is read from: its own tile, or for a
/// wall the interior tile it backs onto (`South` → `y - 1`, `East` →
/// `x + 1`, `North` → `y + 1`, `West` → `x - 1`).
pub open spec fn tint_source(x: int, y: int, facing: Option<Direction>) -> (int, int) {
    match facing {
        None => (x, y),
        Some(Direction::South) => (x, y - 1),
        Some(Direction::East) => (x + 1, y),
        Some(Direction::North) => (x, y + 1),
        Some(Direction::West) => (x - 1, y),
    }
}

/// Whether a sprite at `(x, y, floor_idx)` receives the indoor tint.
pub fn should_apply_indoor_tint(
    indoor: &IndoorTileMap,
    space_id: SpaceId,
    x: i32,
    y: i32,
    floor_idx: i32,
    hide_when_inside_facing: Option<Direction>,
) -> (b: bool)
    requires
        ({
            let (sx, sy) = tint_source(x as int, y as int, hide_when_inside_facing);
            i32::MIN <= sx <= i32::MAX && i32::MIN <= sy <= i32::MAX
        }),
    ensures
        ({
            let (sx, sy) = tint_source(x as int, y as int, hide_when_inside_facing);
            b == indoor.view_set().contains((space_id, sx as i32, sy as i32, floor_idx))
        }),
{
    let (sx, sy) = match hide_when_inside_facing {
        None => (x, y),
        Some(Direction::South) => (x, y - 1),
        Some(Direction::East) => (x + 1, y),
        Some(Direction::North) => (x, y + 1),
        Some(Direction::West) => (x - 1, y),
    };
    indoor.contains(space_id, sx, sy, floor_idx)
}

/// Window of floor indices currently rendered.
#[derive(Clone, Copy, Debug, PartialEq, Eq, Structural)]
pub struct VisibleFloorRange {
    pub player_floor: i32,
    pub player_z: i32,
    pub lowest_visible: i32,
    pub highest_visible: i32,
}

impl VisibleFloorRange {
    pub fn contains(&self, floor: i32) -> (b: bool)
        ensures
            b == (self.lowest_visible <= floor <= self.highest_visible),
    {
        floor >= self.lowest_visible && floor <= self.highest_visible
    }
}

/// The visible window for a player at raw height `player_z`: upward, the
/// scan stops below the first step `s` in `1..=16` whose floor `player + s`
/// covers the player's column (`covered[s - 1]`), else runs the full 16
/// floors; downward, everything from `space_min_z` (or the player's floor
/// when the space has no floors loaded, or when that is lower) is visible.
pub fn visible_floor_range(player_z: i32, covered: &Vec<bool>, space_min_z: Option<i32>) -> (r: VisibleFloorRange)
    requires
        covered@.len() == MAX_FLOORS_ABOVE,
    ensures
        r.player_floor == player_z as int / 2,
        r.player_z == player_z,
        r.lowest_visible == match space_min_z {
            Some(m) => if m <= player_z as int / 2 { m as int } else { player_z as int / 2 },
            None => player_z as int / 2,
        },
        ({
            let steps = r.highest_visible - r.player_floor;
            &&& 0 <= steps <= MAX_FLOORS_ABOVE
            &&& forall|k: int| 0 <= k < steps ==> !covered@[k]
            &&& steps < MAX_FLOORS_ABOVE ==> covered@[steps]
        }),
{
    let player_floor = floor_index(player_z);
    let mut highest = player_floor;
    let mut step: i32 = 1;
    while step <= MAX_FLOORS_ABOVE
        invariant
            covered@.len() == MAX_FLOORS_ABOVE,
            1 <= step <= MAX_FLOORS_ABOVE + 1,
            player_floor == player_z as int / 2,
            highest == player_floor + step - 1,
            forall|k: int| 0 <= k < step - 1 ==> !covered@[k],
        ensures
            player_floor == player_z as int / 2,
            0 <= highest - player_floor <= MAX_FLOORS_ABOVE,
            forall|k: int| 0 <= k < highest - player_floor ==> !covered@[k],
            highest - player_floor < MAX_FLOORS_ABOVE ==> covered@[highest - player_floor],
        decreases MAX_FLOORS_ABOVE + 1 - step,
    {
        if covered[(step - 1) as usize] {
            break;
        }
        highest = player_floor + step;
        step = step + 1;
    }
    let lowest = match space_min_z {
        Some(m) => if m <= player_floor { m } else { player_floor },
        None => player_floor,
    };
    VisibleFloorRange { player_floor, player_z, lowest_visible: lowest, highest_visible: highest }
}

} // verus!
