//! The voxel model of one tile column: which standable surfaces it offers
//! and where floor slabs separate two heights.
//!
//! An object of block size `b` standing at `z0` presents a surface at
//! `z0 + b` (`b == 0` presents none). A painted floor tile on floor
//! `fi >= 1` is a slab occupying the cell `2 fi - 1` and, when walkable,
//! presents a surface at `2 fi`. The ground (`z = 0`) is always a walkable
//! surface.

use vstd::prelude::*;

use crate::components::{SpaceId, TilePosition};
use crate::floor_definitions::FloorTilesetDefinitions;
use crate::floor_map::FloorMaps;

verus! {

/// How many floors above ground a column scan considers.
pub const MAX_FLOORS_SCANNED: i32 = 16;

/// Raw `z` of the material of floor `floor_idx`: the slab under its surface.
pub fn slab_cell_z(floor_idx: i32) -> (z: i32)
    requires
        i32::MIN <= floor_idx * 2 - 1,
        floor_idx * 2 <= i32::MAX,
    ensures
        z == floor_idx * 2 - 1,
{
    floor_idx * 2 - 1
}

/// Raw `z` of the walking surface of floor `floor_idx`.
pub fn surface_z(floor_idx: i32) -> (z: i32)
    requires
        i32::MIN <= floor_idx * 2 <= i32::MAX,
    ensures
        z == floor_idx * 2,
{
    floor_idx * 2
}

/// Tile of a floor-map view at `(x, y)`; `None` for void or out of bounds.
pub open spec fn view_tile(v: (int, int, Seq<Option<String>>), x: int, y: int) -> Option<String> {
    if 0 <= x < v.0 && 0 <= y < v.1 {
        v.2[y * v.0 + x]
    } else {
        None
    }
}

/// Index of the tileset painted at `(x, y)` on floor `fi` of `space`, when
/// that tileset is loaded.
pub open spec fn painted_def(maps: FloorMaps, defs: FloorTilesetDefinitions, space: SpaceId, fi: int, x: int, y: int) -> Option<int> {
    match maps.lookup(space, fi as i32) {
        Some(v) => match view_tile(v, x, y) {
            Some(id) => defs.index_of(id@),
            None => None,
        },
        None => None,
    }
}

/// The painted tile at `(x, y)` on floor `fi` is solid material: walkable
/// or occluding the floor above.
pub open spec fn painted_solid(maps: FloorMaps, defs: FloorTilesetDefinitions, space: SpaceId, fi: int, x: int, y: int) -> bool {
    match painted_def(maps, defs, space, fi, x, y) {
        Some(k) => defs.by_id@[k].walkable_surface || defs.by_id@[k].occludes_floor_above,
        None => false,
    }
}

/// Some solid slab cell `2 fi - 1` of floors `1..=16` in column `(x, y)`
/// falls in `[min(a, b), max(a, b))`.
pub open spec fn slab_in_column(maps: FloorMaps, defs: FloorTilesetDefinitions, space: SpaceId, x: int, y: int, a: int, b: int) -> bool {
    exists|fi: int| 1 <= fi <= MAX_FLOORS_SCANNED
        && (if a <= b { a } else { b }) <= fi * 2 - 1 < (if a <= b { b } else { a })
        && #[trigger] painted_solid(maps, defs, space, fi, x, y)
}

/// The painted tile at `(x, y)` on floor `fi` can be stood on.
pub open spec fn painted_walkable(maps: FloorMaps, defs: FloorTilesetDefinitions, space: SpaceId, fi: int, x: int, y: int) -> bool {
    match painted_def(maps, defs, space, fi, x, y) {
        Some(k) => defs.by_id@[k].walkable_surface,
        None => false,
    }
}

/// Where the world's floors physically are: the floor grids plus their
/// tileset definitions.
pub struct FloorGeometry<'a> {
    pub maps: &'a FloorMaps,
    pub defs: &'a FloorTilesetDefinitions,
}

impl<'a> FloorGeometry<'a> {
    pub open spec fn wf(&self) -> bool {
        self.maps.wf() && self.defs.wf()
    }

    /// View over the authoritative floor grids.
    pub fn server(maps: &'a FloorMaps, defs: &'a FloorTilesetDefinitions) -> (g: Self)
        ensures
            *g.maps == *maps,
            *g.defs == *defs,
    {
        FloorGeometry { maps, defs }
    }

    /// View over a client's replicated floor grids.
    pub fn client(maps: &'a FloorMaps, defs: &'a FloorTilesetDefinitions) -> (g: Self)
        ensures
            *g.maps == *maps,
            *g.defs == *defs,
    {
        FloorGeometry { maps, defs }
    }

    pub fn definitions(&self) -> (d: &'a FloorTilesetDefinitions)
        ensures
            *d == *self.defs,
    {
        self.defs
    }

    /// Index of the tileset painted at `(x, y)` on floor `fi`.
    fn painted(&self, space: SpaceId, fi: i32, x: i32, y: i32) -> (r: Option<usize>)
        requires
            self.wf(),
        ensures
            r is Some <==> painted_def(*self.maps, *self.defs, space, fi as int, x as int, y as int) is Some,
            r is Some ==> r->0 == painted_def(*self.maps, *self.defs, space, fi as int, x as int, y as int)->0
                && r->0 < self.defs.by_id@.len(),
    {
        let grid = match self.maps.get(space, fi) {
            Some(g) => g,
            None => return None,
        };
        let id = match grid.get(x, y) {
            Some(id) => id,
            None => return None,
        };
        let ghost target = painted_def(*self.maps, *self.defs, space, fi as int, x as int, y as int);
        assert(target == self.defs.index_of(id@));
        let mut i: usize = 0;
        while i < self.defs.by_id.len()
            invariant
                self.wf(),
                target == self.defs.index_of(id@),
                target == painted_def(*self.maps, *self.defs, space, fi as int, x as int, y as int),
                i <= self.defs.by_id@.len(),
                forall|k: int| 0 <= k < i ==> (#[trigger] self.defs.by_id@[k]).id@ != id@,
            decreases self.defs.by_id@.len() - i,
        {
            if crate::text::str_eq(self.defs.by_id[i].id.as_str(), id.as_str()) {
                proof {
                    let c = choose|k: int| 0 <= k < self.defs.by_id@.len() && (#[trigger] self.defs.by_id@[k]).id@ == id@;
                    if c > i as int {
                        assert(self.defs.by_id@[i as int].id@ != self.defs.by_id@[c].id@);
                    }
                }
                return Some(i);
            }
            i = i + 1;
        }
        None
    }

    /// True iff floor material lies between `a_z` and `b_z` in column
    /// `(x, y)`: some solid slab cell of floors `1..=16` falls in
    /// `[min, max)`.
    pub fn slab_between(&self, space: SpaceId, x: i32, y: i32, a_z: i32, b_z: i32) -> (b: bool)
        requires
            self.wf(),
        ensures
            b == slab_in_column(*self.maps, *self.defs, space, x as int, y as int, a_z as int, b_z as int),
    {
        let lo = if a_z <= b_z { a_z } else { b_z };
        let hi = if a_z <= b_z { b_z } else { a_z };
        if lo == hi {
            return false;
        }
        let mut fi: i32 = 1;
        while fi <= MAX_FLOORS_SCANNED
            invariant
                self.wf(),
                1 <= fi <= MAX_FLOORS_SCANNED + 1,
                lo == (if a_z <= b_z { a_z } else { b_z }),
                hi == (if a_z <= b_z { b_z } else { a_z }),
                forall|f: int| 1 <= f < fi && lo <= f * 2 - 1 < hi ==> !#[trigger] painted_solid(*self.maps, *self.defs, space, f, x as int, y as int),
            decreases MAX_FLOORS_SCANNED + 1 - fi,
        {
            let cell = slab_cell_z(fi);
            if lo <= cell && cell < hi {
                if let Some(k) = self.painted(space, fi, x, y) {
                    if self.defs.by_id[k].walkable_surface || self.defs.by_id[k].occludes_floor_above {
                        assert(painted_solid(*self.maps, *self.defs, space, fi as int, x as int, y as int));
                        return true;
                    }
                }
            }
            fi = fi + 1;
        }
        false
    }

    /// The reach gate of every "act on a nearby object" command: the actor
    /// is near the target (`near`, the caller's adjacency test with its
    /// `|dz| <= 2` window) and no floor slab lies between the actor's feet
    /// and the target in the actor's column.
    pub fn reachable(&self, near: bool, actor: &TilePosition, target: &TilePosition, space: SpaceId) -> (b: bool)
        requires
            self.wf(),
        ensures
            b == (near && !slab_in_column(*self.maps, *self.defs, space, actor.x as int, actor.y as int, actor.z as int, target.z as int)),
    {
        near && !self.slab_between(space, actor.x, actor.y, actor.z, target.z)
    }
}

/// Surfaces presented by column members `(feet_z, block_size, walkable_top)`:
/// one per member of non-zero size, at `feet_z + block_size`, in order.
pub open spec fn object_surfaces(objects: Seq<(i32, u8, bool)>) -> Seq<(int, bool)>
    decreases objects.len(),
{
    if objects.len() == 0 {
        Seq::empty()
    } else {
        let rest = object_surfaces(objects.drop_last());
        let (z, b, w) = objects.last();
        if b == 0 { rest } else { rest.push((z + b as int, w)) }
    }
}

/// Walkable painted surfaces at `2 fi` for floors `1..=n`, in order.
pub open spec fn floor_surfaces(maps: FloorMaps, defs: FloorTilesetDefinitions, space: SpaceId, x: int, y: int, n: int) -> Seq<(int, bool)>
    decreases n,
{
    if n <= 0 {
        Seq::empty()
    } else {
        let rest = floor_surfaces(maps, defs, space, x, y, n - 1);
        if painted_walkable(maps, defs, space, n, x, y) { rest.push((2 * n, true)) } else { rest }
    }
}

/// Solid painted floors among `1..=n`, in order.
pub open spec fn solid_floors(maps: FloorMaps, defs: FloorTilesetDefinitions, space: SpaceId, x: int, y: int, n: int) -> Seq<int>
    decreases n,
{
    if n <= 0 {
        Seq::empty()
    } else {
        let rest = solid_floors(maps, defs, space, x, y, n - 1);
        if painted_solid(maps, defs, space, n, x, y) { rest.push(n) } else { rest }
    }
}

/// Largest `z` among `surfaces`, or 0 when there is none.
pub open spec fn max_z(surfaces: Seq<(int, bool)>) -> int
    decreases surfaces.len(),
{
    if surfaces.len() == 0 {
        0
    } else {
        let rest = max_z(surfaces.drop_last());
        let z = surfaces.last().0;
        if surfaces.len() == 1 || z > rest { z } else { rest }
    }
}

/// Some floor of `slabs` has its slab cell in `[min(a, b), max(a, b))`.
pub open spec fn slab_between_spec(slabs: Seq<int>, a: int, b: int) -> bool {
    let lo = if a <= b { a } else { b };
    let hi = if a <= b { b } else { a };
    exists|k: int| 0 <= k < slabs.len() && lo <= #[trigger] slabs[k] * 2 - 1 < hi
}

/// Surfaces whose height is not cut off from `from` by a slab.
pub open spec fn reachable_surfaces(surfaces: Seq<(int, bool)>, slabs: Seq<int>, from: int) -> Seq<(int, bool)> {
    surfaces.filter(|s: (int, bool)| !slab_between_spec(slabs, from, s.0))
}

/// Every surface at height `z` is walkable.
pub open spec fn walkable_at_spec(surfaces: Seq<(int, bool)>, z: int) -> bool {
    forall|k: int| 0 <= k < surfaces.len() && (#[trigger] surfaces[k]).0 == z ==> surfaces[k].1
}

/// A resolved tile column.
pub struct Column {
    /// `(surface_z, walkable)` of every standable candidate, starting with
    /// the ground `(0, true)`.
    pub surfaces: Vec<(i32, bool)>,
    /// Floors (`>= 1`) whose painted tile is solid material.
    pub slab_floors: Vec<i32>,
}

impl Column {
    pub open spec fn surfaces_view(&self) -> Seq<(int, bool)> {
        self.surfaces@.map_values(|s: (i32, bool)| (s.0 as int, s.1))
    }

    pub open spec fn slabs_view(&self) -> Seq<int> {
        self.slab_floors@.map_values(|f: i32| f as int)
    }

    /// Builds the column at `(x, y)` of `space` from its members
    /// `(feet_z, block_size, walkable_top)` and the painted floors above.
    pub fn new(objects: &Vec<(i32, u8, bool)>, geometry: &FloorGeometry, space: SpaceId, x: i32, y: i32) -> (c: Column)
        requires
            geometry.wf(),
            forall|i: int| 0 <= i < objects@.len() ==> (#[trigger] objects@[i]).0 + objects@[i].1 <= i32::MAX,
        ensures
            c.surfaces_view() == seq![(0int, true)] + object_surfaces(objects@)
                + floor_surfaces(*geometry.maps, *geometry.defs, space, x as int, y as int, MAX_FLOORS_SCANNED as int),
            c.slabs_view() == solid_floors(*geometry.maps, *geometry.defs, space, x as int, y as int, MAX_FLOORS_SCANNED as int),
    {
        let mut surfaces: Vec<(i32, bool)> = Vec::new();
        surfaces.push((0, true));
        let mut i: usize = 0;
        while i < objects.len()
            invariant
                i <= objects@.len(),
                forall|k: int| 0 <= k < objects@.len() ==> (#[trigger] objects@[k]).0 + objects@[k].1 <= i32::MAX,
                surfaces@.map_values(|s: (i32, bool)| (s.0 as int, s.1)) == seq![(0int, true)] + object_surfaces(objects@.take(i as int)),
            decreases objects@.len() - i,
        {
            let (feet_z, block_size, walkable) = objects[i];
            assert(objects@.take(i + 1).drop_last() == objects@.take(i as int));
            assert(objects@.take(i + 1).last() == objects@[i as int]);
            let ghost before = surfaces@;
            if block_size != 0 {
                surfaces.push((feet_z + block_size as i32, walkable));
                assert(surfaces@.map_values(|s: (i32, bool)| (s.0 as int, s.1)) =~= before.map_values(|s: (i32, bool)| (s.0 as int, s.1)).push((feet_z + block_size as int, walkable)));
            }
            i = i + 1;
        }
        assert(objects@.take(objects@.len() as int) == objects@);
        let ghost base = surfaces@.map_values(|s: (i32, bool)| (s.0 as int, s.1));
        let mut slab_floors: Vec<i32> = Vec::new();
        let mut fi: i32 = 1;
        while fi <= MAX_FLOORS_SCANNED
            invariant
                geometry.wf(),
                1 <= fi <= MAX_FLOORS_SCANNED + 1,
                surfaces@.map_values(|s: (i32, bool)| (s.0 as int, s.1)) == base + floor_surfaces(*geometry.maps, *geometry.defs, space, x as int, y as int, fi - 1),
                slab_floors@.map_values(|f: i32| f as int) == solid_floors(*geometry.maps, *geometry.defs, space, x as int, y as int, fi - 1),
            decreases MAX_FLOORS_SCANNED + 1 - fi,
        {
            let ghost s_before = surfaces@;
            let ghost f_before = slab_floors@;
            let ghost fs = |s: (i32, bool)| (s.0 as int, s.1);
            let ghost ff = |f: i32| f as int;
            if let Some(k) = geometry.painted(space, fi, x, y) {
                let walk = geometry.defs.by_id[k].walkable_surface;
                let occl = geometry.defs.by_id[k].occludes_floor_above;
                if walk {
                    surfaces.push((surface_z(fi), true));
                    assert(surfaces@.map_values(fs) =~= s_before.map_values(fs).push((2 * fi as int, true)));
                }
                if walk || occl {
                    slab_floors.push(fi);
                    assert(slab_floors@.map_values(ff) =~= f_before.map_values(ff).push(fi as int));
                }
            }
            proof {
                assert(surfaces@.map_values(|s: (i32, bool)| (s.0 as int, s.1)) =~= base + floor_surfaces(*geometry.maps, *geometry.defs, space, x as int, y as int, fi as int));
                assert(slab_floors@.map_values(|f: i32| f as int) =~= solid_floors(*geometry.maps, *geometry.defs, space, x as int, y as int, fi as int));
            }
            fi = fi + 1;
        }
        Column { surfaces, slab_floors }
    }

    /// Highest standable surface in the column; `0` for an empty column.
    pub fn top_surface(&self) -> (z: i32)
        ensures
            z == max_z(self.surfaces_view()),
    {
        let mut best: i32 = 0;
        let mut i: usize = 0;
        while i < self.surfaces.len()
            invariant
                i <= self.surfaces@.len(),
                best == max_z(self.surfaces_view().take(i as int)),
            decreases self.surfaces@.len() - i,
        {
            assert(self.surfaces_view().take(i + 1).drop_last() == self.surfaces_view().take(i as int));
            let z = self.surfaces[i].0;
            if i == 0 || z > best {
                best = z;
            }
            i = i + 1;
        }
        assert(self.surfaces_view().take(self.surfaces@.len() as int) == self.surfaces_view());
        best
    }

    /// Whether `top_surface` can be stood on: every candidate at that height
    /// is walkable, so a wall flush with a painted floor wins the tie.
    pub fn top_is_walkable(&self) -> (b: bool)
        ensures
            b == walkable_at_spec(self.surfaces_view(), max_z(self.surfaces_view())),
    {
        let top = self.top_surface();
        self.walkable_at(top)
    }

    /// Highest surface an actor at `from_z` can put something on: the
    /// surfaces not separated from `from_z` by a slab.
    pub fn surface_from(&self, from_z: i32) -> (z: i32)
        ensures
            z == max_z(reachable_surfaces(self.surfaces_view(), self.slabs_view(), from_z as int)),
    {
        let mut best: i32 = 0;
        let mut seen: bool = false;
        let mut i: usize = 0;
        while i < self.surfaces.len()
            invariant
                i <= self.surfaces@.len(),
                seen == (reachable_surfaces(self.surfaces_view().take(i as int), self.slabs_view(), from_z as int).len() > 0),
                best == max_z(reachable_surfaces(self.surfaces_view().take(i as int), self.slabs_view(), from_z as int)),
            decreases self.surfaces@.len() - i,
        {
            let z = self.surfaces[i].0;
            let blocked = self.slab_between(from_z, z);
            let ghost pre = self.surfaces_view().take(i as int);
            let ghost elem = self.surfaces_view()[i as int];
            let ghost f = |s: (int, bool)| !slab_between_spec(self.slabs_view(), from_z as int, s.0);
            proof {
                let post = self.surfaces_view().take(i + 1);
                assert(post == pre.push(elem));
                pre.lemma_filter_push(elem, f);
                assert(elem.0 == z as int);
                assert(f(elem) == !blocked);
            }
            let ghost r_pre = pre.filter(f);
            if !blocked {
                if !seen || z > best {
                    best = z;
                }
                seen = true;
                proof {
                    let r_post = r_pre.push(elem);
                    assert(r_post.drop_last() == r_pre);
                    assert(r_post.last() == elem);
                    assert(best == max_z(r_post));
                }
            }
            i = i + 1;
        }
        assert(self.surfaces_view().take(self.surfaces@.len() as int) == self.surfaces_view());
        best
    }

    /// `top_is_walkable` for the surface `surface_from` picks.
    pub fn surface_from_is_walkable(&self, from_z: i32) -> (b: bool)
        ensures
            b == walkable_at_spec(self.surfaces_view(), max_z(reachable_surfaces(self.surfaces_view(), self.slabs_view(), from_z as int))),
    {
        let z = self.surface_from(from_z);
        self.walkable_at(z)
    }

    /// True iff a slab cell falls in `[min(a, b), max(a, b))`.
    pub fn slab_between(&self, a: i32, b: i32) -> (r: bool)
        ensures
            r == slab_between_spec(self.slabs_view(), a as int, b as int),
    {
        let lo = if a <= b { a } else { b };
        let hi = if a <= b { b } else { a };
        let mut i: usize = 0;
        while i < self.slab_floors.len()
            invariant
                i <= self.slab_floors@.len(),
                lo == (if a <= b { a } else { b }),
                hi == (if a <= b { b } else { a }),
                forall|k: int| 0 <= k < i ==> !(lo <= #[trigger] self.slabs_view()[k] * 2 - 1 < hi),
            decreases self.slab_floors@.len() - i,
        {
            let f = self.slab_floors[i] as i64;
            let cell = f * 2 - 1;
            if lo as i64 <= cell && cell < hi as i64 {
                assert(lo <= self.slabs_view()[i as int] * 2 - 1 < hi);
                return true;
            }
            i = i + 1;
        }
        false
    }

    /// Every candidate at surface `z` is walkable.
    fn walkable_at(&self, z: i32) -> (b: bool)
        ensures
            b == walkable_at_spec(self.surfaces_view(), z as int),
    {
        let mut i: usize = 0;
        while i < self.surfaces.len()
            invariant
                i <= self.surfaces@.len(),
                forall|k: int| 0 <= k < i && (#[trigger] self.surfaces_view()[k]).0 == z ==> self.surfaces_view()[k].1,
            decreases self.surfaces@.len() - i,
        {
            if self.surfaces[i].0 == z && !self.surfaces[i].1 {
                assert(self.surfaces_view()[i as int].0 == z && !self.surfaces_view()[i as int].1);
                return false;
            }
            i = i + 1;
        }
        true
    }
}

/// The slab test does not depend on which end is the actor.
pub proof fn lemma_slab_between_symmetric(slabs: Seq<int>, a: int, b: int)
    ensures
        slab_between_spec(slabs, a, b) == slab_between_spec(slabs, b, a),
        !slab_between_spec(slabs, a, a),
{
}

/// The ground keeps every column's top at or above zero, and what an actor
/// can reach never exceeds the column's top.
pub proof fn lemma_surface_from_below_top(surfaces: Seq<(int, bool)>, slabs: Seq<int>, from: int)
    requires
        surfaces.len() > 0,
        surfaces[0] == (0int, true),
    ensures
        max_z(surfaces) >= 0,
        max_z(reachable_surfaces(surfaces, slabs, from)) <= max_z(surfaces),
{
    lemma_max_z_ge_all(surfaces);
    let r = reachable_surfaces(surfaces, slabs, from);
    let f = |s: (int, bool)| !slab_between_spec(slabs, from, s.0);
    assert(surfaces[0].0 <= max_z(surfaces));
    if r.len() > 0 {
        lemma_max_z_is_member(r);
        let k = choose|k: int| 0 <= k < r.len() && r[k].0 == max_z(r);
        assert(r.contains(r[k]));
        surfaces.lemma_filter_contains_rev(f, r[k]);
        let j = choose|j: int| 0 <= j < surfaces.len() && surfaces[j] == r[k];
        assert(surfaces[j].0 <= max_z(surfaces));
    }
}

/// `max_z` bounds every member from above.
pub proof fn lemma_max_z_ge_all(s: Seq<(int, bool)>)
    ensures
        forall|k: int| 0 <= k < s.len() ==> (#[trigger] s[k]).0 <= max_z(s),
    decreases s.len(),
{
    if s.len() > 0 {
        lemma_max_z_ge_all(s.drop_last());
        assert forall|k: int| 0 <= k < s.len() implies (#[trigger] s[k]).0 <= max_z(s) by {
            if k < s.len() - 1 {
                assert(s[k] == s.drop_last()[k]);
            }
        }
    }
}

/// A non-empty sequence attains its `max_z`.
pub proof fn lemma_max_z_is_member(s: Seq<(int, bool)>)
    requires
        s.len() > 0,
    ensures
        exists|k: int| 0 <= k < s.len() && s[k].0 == max_z(s),
    decreases s.len(),
{
    if s.len() > 1 {
        lemma_max_z_is_member(s.drop_last());
        let k = choose|k: int| 0 <= k < s.drop_last().len() && s.drop_last()[k].0 == max_z(s.drop_last());
        assert(s[k] == s.drop_last()[k]);
    } else {
        assert(s[0].0 == max_z(s));
    }
}


/// `solid_floors` lists floor `fi` exactly when its painted tile is solid.
proof fn lemma_solid_floors_member(maps: FloorMaps, defs: FloorTilesetDefinitions, space: SpaceId, x: int, y: int, n: int, fi: int)
    requires
        1 <= fi <= n,
    ensures
        solid_floors(maps, defs, space, x, y, n).contains(fi) <==> painted_solid(maps, defs, space, fi, x, y),
    decreases n,
{
    let rest = solid_floors(maps, defs, space, x, y, n - 1);
    lemma_solid_floors_below(maps, defs, space, x, y, n - 1);
    if fi < n {
        lemma_solid_floors_member(maps, defs, space, x, y, n - 1, fi);
        if painted_solid(maps, defs, space, n, x, y) {
            assert(rest.push(n).contains(fi) <==> rest.contains(fi)) by {
                if rest.push(n).contains(fi) {
                    let i = choose|i: int| 0 <= i < rest.push(n).len() && rest.push(n)[i] == fi;
                    if i == rest.len() {
                        assert(rest.push(n)[i] == n);
                    } else {
                        assert(rest[i] == fi);
                    }
                }
                if rest.contains(fi) {
                    let i = choose|i: int| 0 <= i < rest.len() && rest[i] == fi;
                    assert(rest.push(n)[i] == fi);
                }
            }
        }
    } else {
        if painted_solid(maps, defs, space, n, x, y) {
            assert(rest.push(n)[rest.len() as int] == n);
        } else {
            if rest.contains(n) {
                let i = choose|i: int| 0 <= i < rest.len() && rest[i] == n;
            }
        }
    }
}

/// Every floor `solid_floors` lists for `n` floors is among `1..=n`.
proof fn lemma_solid_floors_below(maps: FloorMaps, defs: FloorTilesetDefinitions, space: SpaceId, x: int, y: int, n: int)
    ensures
        forall|i: int| 0 <= i < solid_floors(maps, defs, space, x, y, n).len() ==>
            1 <= #[trigger] solid_floors(maps, defs, space, x, y, n)[i] <= n,
    decreases n,
{
    if n > 0 {
        lemma_solid_floors_below(maps, defs, space, x, y, n - 1);
        let rest = solid_floors(maps, defs, space, x, y, n - 1);
        let all = solid_floors(maps, defs, space, x, y, n);
        assert forall|i: int| 0 <= i < all.len() implies 1 <= #[trigger] all[i] <= n by {
            if i < rest.len() {
                assert(all[i] == rest[i]);
            }
        }
    }
}

/// A painted floor tile whose tileset can be walked on is floor material,
/// whether or not it occludes the floor above: it is a slab between any two
/// heights its slab cell `2 fi - 1` separates, so nothing reaches through
/// it, and a column built over it lists it among its slab floors.
pub proof fn lemma_walkable_floor_is_a_slab(maps: FloorMaps, defs: FloorTilesetDefinitions, space: SpaceId, x: int, y: int, fi: int, a: int, b: int)
    requires
        1 <= fi <= MAX_FLOORS_SCANNED,
        (if a <= b { a } else { b }) <= fi * 2 - 1 < (if a <= b { b } else { a }),
        painted_def(maps, defs, space, fi, x, y) matches Some(k) && defs.by_id@[k].walkable_surface,
    ensures
        slab_in_column(maps, defs, space, x, y, a, b),
        solid_floors(maps, defs, space, x, y, MAX_FLOORS_SCANNED as int).contains(fi),
{
    assert(painted_solid(maps, defs, space, fi, x, y));
    lemma_solid_floors_member(maps, defs, space, x, y, MAX_FLOORS_SCANNED as int, fi);
}

/// A painted floor tile whose tileset occludes the floor above is floor
/// material too, even when it cannot be walked on (see
/// `lemma_walkable_floor_is_a_slab`).
pub proof fn lemma_occluding_floor_is_a_slab(maps: FloorMaps, defs: FloorTilesetDefinitions, space: SpaceId, x: int, y: int, fi: int, a: int, b: int)
    requires
        1 <= fi <= MAX_FLOORS_SCANNED,
        (if a <= b { a } else { b }) <= fi * 2 - 1 < (if a <= b { b } else { a }),
        painted_def(maps, defs, space, fi, x, y) matches Some(k) && defs.by_id@[k].occludes_floor_above,
    ensures
        slab_in_column(maps, defs, space, x, y, a, b),
        solid_floors(maps, defs, space, x, y, MAX_FLOORS_SCANNED as int).contains(fi),
{
    assert(painted_solid(maps, defs, space, fi, x, y));
    lemma_solid_floors_member(maps, defs, space, x, y, MAX_FLOORS_SCANNED as int, fi);
}

/// A floor with nothing painted at `(x, y)`, or painted with a tileset that
/// neither can be walked on nor occludes, is no slab floor of the column.
pub proof fn lemma_open_floor_is_no_slab(maps: FloorMaps, defs: FloorTilesetDefinitions, space: SpaceId, x: int, y: int, fi: int)
    requires
        1 <= fi <= MAX_FLOORS_SCANNED,
        match painted_def(maps, defs, space, fi, x, y) {
            Some(k) => !defs.by_id@[k].walkable_surface && !defs.by_id@[k].occludes_floor_above,
            None => true,
        },
    ensures
        !solid_floors(maps, defs, space, x, y, MAX_FLOORS_SCANNED as int).contains(fi),
{
    lemma_solid_floors_member(maps, defs, space, x, y, MAX_FLOORS_SCANNED as int, fi);
}

} // verus!
