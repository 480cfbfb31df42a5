//! Procedural dungeon generator: sparse rectangular chambers joined by
//! meandering corridors on a wall-filled grid.

use std::time::{SystemTime, UNIX_EPOCH};

use vstd::prelude::*;

use crate::map_layout::{AnonymousObjectPlacements, FloorPlacements, MapObjectEntry, SpaceDefinition, TileCoordinate};

verus! {

// ── Layout grid ───────────────────────────────────────────────────────────────

/// What a layout cell holds.
#[derive(Clone, Copy, Debug, PartialEq, Eq, Structural)]
pub enum Cell {
    Wall,
    Chamber,
    Corridor,
}

/// Row-major grid of cells: `cells[y * width + x]`.
pub struct Layout {
    pub width: i32,
    pub height: i32,
    pub cells: Vec<Cell>,
}

/// `y * w + x` lies inside `[0, w * h)` for every in-bounds `(x, y)`.
pub proof fn lemma_index_in_range(w: int, h: int, x: int, y: int)
    requires
        0 <= x < w,
        0 <= y < h,
    ensures
        0 <= y * w + x < w * h,
{
    assert(0 <= y * w + x < w * h) by (nonlinear_arith)
        requires
            0 <= x < w,
            0 <= y < h,
    ;
}

/// Distinct in-bounds coordinates have distinct row-major indices.
pub proof fn lemma_index_injective(w: int, x1: int, y1: int, x2: int, y2: int)
    requires
        0 <= x1 < w,
        0 <= x2 < w,
        0 <= y1,
        0 <= y2,
        y1 * w + x1 == y2 * w + x2,
    ensures
        x1 == x2 && y1 == y2,
{
    if y1 < y2 {
        assert(y1 * w + w <= y2 * w) by (nonlinear_arith)
            requires
                y1 < y2,
                0 <= w,
        ;
    } else if y2 < y1 {
        assert(y2 * w + w <= y1 * w) by (nonlinear_arith)
            requires
                y2 < y1,
                0 <= w,
        ;
    }
}

impl Layout {
    /// Dimensions are non-negative and `cells` holds exactly `width * height` cells.
    pub open spec fn wf(&self) -> bool {
        &&& self.width >= 0
        &&& self.height >= 0
        &&& self.width * self.height <= i32::MAX
        &&& self.cells@.len() == self.width * self.height
    }

    pub open spec fn in_bounds_spec(&self, x: int, y: int) -> bool {
        0 <= x < self.width && 0 <= y < self.height
    }

    pub open spec fn index_of(&self, x: int, y: int) -> int {
        y * self.width + x
    }

    /// The cell at `(x, y)`.
    pub open spec fn cell(&self, x: int, y: int) -> Cell {
        self.cells@[self.index_of(x, y)]
    }

    /// A wall-filled grid of the given size.
    pub fn new(width: i32, height: i32) -> (layout: Layout)
        requires
            width >= 0,
            height >= 0,
            width * height <= i32::MAX,
        ensures
            layout.wf(),
            layout.width == width,
            layout.height == height,
            forall|x: int, y: int| #[trigger] layout.in_bounds_spec(x, y) ==> layout.cell(x, y) == Cell::Wall,
    {
        let n = (width * height) as usize;
        let mut cells: Vec<Cell> = Vec::new();
        let mut i: usize = 0;
        while i < n
            invariant
                i <= n,
                cells@.len() == i,
                forall|j: int| 0 <= j < i ==> cells@[j] == Cell::Wall,
            decreases n - i,
        {
            cells.push(Cell::Wall);
            i = i + 1;
        }
        let layout = Layout { width, height, cells };
        assert forall|x: int, y: int| #[trigger] layout.in_bounds_spec(x, y) implies layout.cell(x, y) == Cell::Wall by {
            lemma_index_in_range(width as int, height as int, x, y);
        }
        layout
    }

    pub fn in_bounds(&self, x: i32, y: i32) -> (b: bool)
        ensures
            b == self.in_bounds_spec(x as int, y as int),
    {
        x >= 0 && y >= 0 && x < self.width && y < self.height
    }

    pub fn idx(&self, x: i32, y: i32) -> (i: usize)
        requires
            self.wf(),
            self.in_bounds_spec(x as int, y as int),
        ensures
            i == self.index_of(x as int, y as int),
            i < self.cells@.len(),
    {
        proof {
            lemma_index_in_range(self.width as int, self.height as int, x as int, y as int);
        }
        (y * self.width + x) as usize
    }

    pub fn get(&self, x: i32, y: i32) -> (c: Cell)
        requires
            self.wf(),
            self.in_bounds_spec(x as int, y as int),
        ensures
            c == self.cell(x as int, y as int),
    {
        self.cells[self.idx(x, y)]
    }

    /// Writes one cell; every other cell keeps its value.
    pub fn set(&mut self, x: i32, y: i32, cell: Cell)
        requires
            old(self).wf(),
            old(self).in_bounds_spec(x as int, y as int),
        ensures
            final(self).wf(),
            final(self).width == old(self).width,
            final(self).height == old(self).height,
            forall|a: int, b: int| #[trigger] final(self).in_bounds_spec(a, b) ==>
                final(self).cell(a, b) == if a == x && b == y { cell } else { old(self).cell(a, b) },
    {
        let idx = self.idx(x, y);
        self.cells.set(idx, cell);
        proof {
            assert forall|a: int, b: int| #[trigger] self.in_bounds_spec(a, b) implies
                self.cell(a, b) == if a == x && b == y { cell } else { old(self).cell(a, b) } by {
                lemma_index_in_range(self.width as int, self.height as int, a, b);
                if !(a == x && b == y) {
                    if self.index_of(a, b) == idx as int {
                        lemma_index_injective(self.width as int, a, b, x as int, y as int);
                    }
                }
            }
        }
    }
}


/// `(x + dx, y + dy)` is an in-bounds cell that is not a wall.
pub open spec fn neighbor_carved(layout: Layout, x: int, y: int, dx: int, dy: int) -> bool {
    &&& layout.in_bounds_spec(x + dx, y + dy)
    &&& layout.cell(x + dx, y + dy) != Cell::Wall
}

/// Some cell of the eight around `(x, y)` is carved.
pub open spec fn has_carved_neighbor_spec(layout: Layout, x: int, y: int) -> bool {
    exists|dx: int, dy: int|
        -1 <= dx <= 1 && -1 <= dy <= 1 && !(dx == 0 && dy == 0) && #[trigger] neighbor_carved(layout, x, y, dx, dy)
}

/// True if any of the 8 surrounding cells is a carved (non-wall) tile.
pub fn has_carved_neighbor(layout: &Layout, x: i32, y: i32) -> (b: bool)
    requires
        layout.wf(),
        i32::MIN < x < i32::MAX,
        i32::MIN < y < i32::MAX,
    ensures
        b == has_carved_neighbor_spec(*layout, x as int, y as int),
{
    let mut dy: i32 = -1;
    while dy <= 1
        invariant
            layout.wf(),
            i32::MIN < x < i32::MAX,
            i32::MIN < y < i32::MAX,
            -1 <= dy <= 2,
            forall|ddx: int, ddy: int| -1 <= ddx <= 1 && -1 <= ddy < dy && !(ddx == 0 && ddy == 0) ==>
                !#[trigger] neighbor_carved(*layout, x as int, y as int, ddx, ddy),
        decreases 2 - dy,
    {
        let mut dx: i32 = -1;
        while dx <= 1
            invariant
                layout.wf(),
                i32::MIN < x < i32::MAX,
                i32::MIN < y < i32::MAX,
                -1 <= dy <= 1,
                -1 <= dx <= 2,
                forall|ddx: int, ddy: int| -1 <= ddx <= 1 && -1 <= ddy < dy && !(ddx == 0 && ddy == 0) ==>
                    !#[trigger] neighbor_carved(*layout, x as int, y as int, ddx, ddy),
                forall|ddx: int| -1 <= ddx < dx && !(ddx == 0 && dy == 0) ==>
                    !#[trigger] neighbor_carved(*layout, x as int, y as int, ddx, dy as int),
            decreases 2 - dx,
        {
            if !(dx == 0 && dy == 0) {
                let nx = x + dx;
                let ny = y + dy;
                if layout.in_bounds(nx, ny) && layout.get(nx, ny) != Cell::Wall {
                    assert(neighbor_carved(*layout, x as int, y as int, dx as int, dy as int));
                    return true;
                }
            }
            dx = dx + 1;
        }
        dy = dy + 1;
    }
    false
}

// ── Rooms ─────────────────────────────────────────────────────────────────────

/// An axis-aligned rectangle of chamber cells.
#[derive(Clone, Copy, Debug)]
pub struct Room {
    pub x: i32,
    pub y: i32,
    pub w: i32,
    pub h: i32,
}

/// `(x, y)` lies in `room`.
pub open spec fn room_contains(room: Room, x: int, y: int) -> bool {
    room.x <= x < room.x + room.w && room.y <= y < room.y + room.h
}

/// `a` grown by `pad` on its right and bottom edges meets `b`, or `b` grown
/// likewise meets `a`.
pub open spec fn rooms_overlap_padded(a: Room, b: Room, pad: int) -> bool {
    !(a.x + a.w + pad <= b.x || b.x + b.w + pad <= a.x || a.y + a.h + pad <= b.y || b.y + b.h + pad
        <= a.y)
}

/// Every coordinate sum the room methods compute fits in `i32`.
pub open spec fn room_sums_fit(room: Room) -> bool {
    i32::MIN <= room.x + room.w <= i32::MAX && i32::MIN <= room.y + room.h <= i32::MAX
}

/// Half of `v`, rounded toward zero (Rust's `i32` division by 2).
pub open spec fn half_toward_zero(v: int) -> int {
    if v >= 0 { v / 2 } else { -((-v) / 2) }
}

impl Room {
    pub fn center(&self) -> (c: (i32, i32))
        requires
            i32::MIN <= self.x + half_toward_zero(self.w as int) <= i32::MAX,
            i32::MIN <= self.y + half_toward_zero(self.h as int) <= i32::MAX,
        ensures
            c.0 == self.x + half_toward_zero(self.w as int),
            c.1 == self.y + half_toward_zero(self.h as int),
    {
        (self.x + self.w / 2, self.y + self.h / 2)
    }

    pub fn contains(&self, x: i32, y: i32) -> (b: bool)
        requires
            room_sums_fit(*self),
        ensures
            b == room_contains(*self, x as int, y as int),
    {
        x >= self.x && y >= self.y && x < self.x + self.w && y < self.y + self.h
    }

    /// True if this room (expanded by `pad` tiles) overlaps `other`.
    pub fn overlaps_padded(&self, other: &Room, pad: i32) -> (b: bool)
        requires
            i32::MIN <= self.x + self.w + pad <= i32::MAX,
            i32::MIN <= other.x + other.w + pad <= i32::MAX,
            i32::MIN <= self.y + self.h + pad <= i32::MAX,
            i32::MIN <= other.y + other.h + pad <= i32::MAX,
            room_sums_fit(*self),
            room_sums_fit(*other),
        ensures
            b == rooms_overlap_padded(*self, *other, pad as int),
    {
        !(self.x + self.w + pad <= other.x || other.x + other.w + pad <= self.x || self.y + self.h
            + pad <= other.y || other.y + other.h + pad <= self.y)
    }
}

// ── Tiny PRNG (SplitMix64) ────────────────────────────────────────────────────

pub const GOLDEN_GAMMA: u64 = 0x9E3779B97F4A7C15;

/// SplitMix64 output mixing of an advanced state.
pub open spec fn splitmix_mix(z: u64) -> u64 {
    let z1 = vstd::wrapping::u64_specs::wrapping_mul(z ^ (z >> 30u64), 0xBF58476D1CE4E5B9u64);
    let z2 = vstd::wrapping::u64_specs::wrapping_mul(z1 ^ (z1 >> 27u64), 0x94D049BB133111EBu64);
    z2 ^ (z2 >> 31u64)
}

/// State after one draw.
pub open spec fn rng_advance(state: u64) -> u64 {
    vstd::wrapping::u64_specs::wrapping_add(state, GOLDEN_GAMMA)
}

/// Value of the next draw from `state`.
pub open spec fn rng_output(state: u64) -> u64 {
    splitmix_mix(rng_advance(state))
}

/// Deterministic SplitMix64 generator.
pub struct Rng {
    pub state: u64,
}

impl Rng {
    /// A zero seed is replaced by the golden gamma.
    pub fn new(seed: u64) -> (rng: Rng)
        ensures
            rng.state == if seed == 0 { GOLDEN_GAMMA } else { seed },
    {
        Rng { state: if seed == 0 { GOLDEN_GAMMA } else { seed } }
    }

    pub fn next_u64(&mut self) -> (r: u64)
        ensures
            final(self).state == rng_advance(old(self).state),
            r == rng_output(old(self).state),
    {
        self.state = self.state.wrapping_add(GOLDEN_GAMMA);
        let mut z = self.state;
        z = (z ^ (z >> 30)).wrapping_mul(0xBF58476D1CE4E5B9);
        z = (z ^ (z >> 27)).wrapping_mul(0x94D049BB133111EB);
        z ^ (z >> 31)
    }

    /// Uniform-ish draw from `[lo, hi)`.
    pub fn gen_range_u64(&mut self, lo: u64, hi: u64) -> (r: u64)
        requires
            hi > lo,
        ensures
            final(self).state == rng_advance(old(self).state),
            r == lo + rng_output(old(self).state) % ((hi - lo) as u64),
            lo <= r < hi,
    {
        lo + self.next_u64() % (hi - lo)
    }

    /// Draw from `[lo, hi)`; an empty range yields `lo` without drawing.
    pub fn gen_range_i32(&mut self, lo: i32, hi: i32) -> (r: i32)
        requires
            hi - lo <= i32::MAX,
        ensures
            hi <= lo ==> r == lo && final(self).state == old(self).state,
            hi > lo ==> final(self).state == rng_advance(old(self).state) && r == lo + (rng_output(
                old(self).state,
            ) % ((hi - lo) as u64)),
            hi > lo ==> lo <= r < hi,
    {
        if hi <= lo {
            return lo;
        }
        let span = (hi - lo) as u64;
        lo + (self.next_u64() % span) as i32
    }

    /// Draw from `[lo, hi)`; an empty range yields `lo` without drawing.
    pub fn gen_range_usize(&mut self, lo: usize, hi: usize) -> (r: usize)
        ensures
            hi <= lo ==> r == lo && final(self).state == old(self).state,
            hi > lo ==> final(self).state == rng_advance(old(self).state) && r == lo + ((rng_output(
                old(self).state,
            ) as usize) % ((hi - lo) as usize)),
            hi > lo ==> lo <= r < hi,
    {
        if hi <= lo {
            return lo;
        }
        lo + (self.next_u64() as usize) % (hi - lo)
    }

    /// The top 24 bits of the next draw: the numerator of a unit draw in
    /// `[0, 1)` with denominator `2^24`.
    pub fn gen_unit_numerator(&mut self) -> (r: u64)
        ensures
            final(self).state == rng_advance(old(self).state),
            r == rng_output(old(self).state) >> 40u64,
            r < 0x100_0000,
    {
        let v = self.next_u64();
        assert(v >> 40u64 < 0x100_0000u64) by (bit_vector);
        v >> 40
    }
}


// ── Parameters ────────────────────────────────────────────────────────────────

/// Integer shape parameters of a generated dungeon.
pub struct DungeonParams {
    pub width: i32,
    pub height: i32,
    pub wall_type_id: String,
    pub chamber_floor: String,
    pub corridor_floor: String,
    /// Empty = void tiles outside the dungeon.
    pub fill_floor_type: String,
    pub target_rooms: u32,
    pub min_room_size: i32,
    pub max_room_size: i32,
    /// Minimum empty tiles between any two rooms. Larger → sparser layout.
    pub room_padding: i32,
    /// `0` → `generate_dungeon` seeds from the clock.
    pub seed: u64,
}

impl DungeonParams {
    /// Smallest room side actually drawn.
    pub open spec fn min_size(&self) -> int {
        if self.min_room_size >= 2 { self.min_room_size as int } else { 2 }
    }

    /// Largest room side actually drawn.
    pub open spec fn max_size(&self) -> int {
        if self.max_room_size >= self.min_size() { self.max_room_size as int } else { self.min_size() }
    }

    /// Number of placement attempts: `max(target_rooms * 20 saturating, 40)`.
    pub open spec fn attempts(&self) -> int {
        let t = if self.target_rooms as int * 20 > u32::MAX { u32::MAX as int } else { self.target_rooms as int * 20 };
        if t >= 40 { t } else { 40 }
    }

    /// No coordinate or padding sum computed during placement leaves `i32`.
    pub open spec fn sums_fit(&self) -> bool {
        &&& self.max_room_size < i32::MAX
        &&& self.min_room_size < i32::MAX
        &&& self.width as int + self.room_padding as int <= i32::MAX
        &&& self.height as int + self.room_padding as int <= i32::MAX
    }
}

impl Default for DungeonParams {
    fn default() -> (p: Self)
        ensures
            p.width == 64 && p.height == 48,
            p.wall_type_id@ == "wall"@,
            p.chamber_floor@ == "cobblestone"@,
            p.corridor_floor@ == "dirt_path"@,
            p.fill_floor_type@.len() == 0,
            p.target_rooms == 8 && p.min_room_size == 4 && p.max_room_size == 7,
            p.room_padding == 4 && p.seed == 0,
    {
        DungeonParams {
            width: 64,
            height: 48,
            wall_type_id: "wall".to_owned(),
            chamber_floor: "cobblestone".to_owned(),
            corridor_floor: "dirt_path".to_owned(),
            fill_floor_type: String::new(),
            target_rooms: 8,
            min_room_size: 4,
            max_room_size: 7,
            room_padding: 4,
            seed: 0,
        }
    }
}

// ── Room placement ────────────────────────────────────────────────────────────

/// `(value, next_state)` of `Rng::gen_range_i32(lo, hi)` from `state`.
pub open spec fn range_i32_spec(state: u64, lo: int, hi: int) -> (int, u64) {
    if hi <= lo {
        (lo, state)
    } else {
        (lo + (rng_output(state) % ((hi - lo) as u64)) as int, rng_advance(state))
    }
}

/// `(value, next_state)` of `Rng::gen_range_usize(lo, hi)` from `state`.
pub open spec fn range_usize_spec(state: u64, lo: int, hi: int) -> (int, u64) {
    if hi <= lo {
        (lo, state)
    } else {
        (lo + ((rng_output(state) as usize) % ((hi - lo) as usize)) as int, rng_advance(state))
    }
}

/// Some room of `rooms` covers `(x, y)`.
pub open spec fn in_any_room(rooms: Seq<Room>, x: int, y: int) -> bool {
    exists|i: int| 0 <= i < rooms.len() && room_contains(#[trigger] rooms[i], x, y)
}

/// Some room of `rooms` overlaps `cand` (rooms grown by `pad`).
pub open spec fn any_overlap(rooms: Seq<Room>, cand: Room, pad: int) -> bool {
    exists|i: int| 0 <= i < rooms.len() && rooms_overlap_padded(#[trigger] rooms[i], cand, pad)
}

/// One placement attempt: draw a size, skip it when it cannot fit inside a
/// 2-tile margin, draw a position, and keep the room unless it overlaps
/// (with padding) a room already kept. Returns the kept rooms and the
/// generator state afterwards.
#[verifier::opaque]
pub open spec fn place_step(width: int, height: int, params: DungeonParams, state: u64, rooms: Seq<Room>) -> (Seq<Room>, u64) {
    let (w, s1) = range_i32_spec(state, params.min_size(), params.max_size() + 1);
    let (h, s2) = range_i32_spec(s1, params.min_size(), params.max_size() + 1);
    if w >= width - 3 || h >= height - 3 {
        (rooms, s2)
    } else {
        let (x, s3) = range_i32_spec(s2, 2, width - w - 1);
        let (y, s4) = range_i32_spec(s3, 2, height - h - 1);
        let cand = Room { x: x as i32, y: y as i32, w: w as i32, h: h as i32 };
        if any_overlap(rooms, cand, params.room_padding as int) {
            (rooms, s4)
        } else {
            (rooms.push(cand), s4)
        }
    }
}

/// The room-placement procedure: `left` more attempts, stopping early once
/// `target_rooms` rooms are kept.
pub open spec fn place_rooms_spec(
    width: int,
    height: int,
    params: DungeonParams,
    state: u64,
    rooms: Seq<Room>,
    left: nat,
) -> (Seq<Room>, u64)
    decreases left,
{
    if left == 0 || rooms.len() >= params.target_rooms {
        (rooms, state)
    } else {
        let (r2, s2) = place_step(width, height, params, state, rooms);
        place_rooms_spec(width, height, params, s2, r2, (left - 1) as nat)
    }
}

/// `room` lies inside `layout` with a margin of two tiles on every side.
pub open spec fn room_in_margin(room: Room, width: int, height: int) -> bool {
    &&& 2 <= room.x && room.x + room.w <= width - 2
    &&& 2 <= room.y && room.y + room.h <= height - 2
    &&& room.w >= 2 && room.h >= 2
}

/// Carves every cell of `room` into a chamber.
pub fn carve_room(layout: &mut Layout, room: &Room)
    requires
        old(layout).wf(),
        0 <= room.x,
        0 <= room.y,
        room.x + room.w <= old(layout).width,
        room.y + room.h <= old(layout).height,
    ensures
        final(layout).wf(),
        final(layout).width == old(layout).width,
        final(layout).height == old(layout).height,
        forall|a: int, b: int| #[trigger] final(layout).in_bounds_spec(a, b) ==>
            final(layout).cell(a, b) == if room_contains(*room, a, b) { Cell::Chamber } else { old(layout).cell(a, b) },
{
    let ghost orig = *layout;
    let mut dy: i32 = 0;
    while dy < room.h
        invariant
            0 <= room.x,
            0 <= room.y,
            room.x + room.w <= orig.width,
            room.y + room.h <= orig.height,
            orig.wf(),
            layout.wf(),
            layout.width == orig.width,
            layout.height == orig.height,
            0 <= dy <= room.h || (room.h <= 0 && dy == 0),
            forall|a: int, b: int| #[trigger] layout.in_bounds_spec(a, b) ==>
                layout.cell(a, b) == if room.x <= a < room.x + room.w && room.y <= b < room.y + dy { Cell::Chamber } else { orig.cell(a, b) },
        decreases room.h - dy,
    {
        let mut dx: i32 = 0;
        while dx < room.w
            invariant
                0 <= room.x,
                0 <= room.y,
                room.x + room.w <= orig.width,
                room.y + room.h <= orig.height,
                orig.wf(),
                layout.wf(),
                layout.width == orig.width,
                layout.height == orig.height,
                0 <= dy < room.h,
                0 <= dx <= room.w || (room.w <= 0 && dx == 0),
                forall|a: int, b: int| #[trigger] layout.in_bounds_spec(a, b) ==>
                    layout.cell(a, b) == if (room.x <= a < room.x + room.w && room.y <= b < room.y + dy)
                        || (room.x <= a < room.x + dx && b == room.y + dy) { Cell::Chamber } else { orig.cell(a, b) },
            decreases room.w - dx,
        {
            let ghost prev = *layout;
            layout.set(room.x + dx, room.y + dy, Cell::Chamber);
            assert forall|a: int, b: int| #[trigger] layout.in_bounds_spec(a, b) implies
                layout.cell(a, b) == if (room.x <= a < room.x + room.w && room.y <= b < room.y + dy)
                    || (room.x <= a < room.x + dx + 1 && b == room.y + dy) { Cell::Chamber } else { orig.cell(a, b) } by {
                assert(prev.in_bounds_spec(a, b));
            }
            dx = dx + 1;
        }
        dy = dy + 1;
    }
}

/// Facts every kept room list satisfies.
pub open spec fn rooms_valid(rooms: Seq<Room>, params: DungeonParams) -> bool {
    &&& forall|i: int| 0 <= i < rooms.len() ==> room_in_margin(#[trigger] rooms[i], params.width as int, params.height as int)
    &&& forall|i: int, j: int| 0 <= i < j < rooms.len() ==> !rooms_overlap_padded(#[trigger] rooms[i], #[trigger] rooms[j], params.room_padding as int)
}

/// Chamber cells of `layout` are exactly the cells of `rooms`; the rest are as in `orig`.
pub open spec fn carved_rooms(layout: Layout, orig: Layout, rooms: Seq<Room>) -> bool {
    &&& layout.wf()
    &&& layout.width == orig.width
    &&& layout.height == orig.height
    &&& forall|a: int, b: int| #[trigger] layout.in_bounds_spec(a, b) ==>
        layout.cell(a, b) == if in_any_room(rooms, a, b) { Cell::Chamber } else { orig.cell(a, b) }
}

/// One placement attempt (see `place_step`).
fn try_place_room(layout: &mut Layout, rng: &mut Rng, rooms: &mut Vec<Room>, params: &DungeonParams, min_size: i32, max_size: i32, Ghost(orig): Ghost<Layout>)
    requires
        orig.wf(),
        orig.width == params.width,
        orig.height == params.height,
        params.sums_fit(),
        min_size == params.min_size(),
        max_size == params.max_size(),
        carved_rooms(*old(layout), orig, old(rooms)@),
        rooms_valid(old(rooms)@, *params),
    ensures
        (final(rooms)@, final(rng).state) == place_step(params.width as int, params.height as int, *params, old(rng).state, old(rooms)@),
        carved_rooms(*final(layout), orig, final(rooms)@),
        rooms_valid(final(rooms)@, *params),
        final(rooms)@.len() <= old(rooms)@.len() + 1,
{
    reveal(place_step);
    let w = rng.gen_range_i32(min_size, max_size + 1);
    let h = rng.gen_range_i32(min_size, max_size + 1);
    if w >= layout.width - 3 || h >= layout.height - 3 {
        return;
    }
    let x = rng.gen_range_i32(2, layout.width - w - 1);
    let y = rng.gen_range_i32(2, layout.height - h - 1);
    let candidate = Room { x, y, w, h };
    let mut overlaps = false;
    let mut k: usize = 0;
    while k < rooms.len()
        invariant
            k <= rooms@.len(),
            params.sums_fit(),
            room_in_margin(candidate, params.width as int, params.height as int),
            rooms_valid(rooms@, *params),
            overlaps == exists|q: int| 0 <= q < k && rooms_overlap_padded(#[trigger] rooms@[q], candidate, params.room_padding as int),
        decreases rooms@.len() - k,
    {
        if rooms[k].overlaps_padded(&candidate, params.room_padding) {
            overlaps = true;
        }
        k = k + 1;
    }
    if overlaps {
        return;
    }
    let ghost before = *layout;
    let ghost old_rooms = rooms@;
    carve_room(layout, &candidate);
    rooms.push(candidate);
    proof {
        assert(rooms@.drop_last() == old_rooms);
        assert forall|a: int, b: int| #[trigger] layout.in_bounds_spec(a, b) implies
            layout.cell(a, b) == if in_any_room(rooms@, a, b) { Cell::Chamber } else { orig.cell(a, b) } by {
            assert(before.in_bounds_spec(a, b));
            if room_contains(candidate, a, b) {
                assert(rooms@[rooms@.len() - 1] == candidate);
            } else if in_any_room(rooms@, a, b) {
                let q = choose|q: int| 0 <= q < rooms@.len() && room_contains(#[trigger] rooms@[q], a, b);
                assert(q < rooms@.len() - 1);
                assert(old_rooms[q] == rooms@[q]);
            } else {
                if in_any_room(old_rooms, a, b) {
                    let q = choose|q: int| 0 <= q < old_rooms.len() && room_contains(#[trigger] old_rooms[q], a, b);
                    assert(rooms@[q] == old_rooms[q]);
                }
            }
        }
        assert forall|i: int, j: int| 0 <= i < j < rooms@.len() implies !rooms_overlap_padded(#[trigger] rooms@[i], #[trigger] rooms@[j], params.room_padding as int) by {
            if j == rooms@.len() - 1 {
                assert(rooms@[i] == old_rooms[i]);
            } else {
                assert(rooms@[i] == old_rooms[i]);
                assert(rooms@[j] == old_rooms[j]);
            }
        }
        assert forall|i: int| 0 <= i < rooms@.len() implies room_in_margin(#[trigger] rooms@[i], params.width as int, params.height as int) by {
            if i < rooms@.len() - 1 {
                assert(rooms@[i] == old_rooms[i]);
            }
        }
    }
}

/// Places up to `target_rooms` non-overlapping rooms and carves them.
pub fn place_rooms(layout: &mut Layout, rng: &mut Rng, params: &DungeonParams) -> (rooms: Vec<Room>)
    requires
        old(layout).wf(),
        old(layout).width == params.width,
        old(layout).height == params.height,
        params.sums_fit(),
    ensures
        (rooms@, final(rng).state) == place_rooms_spec(
            params.width as int,
            params.height as int,
            *params,
            old(rng).state,
            Seq::empty(),
            params.attempts() as nat,
        ),
        rooms@.len() <= params.target_rooms,
        rooms_valid(rooms@, *params),
        carved_rooms(*final(layout), *old(layout), rooms@),
{
    let ghost orig = *layout;
    let ghost state0 = rng.state;
    let mut rooms: Vec<Room> = Vec::new();
    let attempts: u32 = {
        let t: u32 = if params.target_rooms > u32::MAX / 20 { u32::MAX } else { params.target_rooms * 20 };
        if t >= 40 { t } else { 40 }
    };
    let min_size: i32 = if params.min_room_size >= 2 { params.min_room_size } else { 2 };
    let max_size: i32 = if params.max_room_size >= min_size { params.max_room_size } else { min_size };
    let mut i: u32 = 0;
    proof {
        assert forall|a: int, b: int| #[trigger] layout.in_bounds_spec(a, b) implies
            layout.cell(a, b) == if in_any_room(rooms@, a, b) { Cell::Chamber } else { orig.cell(a, b) } by {}
    }
    while i < attempts
        invariant
            orig.wf(),
            orig.width == params.width,
            orig.height == params.height,
            params.sums_fit(),
            attempts == params.attempts(),
            min_size == params.min_size(),
            max_size == params.max_size(),
            i <= attempts,
            place_rooms_spec(params.width as int, params.height as int, *params, rng.state, rooms@, (attempts - i) as nat)
                == place_rooms_spec(params.width as int, params.height as int, *params, state0, Seq::empty(), params.attempts() as nat),
            rooms@.len() <= params.target_rooms,
            rooms_valid(rooms@, *params),
            carved_rooms(*layout, orig, rooms@),
        ensures
            i == attempts || rooms@.len() >= params.target_rooms,
            i <= attempts,
            place_rooms_spec(params.width as int, params.height as int, *params, rng.state, rooms@, (attempts - i) as nat)
                == place_rooms_spec(params.width as int, params.height as int, *params, state0, Seq::empty(), params.attempts() as nat),
            rooms@.len() <= params.target_rooms,
            rooms_valid(rooms@, *params),
            carved_rooms(*layout, orig, rooms@),
        decreases attempts - i,
    {
        if rooms.len() >= params.target_rooms as usize {
            break;
        }
        try_place_room(layout, rng, &mut rooms, params, min_size, max_size, Ghost(orig));
        i = i + 1;
    }
    proof {
        let full = place_rooms_spec(params.width as int, params.height as int, *params, state0, Seq::empty(), params.attempts() as nat);
        assert(place_rooms_spec(params.width as int, params.height as int, *params, rng.state, rooms@, (attempts - i) as nat) == (rooms@, rng.state));
        assert(full == (rooms@, rng.state));
    }
    rooms
}


// ── Corridor carving ──────────────────────────────────────────────────────────

/// `new` is `old` with every wall cell of `cells` turned into corridor;
/// everything else is unchanged.
pub open spec fn carved(old: Layout, new: Layout, cells: Set<(int, int)>) -> bool {
    &&& new.wf()
    &&& new.width == old.width
    &&& new.height == old.height
    &&& forall|a: int, b: int| #[trigger] new.in_bounds_spec(a, b) ==>
        new.cell(a, b) == if cells.contains((a, b)) && old.cell(a, b) == Cell::Wall { Cell::Corridor } else { old.cell(a, b) }
}

/// Carving `s1` then `s2` is carving their union.
pub proof fn lemma_carved_compose(l0: Layout, l1: Layout, l2: Layout, s1: Set<(int, int)>, s2: Set<(int, int)>)
    requires
        carved(l0, l1, s1),
        carved(l1, l2, s2),
    ensures
        carved(l0, l2, s1.union(s2)),
{
    assert forall|a: int, b: int| #[trigger] l2.in_bounds_spec(a, b) implies
        l2.cell(a, b) == if s1.union(s2).contains((a, b)) && l0.cell(a, b) == Cell::Wall { Cell::Corridor } else { l0.cell(a, b) } by {
        assert(l1.in_bounds_spec(a, b));
    }
}

/// Carving nothing leaves the layout as it is.
pub proof fn lemma_carved_empty(l: Layout)
    requires
        l.wf(),
    ensures
        carved(l, l, Set::empty()),
{
}

/// Turns a wall cell into corridor; chambers, corridors and out-of-bounds
/// coordinates are left as they are.
pub fn carve_corridor_cell(layout: &mut Layout, x: i32, y: i32)
    requires
        old(layout).wf(),
    ensures
        carved(*old(layout), *final(layout), Set::empty().insert((x as int, y as int))),
{
    if !layout.in_bounds(x, y) {
        return;
    }
    if layout.get(x, y) == Cell::Wall {
        layout.set(x, y, Cell::Corridor);
    }
}

/// The four cardinal neighbours, indexed 0..4: east, west, north (+y), south.
pub open spec fn neighbor_spec(x: int, y: int, k: int) -> (int, int) {
    if k == 0 {
        (x + 1, y)
    } else if k == 1 {
        (x - 1, y)
    } else if k == 2 {
        (x, y + 1)
    } else {
        (x, y - 1)
    }
}

/// `(nx, ny, next_state)` of `random_neighbor`.
pub open spec fn random_neighbor_spec(x: int, y: int, state: u64) -> (int, int, u64) {
    let (k, s1) = range_usize_spec(state, 0, 4);
    let (nx, ny) = neighbor_spec(x, y, k);
    (nx, ny, s1)
}

/// A uniformly drawn cardinal neighbour of `(x, y)`.
pub fn random_neighbor(x: i32, y: i32, rng: &mut Rng) -> (r: (i32, i32))
    requires
        i32::MIN < x < i32::MAX,
        i32::MIN < y < i32::MAX,
    ensures
        (r.0 as int, r.1 as int, final(rng).state) == random_neighbor_spec(x as int, y as int, old(rng).state),
{
    let k = rng.gen_range_usize(0, 4);
    if k == 0 {
        (x + 1, y)
    } else if k == 1 {
        (x - 1, y)
    } else if k == 2 {
        (x, y + 1)
    } else {
        (x, y - 1)
    }
}

pub open spec fn abs_spec(v: int) -> int {
    if v < 0 { -v } else { v }
}

pub open spec fn sign_spec(v: int) -> int {
    if v > 0 { 1 } else if v < 0 { -1 } else { 0 }
}

/// `(nx, ny, next_state)` of `greedy_step`: one cardinal step that reduces the
/// remaining Manhattan distance to `(tx, ty)`. When both axes have distance
/// left, the x-axis is taken with probability `|dx| / (|dx| + |dy|)`.
pub open spec fn greedy_spec(x: int, y: int, tx: int, ty: int, state: u64) -> (int, int, u64) {
    let dx = tx - x;
    let dy = ty - y;
    if dx == 0 && dy == 0 {
        (x, y, state)
    } else if dx != 0 && dy != 0 {
        let total = abs_spec(dx) + abs_spec(dy);
        let r = rng_output(state) % (total as u64);
        if r < abs_spec(dx) {
            (x + sign_spec(dx), y, rng_advance(state))
        } else {
            (x, y + sign_spec(dy), rng_advance(state))
        }
    } else if dx != 0 {
        (x + sign_spec(dx), y, state)
    } else {
        (x, y + sign_spec(dy), state)
    }
}

/// Coordinates whose differences and distance sums stay inside `i32`.
pub open spec fn step_fits(x: int, y: int, tx: int, ty: int) -> bool {
    &&& i32::MIN < tx - x <= i32::MAX
    &&& i32::MIN < ty - y <= i32::MAX
    &&& abs_spec(tx - x) + abs_spec(ty - y) <= i32::MAX
}

/// One step towards `(tx, ty)` (see `greedy_spec`).
pub fn greedy_step(x: i32, y: i32, tx: i32, ty: i32, rng: &mut Rng) -> (r: (i32, i32))
    requires
        step_fits(x as int, y as int, tx as int, ty as int),
    ensures
        (r.0 as int, r.1 as int, final(rng).state) == greedy_spec(x as int, y as int, tx as int, ty as int, old(rng).state),
{
    let dx = tx - x;
    let dy = ty - y;
    if dx == 0 && dy == 0 {
        return (x, y);
    }
    let adx: i32 = if dx < 0 { -dx } else { dx };
    let ady: i32 = if dy < 0 { -dy } else { dy };
    let sdx: i32 = if dx > 0 { 1 } else if dx < 0 { -1 } else { 0 };
    let sdy: i32 = if dy > 0 { 1 } else if dy < 0 { -1 } else { 0 };
    if dx != 0 && dy != 0 {
        let total = (adx + ady) as u64;
        if rng.gen_range_u64(0, total) < adx as u64 {
            (x + sdx, y)
        } else {
            (x, y + sdy)
        }
    } else if dx != 0 {
        (x + sdx, y)
    } else {
        (x, y + sdy)
    }
}

/// `v` lies strictly past `s` on the way to `t`, up to and including `t`.
pub open spec fn past_to(s: int, t: int, v: int) -> bool {
    (s < v <= t) || (t <= v < s)
}

/// Cells carved by `finish_with_l_shape`: with `coin == 0`, along row `sy`
/// from `sx` to `tx`, then along column `tx` to `ty`; otherwise along column
/// `sx` to `ty`, then along row `ty` to `tx`. The start cell is not included.
pub open spec fn l_shape_cells(coin: int, sx: int, sy: int, tx: int, ty: int) -> Set<(int, int)> {
    if coin == 0 {
        Set::new(|c: (int, int)| (c.1 == sy && past_to(sx, tx, c.0)) || (c.0 == tx && past_to(sy, ty, c.1)))
    } else {
        Set::new(|c: (int, int)| (c.0 == sx && past_to(sy, ty, c.1)) || (c.1 == ty && past_to(sx, tx, c.0)))
    }
}

/// Carves a straight L from `(sx, sy)` to `(tx, ty)`, choosing at random
/// whether the horizontal or the vertical leg comes first.
pub fn finish_with_l_shape(layout: &mut Layout, rng: &mut Rng, sx: i32, sy: i32, tx: i32, ty: i32)
    requires
        old(layout).wf(),
    ensures
        ({
            let (coin, s1) = range_usize_spec(old(rng).state, 0, 2);
            &&& final(rng).state == s1
            &&& carved(*old(layout), *final(layout), l_shape_cells(coin, sx as int, sy as int, tx as int, ty as int))
        }),
{
    let ghost orig = *layout;
    let coin = rng.gen_range_usize(0, 2);
    if coin == 0 {
        let mut x = sx;
        let ghost mut done: Set<(int, int)> = Set::empty();
        while x != tx
            invariant
                orig.wf(),
                past_to(sx as int, tx as int, x as int) || x == sx,
                done == Set::new(|c: (int, int)| c.1 == sy as int && (past_to(sx as int, tx as int, c.0) && !past_to(x as int, tx as int, c.0))),
                carved(orig, *layout, done),
            decreases abs_spec(tx - x),
        {
            let ghost before = *layout;
            x = if tx > x { x + 1 } else { x - 1 };
            carve_corridor_cell(layout, x, sy);
            proof {
                let cell = Set::empty().insert((x as int, sy as int));
                lemma_carved_compose(orig, before, *layout, done, cell);
                done = done.union(cell);
                assert(done == Set::new(|c: (int, int)| c.1 == sy as int && (past_to(sx as int, tx as int, c.0) && !past_to(x as int, tx as int, c.0))));
            }
        }
        let mut y = sy;
        while y != ty
            invariant
                orig.wf(),
                x == tx,
                past_to(sy as int, ty as int, y as int) || y == sy,
                done == Set::new(|c: (int, int)| (c.1 == sy as int && past_to(sx as int, tx as int, c.0))
                    || (c.0 == tx as int && past_to(sy as int, ty as int, c.1) && !past_to(y as int, ty as int, c.1))),
                carved(orig, *layout, done),
            decreases abs_spec(ty - y),
        {
            let ghost before = *layout;
            y = if ty > y { y + 1 } else { y - 1 };
            carve_corridor_cell(layout, x, y);
            proof {
                let cell = Set::empty().insert((x as int, y as int));
                lemma_carved_compose(orig, before, *layout, done, cell);
                done = done.union(cell);
                assert(done == Set::new(|c: (int, int)| (c.1 == sy as int && past_to(sx as int, tx as int, c.0))
                    || (c.0 == tx as int && past_to(sy as int, ty as int, c.1) && !past_to(y as int, ty as int, c.1))));
            }
        }
        proof {
            assert(done == l_shape_cells(coin as int, sx as int, sy as int, tx as int, ty as int));
        }
    } else {
        let mut y = sy;
        let ghost mut done: Set<(int, int)> = Set::empty();
        while y != ty
            invariant
                orig.wf(),
                past_to(sy as int, ty as int, y as int) || y == sy,
                done == Set::new(|c: (int, int)| c.0 == sx as int && (past_to(sy as int, ty as int, c.1) && !past_to(y as int, ty as int, c.1))),
                carved(orig, *layout, done),
            decreases abs_spec(ty - y),
        {
            let ghost before = *layout;
            y = if ty > y { y + 1 } else { y - 1 };
            carve_corridor_cell(layout, sx, y);
            proof {
                let cell = Set::empty().insert((sx as int, y as int));
                lemma_carved_compose(orig, before, *layout, done, cell);
                done = done.union(cell);
                assert(done == Set::new(|c: (int, int)| c.0 == sx as int && (past_to(sy as int, ty as int, c.1) && !past_to(y as int, ty as int, c.1))));
            }
        }
        let mut x = sx;
        while x != tx
            invariant
                orig.wf(),
                y == ty,
                past_to(sx as int, tx as int, x as int) || x == sx,
                done == Set::new(|c: (int, int)| (c.0 == sx as int && past_to(sy as int, ty as int, c.1))
                    || (c.1 == ty as int && past_to(sx as int, tx as int, c.0) && !past_to(x as int, tx as int, c.0))),
                carved(orig, *layout, done),
            decreases abs_spec(tx - x),
        {
            let ghost before = *layout;
            x = if tx > x { x + 1 } else { x - 1 };
            carve_corridor_cell(layout, x, y);
            proof {
                let cell = Set::empty().insert((x as int, y as int));
                lemma_carved_compose(orig, before, *layout, done, cell);
                done = done.union(cell);
                assert(done == Set::new(|c: (int, int)| (c.0 == sx as int && past_to(sy as int, ty as int, c.1))
                    || (c.1 == ty as int && past_to(sx as int, tx as int, c.0) && !past_to(x as int, tx as int, c.0))));
            }
        }
        proof {
            assert(done == l_shape_cells(coin as int, sx as int, sy as int, tx as int, ty as int));
        }
    }
}


pub open spec fn in_dims(w: int, h: int, x: int, y: int) -> bool {
    0 <= x < w && 0 <= y < h
}

/// `(x', y', next_state)` after one corridor-walk step from `(x, y)` towards
/// `(tx, ty)` inside a `w × h` grid, where a 24-bit draw below `thr` means a
/// random step and anything else a greedy one. A random step that leaves the
/// grid is replaced by a greedy step (or no move at all when that leaves the
/// grid too); a step into the destination room `to` that is not the target
/// itself is replaced by a greedy step when that one stays in the grid and
/// out of the room's non-target cells.
#[verifier::opaque]
pub open spec fn walk_next(w: int, h: int, to: Room, tx: int, ty: int, thr: u64, state: u64, x: int, y: int) -> (int, int, u64) {
    let u = rng_output(state) >> 40u64;
    let s1 = rng_advance(state);
    let (nx, ny, s2) = if u < thr { random_neighbor_spec(x, y, s1) } else { greedy_spec(x, y, tx, ty, s1) };
    if !in_dims(w, h, nx, ny) {
        let (gx, gy, s3) = greedy_spec(x, y, tx, ty, s2);
        if in_dims(w, h, gx, gy) { (gx, gy, s3) } else { (x, y, s3) }
    } else if room_contains(to, nx, ny) && (nx != tx || ny != ty) {
        let (gx, gy, s3) = greedy_spec(x, y, tx, ty, s2);
        if in_dims(w, h, gx, gy) && !(room_contains(to, gx, gy) && (gx != tx || gy != ty)) {
            (gx, gy, s3)
        } else {
            (nx, ny, s3)
        }
    } else {
        (nx, ny, s2)
    }
}

/// The corridor walk from `(x, y)` after `steps` steps: while the target is
/// not reached and fewer than `cap` steps were taken, carve the current cell
/// and move by `walk_next`. Returns the carved cells, the final position and
/// the final generator state.
pub open spec fn corridor_walk(w: int, h: int, to: Room, tx: int, ty: int, cap: int, thr: u64, state: u64, x: int, y: int, steps: int) -> (Set<(int, int)>, int, int, u64)
    decreases cap - steps,
{
    if (x != tx || y != ty) && steps < cap {
        let (x2, y2, s2) = walk_next(w, h, to, tx, ty, thr, state, x, y);
        let (rest, fx, fy, fs) = corridor_walk(w, h, to, tx, ty, cap, thr, s2, x2, y2, steps + 1);
        (rest.insert((x, y)), fx, fy, fs)
    } else {
        (Set::empty(), x, y, state)
    }
}

/// Centre of a room.
pub open spec fn center_spec(r: Room) -> (int, int) {
    (r.x + half_toward_zero(r.w as int), r.y + half_toward_zero(r.h as int))
}

/// Cells carved by `carve_one_corridor` and the generator state afterwards:
/// the walk from the centre of `from` towards the centre of `to`, capped at
/// `3 × manhattan + 50` steps; when the cap is hit, the cell where the walk
/// stopped and an L from it to the target; and always the target centre.
pub open spec fn corridor_spec(w: int, h: int, from: Room, to: Room, thr: u64, state: u64) -> (Set<(int, int)>, u64) {
    let (sx, sy) = center_spec(from);
    let (tx, ty) = center_spec(to);
    let cap = 3 * (abs_spec(sx - tx) + abs_spec(sy - ty)) + 50;
    let (walked, x, y, s1) = corridor_walk(w, h, to, tx, ty, cap, thr, state, sx, sy, 0);
    if x != tx || y != ty {
        let (coin, s2) = range_usize_spec(s1, 0, 2);
        (walked.insert((x, y)).union(l_shape_cells(coin, x, y, tx, ty)).insert((tx, ty)), s2)
    } else {
        (walked.insert((tx, ty)), s1)
    }
}

// ── Connectivity ──────────────────────────────────────────────────────────────

/// `a` and `b` are the same cell or 4-neighbours.
pub open spec fn near(a: (int, int), b: (int, int)) -> bool {
    abs_spec(a.0 - b.0) + abs_spec(a.1 - b.1) <= 1
}

/// `p` walks from `a` to `b` through cells of `s`, each step to the same
/// cell or a 4-neighbour.
pub open spec fn is_path_in(s: Set<(int, int)>, p: Seq<(int, int)>, a: (int, int), b: (int, int)) -> bool {
    &&& p.len() > 0
    &&& p[0] == a
    &&& p[p.len() - 1] == b
    &&& forall|i: int| 0 <= i < p.len() ==> s.contains(#[trigger] p[i])
    &&& forall|i: int| 0 <= i < p.len() - 1 ==> near(#[trigger] p[i], p[i + 1])
}

/// A 4-connected path through `s` joins `a` and `b`.
pub open spec fn joined(s: Set<(int, int)>, a: (int, int), b: (int, int)) -> bool {
    exists|p: Seq<(int, int)>| #[trigger] is_path_in(s, p, a, b)
}

/// The in-bounds cells of a grid that are not wall.
pub open spec fn open_cells(l: Layout) -> Set<(int, int)> {
    Set::new(|c: (int, int)| l.in_bounds_spec(c.0, c.1) && l.cell(c.0, c.1) != Cell::Wall)
}

proof fn lemma_joined_refl(s: Set<(int, int)>, a: (int, int))
    requires
        s.contains(a),
    ensures
        joined(s, a, a),
{
    assert(is_path_in(s, seq![a], a, a));
}

proof fn lemma_joined_mono(s: Set<(int, int)>, t: Set<(int, int)>, a: (int, int), b: (int, int))
    requires
        joined(s, a, b),
        s.subset_of(t),
    ensures
        joined(t, a, b),
{
    let p = choose|p: Seq<(int, int)>| #[trigger] is_path_in(s, p, a, b);
    assert(is_path_in(t, p, a, b));
}

proof fn lemma_joined_step(s: Set<(int, int)>, a: (int, int), b: (int, int), c: (int, int))
    requires
        s.contains(a),
        near(a, b),
        joined(s, b, c),
    ensures
        joined(s, a, c),
{
    let p = choose|p: Seq<(int, int)>| #[trigger] is_path_in(s, p, b, c);
    let q = seq![a] + p;
    assert forall|i: int| 0 <= i < q.len() implies s.contains(#[trigger] q[i]) by {
        if i > 0 {
            assert(q[i] == p[i - 1]);
        }
    }
    assert forall|i: int| 0 <= i < q.len() - 1 implies near(#[trigger] q[i], q[i + 1]) by {
        if i > 0 {
            assert(q[i] == p[i - 1] && q[i + 1] == p[i]);
        }
    }
    assert(is_path_in(s, q, a, c));
}

proof fn lemma_joined_trans(s: Set<(int, int)>, a: (int, int), b: (int, int), c: (int, int))
    requires
        joined(s, a, b),
        joined(s, b, c),
    ensures
        joined(s, a, c),
{
    let p = choose|p: Seq<(int, int)>| #[trigger] is_path_in(s, p, a, b);
    lemma_joined_trans_len(s, p, a, b, c);
}

proof fn lemma_joined_trans_len(s: Set<(int, int)>, p: Seq<(int, int)>, a: (int, int), b: (int, int), c: (int, int))
    requires
        is_path_in(s, p, a, b),
        joined(s, b, c),
    ensures
        joined(s, a, c),
    decreases p.len(),
{
    if p.len() == 1 {
        assert(a == b);
    } else {
        let r = p.drop_first();
        assert(is_path_in(s, r, p[1], b)) by {
            assert forall|i: int| 0 <= i < r.len() implies s.contains(#[trigger] r[i]) by {
                assert(r[i] == p[i + 1]);
            }
            assert forall|i: int| 0 <= i < r.len() - 1 implies near(#[trigger] r[i], r[i + 1]) by {
                assert(r[i] == p[i + 1] && r[i + 1] == p[i + 2]);
            }
        }
        lemma_joined_trans_len(s, r, p[1], b, c);
        assert(s.contains(p[0]));
        assert(near(p[0], p[1]));
        lemma_joined_step(s, a, p[1], c);
    }
}

/// A straight horizontal run of cells of `s` joins its ends.
proof fn lemma_row_joined(s: Set<(int, int)>, y: int, x0: int, x1: int)
    requires
        forall|x: int| (x0 <= x <= x1 || x1 <= x <= x0) ==> s.contains((x, y)),
    ensures
        joined(s, (x0, y), (x1, y)),
    decreases abs_spec(x1 - x0),
{
    if x0 == x1 {
        lemma_joined_refl(s, (x0, y));
    } else {
        let n = if x1 > x0 { x0 + 1 } else { x0 - 1 };
        lemma_row_joined(s, y, n, x1);
        assert(s.contains((x0, y)));
        lemma_joined_step(s, (x0, y), (n, y), (x1, y));
    }
}

/// A straight vertical run of cells of `s` joins its ends.
proof fn lemma_column_joined(s: Set<(int, int)>, x: int, y0: int, y1: int)
    requires
        forall|y: int| (y0 <= y <= y1 || y1 <= y <= y0) ==> s.contains((x, y)),
    ensures
        joined(s, (x, y0), (x, y1)),
    decreases abs_spec(y1 - y0),
{
    if y0 == y1 {
        lemma_joined_refl(s, (x, y0));
    } else {
        let n = if y1 > y0 { y0 + 1 } else { y0 - 1 };
        lemma_column_joined(s, x, n, y1);
        assert(s.contains((x, y0)));
        lemma_joined_step(s, (x, y0), (x, n), (x, y1));
    }
}

/// An L from `(sx, sy)` to `(tx, ty)`, with its start, joins its ends and
/// stays inside the box they span.
proof fn lemma_l_shape_joined(coin: int, sx: int, sy: int, tx: int, ty: int)
    ensures
        joined(l_shape_cells(coin, sx, sy, tx, ty).insert((sx, sy)), (sx, sy), (tx, ty)),
        forall|c: (int, int)| #[trigger] l_shape_cells(coin, sx, sy, tx, ty).contains(c) ==>
            (sx <= c.0 <= tx || tx <= c.0 <= sx) && (sy <= c.1 <= ty || ty <= c.1 <= sy),
{
    let s = l_shape_cells(coin, sx, sy, tx, ty).insert((sx, sy));
    if coin == 0 {
        assert forall|x: int| (sx <= x <= tx || tx <= x <= sx) implies s.contains((x, sy)) by {
            if x != sx {
                assert(past_to(sx, tx, x));
            }
        }
        lemma_row_joined(s, sy, sx, tx);
        assert forall|y: int| (sy <= y <= ty || ty <= y <= sy) implies s.contains((tx, y)) by {
            if y != sy {
                assert(past_to(sy, ty, y));
            }
        }
        lemma_column_joined(s, tx, sy, ty);
        lemma_joined_trans(s, (sx, sy), (tx, sy), (tx, ty));
    } else {
        assert forall|y: int| (sy <= y <= ty || ty <= y <= sy) implies s.contains((sx, y)) by {
            if y != sy {
                assert(past_to(sy, ty, y));
            }
        }
        lemma_column_joined(s, sx, sy, ty);
        assert forall|x: int| (sx <= x <= tx || tx <= x <= sx) implies s.contains((x, ty)) by {
            if x != sx {
                assert(past_to(sx, tx, x));
            }
        }
        lemma_row_joined(s, ty, sx, tx);
        lemma_joined_trans(s, (sx, sy), (sx, ty), (tx, ty));
    }
}

/// A walk step stays in the grid and moves at most to a 4-neighbour.
proof fn lemma_walk_next_near(w: int, h: int, to: Room, tx: int, ty: int, thr: u64, state: u64, x: int, y: int)
    requires
        in_dims(w, h, x, y),
    ensures
        ({
            let (x2, y2, s2) = walk_next(w, h, to, tx, ty, thr, state, x, y);
            in_dims(w, h, x2, y2) && near((x, y), (x2, y2))
        }),
{
    reveal(walk_next);
    let u = rng_output(state) >> 40u64;
    let s1 = rng_advance(state);
    let (rx, ry, rs) = random_neighbor_spec(x, y, s1);
    let (gx, gy, gs) = greedy_spec(x, y, tx, ty, s1);
    assert(near((x, y), (rx, ry)));
    assert(near((x, y), (gx, gy)));
    let (nx, ny, s2) = if u < thr { (rx, ry, rs) } else { (gx, gy, gs) };
    let (hx, hy, hs) = greedy_spec(x, y, tx, ty, s2);
    assert(near((x, y), (hx, hy)));
}

/// The corridor walk joins its start to where it stops through the cells it
/// carved and the stop cell, all inside the grid.
proof fn lemma_walk_joined(w: int, h: int, to: Room, tx: int, ty: int, cap: int, thr: u64, state: u64, x: int, y: int, steps: int)
    requires
        in_dims(w, h, x, y),
    ensures
        ({
            let (cells, fx, fy, fs) = corridor_walk(w, h, to, tx, ty, cap, thr, state, x, y, steps);
            &&& joined(cells.insert((fx, fy)), (x, y), (fx, fy))
            &&& in_dims(w, h, fx, fy)
            &&& forall|c: (int, int)| #[trigger] cells.contains(c) ==> in_dims(w, h, c.0, c.1)
        }),
    decreases cap - steps,
{
    let (cells, fx, fy, fs) = corridor_walk(w, h, to, tx, ty, cap, thr, state, x, y, steps);
    if (x != tx || y != ty) && steps < cap {
        let (x2, y2, s2) = walk_next(w, h, to, tx, ty, thr, state, x, y);
        lemma_walk_next_near(w, h, to, tx, ty, thr, state, x, y);
        lemma_walk_joined(w, h, to, tx, ty, cap, thr, s2, x2, y2, steps + 1);
        let (rest, gx, gy, gs) = corridor_walk(w, h, to, tx, ty, cap, thr, s2, x2, y2, steps + 1);
        assert(cells == rest.insert((x, y)));
        assert(fx == gx && fy == gy);
        lemma_joined_mono(rest.insert((gx, gy)), cells.insert((fx, fy)), (x2, y2), (gx, gy));
        lemma_joined_step(cells.insert((fx, fy)), (x, y), (x2, y2), (fx, fy));
    } else {
        assert(fx == x && fy == y);
        lemma_joined_refl(cells.insert((fx, fy)), (x, y));
    }
}

/// The cells of a corridor join the two room centres and lie in the grid.
proof fn lemma_corridor_joined(w: int, h: int, from: Room, to: Room, thr: u64, state: u64)
    requires
        in_dims(w, h, center_spec(from).0, center_spec(from).1),
        in_dims(w, h, center_spec(to).0, center_spec(to).1),
    ensures
        joined(corridor_spec(w, h, from, to, thr, state).0, center_spec(from), center_spec(to)),
        forall|c: (int, int)| #[trigger] corridor_spec(w, h, from, to, thr, state).0.contains(c) ==> in_dims(w, h, c.0, c.1),
{
    let (sx, sy) = center_spec(from);
    let (tx, ty) = center_spec(to);
    let cap = 3 * (abs_spec(sx - tx) + abs_spec(sy - ty)) + 50;
    let (walked, x, y, s1) = corridor_walk(w, h, to, tx, ty, cap, thr, state, sx, sy, 0);
    lemma_walk_joined(w, h, to, tx, ty, cap, thr, state, sx, sy, 0);
    let cells = corridor_spec(w, h, from, to, thr, state).0;
    if x != tx || y != ty {
        let (coin, s2) = range_usize_spec(s1, 0, 2);
        let l = l_shape_cells(coin, x, y, tx, ty);
        assert(cells == walked.insert((x, y)).union(l).insert((tx, ty)));
        lemma_l_shape_joined(coin, x, y, tx, ty);
        lemma_joined_mono(walked.insert((x, y)), cells, (sx, sy), (x, y));
        lemma_joined_mono(l.insert((x, y)), cells, (x, y), (tx, ty));
        lemma_joined_trans(cells, (sx, sy), (x, y), (tx, ty));
    } else {
        assert(cells == walked.insert((tx, ty)));
    }
}

/// Where the corridor walk from `(x, y)` with generator state `state` is
/// after `k` steps of `walk_next`, and the state then; the walk is followed
/// past the target too.
pub open spec fn walk_pos(w: int, h: int, to: Room, tx: int, ty: int, thr: u64, state: u64, x: int, y: int, k: nat) -> (int, int, u64)
    decreases k,
{
    if k == 0 {
        (x, y, state)
    } else {
        let (px, py, ps) = walk_pos(w, h, to, tx, ty, thr, state, x, y, (k - 1) as nat);
        walk_next(w, h, to, tx, ty, thr, ps, px, py)
    }
}

/// The walk is at the target at no step before `k`.
pub open spec fn not_arrived_before(w: int, h: int, to: Room, tx: int, ty: int, thr: u64, state: u64, x: int, y: int, k: nat) -> bool {
    forall|j: nat| j < k ==> {
        let p = #[trigger] walk_pos(w, h, to, tx, ty, thr, state, x, y, j);
        p.0 != tx || p.1 != ty
    }
}

/// The corridor walk from the start equals, after `j` steps that have not
/// met the target within the cap, the walk from the `j`-th position plus
/// the `j` cells already passed.
proof fn lemma_walk_prefix(w: int, h: int, to: Room, tx: int, ty: int, cap: int, thr: u64, state: u64, x: int, y: int, j: nat)
    requires
        j <= cap,
        not_arrived_before(w, h, to, tx, ty, thr, state, x, y, j),
    ensures
        ({
            let pj = walk_pos(w, h, to, tx, ty, thr, state, x, y, j);
            let r0 = corridor_walk(w, h, to, tx, ty, cap, thr, state, x, y, 0);
            let rj = corridor_walk(w, h, to, tx, ty, cap, thr, pj.2, pj.0, pj.1, j as int);
            &&& r0.1 == rj.1 && r0.2 == rj.2 && r0.3 == rj.3
            &&& forall|c: (int, int)| #[trigger] rj.0.contains(c) ==> r0.0.contains(c)
            &&& forall|i: nat| i < j ==> {
                let pi = #[trigger] walk_pos(w, h, to, tx, ty, thr, state, x, y, i);
                r0.0.contains((pi.0, pi.1))
            }
        }),
    decreases j,
{
    if j > 0 {
        let jm = (j - 1) as nat;
        assert(not_arrived_before(w, h, to, tx, ty, thr, state, x, y, jm)) by {
            assert forall|i: nat| i < jm implies {
                let p = #[trigger] walk_pos(w, h, to, tx, ty, thr, state, x, y, i);
                p.0 != tx || p.1 != ty
            } by {
                let _ = walk_pos(w, h, to, tx, ty, thr, state, x, y, i);
            }
        }
        lemma_walk_prefix(w, h, to, tx, ty, cap, thr, state, x, y, jm);
        let pm = walk_pos(w, h, to, tx, ty, thr, state, x, y, jm);
        let pj = walk_pos(w, h, to, tx, ty, thr, state, x, y, j);
        let _ = walk_pos(w, h, to, tx, ty, thr, state, x, y, jm);
        assert(pm.0 != tx || pm.1 != ty);
        let rm = corridor_walk(w, h, to, tx, ty, cap, thr, pm.2, pm.0, pm.1, jm as int);
        let rj = corridor_walk(w, h, to, tx, ty, cap, thr, pj.2, pj.0, pj.1, j as int);
        assert(pj == walk_next(w, h, to, tx, ty, thr, pm.2, pm.0, pm.1));
        assert(rm.0 == rj.0.insert((pm.0, pm.1)));
        let r0 = corridor_walk(w, h, to, tx, ty, cap, thr, state, x, y, 0);
        assert(rm.0.contains((pm.0, pm.1)));
        assert(r0.0.contains((pm.0, pm.1)));
        assert forall|c: (int, int)| #[trigger] rj.0.contains(c) implies r0.0.contains(c) by {
            assert(rm.0.contains(c));
        }
        assert forall|i: nat| i < j implies {
            let pi = #[trigger] walk_pos(w, h, to, tx, ty, thr, state, x, y, i);
            r0.0.contains((pi.0, pi.1))
        } by {
            let pi = walk_pos(w, h, to, tx, ty, thr, state, x, y, i);
            if i < jm {
                assert(r0.0.contains((pi.0, pi.1)));
            } else {
                assert(i == jm);
                assert(pi == pm);
            }
        }
    }
}

/// Corridors wander: every position the walk from the source centre reaches
/// within `3 × (|sx - tx| + |sy - ty|) + 50` steps, without having met the
/// target centre before, is a cell of the corridor (the cap only then hands
/// over to a straight L).
pub proof fn lemma_corridor_follows_walk(w: int, h: int, from: Room, to: Room, thr: u64, state: u64, k: nat)
    requires
        ({
            let (sx, sy) = center_spec(from);
            let (tx, ty) = center_spec(to);
            &&& k <= 3 * (abs_spec(sx - tx) + abs_spec(sy - ty)) + 50
            &&& not_arrived_before(w, h, to, tx, ty, thr, state, sx, sy, k)
        }),
    ensures
        ({
            let (sx, sy) = center_spec(from);
            let (tx, ty) = center_spec(to);
            let p = walk_pos(w, h, to, tx, ty, thr, state, sx, sy, k);
            corridor_spec(w, h, from, to, thr, state).0.contains((p.0, p.1))
        }),
{
    let (sx, sy) = center_spec(from);
    let (tx, ty) = center_spec(to);
    let cap = 3 * (abs_spec(sx - tx) + abs_spec(sy - ty)) + 50;
    lemma_walk_prefix(w, h, to, tx, ty, cap, thr, state, sx, sy, k);
    let p = walk_pos(w, h, to, tx, ty, thr, state, sx, sy, k);
    let r0 = corridor_walk(w, h, to, tx, ty, cap, thr, state, sx, sy, 0);
    let rk = corridor_walk(w, h, to, tx, ty, cap, thr, p.2, p.0, p.1, k as int);
    let cells = corridor_spec(w, h, from, to, thr, state).0;
    if p.0 == tx && p.1 == ty {
    } else if k < cap {
        let nx = walk_next(w, h, to, tx, ty, thr, p.2, p.0, p.1);
        let rn = corridor_walk(w, h, to, tx, ty, cap, thr, nx.2, nx.0, nx.1, k as int + 1);
        assert(rk.0 == rn.0.insert((p.0, p.1)));
        assert(rk.0.contains((p.0, p.1)));
        assert(r0.0.contains((p.0, p.1)));
    } else {
        assert(rk.1 == p.0 && rk.2 == p.1);
        assert(r0.1 == p.0 && r0.2 == p.1);
    }
}

/// Carving a set of in-grid cells leaves every one of them open.
proof fn lemma_carved_open(old: Layout, new: Layout, cells: Set<(int, int)>)
    requires
        carved(old, new, cells),
        forall|c: (int, int)| #[trigger] cells.contains(c) ==> in_dims(old.width as int, old.height as int, c.0, c.1),
    ensures
        cells.subset_of(open_cells(new)),
{
    assert forall|c: (int, int)| #[trigger] cells.contains(c) implies open_cells(new).contains(c) by {
        assert(new.in_bounds_spec(c.0, c.1));
    }
}

/// A grid with two-tile margins on every side cannot be wide and tall at once.
pub proof fn lemma_dims_sum(w: int, h: int)
    requires
        w >= 6,
        h >= 6,
        w * h <= i32::MAX,
    ensures
        3 * (w + h) + 50 <= i32::MAX,
{
    assert(6 * (w + h) <= w * h + 36) by (nonlinear_arith)
        requires
            w >= 6,
            h >= 6,
    ;
}

/// One walk step (see `walk_next`).
fn walk_step(layout: &Layout, rng: &mut Rng, to: &Room, x: i32, y: i32, tx: i32, ty: i32, thr: u64) -> (r: (i32, i32))
    requires
        layout.wf(),
        layout.in_bounds_spec(x as int, y as int),
        layout.in_bounds_spec(tx as int, ty as int),
        room_in_margin(*to, layout.width as int, layout.height as int),
    ensures
        (r.0 as int, r.1 as int, final(rng).state) == walk_next(layout.width as int, layout.height as int, *to, tx as int, ty as int, thr, old(rng).state, x as int, y as int),
        layout.in_bounds_spec(r.0 as int, r.1 as int),
{
    reveal(walk_next);
    proof {
        lemma_dims_sum(layout.width as int, layout.height as int);
    }
    let go_random = rng.gen_unit_numerator() < thr;
    let (nx, ny) = if go_random { random_neighbor(x, y, rng) } else { greedy_step(x, y, tx, ty, rng) };
    if !layout.in_bounds(nx, ny) {
        let (gx, gy) = greedy_step(x, y, tx, ty, rng);
        if layout.in_bounds(gx, gy) {
            return (gx, gy);
        }
        return (x, y);
    }
    if to.contains(nx, ny) && (nx != tx || ny != ty) {
        let (gx, gy) = greedy_step(x, y, tx, ty, rng);
        if layout.in_bounds(gx, gy) && !(to.contains(gx, gy) && (gx != tx || gy != ty)) {
            return (gx, gy);
        }
    }
    (nx, ny)
}

/// Carves a meandering corridor from the centre of `from` to the centre of
/// `to` (see `corridor_spec`).
pub fn carve_one_corridor(layout: &mut Layout, rng: &mut Rng, from: &Room, to: &Room, wander_threshold: u64)
    requires
        old(layout).wf(),
        room_in_margin(*from, old(layout).width as int, old(layout).height as int),
        room_in_margin(*to, old(layout).width as int, old(layout).height as int),
    ensures
        ({
            let (cells, s) = corridor_spec(old(layout).width as int, old(layout).height as int, *from, *to, wander_threshold, old(rng).state);
            &&& final(rng).state == s
            &&& carved(*old(layout), *final(layout), cells)
        }),
        joined(open_cells(*final(layout)), center_spec(*from), center_spec(*to)),
        forall|k: nat| ({
            let (sx, sy) = center_spec(*from);
            let (tx, ty) = center_spec(*to);
            &&& k <= 3 * (abs_spec(sx - tx) + abs_spec(sy - ty)) + 50
            &&& not_arrived_before(old(layout).width as int, old(layout).height as int, *to, tx, ty, wander_threshold, old(rng).state, sx, sy, k)
        }) ==> {
            let p = #[trigger] walk_pos(old(layout).width as int, old(layout).height as int, *to, center_spec(*to).0, center_spec(*to).1, wander_threshold, old(rng).state, center_spec(*from).0, center_spec(*from).1, k);
            open_cells(*final(layout)).contains((p.0, p.1))
        },
{
    let ghost orig = *layout;
    let ghost state0 = rng.state;
    let ghost w = layout.width as int;
    let ghost h = layout.height as int;
    let (sx, sy) = from.center();
    let (tx, ty) = to.center();
    proof {
        lemma_dims_sum(w, h);
    }
    let mdx: i32 = if sx > tx { sx - tx } else { tx - sx };
    let mdy: i32 = if sy > ty { sy - ty } else { ty - sy };
    let manhattan = mdx + mdy;
    let cap = (3 * manhattan + 50) as usize;
    let mut x = sx;
    let mut y = sy;
    let mut steps: usize = 0;
    let ghost mut done: Set<(int, int)> = Set::empty();
    let ghost full = corridor_walk(w, h, *to, tx as int, ty as int, cap as int, wander_threshold, state0, sx as int, sy as int, 0);
    while (x != tx || y != ty) && steps < cap
        invariant
            orig.wf(),
            w == orig.width,
            h == orig.height,
            room_in_margin(*to, w, h),
            orig.in_bounds_spec(tx as int, ty as int),
            orig.in_bounds_spec(x as int, y as int),
            steps <= cap,
            carved(orig, *layout, done),
            ({
                let cur = corridor_walk(w, h, *to, tx as int, ty as int, cap as int, wander_threshold, rng.state, x as int, y as int, steps as int);
                &&& full.0 == done.union(cur.0)
                &&& full.1 == cur.1
                &&& full.2 == cur.2
                &&& full.3 == cur.3
            }),
        decreases cap - steps,
    {
        let ghost before = *layout;
        let ghost cur_state = rng.state;
        let ghost cur = corridor_walk(w, h, *to, tx as int, ty as int, cap as int, wander_threshold, rng.state, x as int, y as int, steps as int);
        carve_corridor_cell(layout, x, y);
        let ghost px = x as int;
        let ghost py = y as int;
        let (nx, ny) = walk_step(layout, rng, to, x, y, tx, ty, wander_threshold);
        x = nx;
        y = ny;
        steps = steps + 1;
        proof {
            let cell = Set::empty().insert((px, py));
            lemma_carved_compose(orig, before, *layout, done, cell);
            let next = corridor_walk(w, h, *to, tx as int, ty as int, cap as int, wander_threshold, rng.state, x as int, y as int, steps as int);
            assert(cur.0 == next.0.insert((px, py)));
            assert(done.union(cur.0) == done.union(cell).union(next.0));
            done = done.union(cell);
        }
    }
    proof {
        let cur = corridor_walk(w, h, *to, tx as int, ty as int, cap as int, wander_threshold, rng.state, x as int, y as int, steps as int);
        assert(cur.0 == Set::<(int, int)>::empty());
        assert(done.union(cur.0) == done);
    }
    if x != tx || y != ty {
        let ghost before = *layout;
        carve_corridor_cell(layout, x, y);
        let ghost stop = *layout;
        finish_with_l_shape(layout, rng, x, y, tx, ty);
        let ghost mid = *layout;
        carve_corridor_cell(layout, tx, ty);
        proof {
            let (coin, s2) = range_usize_spec(full.3, 0, 2);
            let l = l_shape_cells(coin, x as int, y as int, tx as int, ty as int);
            let d1 = done.union(Set::empty().insert((x as int, y as int)));
            lemma_carved_compose(orig, before, stop, done, Set::empty().insert((x as int, y as int)));
            lemma_carved_compose(orig, stop, mid, d1, l);
            lemma_carved_compose(orig, mid, *layout, d1.union(l), Set::empty().insert((tx as int, ty as int)));
            assert(d1 == done.insert((x as int, y as int)));
            assert(d1.union(l).union(Set::empty().insert((tx as int, ty as int))) == d1.union(l).insert((tx as int, ty as int)));
        }
    } else {
        let ghost before = *layout;
        carve_corridor_cell(layout, tx, ty);
        proof {
            lemma_carved_compose(orig, before, *layout, done, Set::empty().insert((tx as int, ty as int)));
            assert(done.union(Set::empty().insert((tx as int, ty as int))) == done.insert((tx as int, ty as int)));
        }
    }
    proof {
        lemma_center_in(*from, w, h);
        lemma_center_in(*to, w, h);
        let cells = corridor_spec(w, h, *from, *to, wander_threshold, state0).0;
        lemma_corridor_joined(w, h, *from, *to, wander_threshold, state0);
        lemma_carved_open(orig, *layout, cells);
        lemma_joined_mono(cells, open_cells(*layout), center_spec(*from), center_spec(*to));
        let (csx, csy) = center_spec(*from);
        let (ctx, cty) = center_spec(*to);
        assert forall|k: nat| ({
            &&& k <= 3 * (abs_spec(csx - ctx) + abs_spec(csy - cty)) + 50
            &&& not_arrived_before(w, h, *to, ctx, cty, wander_threshold, state0, csx, csy, k)
        }) implies {
            let p = #[trigger] walk_pos(w, h, *to, ctx, cty, wander_threshold, state0, csx, csy, k);
            open_cells(*layout).contains((p.0, p.1))
        } by {
            lemma_corridor_follows_walk(w, h, *from, *to, wander_threshold, state0, k);
            let p = walk_pos(w, h, *to, ctx, cty, wander_threshold, state0, csx, csy, k);
            assert(cells.contains((p.0, p.1)));
        }
    }
}


// ── Spanning tree and extra edges ─────────────────────────────────────────────

/// Squared distance between the centres of rooms `i` and `j`.
pub open spec fn dist2(rooms: Seq<Room>, i: int, j: int) -> int {
    let (ix, iy) = center_spec(rooms[i]);
    let (jx, jy) = center_spec(rooms[j]);
    (ix - jx) * (ix - jx) + (iy - jy) * (iy - jy)
}

/// `(i, j)` joins a tree room `i` to a room `j` outside the tree.
pub open spec fn crossing(in_tree: Seq<bool>, i: int, j: int) -> bool {
    0 <= i < in_tree.len() && 0 <= j < in_tree.len() && in_tree[i] && !in_tree[j]
}

/// Row-major order on index pairs.
pub open spec fn pair_before(i1: int, j1: int, i2: int, j2: int) -> bool {
    i1 < i2 || (i1 == i2 && j1 < j2)
}

/// `(i, j)` is the shortest crossing pair, the first in row-major order among
/// equally short ones.
pub open spec fn is_prim_pick(rooms: Seq<Room>, in_tree: Seq<bool>, i: int, j: int) -> bool {
    &&& crossing(in_tree, i, j)
    &&& forall|i2: int, j2: int| #[trigger] crossing(in_tree, i2, j2) ==> dist2(rooms, i, j) <= dist2(rooms, i2, j2)
    &&& forall|i2: int, j2: int| #[trigger] crossing(in_tree, i2, j2) && pair_before(i2, j2, i, j) ==> dist2(rooms, i2, j2) > dist2(rooms, i, j)
}

/// The shortest crossing pair is unique.
pub proof fn lemma_prim_pick_unique(rooms: Seq<Room>, in_tree: Seq<bool>, i1: int, j1: int, i2: int, j2: int)
    requires
        is_prim_pick(rooms, in_tree, i1, j1),
        is_prim_pick(rooms, in_tree, i2, j2),
    ensures
        i1 == i2 && j1 == j2,
{
    assert(crossing(in_tree, i1, j1));
    assert(crossing(in_tree, i2, j2));
}

/// Prim's spanning tree over room centres, `rounds` more rounds from the
/// current tree: each round adds the shortest crossing pair (see
/// `is_prim_pick`) and moves its outer room into the tree.
pub open spec fn prim_spec(rooms: Seq<Room>, in_tree: Seq<bool>, edges: Seq<(usize, usize)>, rounds: nat) -> Seq<(usize, usize)>
    decreases rounds,
{
    if rounds == 0 {
        edges
    } else if exists|i: int, j: int| is_prim_pick(rooms, in_tree, i, j) {
        let (i, j) = choose|i: int, j: int| is_prim_pick(rooms, in_tree, i, j);
        prim_spec(rooms, in_tree.update(j, true), edges.push((i as usize, j as usize)), (rounds - 1) as nat)
    } else {
        prim_spec(rooms, in_tree, edges, (rounds - 1) as nat)
    }
}

/// The spanning-tree edges of `carve_corridors`: Prim's algorithm started
/// from room 0, `n - 1` rounds.
pub open spec fn spanning_edges_spec(rooms: Seq<Room>) -> Seq<(usize, usize)> {
    prim_spec(rooms, Seq::new(rooms.len(), |k: int| k == 0), Seq::empty(), (rooms.len() - 1) as nat)
}

/// Every room lies inside a `w × h` grid with two-tile margins.
pub open spec fn all_in_margin(rooms: Seq<Room>, w: int, h: int) -> bool {
    forall|i: int| 0 <= i < rooms.len() ==> room_in_margin(#[trigger] rooms[i], w, h)
}

/// The centre of a room inside the margins lies inside the grid.
pub proof fn lemma_center_in(room: Room, w: int, h: int)
    requires
        room_in_margin(room, w, h),
        w <= i32::MAX,
        h <= i32::MAX,
    ensures
        0 <= center_spec(room).0 < w,
        0 <= center_spec(room).1 < h,
        room.x + half_toward_zero(room.w as int) <= i32::MAX,
        room.y + half_toward_zero(room.h as int) <= i32::MAX,
        room.x + half_toward_zero(room.w as int) >= i32::MIN,
        room.y + half_toward_zero(room.h as int) >= i32::MIN,
{
}

/// Squared centre distances of rooms inside a valid grid fit in `i64`.
proof fn lemma_dist_fits(rooms: Seq<Room>, w: int, h: int, i: int, j: int)
    requires
        all_in_margin(rooms, w, h),
        w * h <= i32::MAX,
        0 <= i < rooms.len(),
        0 <= j < rooms.len(),
    ensures
        0 <= dist2(rooms, i, j) <= i64::MAX,
        ({
            let (ix, iy) = center_spec(rooms[i]);
            let (jx, jy) = center_spec(rooms[j]);
            &&& 0 <= ix < w && 0 <= iy < h && 0 <= jx < w && 0 <= jy < h
            &&& 0 <= (ix - jx) * (ix - jx) && 0 <= (iy - jy) * (iy - jy)
            &&& w <= i32::MAX && h <= i32::MAX
        }),
{
    assert(room_in_margin(rooms[i], w, h));
    assert(room_in_margin(rooms[j], w, h));
    lemma_dims_sum(w, h);
    lemma_center_in(rooms[i], w, h);
    lemma_center_in(rooms[j], w, h);
    let (ix, iy) = center_spec(rooms[i]);
    let (jx, jy) = center_spec(rooms[j]);
    let dx = ix - jx;
    let dy = iy - jy;
    assert(-w < dx < w && -h < dy < h);
    assert(0 <= dx * dx + dy * dy <= (w + h) * (w + h)) by (nonlinear_arith)
        requires
            -w < dx < w,
            -h < dy < h,
            w >= 0,
            h >= 0,
    ;
    assert((w + h) * (w + h) <= i64::MAX) by (nonlinear_arith)
        requires
            0 <= w + h <= i32::MAX,
    ;
    assert(0 <= dx * dx) by (nonlinear_arith);
    assert(0 <= dy * dy) by (nonlinear_arith);
}

/// The spanning-tree edges over room centres (see `spanning_edges_spec`).
pub fn spanning_edges(rooms: &Vec<Room>, Ghost(w): Ghost<int>, Ghost(h): Ghost<int>) -> (edges: Vec<(usize, usize)>)
    requires
        rooms@.len() >= 1,
        all_in_margin(rooms@, w, h),
        w * h <= i32::MAX,
    ensures
        edges@ == spanning_edges_spec(rooms@),
{
    let n = rooms.len();
    let mut in_tree: Vec<bool> = Vec::new();
    let mut k: usize = 0;
    while k < n
        invariant
            k <= n,
            n == rooms@.len(),
            in_tree@.len() == k,
            forall|q: int| 0 <= q < k ==> in_tree@[q] == (q == 0),
        decreases n - k,
    {
        in_tree.push(k == 0);
        k = k + 1;
    }
    proof {
        assert(in_tree@ == Seq::new(rooms@.len(), |q: int| q == 0));
    }
    let mut edges: Vec<(usize, usize)> = Vec::new();
    let mut round: usize = 1;
    while round < n
        invariant
            1 <= round <= n,
            n == rooms@.len(),
            in_tree@.len() == n,
            all_in_margin(rooms@, w, h),
            w * h <= i32::MAX,
            prim_spec(rooms@, in_tree@, edges@, (n - round) as nat) == spanning_edges_spec(rooms@),
        decreases n - round,
    {
        let mut best: Option<(usize, usize, i64)> = None;
        let mut i: usize = 0;
        while i < n
            invariant
                i <= n,
                n == rooms@.len(),
                in_tree@.len() == n,
                all_in_margin(rooms@, w, h),
                w * h <= i32::MAX,
                match best {
                    None => forall|i2: int, j2: int| #[trigger] crossing(in_tree@, i2, j2) ==> i2 >= i,
                    Some((bi, bj, bd)) => {
                        &&& crossing(in_tree@, bi as int, bj as int)
                        &&& bi < i
                        &&& bd == dist2(rooms@, bi as int, bj as int)
                        &&& forall|i2: int, j2: int| #[trigger] crossing(in_tree@, i2, j2) && i2 < i ==> bd <= dist2(rooms@, i2, j2)
                        &&& forall|i2: int, j2: int| #[trigger] crossing(in_tree@, i2, j2) && i2 < i && pair_before(i2, j2, bi as int, bj as int) ==> dist2(rooms@, i2, j2) > bd
                    },
                },
            decreases n - i,
        {
            if in_tree[i] {
                let mut j: usize = 0;
                while j < n
                    invariant
                        i < n,
                        j <= n,
                        n == rooms@.len(),
                        in_tree@.len() == n,
                        in_tree@[i as int],
                        all_in_margin(rooms@, w, h),
                        w * h <= i32::MAX,
                        match best {
                            None => forall|i2: int, j2: int| #[trigger] crossing(in_tree@, i2, j2) ==> pair_before(i as int, j as int, i2, j2) || (i2 == i && j2 == j),
                            Some((bi, bj, bd)) => {
                                &&& crossing(in_tree@, bi as int, bj as int)
                                &&& pair_before(bi as int, bj as int, i as int, j as int)
                                &&& bd == dist2(rooms@, bi as int, bj as int)
                                &&& forall|i2: int, j2: int| #[trigger] crossing(in_tree@, i2, j2) && pair_before(i2, j2, i as int, j as int) ==> bd <= dist2(rooms@, i2, j2)
                                &&& forall|i2: int, j2: int| #[trigger] crossing(in_tree@, i2, j2) && pair_before(i2, j2, bi as int, bj as int) ==> dist2(rooms@, i2, j2) > bd
                            },
                        },
                    decreases n - j,
                {
                    if !in_tree[j] {
                        proof {
                            lemma_dist_fits(rooms@, w, h, i as int, j as int);
                            assert(room_in_margin(rooms@[i as int], w, h));
                            assert(room_in_margin(rooms@[j as int], w, h));
                            lemma_dims_sum(w, h);
                            lemma_center_in(rooms@[i as int], w, h);
                            lemma_center_in(rooms@[j as int], w, h);
                        }
                        let (cix, ciy) = rooms[i].center();
                        let (cjx, cjy) = rooms[j].center();
                        let dx = (cix - cjx) as i64;
                        let dy = (ciy - cjy) as i64;
                        assert(dx * dx + dy * dy == dist2(rooms@, i as int, j as int));
                        let d = dx * dx + dy * dy;
                        let better = match best {
                            None => true,
                            Some((_, _, bd)) => d < bd,
                        };
                        if better {
                            best = Some((i, j, d));
                        }
                    }
                    j = j + 1;
                }
            }
            i = i + 1;
        }
        let ghost before_tree = in_tree@;
        match best {
            Some((bi, bj, _)) => {
                proof {
                    assert(is_prim_pick(rooms@, in_tree@, bi as int, bj as int));
                    let (ci, cj) = choose|i: int, j: int| is_prim_pick(rooms@, in_tree@, i, j);
                    lemma_prim_pick_unique(rooms@, in_tree@, ci, cj, bi as int, bj as int);
                }
                edges.push((bi, bj));
                in_tree.set(bj, true);
            },
            None => {
                proof {
                    assert(!exists|i: int, j: int| is_prim_pick(rooms@, in_tree@, i, j));
                }
            },
        }
        round = round + 1;
    }
    edges
}

/// Edges list after `left` more extra edges: each draws two room indices,
/// bumping the second by one (mod `n`) when they coincide. Nothing is drawn
/// with fewer than two rooms.
pub open spec fn extra_edges_spec(n: int, state: u64, edges: Seq<(usize, usize)>, left: nat) -> (Seq<(usize, usize)>, u64)
    decreases left,
{
    if left == 0 || n < 2 {
        (edges, state)
    } else {
        let (a, s1) = range_usize_spec(state, 0, n);
        let (b0, s2) = range_usize_spec(s1, 0, n);
        let b = if b0 == a { (b0 + 1) % n } else { b0 };
        extra_edges_spec(n, s2, edges.push((a as usize, b as usize)), (left - 1) as nat)
    }
}

/// Appends `count` random extra edges (see `extra_edges_spec`).
pub fn add_extra_edges(edges: &mut Vec<(usize, usize)>, rng: &mut Rng, n: usize, count: usize)
    ensures
        (final(edges)@, final(rng).state) == extra_edges_spec(n as int, old(rng).state, old(edges)@, count as nat),
        forall|k: int| 0 <= k < final(edges)@.len() && !(0 <= k < old(edges)@.len()) ==>
            (#[trigger] final(edges)@[k]).0 < n && final(edges)@[k].1 < n,
        forall|k: int| 0 <= k < old(edges)@.len() ==> #[trigger] final(edges)@[k] == old(edges)@[k],
        final(edges)@.len() >= old(edges)@.len(),
{
    let ghost e0 = edges@;
    let ghost s0 = rng.state;
    let mut t: usize = 0;
    while t < count
        invariant
            t <= count,
            extra_edges_spec(n as int, rng.state, edges@, (count - t) as nat) == extra_edges_spec(n as int, s0, e0, count as nat),
            edges@.len() >= e0.len(),
            forall|k: int| 0 <= k < e0.len() ==> #[trigger] edges@[k] == e0[k],
            forall|k: int| 0 <= k < edges@.len() && !(0 <= k < e0.len()) ==> (#[trigger] edges@[k]).0 < n && edges@[k].1 < n,
        ensures
            extra_edges_spec(n as int, rng.state, edges@, (count - t) as nat) == extra_edges_spec(n as int, s0, e0, count as nat),
            (t == count || n < 2),
            t <= count,
            edges@.len() >= e0.len(),
            forall|k: int| 0 <= k < e0.len() ==> #[trigger] edges@[k] == e0[k],
            forall|k: int| 0 <= k < edges@.len() && !(0 <= k < e0.len()) ==> (#[trigger] edges@[k]).0 < n && edges@[k].1 < n,
        decreases count - t,
    {
        if n < 2 {
            break;
        }
        let a = rng.gen_range_usize(0, n);
        let mut b = rng.gen_range_usize(0, n);
        if b == a {
            b = (b + 1) % n;
        }
        edges.push((a, b));
        t = t + 1;
    }
    proof {
        assert(extra_edges_spec(n as int, rng.state, edges@, (count - t) as nat) == (edges@, rng.state));
    }
}

/// Cells carved (and final generator state) by carving the corridors of
/// `edges[k..]` in order.
pub open spec fn carve_edges_spec(w: int, h: int, rooms: Seq<Room>, edges: Seq<(usize, usize)>, thr: u64, k: int, state: u64) -> (Set<(int, int)>, u64)
    decreases edges.len() - k,
{
    if k >= edges.len() || k < 0 {
        (Set::empty(), state)
    } else {
        let (a, b) = edges[k];
        let (c, s1) = corridor_spec(w, h, rooms[a as int], rooms[b as int], thr, state);
        let (rest, s2) = carve_edges_spec(w, h, rooms, edges, thr, k + 1, s1);
        (c.union(rest), s2)
    }
}

/// Joins the rooms with corridors: a spanning tree over room centres plus
/// `extra_count` random extra edges (for loops and crossings), each carved
/// by `carve_one_corridor` in order.
pub fn carve_corridors(layout: &mut Layout, rng: &mut Rng, rooms: &Vec<Room>, extra_count: usize, wander_threshold: u64)
    requires
        old(layout).wf(),
        rooms@.len() >= 1,
        all_in_margin(rooms@, old(layout).width as int, old(layout).height as int),
    ensures
        ({
            let (edges, s1) = extra_edges_spec(rooms@.len() as int, old(rng).state, spanning_edges_spec(rooms@), extra_count as nat);
            let (cells, s2) = carve_edges_spec(old(layout).width as int, old(layout).height as int, rooms@, edges, wander_threshold, 0, s1);
            &&& final(rng).state == s2
            &&& carved(*old(layout), *final(layout), cells)
        }),
{
    let ghost orig = *layout;
    let ghost w = layout.width as int;
    let ghost h = layout.height as int;
    let n = rooms.len();
    let mut edges = spanning_edges(rooms, Ghost(w), Ghost(h));
    proof {
        assert forall|k: int| 0 <= k < edges@.len() implies (#[trigger] edges@[k]).0 < n && edges@[k].1 < n by {
            lemma_spanning_edges_in_range(rooms@, Seq::new(rooms@.len(), |q: int| q == 0), Seq::empty(), (rooms@.len() - 1) as nat, k);
        }
    }
    let ghost tree = edges@;
    add_extra_edges(&mut edges, rng, n, extra_count);
    let ghost s1 = rng.state;
    let ghost all = carve_edges_spec(w, h, rooms@, edges@, wander_threshold, 0, s1);
    let ghost mut done: Set<(int, int)> = Set::empty();
    let mut k: usize = 0;
    while k < edges.len()
        invariant
            orig.wf(),
            w == orig.width,
            h == orig.height,
            n == rooms@.len(),
            all_in_margin(rooms@, w, h),
            forall|q: int| 0 <= q < edges@.len() ==> (#[trigger] edges@[q]).0 < n && edges@[q].1 < n,
            k <= edges@.len(),
            carved(orig, *layout, done),
            ({
                let cur = carve_edges_spec(w, h, rooms@, edges@, wander_threshold, k as int, rng.state);
                &&& all.0 == done.union(cur.0)
                &&& all.1 == cur.1
            }),
        decreases edges@.len() - k,
    {
        let (a, b) = edges[k];
        let ghost before = *layout;
        let ghost st = rng.state;
        carve_one_corridor(layout, rng, &rooms[a], &rooms[b], wander_threshold);
        proof {
            assert(edges@[k as int].0 < n && edges@[k as int].1 < n);
            let (c, s_after) = corridor_spec(w, h, rooms@[a as int], rooms@[b as int], wander_threshold, st);
            lemma_carved_compose(orig, before, *layout, done, c);
            let next = carve_edges_spec(w, h, rooms@, edges@, wander_threshold, k as int + 1, rng.state);
            assert(done.union(c.union(next.0)) == done.union(c).union(next.0));
            done = done.union(c);
        }
        k = k + 1;
    }
    proof {
        assert(done.union(Set::empty()) == done);
    }
}

/// Spanning-tree edges index existing rooms.
proof fn lemma_spanning_edges_in_range(rooms: Seq<Room>, in_tree: Seq<bool>, edges: Seq<(usize, usize)>, rounds: nat, k: int)
    requires
        in_tree.len() == rooms.len(),
        forall|q: int| 0 <= q < edges.len() ==> (#[trigger] edges[q]).0 < rooms.len() && edges[q].1 < rooms.len(),
        0 <= k < prim_spec(rooms, in_tree, edges, rounds).len(),
    ensures
        (prim_spec(rooms, in_tree, edges, rounds)[k]).0 < rooms.len(),
        (prim_spec(rooms, in_tree, edges, rounds)[k]).1 < rooms.len(),
    decreases rounds,
{
    if rounds == 0 {
    } else if exists|i: int, j: int| is_prim_pick(rooms, in_tree, i, j) {
        let (i, j) = choose|i: int, j: int| is_prim_pick(rooms, in_tree, i, j);
        let e2 = edges.push((i as usize, j as usize));
        assert forall|q: int| 0 <= q < e2.len() implies (#[trigger] e2[q]).0 < rooms.len() && e2[q].1 < rooms.len() by {
            if q < edges.len() {
                assert(e2[q] == edges[q]);
            }
        }
        lemma_spanning_edges_in_range(rooms, in_tree.update(j, true), e2, (rounds - 1) as nat, k);
    } else {
        lemma_spanning_edges_in_range(rooms, in_tree, edges, (rounds - 1) as nat, k);
    }
}


// ── Side branches ─────────────────────────────────────────────────────────────

/// Row-major position of `(x, y)` in a grid of width `w`.
pub open spec fn row_major(w: int, c: (int, int)) -> int {
    c.1 * w + c.0
}

/// The corridor cells of `layout`, in row-major order: strictly increasing
/// positions, and a cell occurs iff it is an in-bounds corridor cell.
pub open spec fn is_corridor_listing(layout: Layout, tiles: Seq<(i32, i32)>) -> bool {
    &&& forall|i: int, j: int| 0 <= i < j < tiles.len() ==>
        row_major(layout.width as int, (tiles[i].0 as int, tiles[i].1 as int)) < row_major(layout.width as int, (tiles[j].0 as int, tiles[j].1 as int))
    &&& forall|i: int| 0 <= i < tiles.len() ==> layout.in_bounds_spec(#[trigger] tiles[i].0 as int, tiles[i].1 as int)
        && layout.cell(tiles[i].0 as int, tiles[i].1 as int) == Cell::Corridor
    &&& forall|x: int, y: int| #[trigger] layout.in_bounds_spec(x, y) && layout.cell(x, y) == Cell::Corridor ==>
        exists|i: int| 0 <= i < tiles.len() && tiles[i].0 == x && tiles[i].1 == y
}

/// A cell on an earlier row comes first in row-major order.
pub proof fn lemma_row_before(w: int, x1: int, y1: int, y2: int)
    requires
        0 <= x1 < w,
        y1 < y2,
    ensures
        y1 * w + x1 < y2 * w,
{
    assert(y1 * w + w <= y2 * w) by (nonlinear_arith)
        requires
            y1 < y2,
            0 <= w,
    ;
}

/// Row-major order never puts a later row first.
pub proof fn lemma_row_order(w: int, x1: int, y1: int, x2: int, y2: int)
    requires
        0 <= x1 < w,
        0 <= x2 <= w,
        y1 * w + x1 < y2 * w + x2,
    ensures
        y1 <= y2,
{
    if y1 > y2 {
        assert(y2 * w + w <= y1 * w) by (nonlinear_arith)
            requires
                y2 < y1,
                0 <= w,
        ;
    }
}

/// Every corridor cell, in row-major order.
pub fn corridor_tiles(layout: &Layout) -> (tiles: Vec<(i32, i32)>)
    requires
        layout.wf(),
    ensures
        is_corridor_listing(*layout, tiles@),
{
    let mut tiles: Vec<(i32, i32)> = Vec::new();
    let mut y: i32 = 0;
    while y < layout.height
        invariant
            layout.wf(),
            0 <= y <= layout.height,
            forall|i: int, j: int| 0 <= i < j < tiles@.len() ==>
                row_major(layout.width as int, (tiles@[i].0 as int, tiles@[i].1 as int)) < row_major(layout.width as int, (tiles@[j].0 as int, tiles@[j].1 as int)),
            forall|i: int| 0 <= i < tiles@.len() ==> layout.in_bounds_spec(#[trigger] tiles@[i].0 as int, tiles@[i].1 as int)
                && layout.cell(tiles@[i].0 as int, tiles@[i].1 as int) == Cell::Corridor && tiles@[i].1 < y,
            forall|x: int, yy: int| #[trigger] layout.in_bounds_spec(x, yy) && layout.cell(x, yy) == Cell::Corridor && yy < y ==>
                exists|i: int| 0 <= i < tiles@.len() && tiles@[i].0 == x && tiles@[i].1 == yy,
        decreases layout.height - y,
    {
        let mut x: i32 = 0;
        proof {
            assert forall|i: int| 0 <= i < tiles@.len() implies
                row_major(layout.width as int, (tiles@[i].0 as int, tiles@[i].1 as int)) < row_major(layout.width as int, (0int, y as int)) by {
                assert(layout.in_bounds_spec(tiles@[i].0 as int, tiles@[i].1 as int));
                lemma_row_before(layout.width as int, tiles@[i].0 as int, tiles@[i].1 as int, y as int);
            }
        }
        while x < layout.width
            invariant
                layout.wf(),
                0 <= y < layout.height,
                0 <= x <= layout.width,
                forall|i: int, j: int| 0 <= i < j < tiles@.len() ==>
                    row_major(layout.width as int, (tiles@[i].0 as int, tiles@[i].1 as int)) < row_major(layout.width as int, (tiles@[j].0 as int, tiles@[j].1 as int)),
                forall|i: int| 0 <= i < tiles@.len() ==> layout.in_bounds_spec(#[trigger] tiles@[i].0 as int, tiles@[i].1 as int)
                    && layout.cell(tiles@[i].0 as int, tiles@[i].1 as int) == Cell::Corridor
                    && row_major(layout.width as int, (tiles@[i].0 as int, tiles@[i].1 as int)) < row_major(layout.width as int, (x as int, y as int)),
                forall|xx: int, yy: int| #[trigger] layout.in_bounds_spec(xx, yy) && layout.cell(xx, yy) == Cell::Corridor
                    && (yy < y || (yy == y && xx < x)) ==>
                    exists|i: int| 0 <= i < tiles@.len() && tiles@[i].0 == xx && tiles@[i].1 == yy,
            decreases layout.width - x,
        {
            if layout.get(x, y) == Cell::Corridor {
                let ghost prev = tiles@;
                tiles.push((x, y));
                proof {
                    assert forall|xx: int, yy: int| #[trigger] layout.in_bounds_spec(xx, yy) && layout.cell(xx, yy) == Cell::Corridor
                        && (yy < y || (yy == y && xx < x + 1)) implies
                        exists|i: int| 0 <= i < tiles@.len() && tiles@[i].0 == xx && tiles@[i].1 == yy by {
                        if xx == x && yy == y {
                            assert(tiles@[tiles@.len() - 1] == (x, y));
                        } else {
                            let i = choose|i: int| 0 <= i < prev.len() && prev[i].0 == xx && prev[i].1 == yy;
                            assert(tiles@[i] == prev[i]);
                        }
                    }
                }
            }
            x = x + 1;
        }
        proof {
            assert forall|i: int| 0 <= i < tiles@.len() implies (#[trigger] tiles@[i]).1 < y + 1 by {
                assert(layout.in_bounds_spec(tiles@[i].0 as int, tiles@[i].1 as int));
                assert(row_major(layout.width as int, (tiles@[i].0 as int, tiles@[i].1 as int)) < row_major(layout.width as int, (x as int, y as int)));
                lemma_row_order(layout.width as int, tiles@[i].0 as int, tiles@[i].1 as int, x as int, y as int);
            }
        }
        y = y + 1;
    }
    tiles
}

/// Offsets of the four spur directions, indexed 0..4.
pub open spec fn dir_spec(k: int) -> (int, int) {
    neighbor_spec(0, 0, k)
}

/// One spur step from `(x, y)` heading `(dx, dy)`: re-roll the heading with
/// the wander dial (never reversing), then stop at the grid edge or at a
/// chamber (`stop`), else move. Returns `(stop, nx, ny, ndx, ndy, state)`.
/// Chamber cells are read from `layout`.
#[verifier::opaque]
pub open spec fn spur_next(layout: Layout, thr: u64, state: u64, x: int, y: int, dx: int, dy: int) -> (bool, int, int, int, int, u64) {
    let u = rng_output(state) >> 40u64;
    let s1 = rng_advance(state);
    let (ndx, ndy, s2) = if u < thr {
        let (k, s) = range_usize_spec(s1, 0, 4);
        let (rdx, rdy) = dir_spec(k);
        if rdx != -dx || rdy != -dy { (rdx, rdy, s) } else { (dx, dy, s) }
    } else {
        (dx, dy, s1)
    };
    let nx = x + ndx;
    let ny = y + ndy;
    let stop = !layout.in_bounds_spec(nx, ny) || layout.cell(nx, ny) == Cell::Chamber;
    (stop, nx, ny, ndx, ndy, s2)
}

/// A spur walk of `left` more steps (see `spur_next`), carving every cell it
/// moves onto.
pub open spec fn spur_walk(layout: Layout, thr: u64, state: u64, x: int, y: int, dx: int, dy: int, left: int) -> (Set<(int, int)>, u64)
    decreases left,
{
    if left <= 0 {
        (Set::empty(), state)
    } else {
        let (stop, nx, ny, ndx, ndy, s2) = spur_next(layout, thr, state, x, y, dx, dy);
        if stop {
            (Set::empty(), s2)
        } else {
            let (rest, s3) = spur_walk(layout, thr, s2, nx, ny, ndx, ndy, left - 1);
            (rest.insert((nx, ny)), s3)
        }
    }
}

/// One spur step (see `spur_next`).
fn spur_step(layout: &Layout, rng: &mut Rng, x: i32, y: i32, dx: i32, dy: i32, thr: u64, Ghost(base): Ghost<Layout>) -> (r: (bool, i32, i32, i32, i32))
    requires
        layout.wf(),
        same_chambers(base, *layout),
        layout.in_bounds_spec(x as int, y as int),
        -1 <= dx <= 1 && -1 <= dy <= 1,
    ensures
        (r.0, r.1 as int, r.2 as int, r.3 as int, r.4 as int, final(rng).state) == spur_next(base, thr, old(rng).state, x as int, y as int, dx as int, dy as int),
        !r.0 ==> layout.in_bounds_spec(r.1 as int, r.2 as int),
        -1 <= r.3 <= 1 && -1 <= r.4 <= 1,
{
    reveal(spur_next);
    let mut dx = dx;
    let mut dy = dy;
    if rng.gen_unit_numerator() < thr {
        let k = rng.gen_range_usize(0, 4);
        let (rdx, rdy): (i32, i32) = if k == 0 { (1, 0) } else if k == 1 { (-1, 0) } else if k == 2 { (0, 1) } else { (0, -1) };
        if rdx != -dx || rdy != -dy {
            dx = rdx;
            dy = rdy;
        }
    }
    let nx = x + dx;
    let ny = y + dy;
    if !layout.in_bounds(nx, ny) {
        return (true, nx, ny, dx, dy);
    }
    proof {
        assert(base.in_bounds_spec(nx as int, ny as int));
    }
    let stop = layout.get(nx, ny) == Cell::Chamber;
    (stop, nx, ny, dx, dy)
}

/// One spur: a random corridor tile as start, a length in `[4, 14)` and a
/// random heading, then `spur_walk`.
pub open spec fn spur_spec(layout: Layout, tiles: Seq<(i32, i32)>, thr: u64, state: u64) -> (Set<(int, int)>, u64) {
    let (i, s1) = range_usize_spec(state, 0, tiles.len() as int);
    let (length, s2) = range_i32_spec(s1, 4, 14);
    let (k, s3) = range_usize_spec(s2, 0, 4);
    let (dx, dy) = dir_spec(k);
    spur_walk(layout, thr, s3, tiles[i].0 as int, tiles[i].1 as int, dx, dy, length)
}

/// `count` spurs in a row.
pub open spec fn branches_spec(layout: Layout, tiles: Seq<(i32, i32)>, thr: u64, count: nat, state: u64) -> (Set<(int, int)>, u64)
    decreases count,
{
    if count == 0 {
        (Set::empty(), state)
    } else {
        let (c, s1) = spur_spec(layout, tiles, thr, state);
        let (rest, s2) = branches_spec(layout, tiles, thr, (count - 1) as nat, s1);
        (c.union(rest), s2)
    }
}

/// Both layouts have the same dimensions and the same chamber cells.
pub open spec fn same_chambers(a: Layout, b: Layout) -> bool {
    &&& a.width == b.width
    &&& a.height == b.height
    &&& forall|x: int, y: int| #[trigger] a.in_bounds_spec(x, y) ==> (a.cell(x, y) == Cell::Chamber <==> b.cell(x, y) == Cell::Chamber)
}

/// Carving never creates or removes chambers.
pub proof fn lemma_carved_same_chambers(l0: Layout, l1: Layout, s: Set<(int, int)>)
    requires
        carved(l0, l1, s),
    ensures
        same_chambers(l0, l1),
{
    assert forall|x: int, y: int| #[trigger] l0.in_bounds_spec(x, y) implies (l0.cell(x, y) == Cell::Chamber <==> l1.cell(x, y) == Cell::Chamber) by {
        assert(l1.in_bounds_spec(x, y));
    }
}

/// Carves one spur (see `spur_spec`).
fn carve_spur(layout: &mut Layout, rng: &mut Rng, tiles: &Vec<(i32, i32)>, wander_threshold: u64, Ghost(base): Ghost<Layout>)
    requires
        old(layout).wf(),
        tiles@.len() > 0,
        forall|i: int| 0 <= i < tiles@.len() ==> old(layout).in_bounds_spec(#[trigger] tiles@[i].0 as int, tiles@[i].1 as int),
        same_chambers(base, *old(layout)),
    ensures
        ({
            let (cells, s) = spur_spec(base, tiles@, wander_threshold, old(rng).state);
            &&& final(rng).state == s
            &&& carved(*old(layout), *final(layout), cells)
        }),
{
    let ghost orig = *layout;
    let start = rng.gen_range_usize(0, tiles.len());
    let (sx, sy) = tiles[start];
    let length = rng.gen_range_i32(4, 14);
    let k = rng.gen_range_usize(0, 4);
    let (mut dx, mut dy): (i32, i32) = if k == 0 { (1, 0) } else if k == 1 { (-1, 0) } else if k == 2 { (0, 1) } else { (0, -1) };
    let mut x = sx;
    let mut y = sy;
    let ghost full = spur_walk(base, wander_threshold, rng.state, sx as int, sy as int, dx as int, dy as int, length as int);
    let ghost mut done: Set<(int, int)> = Set::empty();
    let mut t: i32 = 0;
    while t < length
        invariant_except_break
            ({
                let cur = spur_walk(base, wander_threshold, rng.state, x as int, y as int, dx as int, dy as int, (length - t) as int);
                &&& full.0 == done.union(cur.0)
                &&& full.1 == cur.1
            }),
        invariant
            orig.wf(),
            same_chambers(base, orig),
            0 <= t <= length,
            orig.in_bounds_spec(x as int, y as int),
            -1 <= dx <= 1 && -1 <= dy <= 1,
            carved(orig, *layout, done),
        ensures
            carved(orig, *layout, done),
            full.0 == done,
            full.1 == rng.state,
        decreases length - t,
    {
        proof {
            lemma_carved_same_chambers(orig, *layout, done);
            assert(same_chambers(base, *layout)) by {
                assert forall|a: int, b: int| #[trigger] base.in_bounds_spec(a, b) implies (base.cell(a, b) == Cell::Chamber <==> layout.cell(a, b) == Cell::Chamber) by {
                    assert(orig.in_bounds_spec(a, b));
                }
            }
        }
        let (stop, nx, ny, ndx, ndy) = spur_step(layout, rng, x, y, dx, dy, wander_threshold, Ghost(base));
        if stop {
            proof {
                assert(done.union(Set::empty()) == done);
            }
            break;
        }
        proof {
            assert(done.union(Set::empty()) == done);
        }
        x = nx;
        y = ny;
        dx = ndx;
        dy = ndy;
        let ghost before = *layout;
        if layout.get(x, y) == Cell::Wall {
            layout.set(x, y, Cell::Corridor);
        }
        proof {
            let cell = Set::empty().insert((x as int, y as int));
            assert(carved(before, *layout, cell));
            lemma_carved_compose(orig, before, *layout, done, cell);
            let next = spur_walk(base, wander_threshold, rng.state, x as int, y as int, dx as int, dy as int, (length - t - 1) as int);
            assert(done.union(next.0.insert((x as int, y as int))) == done.union(cell).union(next.0));
            done = done.union(cell);
        }
        t = t + 1;
    }
}

/// Sprouts `count` dead-end spurs off the listed corridor tiles. Spurs may
/// merge into other corridors but never bore into chambers.
pub fn carve_branches(layout: &mut Layout, rng: &mut Rng, tiles: &Vec<(i32, i32)>, count: usize, wander_threshold: u64)
    requires
        old(layout).wf(),
        forall|i: int| 0 <= i < tiles@.len() ==> old(layout).in_bounds_spec(#[trigger] tiles@[i].0 as int, tiles@[i].1 as int),
    ensures
        tiles@.len() == 0 ==> *final(layout) == *old(layout) && final(rng).state == old(rng).state,
        tiles@.len() > 0 ==> ({
            let (cells, s) = branches_spec(*old(layout), tiles@, wander_threshold, count as nat, old(rng).state);
            &&& final(rng).state == s
            &&& carved(*old(layout), *final(layout), cells)
        }),
{
    if tiles.len() == 0 {
        return;
    }
    let ghost orig = *layout;
    let ghost all = branches_spec(orig, tiles@, wander_threshold, count as nat, rng.state);
    let ghost mut done: Set<(int, int)> = Set::empty();
    let mut t: usize = 0;
    while t < count
        invariant
            orig.wf(),
            tiles@.len() > 0,
            forall|i: int| 0 <= i < tiles@.len() ==> orig.in_bounds_spec(#[trigger] tiles@[i].0 as int, tiles@[i].1 as int),
            t <= count,
            carved(orig, *layout, done),
            ({
                let cur = branches_spec(orig, tiles@, wander_threshold, (count - t) as nat, rng.state);
                &&& all.0 == done.union(cur.0)
                &&& all.1 == cur.1
            }),
        decreases count - t,
    {
        let ghost before = *layout;
        let ghost st = rng.state;
        proof {
            lemma_carved_same_chambers(orig, *layout, done);
            assert forall|i: int| 0 <= i < tiles@.len() implies layout.in_bounds_spec(#[trigger] tiles@[i].0 as int, tiles@[i].1 as int) by {
                assert(orig.in_bounds_spec(tiles@[i].0 as int, tiles@[i].1 as int));
            }
        }
        carve_spur(layout, rng, tiles, wander_threshold, Ghost(orig));
        proof {
            let (c, s1) = spur_spec(orig, tiles@, wander_threshold, st);
            lemma_carved_compose(orig, before, *layout, done, c);
            let next = branches_spec(orig, tiles@, wander_threshold, (count - t - 1) as nat, rng.state);
            assert(done.union(c.union(next.0)) == done.union(c).union(next.0));
            done = done.union(c);
        }
        t = t + 1;
    }
    proof {
        assert(done.union(Set::empty()) == done);
    }
}

// ── Layout → space definition ─────────────────────────────────────────────────

/// `tiles` lists, in strictly increasing row-major order and on the ground
/// floor, exactly the in-bounds cells `(x, y)` of `layout` with `keep(x, y)`.
pub open spec fn is_listing(layout: Layout, tiles: Seq<TileCoordinate>, keep: spec_fn(int, int) -> bool) -> bool {
    &&& forall|i: int, j: int| 0 <= i < j < tiles.len() ==>
        row_major(layout.width as int, (tiles[i].x as int, tiles[i].y as int)) < row_major(layout.width as int, (tiles[j].x as int, tiles[j].y as int))
    &&& forall|i: int| 0 <= i < tiles.len() ==> (#[trigger] tiles[i]).z == 0
        && layout.in_bounds_spec(tiles[i].x as int, tiles[i].y as int) && keep(tiles[i].x as int, tiles[i].y as int)
    &&& forall|x: int, y: int| #[trigger] layout.in_bounds_spec(x, y) && keep(x, y) ==>
        exists|i: int| 0 <= i < tiles.len() && tiles[i].x == x && tiles[i].y == y
}

/// A wall cell that touches a carved cell: the walls a space keeps.
pub open spec fn kept_wall(layout: Layout) -> spec_fn(int, int) -> bool {
    |x: int, y: int| layout.cell(x, y) == Cell::Wall && has_carved_neighbor_spec(layout, x, y)
}

pub open spec fn cell_is(layout: Layout, c: Cell) -> spec_fn(int, int) -> bool {
    |x: int, y: int| layout.cell(x, y) == c
}

/// Some in-bounds cell satisfies `keep`.
pub open spec fn any_cell(layout: Layout, keep: spec_fn(int, int) -> bool) -> bool {
    exists|x: int, y: int| #[trigger] layout.in_bounds_spec(x, y) && keep(x, y)
}

/// Cells of `layout` that satisfy the three selections, each in row-major order.
fn scan_cells(layout: &Layout) -> (r: (Vec<TileCoordinate>, Vec<TileCoordinate>, Vec<TileCoordinate>))
    requires
        layout.wf(),
    ensures
        is_listing(*layout, r.0@, kept_wall(*layout)),
        is_listing(*layout, r.1@, cell_is(*layout, Cell::Chamber)),
        is_listing(*layout, r.2@, cell_is(*layout, Cell::Corridor)),
{
    let ghost kw = kept_wall(*layout);
    let ghost kc = cell_is(*layout, Cell::Chamber);
    let ghost kk = cell_is(*layout, Cell::Corridor);
    let ghost w = layout.width as int;
    let mut walls: Vec<TileCoordinate> = Vec::new();
    let mut chambers: Vec<TileCoordinate> = Vec::new();
    let mut corridors: Vec<TileCoordinate> = Vec::new();
    let mut y: i32 = 0;
    while y < layout.height
        invariant
            layout.wf(),
            w == layout.width,
            kw == kept_wall(*layout),
            kc == cell_is(*layout, Cell::Chamber),
            kk == cell_is(*layout, Cell::Corridor),
            0 <= y <= layout.height,
            scanned(*layout, walls@, kw, (y * w) as int),
            scanned(*layout, chambers@, kc, (y * w) as int),
            scanned(*layout, corridors@, kk, (y * w) as int),
        decreases layout.height - y,
    {
        let mut x: i32 = 0;
        while x < layout.width
            invariant
                layout.wf(),
                w == layout.width,
                kw == kept_wall(*layout),
                kc == cell_is(*layout, Cell::Chamber),
                kk == cell_is(*layout, Cell::Corridor),
                0 <= y < layout.height,
                0 <= x <= layout.width,
                scanned(*layout, walls@, kw, y * w + x),
                scanned(*layout, chambers@, kc, y * w + x),
                scanned(*layout, corridors@, kk, y * w + x),
            decreases layout.width - x,
        {
            let t = TileCoordinate { x, y, z: 0 };
            proof {
                lemma_index_in_range(w, layout.height as int, x as int, y as int);
            }
            match layout.get(x, y) {
                Cell::Wall => {
                    let keep = has_carved_neighbor(layout, x, y);
                    proof {
                        assert(kw(x as int, y as int) == keep);
                    }
                    if keep {
                        let ghost before = walls@;
                        walls.push(t);
                        proof { lemma_scanned_push(*layout, before, kw, x as int, y as int); }
                    } else {
                        proof { lemma_scanned_skip(*layout, walls@, kw, x as int, y as int); }
                    }
                    proof {
                        lemma_scanned_skip(*layout, chambers@, kc, x as int, y as int);
                        lemma_scanned_skip(*layout, corridors@, kk, x as int, y as int);
                    }
                },
                Cell::Chamber => {
                    let ghost before = chambers@;
                    chambers.push(t);
                    proof {
                        lemma_scanned_push(*layout, before, kc, x as int, y as int);
                        lemma_scanned_skip(*layout, walls@, kw, x as int, y as int);
                        lemma_scanned_skip(*layout, corridors@, kk, x as int, y as int);
                    }
                },
                Cell::Corridor => {
                    let ghost before = corridors@;
                    corridors.push(t);
                    proof {
                        lemma_scanned_push(*layout, before, kk, x as int, y as int);
                        lemma_scanned_skip(*layout, walls@, kw, x as int, y as int);
                        lemma_scanned_skip(*layout, chambers@, kc, x as int, y as int);
                    }
                },
            }
            x = x + 1;
        }
        proof {
            assert(y * w + w == (y + 1) * w) by (nonlinear_arith);
        }
        y = y + 1;
    }
    proof {
        lemma_scanned_done(*layout, walls@, kw);
        lemma_scanned_done(*layout, chambers@, kc);
        lemma_scanned_done(*layout, corridors@, kk);
    }
    (walls, chambers, corridors)
}

/// `tiles` lists exactly the selected cells among the first `n` cells in
/// row-major order, in that order.
pub open spec fn scanned(layout: Layout, tiles: Seq<TileCoordinate>, keep: spec_fn(int, int) -> bool, n: int) -> bool {
    &&& forall|i: int, j: int| 0 <= i < j < tiles.len() ==>
        row_major(layout.width as int, (tiles[i].x as int, tiles[i].y as int)) < row_major(layout.width as int, (tiles[j].x as int, tiles[j].y as int))
    &&& forall|i: int| 0 <= i < tiles.len() ==> (#[trigger] tiles[i]).z == 0
        && layout.in_bounds_spec(tiles[i].x as int, tiles[i].y as int) && keep(tiles[i].x as int, tiles[i].y as int)
        && row_major(layout.width as int, (tiles[i].x as int, tiles[i].y as int)) < n
    &&& forall|x: int, y: int| #[trigger] layout.in_bounds_spec(x, y) && keep(x, y) && row_major(layout.width as int, (x, y)) < n ==>
        exists|i: int| 0 <= i < tiles.len() && tiles[i].x == x && tiles[i].y == y
}

proof fn lemma_scanned_push(layout: Layout, tiles: Seq<TileCoordinate>, keep: spec_fn(int, int) -> bool, x: int, y: int)
    requires
        layout.wf(),
        layout.in_bounds_spec(x, y),
        keep(x, y),
        scanned(layout, tiles, keep, y * layout.width + x),
    ensures
        scanned(layout, tiles.push(TileCoordinate { x: x as i32, y: y as i32, z: 0 }), keep, y * layout.width + x + 1),
{
    let t2 = tiles.push(TileCoordinate { x: x as i32, y: y as i32, z: 0 });
    let w = layout.width as int;
    assert forall|xx: int, yy: int| #[trigger] layout.in_bounds_spec(xx, yy) && keep(xx, yy) && row_major(w, (xx, yy)) < y * w + x + 1 implies
        exists|i: int| 0 <= i < t2.len() && t2[i].x == xx && t2[i].y == yy by {
        if row_major(w, (xx, yy)) == y * w + x {
            lemma_index_injective(w, xx, yy, x, y);
            assert(t2[tiles.len() as int].x == xx && t2[tiles.len() as int].y == yy);
        } else {
            let i = choose|i: int| 0 <= i < tiles.len() && tiles[i].x == xx && tiles[i].y == yy;
            assert(t2[i] == tiles[i]);
        }
    }
}

proof fn lemma_scanned_skip(layout: Layout, tiles: Seq<TileCoordinate>, keep: spec_fn(int, int) -> bool, x: int, y: int)
    requires
        layout.wf(),
        layout.in_bounds_spec(x, y),
        !keep(x, y),
        scanned(layout, tiles, keep, y * layout.width + x),
    ensures
        scanned(layout, tiles, keep, y * layout.width + x + 1),
{
    let w = layout.width as int;
    assert forall|xx: int, yy: int| #[trigger] layout.in_bounds_spec(xx, yy) && keep(xx, yy) && row_major(w, (xx, yy)) < y * w + x + 1 implies
        exists|i: int| 0 <= i < tiles.len() && tiles[i].x == xx && tiles[i].y == yy by {
        if row_major(w, (xx, yy)) == y * w + x {
            lemma_index_injective(w, xx, yy, x, y);
        }
    }
}

proof fn lemma_scanned_done(layout: Layout, tiles: Seq<TileCoordinate>, keep: spec_fn(int, int) -> bool)
    requires
        layout.wf(),
        scanned(layout, tiles, keep, layout.height * layout.width),
    ensures
        is_listing(layout, tiles, keep),
{
    assert forall|x: int, y: int| #[trigger] layout.in_bounds_spec(x, y) && keep(x, y) implies
        exists|i: int| 0 <= i < tiles.len() && tiles[i].x == x && tiles[i].y == y by {
        lemma_index_in_range(layout.width as int, layout.height as int, x, y);
        assert(row_major(layout.width as int, (x, y)) == y * layout.width + x);
        assert(layout.height * layout.width == layout.width * layout.height) by (nonlinear_arith);
    }
}

/// `def` is the space `layout` becomes under `params` (see `layout_to_space`).
pub open spec fn is_space_of(def: SpaceDefinition, authored_id: String, layout: Layout, params: DungeonParams) -> bool {
    &&& def.authored_id == authored_id
    &&& def.width == layout.width
    &&& def.height == layout.height
    &&& def.fill_floor_type == params.fill_floor_type
    &&& def.permanence == crate::map_layout::SpacePermanence::Persistent
    &&& def.portals@.len() == 0
    &&& def.legend@.len() == 0
    &&& def.tiles is None
    &&& def.resolved_objects@.len() == 0
    &&& def.index_ok()
    &&& any_cell(layout, kept_wall(layout)) ==> def.objects@.len() == 1 && match def.objects@[0] {
        MapObjectEntry::Anonymous(g) => g.type_id == params.wall_type_id && g.properties@.len() == 0
            && g.facing is None && is_listing(layout, g.placement@, kept_wall(layout)),
        MapObjectEntry::Explicit(_) => false,
    }
    &&& !any_cell(layout, kept_wall(layout)) ==> def.objects@.len() == 0
    &&& {
        let ch = params.chamber_floor@ != params.fill_floor_type@ && any_cell(layout, cell_is(layout, Cell::Chamber));
        let co = params.corridor_floor@ != params.fill_floor_type@ && any_cell(layout, cell_is(layout, Cell::Corridor));
        let merged = ch && co && params.chamber_floor@ == params.corridor_floor@;
        &&& def.floors@.len() == (if ch { 1int } else { 0int }) + (if co && !merged { 1int } else { 0int })
        &&& ch ==> {
            let g = def.floors@[0];
            &&& g.0 == params.chamber_floor
            &&& g.1.rects@.len() == 0
            &&& merged ==> exists|n: int| 0 <= n <= g.1.placement@.len()
                && is_listing(layout, g.1.placement@.take(n), cell_is(layout, Cell::Chamber))
                && is_listing(layout, g.1.placement@.skip(n), cell_is(layout, Cell::Corridor))
            &&& !merged ==> is_listing(layout, g.1.placement@, cell_is(layout, Cell::Chamber))
        }
        &&& co && !merged ==> {
            let g = def.floors@[if ch { 1int } else { 0int }];
            &&& g.0 == params.corridor_floor
            &&& g.1.rects@.len() == 0
            &&& is_listing(layout, g.1.placement@, cell_is(layout, Cell::Corridor))
        }
    }
}

/// The space a finished layout becomes: its kept walls as one anonymous
/// object group, chamber and corridor cells as floor groups (skipping a
/// floor type equal to the fill, and merging corridor cells into the
/// chamber group when both use the same type).
#[verifier::spinoff_prover]
pub fn layout_to_space(authored_id: String, layout: Layout, params: &DungeonParams) -> (def: SpaceDefinition)
    requires
        layout.wf(),
    ensures
        is_space_of(def, authored_id, layout, *params),
{
    let (walls, mut chambers, mut corridors) = scan_cells(&layout);
    let ghost kw = kept_wall(layout);
    let ghost kc = cell_is(layout, Cell::Chamber);
    let ghost kk = cell_is(layout, Cell::Corridor);
    proof {
        lemma_listing_empty(layout, walls@, kw);
        lemma_listing_empty(layout, chambers@, kc);
        lemma_listing_empty(layout, corridors@, kk);
    }
    let mut def = SpaceDefinition::new_empty(authored_id, layout.width, layout.height, params.fill_floor_type.clone());
    let mut objects: Vec<MapObjectEntry> = Vec::new();
    if walls.len() > 0 {
        objects.push(MapObjectEntry::Anonymous(AnonymousObjectPlacements {
            type_id: params.wall_type_id.clone(),
            properties: Vec::new(),
            placement: walls,
            facing: None,
        }));
    }
    let ch = params.chamber_floor != params.fill_floor_type && chambers.len() > 0;
    let co = params.corridor_floor != params.fill_floor_type && corridors.len() > 0;
    let mut floors: Vec<(String, FloorPlacements)> = Vec::new();
    if ch && co && params.chamber_floor == params.corridor_floor {
        let ghost c0 = chambers@;
        let ghost k0 = corridors@;
        chambers.append(&mut corridors);
        let ghost all = chambers@;
        proof {
            assert(all.take(c0.len() as int) == c0);
            assert(all.skip(c0.len() as int) == k0);
        }
        floors.push((params.chamber_floor.clone(), FloorPlacements { placement: chambers, rects: Vec::new() }));
        proof {
            let g = floors@[0];
            assert(g.1.placement@ == all);
            assert(is_listing(layout, g.1.placement@.take(c0.len() as int), kc));
            assert(is_listing(layout, g.1.placement@.skip(c0.len() as int), kk));
        }
    } else {
        if ch {
            floors.push((params.chamber_floor.clone(), FloorPlacements { placement: chambers, rects: Vec::new() }));
        }
        if co {
            floors.push((params.corridor_floor.clone(), FloorPlacements { placement: corridors, rects: Vec::new() }));
        }
    }
    def.objects = objects;
    def.floors = floors;
    def
}

/// A listing is empty exactly when no cell is selected.
proof fn lemma_listing_empty(layout: Layout, tiles: Seq<TileCoordinate>, keep: spec_fn(int, int) -> bool)
    requires
        is_listing(layout, tiles, keep),
    ensures
        tiles.len() > 0 <==> any_cell(layout, keep),
{
    if tiles.len() > 0 {
        assert(layout.in_bounds_spec(tiles[0].x as int, tiles[0].y as int) && keep(tiles[0].x as int, tiles[0].y as int));
    }
    if any_cell(layout, keep) {
        let (x, y) = choose|x: int, y: int| #[trigger] layout.in_bounds_spec(x, y) && keep(x, y);
        assert(exists|i: int| 0 <= i < tiles.len() && tiles[i].x == x && tiles[i].y == y);
    }
}

// ── The whole generator ───────────────────────────────────────────────────────

/// Integer tuning of a generated dungeon, derived from its fractional knobs.
pub struct DungeonTuning {
    /// A corridor step wanders when the top 24 bits of its draw are below
    /// this (`ceil(wander * 2^24)` for a wander fraction in `[0, 1]`).
    pub wander_threshold: u64,
    /// `extra_corridors[n]`: extra room-to-room corridors when `n` rooms were placed.
    pub extra_corridors: Vec<usize>,
    /// `spurs[t]`: side branches sprouted from `t` corridor tiles; empty
    /// when side branches are off.
    pub spurs: Vec<usize>,
}

/// The generator's first random state for a seed.
pub open spec fn seed_state(seed: u64) -> u64 {
    if seed == 0 { GOLDEN_GAMMA } else { seed }
}

/// Cells and final random state of the corridor phase (nothing with fewer
/// than two rooms).
pub open spec fn corridor_phase(w: int, h: int, rooms: Seq<Room>, extra: Seq<usize>, thr: u64, state: u64) -> (Set<(int, int)>, u64) {
    if rooms.len() >= 2 {
        let (edges, s1) = extra_edges_spec(rooms.len() as int, state, spanning_edges_spec(rooms), extra[rooms.len() as int] as nat);
        carve_edges_spec(w, h, rooms, edges, thr, 0, s1)
    } else {
        (Set::empty(), state)
    }
}

/// Cells of the side-branch phase over `layout` with corridor listing `tiles`.
pub open spec fn branch_phase(layout: Layout, tiles: Seq<(i32, i32)>, spurs: Seq<usize>, thr: u64, state: u64) -> Set<(int, int)> {
    if spurs.len() > 0 && tiles.len() > 0 {
        branches_spec(layout, tiles, thr, spurs[tiles.len() as int] as nat, state).0
    } else {
        Set::empty()
    }
}

/// `result` is the layout generated for `params`: a wall-filled grid, the
/// placed rooms carved as chambers, the corridors of the spanning tree and
/// extra edges carved, then the side branches.
#[verifier::opaque]
pub open spec fn generated_layout(params: DungeonParams, thr: u64, extra: Seq<usize>, spurs: Seq<usize>, result: Layout) -> bool {
    let w = params.width as int;
    let h = params.height as int;
    let (rooms, s0) = place_rooms_spec(w, h, params, seed_state(params.seed), Seq::empty(), params.attempts() as nat);
    let (corr, s1) = corridor_phase(w, h, rooms, extra, thr, s0);
    exists|l0: Layout, l1: Layout, l2: Layout, tiles: Seq<(i32, i32)>| {
        &&& l0.wf() && l0.width == params.width && l0.height == params.height
        &&& forall|x: int, y: int| #[trigger] l0.in_bounds_spec(x, y) ==> l0.cell(x, y) == Cell::Wall
        &&& carved_rooms(l1, l0, rooms)
        &&& carved(l1, l2, corr)
        &&& is_corridor_listing(l2, tiles)
        &&& carved(l2, result, branch_phase(l2, tiles, spurs, thr, s1))
    }
}

/// A strictly increasing listing of cells of a `w × h` grid has at most `w * h` entries.
proof fn lemma_listing_len(layout: Layout, tiles: Seq<(i32, i32)>)
    requires
        layout.wf(),
        is_corridor_listing(layout, tiles),
    ensures
        tiles.len() <= layout.width * layout.height,
{
    let w = layout.width as int;
    let n = layout.width * layout.height;
    if tiles.len() > 0 {
        let last = tiles.len() - 1;
        assert(layout.in_bounds_spec(tiles[last].0 as int, tiles[last].1 as int));
        lemma_index_in_range(w, layout.height as int, tiles[last].0 as int, tiles[last].1 as int);
        lemma_increasing_ge_index(layout, tiles, last);
    }
}

proof fn lemma_increasing_ge_index(layout: Layout, tiles: Seq<(i32, i32)>, i: int)
    requires
        is_corridor_listing(layout, tiles),
        0 <= i < tiles.len(),
        layout.wf(),
    ensures
        i <= row_major(layout.width as int, (tiles[i].0 as int, tiles[i].1 as int)),
    decreases i,
{
    let w = layout.width as int;
    assert(layout.in_bounds_spec(tiles[i].0 as int, tiles[i].1 as int));
    if i > 0 {
        lemma_increasing_ge_index(layout, tiles, i - 1);
    } else {
        assert(0 <= row_major(w, (tiles[0].0 as int, tiles[0].1 as int))) by (nonlinear_arith)
            requires
                0 <= tiles[0].0,
                0 <= tiles[0].1,
                0 <= w,
        ;
    }
}

/// `generated_layout` from explicit intermediate layouts.
proof fn lemma_generated(params: DungeonParams, thr: u64, extra: Seq<usize>, spurs: Seq<usize>,
    l0: Layout, l1: Layout, l2: Layout, tiles: Seq<(i32, i32)>, result: Layout, corr: Set<(int, int)>, s1: u64)
    requires
        ({
            let (rooms, s0) = place_rooms_spec(params.width as int, params.height as int, params, seed_state(params.seed), Seq::empty(), params.attempts() as nat);
            &&& (corr, s1) == corridor_phase(params.width as int, params.height as int, rooms, extra, thr, s0)
            &&& carved_rooms(l1, l0, rooms)
        }),
        l0.wf() && l0.width == params.width && l0.height == params.height,
        forall|x: int, y: int| #[trigger] l0.in_bounds_spec(x, y) ==> l0.cell(x, y) == Cell::Wall,
        carved(l1, l2, corr),
        is_corridor_listing(l2, tiles),
        carved(l2, result, branch_phase(l2, tiles, spurs, thr, s1)),
    ensures
        generated_layout(params, thr, extra, spurs, result),
{
    reveal(generated_layout);
}

/// Runs the generator and returns the final layout.
fn generate_layout(params: &DungeonParams, tuning: &DungeonTuning) -> (layout: Layout)
    requires
        params.width >= 0,
        params.height >= 0,
        params.width * params.height <= i32::MAX,
        params.sums_fit(),
        tuning.extra_corridors@.len() > params.target_rooms,
        tuning.spurs@.len() == 0 || tuning.spurs@.len() > params.width * params.height,
    ensures
        layout.wf(),
        generated_layout(*params, tuning.wander_threshold, tuning.extra_corridors@, tuning.spurs@, layout),
{
    let mut layout = Layout::new(params.width, params.height);
    let ghost l0 = layout;
    let mut rng = Rng::new(params.seed);
    let rooms = place_rooms(&mut layout, &mut rng, params);
    let ghost l1 = layout;
    let ghost s0 = rng.state;
    let ghost w = params.width as int;
    let ghost h = params.height as int;
    let ghost extra = tuning.extra_corridors@;
    let ghost thr = tuning.wander_threshold;
    if rooms.len() >= 2 {
        let n = rooms.len();
        carve_corridors(&mut layout, &mut rng, &rooms, tuning.extra_corridors[n], tuning.wander_threshold);
    } else {
        proof {
            lemma_carved_empty(layout);
        }
    }
    let ghost l2 = layout;
    let ghost s1 = rng.state;
    proof {
        assert(corridor_phase(w, h, rooms@, extra, thr, s0).1 == s1);
        assert(carved(l1, l2, corridor_phase(w, h, rooms@, extra, thr, s0).0));
    }
    let tiles = corridor_tiles(&layout);
    proof {
        lemma_listing_len(layout, tiles@);
    }
    if tuning.spurs.len() > 0 {
        let count = tuning.spurs[tiles.len()];
        carve_branches(&mut layout, &mut rng, &tiles, count, tuning.wander_threshold);
        proof {
            if tiles@.len() == 0 {
                lemma_carved_empty(l2);
            }
        }
    } else {
        proof {
            lemma_carved_empty(layout);
        }
    }
    proof {
        let corr = corridor_phase(w, h, rooms@, extra, thr, s0).0;
        lemma_generated(*params, thr, extra, tuning.spurs@, l0, l1, l2, tiles@, layout, corr, s1);
    }
    layout
}

/// The space generated for a grid with a negative side: such a grid has no
/// cells, so it gets no rooms, corridors, walls or floors.
pub open spec fn is_bare_space(def: SpaceDefinition, authored_id: String, params: DungeonParams) -> bool {
    &&& def.authored_id == authored_id
    &&& def.width == params.width
    &&& def.height == params.height
    &&& def.fill_floor_type == params.fill_floor_type
    &&& def.permanence == crate::map_layout::SpacePermanence::Persistent
    &&& def.portals@.len() == 0
    &&& def.objects@.len() == 0
    &&& def.floors@.len() == 0
    &&& def.legend@.len() == 0
    &&& def.tiles is None
    &&& def.resolved_objects@.len() == 0
    &&& def.index_ok()
}

/// `def` is the dungeon generated from `params` (its seed included) and the
/// integer tuning.
pub open spec fn is_dungeon_of(def: SpaceDefinition, authored_id: String, params: DungeonParams, thr: u64, extra: Seq<usize>, spurs: Seq<usize>) -> bool {
    if params.width < 0 || params.height < 0 {
        is_bare_space(def, authored_id, params)
    } else {
        exists|l: Layout| generated_layout(params, thr, extra, spurs, l) && is_space_of(def, authored_id, l, params)
    }
}

/// Grid sizes the generator can hold: a cell count in `0..=i32::MAX`, and
/// room for the size checks of room placement below a negative side.
pub open spec fn sizes_ok(params: DungeonParams) -> bool {
    &&& 0 <= params.width * params.height <= i32::MAX
    &&& params.width >= i32::MIN + 3
    &&& params.height >= i32::MIN + 3
}

/// `params` with its seed replaced by `seed`.
pub open spec fn with_seed(params: DungeonParams, seed: u64) -> DungeonParams {
    DungeonParams { seed, ..params }
}

/// Generates the dungeon space of `params` with the generator seeded by
/// `seed` in place of `params.seed`.
pub fn generate_dungeon_with_seed(authored_id: String, params: &DungeonParams, tuning: &DungeonTuning, seed: u64) -> (def: SpaceDefinition)
    requires
        sizes_ok(*params),
        params.sums_fit(),
        tuning.extra_corridors@.len() > params.target_rooms,
        tuning.spurs@.len() == 0 || tuning.spurs@.len() > params.width * params.height,
    ensures
        is_dungeon_of(def, authored_id, with_seed(*params, seed), tuning.wander_threshold, tuning.extra_corridors@, tuning.spurs@),
{
    let seeded = DungeonParams {
        width: params.width,
        height: params.height,
        wall_type_id: params.wall_type_id.clone(),
        chamber_floor: params.chamber_floor.clone(),
        corridor_floor: params.corridor_floor.clone(),
        fill_floor_type: params.fill_floor_type.clone(),
        target_rooms: params.target_rooms,
        min_room_size: params.min_room_size,
        max_room_size: params.max_room_size,
        room_padding: params.room_padding,
        seed,
    };
    assert(seeded == with_seed(*params, seed));
    if seeded.width < 0 || seeded.height < 0 {
        let def = SpaceDefinition::new_empty(authored_id, seeded.width, seeded.height, seeded.fill_floor_type.clone());
        return def;
    }
    proof {
        assert(params.width * params.height <= i32::MAX);
    }
    let layout = generate_layout(&seeded, tuning);
    let ghost lf = layout;
    let def = layout_to_space(authored_id, layout, &seeded);
    assert(generated_layout(seeded, tuning.wander_threshold, tuning.extra_corridors@, tuning.spurs@, lf)
        && is_space_of(def, authored_id, lf, seeded));
    def
}

/// A point in wall-clock time.
#[verifier::external_type_specification]
#[verifier::external_body]
pub struct ExSystemTime(SystemTime);

/// `SystemTime::now()`: the wall-clock time now.
#[verifier::external_body]
fn clock_now() -> SystemTime {
    SystemTime::now()
}

/// `SystemTime::duration_since(UNIX_EPOCH)` in whole nanoseconds
/// (`Duration::as_nanos`); `None` for a time before the epoch. What comes
/// back depends on the clock, so nothing is stated of it.
#[verifier::external_body]
fn nanos_since_epoch(t: &SystemTime) -> Option<u128> {
    t.duration_since(UNIX_EPOCH).ok().map(|d| d.as_nanos())
}

/// A seed from a clock reading: its nanoseconds since the epoch, truncated
/// to 64 bits, never zero; `0xC0FFEE` for a clock before the epoch.
pub open spec fn clock_seed_spec(nanos: Option<u128>) -> u64 {
    match nanos {
        Some(n) => if n as u64 == 0 { 1 } else { n as u64 },
        None => 0xC0FFEE,
    }
}

/// The seed of a clock reading (see `clock_seed_spec`).
pub fn seed_from_clock(nanos: Option<u128>) -> (s: u64)
    ensures
        s == clock_seed_spec(nanos),
        s != 0,
{
    match nanos {
        Some(n) => {
            let t = n as u64;
            if t == 0 { 1 } else { t }
        },
        None => 0xC0FFEE,
    }
}

/// Generates a dungeon space from `params` and the integer tuning; a zero
/// seed is replaced by one read from the clock (see `seed_from_clock`).
pub fn generate_dungeon(authored_id: String, params: &DungeonParams, tuning: &DungeonTuning) -> (def: SpaceDefinition)
    requires
        sizes_ok(*params),
        params.sums_fit(),
        tuning.extra_corridors@.len() > params.target_rooms,
        tuning.spurs@.len() == 0 || tuning.spurs@.len() > params.width * params.height,
    ensures
        params.seed != 0 ==> is_dungeon_of(def, authored_id, *params, tuning.wander_threshold, tuning.extra_corridors@, tuning.spurs@),
        params.seed == 0 ==> exists|seed: u64| seed != 0
            && is_dungeon_of(def, authored_id, with_seed(*params, seed), tuning.wander_threshold, tuning.extra_corridors@, tuning.spurs@),
{
    let seed = if params.seed != 0 {
        params.seed
    } else {
        let now = clock_now();
        seed_from_clock(nanos_since_epoch(&now))
    };
    let def = generate_dungeon_with_seed(authored_id, params, tuning, seed);
    proof {
        if params.seed != 0 {
            assert(with_seed(*params, seed) == *params);
        }
    }
    def
}

// ── Determinism ───────────────────────────────────────────────────────────────

/// Two grids of the same size with the same cell everywhere.
pub open spec fn same_cells(a: Layout, b: Layout) -> bool {
    &&& a.width == b.width
    &&& a.height == b.height
    &&& forall|x: int, y: int| #[trigger] a.in_bounds_spec(x, y) ==> a.cell(x, y) == b.cell(x, y)
}

/// Spur walks only look at the grid size and where the chambers are.
proof fn lemma_spur_walk_congruent(a: Layout, b: Layout, thr: u64, state: u64, x: int, y: int, dx: int, dy: int, left: int)
    requires
        same_chambers(a, b),
    ensures
        spur_walk(a, thr, state, x, y, dx, dy, left) == spur_walk(b, thr, state, x, y, dx, dy, left),
    decreases left,
{
    if left > 0 {
        reveal(spur_next);
        let (stop, nx, ny, ndx, ndy, s2) = spur_next(a, thr, state, x, y, dx, dy);
        if a.in_bounds_spec(nx, ny) {
            assert(a.cell(nx, ny) == Cell::Chamber <==> b.cell(nx, ny) == Cell::Chamber);
        }
        assert(spur_next(a, thr, state, x, y, dx, dy) == spur_next(b, thr, state, x, y, dx, dy));
        lemma_spur_walk_congruent(a, b, thr, s2, nx, ny, ndx, ndy, left - 1);
    }
}

/// Side branches only look at the grid size and where the chambers are.
proof fn lemma_branches_congruent(a: Layout, b: Layout, tiles: Seq<(i32, i32)>, thr: u64, count: nat, state: u64)
    requires
        same_chambers(a, b),
    ensures
        branches_spec(a, tiles, thr, count, state) == branches_spec(b, tiles, thr, count, state),
    decreases count,
{
    if count > 0 {
        let (i, s1) = range_usize_spec(state, 0, tiles.len() as int);
        let (length, s2) = range_i32_spec(s1, 4, 14);
        let (k, s3) = range_usize_spec(s2, 0, 4);
        let (dx, dy) = dir_spec(k);
        lemma_spur_walk_congruent(a, b, thr, s3, tiles[i].0 as int, tiles[i].1 as int, dx, dy, length);
        let (c, s4) = spur_spec(a, tiles, thr, state);
        lemma_branches_congruent(a, b, tiles, thr, (count - 1) as nat, s4);
    }
}

/// Row-major key of a tile.
pub open spec fn tile_key(w: int, t: TileCoordinate) -> int {
    row_major(w, (t.x as int, t.y as int))
}

/// Keys strictly increase along `s`.
pub open spec fn keys_increasing(w: int, s: Seq<TileCoordinate>) -> bool {
    forall|p: int, q: int| 0 <= p < q < s.len() ==> tile_key(w, #[trigger] s[p]) < tile_key(w, #[trigger] s[q])
}

/// Sequences with strictly increasing keys and the same elements are equal.
proof fn lemma_sorted_same_elements(w: int, ta: Seq<TileCoordinate>, tb: Seq<TileCoordinate>)
    requires
        keys_increasing(w, ta),
        keys_increasing(w, tb),
        forall|p: int| 0 <= p < ta.len() ==> tb.contains(#[trigger] ta[p]),
        forall|q: int| 0 <= q < tb.len() ==> ta.contains(#[trigger] tb[q]),
    ensures
        ta == tb,
    decreases ta.len(),
{
    if ta.len() > 0 && tb.len() > 0 {
        assert(tb.contains(ta[0]));
        let q = choose|q: int| 0 <= q < tb.len() && tb[q] == ta[0];
        assert(ta.contains(tb[0]));
        let p = choose|p: int| 0 <= p < ta.len() && ta[p] == tb[0];
        if q > 0 {
            assert(tile_key(w, tb[0]) < tile_key(w, tb[q]));
            if p > 0 {
                assert(tile_key(w, ta[0]) < tile_key(w, ta[p]));
            }
        }
        assert(tb[0] == ta[0]);
        let ra = ta.drop_first();
        let rb = tb.drop_first();
        assert forall|i: int| 0 <= i < ra.len() implies rb.contains(#[trigger] ra[i]) by {
            assert(ra[i] == ta[i + 1]);
            assert(tb.contains(ta[i + 1]));
            let j = choose|j: int| 0 <= j < tb.len() && tb[j] == ta[i + 1];
            assert(tile_key(w, ta[0]) < tile_key(w, ta[i + 1]));
            assert(j != 0);
            assert(rb[j - 1] == tb[j]);
        }
        assert forall|j: int| 0 <= j < rb.len() implies ra.contains(#[trigger] rb[j]) by {
            assert(rb[j] == tb[j + 1]);
            assert(ta.contains(tb[j + 1]));
            let i = choose|i: int| 0 <= i < ta.len() && ta[i] == tb[j + 1];
            assert(tile_key(w, tb[0]) < tile_key(w, tb[j + 1]));
            assert(i != 0);
            assert(ra[i - 1] == ta[i]);
        }
        assert(keys_increasing(w, ra)) by {
            assert forall|p2: int, q2: int| 0 <= p2 < q2 < ra.len() implies tile_key(w, #[trigger] ra[p2]) < tile_key(w, #[trigger] ra[q2]) by {
                assert(ra[p2] == ta[p2 + 1] && ra[q2] == ta[q2 + 1]);
            }
        }
        assert(keys_increasing(w, rb)) by {
            assert forall|p2: int, q2: int| 0 <= p2 < q2 < rb.len() implies tile_key(w, #[trigger] rb[p2]) < tile_key(w, #[trigger] rb[q2]) by {
                assert(rb[p2] == tb[p2 + 1] && rb[q2] == tb[q2 + 1]);
            }
        }
        lemma_sorted_same_elements(w, ra, rb);
        assert(ta == seq![ta[0]] + ra);
        assert(tb == seq![tb[0]] + rb);
    } else if ta.len() > 0 {
        assert(tb.contains(ta[0]));
    } else if tb.len() > 0 {
        assert(ta.contains(tb[0]));
    } else {
        assert(ta =~= tb);
    }
}

/// A row-major listing of the cells satisfying `keep` is unique.
pub proof fn lemma_listing_unique(la: Layout, lb: Layout, ta: Seq<TileCoordinate>, tb: Seq<TileCoordinate>, ka: spec_fn(int, int) -> bool, kb: spec_fn(int, int) -> bool)
    requires
        la.width == lb.width,
        la.height == lb.height,
        forall|x: int, y: int| #[trigger] la.in_bounds_spec(x, y) ==> (ka(x, y) <==> kb(x, y)),
        is_listing(la, ta, ka),
        is_listing(lb, tb, kb),
    ensures
        ta == tb,
{
    let w = la.width as int;
    assert forall|i: int| 0 <= i < ta.len() implies tb.contains(#[trigger] ta[i]) by {
        assert(la.in_bounds_spec(ta[i].x as int, ta[i].y as int) && ka(ta[i].x as int, ta[i].y as int));
        assert(lb.in_bounds_spec(ta[i].x as int, ta[i].y as int));
        let j = choose|j: int| 0 <= j < tb.len() && tb[j].x == ta[i].x && tb[j].y == ta[i].y;
        assert(tb[j] == ta[i]);
    }
    assert forall|j: int| 0 <= j < tb.len() implies ta.contains(#[trigger] tb[j]) by {
        assert(lb.in_bounds_spec(tb[j].x as int, tb[j].y as int) && kb(tb[j].x as int, tb[j].y as int));
        assert(la.in_bounds_spec(tb[j].x as int, tb[j].y as int));
        let i = choose|i: int| 0 <= i < ta.len() && ta[i].x == tb[j].x && ta[i].y == tb[j].y;
        assert(ta[i] == tb[j]);
    }
    lemma_sorted_same_elements(w, ta, tb);
}

/// The tile of a corridor-listing entry.
pub open spec fn pair_tiles(s: Seq<(i32, i32)>) -> Seq<TileCoordinate> {
    s.map_values(|p: (i32, i32)| TileCoordinate { x: p.0, y: p.1, z: 0 })
}

/// The corridor listing of a grid is unique.
proof fn lemma_corridor_listing_unique(la: Layout, lb: Layout, ta: Seq<(i32, i32)>, tb: Seq<(i32, i32)>)
    requires
        same_cells(la, lb),
        is_corridor_listing(la, ta),
        is_corridor_listing(lb, tb),
    ensures
        ta == tb,
{
    let kk = cell_is(la, Cell::Corridor);
    let kb = cell_is(lb, Cell::Corridor);
    lemma_pair_listing(la, ta, kk);
    lemma_pair_listing(lb, tb, kb);
    assert forall|x: int, y: int| #[trigger] la.in_bounds_spec(x, y) implies (kk(x, y) <==> kb(x, y)) by {}
    lemma_listing_unique(la, lb, pair_tiles(ta), pair_tiles(tb), kk, kb);
    assert forall|i: int| 0 <= i < ta.len() implies ta[i] == tb[i] by {
        assert(pair_tiles(ta)[i] == pair_tiles(tb)[i]);
    }
    assert(ta =~= tb);
}

/// A corridor listing, read as tiles, is a listing of the corridor cells.
proof fn lemma_pair_listing(l: Layout, t: Seq<(i32, i32)>, kk: spec_fn(int, int) -> bool)
    requires
        is_corridor_listing(l, t),
        kk == cell_is(l, Cell::Corridor),
    ensures
        is_listing(l, pair_tiles(t), kk),
{
    let pt = pair_tiles(t);
    assert forall|i: int| 0 <= i < pt.len() implies (#[trigger] pt[i]).z == 0
        && l.in_bounds_spec(pt[i].x as int, pt[i].y as int) && kk(pt[i].x as int, pt[i].y as int) by {
        assert(l.in_bounds_spec(t[i].0 as int, t[i].1 as int));
    }
    assert forall|x: int, y: int| #[trigger] l.in_bounds_spec(x, y) && kk(x, y) implies
        exists|i: int| 0 <= i < pt.len() && pt[i].x == x && pt[i].y == y by {
        let i = choose|i: int| 0 <= i < t.len() && t[i].0 == x && t[i].1 == y;
        assert(pt[i].x == x && pt[i].y == y);
    }
}

/// Generation is deterministic: every layout generated for the same
/// parameters and tuning has the same cells.
pub proof fn lemma_generation_deterministic(params: DungeonParams, thr: u64, extra: Seq<usize>, spurs: Seq<usize>, la: Layout, lb: Layout)
    requires
        generated_layout(params, thr, extra, spurs, la),
        generated_layout(params, thr, extra, spurs, lb),
    ensures
        same_cells(la, lb),
{
    reveal(generated_layout);
    let w = params.width as int;
    let h = params.height as int;
    let (rooms, s0) = place_rooms_spec(w, h, params, seed_state(params.seed), Seq::empty(), params.attempts() as nat);
    let (corr, s1) = corridor_phase(w, h, rooms, extra, thr, s0);
    let (l0a, l1a, l2a, ta) = choose|l0: Layout, l1: Layout, l2: Layout, tiles: Seq<(i32, i32)>| {
        &&& l0.wf() && l0.width == params.width && l0.height == params.height
        &&& forall|x: int, y: int| #[trigger] l0.in_bounds_spec(x, y) ==> l0.cell(x, y) == Cell::Wall
        &&& carved_rooms(l1, l0, rooms)
        &&& carved(l1, l2, corr)
        &&& is_corridor_listing(l2, tiles)
        &&& carved(l2, la, branch_phase(l2, tiles, spurs, thr, s1))
    };
    let (l0b, l1b, l2b, tb) = choose|l0: Layout, l1: Layout, l2: Layout, tiles: Seq<(i32, i32)>| {
        &&& l0.wf() && l0.width == params.width && l0.height == params.height
        &&& forall|x: int, y: int| #[trigger] l0.in_bounds_spec(x, y) ==> l0.cell(x, y) == Cell::Wall
        &&& carved_rooms(l1, l0, rooms)
        &&& carved(l1, l2, corr)
        &&& is_corridor_listing(l2, tiles)
        &&& carved(l2, lb, branch_phase(l2, tiles, spurs, thr, s1))
    };
    assert(same_cells(l1a, l1b)) by {
        assert forall|x: int, y: int| #[trigger] l1a.in_bounds_spec(x, y) implies l1a.cell(x, y) == l1b.cell(x, y) by {
            assert(l1b.in_bounds_spec(x, y));
            assert(l0a.in_bounds_spec(x, y) && l0b.in_bounds_spec(x, y));
        }
    }
    assert(same_cells(l2a, l2b)) by {
        assert forall|x: int, y: int| #[trigger] l2a.in_bounds_spec(x, y) implies l2a.cell(x, y) == l2b.cell(x, y) by {
            assert(l2b.in_bounds_spec(x, y));
            assert(l1a.in_bounds_spec(x, y));
        }
    }
    lemma_corridor_listing_unique(l2a, l2b, ta, tb);
    assert(same_chambers(l2a, l2b)) by {
        assert forall|x: int, y: int| #[trigger] l2a.in_bounds_spec(x, y) implies
            (l2a.cell(x, y) == Cell::Chamber <==> l2b.cell(x, y) == Cell::Chamber) by {}
    }
    if spurs.len() > 0 && ta.len() > 0 {
        lemma_branches_congruent(l2a, l2b, ta, thr, spurs[ta.len() as int] as nat, s1);
    }
    assert(branch_phase(l2a, ta, spurs, thr, s1) == branch_phase(l2b, tb, spurs, thr, s1));
    assert forall|x: int, y: int| #[trigger] la.in_bounds_spec(x, y) implies la.cell(x, y) == lb.cell(x, y) by {
        assert(lb.in_bounds_spec(x, y));
        assert(l2a.in_bounds_spec(x, y));
    }
}

/// Grids with the same cells keep the same walls.
proof fn lemma_kept_wall_same(la: Layout, lb: Layout)
    requires
        same_cells(la, lb),
    ensures
        forall|x: int, y: int| #[trigger] la.in_bounds_spec(x, y) ==> (kept_wall(la)(x, y) <==> kept_wall(lb)(x, y)),
{
    assert forall|x: int, y: int| #[trigger] la.in_bounds_spec(x, y) implies (kept_wall(la)(x, y) <==> kept_wall(lb)(x, y)) by {
        assert(lb.in_bounds_spec(x, y));
        assert forall|dx: int, dy: int| #![auto] neighbor_carved(la, x, y, dx, dy) <==> neighbor_carved(lb, x, y, dx, dy) by {
            if la.in_bounds_spec(x + dx, y + dy) {
                assert(lb.in_bounds_spec(x + dx, y + dy));
            }
        }
        assert(has_carved_neighbor_spec(la, x, y) == has_carved_neighbor_spec(lb, x, y));
    }
}

/// Selections that agree on every in-bounds cell select some cell together.
proof fn lemma_any_cell_same(la: Layout, lb: Layout, ka: spec_fn(int, int) -> bool, kb: spec_fn(int, int) -> bool)
    requires
        la.width == lb.width,
        la.height == lb.height,
        forall|x: int, y: int| #[trigger] la.in_bounds_spec(x, y) ==> (ka(x, y) <==> kb(x, y)),
    ensures
        any_cell(la, ka) == any_cell(lb, kb),
{
    if any_cell(la, ka) {
        let (x, y) = choose|x: int, y: int| #[trigger] la.in_bounds_spec(x, y) && ka(x, y);
        assert(lb.in_bounds_spec(x, y));
    }
    if any_cell(lb, kb) {
        let (x, y) = choose|x: int, y: int| #[trigger] lb.in_bounds_spec(x, y) && kb(x, y);
        assert(la.in_bounds_spec(x, y));
    }
}

/// Grids with the same cells give spaces with the same wall group.
proof fn lemma_space_walls_same(params: DungeonParams, id: String, la: Layout, lb: Layout, da: SpaceDefinition, db: SpaceDefinition)
    requires
        same_cells(la, lb),
        is_space_of(da, id, la, params),
        is_space_of(db, id, lb, params),
    ensures
        da.objects@.len() == db.objects@.len(),
        da.objects@.len() == 1 ==> match (da.objects@[0], db.objects@[0]) {
            (MapObjectEntry::Anonymous(ga), MapObjectEntry::Anonymous(gb)) => ga.type_id == gb.type_id && ga.placement@ == gb.placement@,
            _ => false,
        },
{
    lemma_kept_wall_same(la, lb);
    lemma_any_cell_same(la, lb, kept_wall(la), kept_wall(lb));
    if da.objects@.len() == 1 {
        match (da.objects@[0], db.objects@[0]) {
            (MapObjectEntry::Anonymous(ga), MapObjectEntry::Anonymous(gb)) => {
                lemma_listing_unique(la, lb, ga.placement@, gb.placement@, kept_wall(la), kept_wall(lb));
            },
            _ => {},
        }
    }
}

/// Two placements that each list the chamber cells and then the corridor
/// cells of grids with the same cells are equal.
proof fn lemma_two_part_listing_unique(la: Layout, lb: Layout, pa: Seq<TileCoordinate>, pb: Seq<TileCoordinate>,
    kca: spec_fn(int, int) -> bool, kcb: spec_fn(int, int) -> bool, kka: spec_fn(int, int) -> bool, kkb: spec_fn(int, int) -> bool)
    requires
        la.width == lb.width,
        la.height == lb.height,
        forall|x: int, y: int| #[trigger] la.in_bounds_spec(x, y) ==> (kca(x, y) <==> kcb(x, y)) && (kka(x, y) <==> kkb(x, y)),
        exists|n: int| 0 <= n <= pa.len() && is_listing(la, pa.take(n), kca) && is_listing(la, pa.skip(n), kka),
        exists|n: int| 0 <= n <= pb.len() && is_listing(lb, pb.take(n), kcb) && is_listing(lb, pb.skip(n), kkb),
    ensures
        pa == pb,
{
    let na = choose|n: int| 0 <= n <= pa.len() && is_listing(la, pa.take(n), kca) && is_listing(la, pa.skip(n), kka);
    let nb = choose|n: int| 0 <= n <= pb.len() && is_listing(lb, pb.take(n), kcb) && is_listing(lb, pb.skip(n), kkb);
    lemma_listing_unique(la, lb, pa.take(na), pb.take(nb), kca, kcb);
    lemma_listing_unique(la, lb, pa.skip(na), pb.skip(nb), kka, kkb);
    assert(pa == pa.take(na) + pa.skip(na));
    assert(pb == pb.take(nb) + pb.skip(nb));
}

/// Grids with the same cells give spaces with the same floor groups.
#[verifier::spinoff_prover]
proof fn lemma_space_floors_same(params: DungeonParams, id: String, la: Layout, lb: Layout, da: SpaceDefinition, db: SpaceDefinition)
    requires
        same_cells(la, lb),
        is_space_of(da, id, la, params),
        is_space_of(db, id, lb, params),
    ensures
        da.floors@.len() == db.floors@.len(),
        forall|i: int| 0 <= i < da.floors@.len() ==> (#[trigger] da.floors@[i]).0 == db.floors@[i].0
            && da.floors@[i].1.placement@ == db.floors@[i].1.placement@,
{
    let kca = cell_is(la, Cell::Chamber);
    let kcb = cell_is(lb, Cell::Chamber);
    let kka = cell_is(la, Cell::Corridor);
    let kkb = cell_is(lb, Cell::Corridor);
    assert forall|x: int, y: int| #[trigger] la.in_bounds_spec(x, y) implies (kca(x, y) <==> kcb(x, y)) && (kka(x, y) <==> kkb(x, y)) by {
        assert(lb.in_bounds_spec(x, y));
    }
    lemma_any_cell_same(la, lb, kca, kcb);
    lemma_any_cell_same(la, lb, kka, kkb);
    let ch = params.chamber_floor@ != params.fill_floor_type@ && any_cell(la, kca);
    let co = params.corridor_floor@ != params.fill_floor_type@ && any_cell(la, kka);
    let merged = ch && co && params.chamber_floor@ == params.corridor_floor@;
    if ch {
        let pa = da.floors@[0].1.placement@;
        let pb = db.floors@[0].1.placement@;
        if merged {
            lemma_two_part_listing_unique(la, lb, pa, pb, kca, kcb, kka, kkb);
        } else {
            lemma_listing_unique(la, lb, pa, pb, kca, kcb);
        }
    }
    if co && !merged {
        let k: int = if ch { 1 } else { 0 };
        lemma_listing_unique(la, lb, da.floors@[k].1.placement@, db.floors@[k].1.placement@, kka, kkb);
    }
}

/// Dungeon generation is deterministic: two dungeons generated from the
/// same parameters (seed included) and tuning have the same walls and floor
/// groups.
pub proof fn lemma_dungeon_deterministic(params: DungeonParams, thr: u64, extra: Seq<usize>, spurs: Seq<usize>, id: String,
    da: SpaceDefinition, db: SpaceDefinition)
    requires
        is_dungeon_of(da, id, params, thr, extra, spurs),
        is_dungeon_of(db, id, params, thr, extra, spurs),
    ensures
        da.objects@.len() == db.objects@.len(),
        da.objects@.len() == 1 ==> match (da.objects@[0], db.objects@[0]) {
            (MapObjectEntry::Anonymous(ga), MapObjectEntry::Anonymous(gb)) => ga.type_id == gb.type_id && ga.placement@ == gb.placement@,
            _ => false,
        },
        da.floors@.len() == db.floors@.len(),
        forall|i: int| 0 <= i < da.floors@.len() ==> (#[trigger] da.floors@[i]).0 == db.floors@[i].0
            && da.floors@[i].1.placement@ == db.floors@[i].1.placement@,
{
    if !(params.width < 0 || params.height < 0) {
        let la = choose|l: Layout| generated_layout(params, thr, extra, spurs, l) && is_space_of(da, id, l, params);
        let lb = choose|l: Layout| generated_layout(params, thr, extra, spurs, l) && is_space_of(db, id, l, params);
        lemma_generation_deterministic(params, thr, extra, spurs, la, lb);
        lemma_space_walls_same(params, id, la, lb, da, db);
        lemma_space_floors_same(params, id, la, lb, da, db);
    }
}

} // verus!
