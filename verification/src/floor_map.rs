//! Per-floor grids of floor tile types.

use vstd::prelude::*;

use crate::components::SpaceId;

verus! {

/// A `width × height` grid of floor types, row-major
/// (`tiles[y * width + x]`); `None` is void.
pub struct FloorMap {
    pub width: i32,
    pub height: i32,
    pub tiles: Vec<Option<String>>,
}

impl View for FloorMap {
    type V = (int, int, Seq<Option<String>>);

    open spec fn view(&self) -> (int, int, Seq<Option<String>>) {
        (self.width as int, self.height as int, self.tiles@)
    }
}

impl FloorMap {
    /// Non-negative dimensions and exactly `width * height` tiles.
    pub open spec fn wf(&self) -> bool {
        &&& self.width >= 0
        &&& self.height >= 0
        &&& self.tiles@.len() == self.width * self.height
    }

    pub open spec fn in_bounds_spec(&self, x: int, y: int) -> bool {
        0 <= x < self.width && 0 <= y < self.height
    }

    /// Floor type at `(x, y)`; `None` for void or out of bounds.
    pub open spec fn tile(&self, x: int, y: int) -> Option<String> {
        if self.in_bounds_spec(x, y) {
            self.tiles@[y * self.width + x]
        } else {
            None
        }
    }

    /// A grid with every tile set to `fill`.
    pub fn new_filled(width: i32, height: i32, fill: Option<String>) -> (map: FloorMap)
        requires
            width >= 0,
            height >= 0,
            width * height <= usize::MAX,
        ensures
            map.wf(),
            map.width == width,
            map.height == height,
            forall|i: int| 0 <= i < map.tiles@.len() ==> #[trigger] map.tiles@[i] == fill,
    {
        proof {
            assert(0 <= (width as int) * (height as int)) by (nonlinear_arith)
                requires
                    width >= 0,
                    height >= 0,
            ;
        }
        let len = (width as usize) * (height as usize);
        let mut tiles: Vec<Option<String>> = Vec::new();
        let mut i: usize = 0;
        while i < len
            invariant
                i <= len,
                tiles@.len() == i,
                forall|j: int| 0 <= j < i ==> #[trigger] tiles@[j] == fill,
            decreases len - i,
        {
            tiles.push(fill.clone());
            i = i + 1;
        }
        FloorMap { width, height, tiles }
    }

    fn idx(&self, x: i32, y: i32) -> (i: Option<usize>)
        requires
            self.wf(),
        ensures
            i is Some <==> self.in_bounds_spec(x as int, y as int),
            i is Some ==> i->0 == y as int * self.width + x as int && i->0 < self.tiles@.len(),
    {
        if x < 0 || y < 0 || x >= self.width || y >= self.height {
            return None;
        }
        let n = self.tiles.len();
        proof {
            crate::dungeon_gen::lemma_index_in_range(self.width as int, self.height as int, x as int, y as int);
            assert((y as int) * (self.width as int) <= usize::MAX) by (nonlinear_arith)
                requires
                    (y as int) * (self.width as int) + x as int <= n as int,
                    x >= 0,
            ;
        }
        Some((y as usize) * (self.width as usize) + (x as usize))
    }

    /// Floor type at `(x, y)`; `None` for void or out of bounds.
    pub fn get(&self, x: i32, y: i32) -> (t: Option<&String>)
        requires
            self.wf(),
        ensures
            t is Some <==> self.tile(x as int, y as int) is Some,
            t is Some ==> t->0 == self.tile(x as int, y as int)->0,
    {
        match self.idx(x, y) {
            Some(i) => self.tiles[i].as_ref(),
            None => None,
        }
    }

    /// Sets `(x, y)` to `value`; `false` (and no change) when out of bounds.
    pub fn set(&mut self, x: i32, y: i32, value: Option<String>) -> (ok: bool)
        requires
            old(self).wf(),
        ensures
            ok == old(self).in_bounds_spec(x as int, y as int),
            final(self).wf(),
            final(self).width == old(self).width,
            final(self).height == old(self).height,
            forall|a: int, b: int| #[trigger] final(self).tile(a, b) == if ok && a == x && b == y { value } else { old(self).tile(a, b) },
    {
        match self.idx(x, y) {
            Some(i) => {
                self.tiles.set(i, value);
                proof {
                    assert forall|a: int, b: int| #[trigger] self.tile(a, b) == if a == x && b == y { value } else { old(self).tile(a, b) } by {
                        if self.in_bounds_spec(a, b) {
                            crate::dungeon_gen::lemma_index_in_range(self.width as int, self.height as int, a, b);
                            if !(a == x && b == y) && b * self.width + a == i as int {
                                crate::dungeon_gen::lemma_index_injective(self.width as int, a, b, x as int, y as int);
                            }
                        }
                    }
                }
                true
            },
            None => false,
        }
    }

    pub fn dimensions(&self) -> (d: (i32, i32))
        ensures
            d == (self.width, self.height),
    {
        (self.width, self.height)
    }
}

/// Floor grids keyed by `(space, floor index)`.
pub struct FloorMaps {
    pub maps: Vec<((SpaceId, i32), FloorMap)>,
}

impl FloorMaps {
    /// No key occurs twice and every grid is well formed.
    pub open spec fn wf(&self) -> bool {
        &&& forall|i: int, j: int| 0 <= i < j < self.maps@.len() ==> (#[trigger] self.maps@[i]).0 != (#[trigger] self.maps@[j]).0
        &&& forall|i: int| 0 <= i < self.maps@.len() ==> (#[trigger] self.maps@[i]).1.wf()
    }

    /// The grid stored under `(space, z)`.
    pub open spec fn lookup(&self, space: SpaceId, z: i32) -> Option<(int, int, Seq<Option<String>>)> {
        if exists|i: int| 0 <= i < self.maps@.len() && (#[trigger] self.maps@[i]).0 == (space, z) {
            let i = choose|i: int| 0 <= i < self.maps@.len() && (#[trigger] self.maps@[i]).0 == (space, z);
            Some(self.maps@[i].1@)
        } else {
            None
        }
    }

    pub fn new() -> (m: FloorMaps)
        ensures
            m.wf(),
            forall|s: SpaceId, z: i32| #[trigger] m.lookup(s, z) is None,
    {
        FloorMaps { maps: Vec::new() }
    }

    fn position(&self, space_id: SpaceId, z: i32) -> (p: Option<usize>)
        requires
            self.wf(),
        ensures
            p is Some ==> p->0 < self.maps@.len() && self.maps@[p->0 as int].0 == (space_id, z),
            p is None ==> forall|i: int| 0 <= i < self.maps@.len() ==> (#[trigger] self.maps@[i]).0 != (space_id, z),
    {
        let mut i: usize = 0;
        while i < self.maps.len()
            invariant
                i <= self.maps@.len(),
                forall|k: int| 0 <= k < i ==> (#[trigger] self.maps@[k]).0 != (space_id, z),
            decreases self.maps@.len() - i,
        {
            if self.maps[i].0.0 == space_id && self.maps[i].0.1 == z {
                return Some(i);
            }
            i = i + 1;
        }
        None
    }

    /// Stores `map` under `(space_id, z)`, replacing any previous grid.
    pub fn insert(&mut self, space_id: SpaceId, z: i32, map: FloorMap)
        requires
            old(self).wf(),
            map.wf(),
        ensures
            final(self).wf(),
            forall|s: SpaceId, zz: i32| #[trigger] final(self).lookup(s, zz) == if s == space_id && zz == z { Some(map@) } else { old(self).lookup(s, zz) },
    {
        let ghost before = self.maps@;
        match self.position(space_id, z) {
            Some(i) => {
                self.maps.set(i, ((space_id, z), map));
                proof {
                    assert forall|s: SpaceId, zz: i32| #[trigger] self.lookup(s, zz) == if s == space_id && zz == z { Some(map@) } else { old(self).lookup(s, zz) } by {
                        if s == space_id && zz == z {
                            assert(self.maps@[i as int].0 == (s, zz));
                        } else if exists|k: int| 0 <= k < before.len() && (#[trigger] before[k]).0 == (s, zz) {
                            let k = choose|k: int| 0 <= k < before.len() && (#[trigger] before[k]).0 == (s, zz);
                            assert(self.maps@[k] == before[k]);
                        } else {
                            assert forall|k: int| 0 <= k < self.maps@.len() implies (#[trigger] self.maps@[k]).0 != (s, zz) by {
                                if k != i {
                                    assert(self.maps@[k] == before[k]);
                                }
                            }
                        }
                    }
                }
            },
            None => {
                self.maps.push(((space_id, z), map));
                proof {
                    assert forall|s: SpaceId, zz: i32| #[trigger] self.lookup(s, zz) == if s == space_id && zz == z { Some(map@) } else { old(self).lookup(s, zz) } by {
                        if s == space_id && zz == z {
                            assert(self.maps@[before.len() as int].0 == (s, zz));
                        } else if exists|k: int| 0 <= k < before.len() && (#[trigger] before[k]).0 == (s, zz) {
                            let k = choose|k: int| 0 <= k < before.len() && (#[trigger] before[k]).0 == (s, zz);
                            assert(self.maps@[k] == before[k]);
                        } else {
                            assert forall|k: int| 0 <= k < self.maps@.len() implies (#[trigger] self.maps@[k]).0 != (s, zz) by {
                                if k < before.len() {
                                    assert(self.maps@[k] == before[k]);
                                }
                            }
                        }
                    }
                }
            },
        }
    }

    /// The grid stored under `(space_id, z)`.
    pub fn get(&self, space_id: SpaceId, z: i32) -> (m: Option<&FloorMap>)
        requires
            self.wf(),
        ensures
            m is Some <==> self.lookup(space_id, z) is Some,
            m is Some ==> m->0@ == self.lookup(space_id, z)->0 && m->0.wf(),
    {
        match self.position(space_id, z) {
            Some(i) => {
                assert(self.maps@[i as int].0 == (space_id, z));
                Some(&self.maps[i].1)
            },
            None => None,
        }
    }

    /// Every stored grid with its key.
    pub fn iter(&self) -> (v: Vec<(SpaceId, i32, &FloorMap)>)
        ensures
            v@.len() == self.maps@.len(),
            forall|i: int| 0 <= i < v@.len() ==> (#[trigger] v@[i]).0 == self.maps@[i].0.0 && v@[i].1 == self.maps@[i].0.1
                && *v@[i].2 == self.maps@[i].1,
    {
        let mut v: Vec<(SpaceId, i32, &FloorMap)> = Vec::new();
        let mut i: usize = 0;
        while i < self.maps.len()
            invariant
                i <= self.maps@.len(),
                v@.len() == i,
                forall|k: int| 0 <= k < i ==> (#[trigger] v@[k]).0 == self.maps@[k].0.0 && v@[k].1 == self.maps@[k].0.1
                    && *v@[k].2 == self.maps@[k].1,
            decreases self.maps@.len() - i,
        {
            let e = &self.maps[i];
            v.push((e.0.0, e.0.1, &e.1));
            i = i + 1;
        }
        v
    }

    /// Drops every grid of `space_id`.
    pub fn remove_space(&mut self, space_id: SpaceId)
        requires
            old(self).wf(),
        ensures
            final(self).wf(),
            forall|s: SpaceId, z: i32| #[trigger] final(self).lookup(s, z) == if s == space_id { None } else { old(self).lookup(s, z) },
    {
        let ghost before = self.maps@;
        let mut kept: Vec<((SpaceId, i32), FloorMap)> = Vec::new();
        let mut i: usize = 0;
        while i < self.maps.len()
            invariant
                before == self.maps@,
                i <= before.len(),
                forall|a: int, b: int| 0 <= a < b < before.len() ==> (#[trigger] before[a]).0 != (#[trigger] before[b]).0,
                forall|a: int| 0 <= a < before.len() ==> (#[trigger] before[a]).1.wf(),
                forall|a: int, b: int| 0 <= a < b < kept@.len() ==> (#[trigger] kept@[a]).0 != (#[trigger] kept@[b]).0,
                forall|a: int| 0 <= a < kept@.len() ==> (#[trigger] kept@[a]).1.wf() && kept@[a].0.0 != space_id
                    && exists|k: int| 0 <= k < i && same_entry(before[k], kept@[a]),
                forall|k: int| 0 <= k < i && (#[trigger] before[k]).0.0 != space_id ==> exists|a: int| 0 <= a < kept@.len() && same_entry(kept@[a], before[k]),
            decreases before.len() - i,
        {
            if self.maps[i].0.0 != space_id {
                let ghost prev = kept@;
                let entry = ((self.maps[i].0.0, self.maps[i].0.1), clone_floor_map(&self.maps[i].1));
                kept.push(entry);
                proof {
                    assert(same_entry(kept@[prev.len() as int], before[i as int]));
                    assert forall|a: int, b: int| 0 <= a < b < kept@.len() implies (#[trigger] kept@[a]).0 != (#[trigger] kept@[b]).0 by {
                        if b == prev.len() {
                            assert(kept@[a] == prev[a]);
                            let k = choose|k: int| 0 <= k < i && same_entry(before[k], prev[a]);
                        } else {
                            assert(kept@[a] == prev[a] && kept@[b] == prev[b]);
                        }
                    }
                    assert forall|a: int| 0 <= a < kept@.len() implies (#[trigger] kept@[a]).1.wf() && kept@[a].0.0 != space_id
                        && exists|k: int| 0 <= k < i + 1 && same_entry(before[k], kept@[a]) by {
                        if a < prev.len() {
                            assert(kept@[a] == prev[a]);
                            let k = choose|k: int| 0 <= k < i && same_entry(before[k], prev[a]);
                        }
                    }
                    assert forall|k: int| 0 <= k < i + 1 && (#[trigger] before[k]).0.0 != space_id implies exists|a: int| 0 <= a < kept@.len() && same_entry(kept@[a], before[k]) by {
                        if k < i {
                            let a = choose|a: int| 0 <= a < prev.len() && same_entry(prev[a], before[k]);
                            assert(kept@[a] == prev[a]);
                        } else {
                            assert(same_entry(kept@[prev.len() as int], before[k]));
                        }
                    }
                }
            }
            i = i + 1;
        }
        self.maps = kept;
        proof {
            assert forall|s: SpaceId, z: i32| #[trigger] self.lookup(s, z) == if s == space_id { None } else { old(self).lookup(s, z) } by {
                if s == space_id {
                    assert forall|a: int| 0 <= a < self.maps@.len() implies (#[trigger] self.maps@[a]).0 != (s, z) by {}
                } else if exists|k: int| 0 <= k < before.len() && (#[trigger] before[k]).0 == (s, z) {
                    let k = choose|k: int| 0 <= k < before.len() && (#[trigger] before[k]).0 == (s, z);
                    let a = choose|a: int| 0 <= a < self.maps@.len() && same_entry(self.maps@[a], before[k]);
                    assert(self.maps@[a].0 == (s, z));
                    let a2 = choose|a2: int| 0 <= a2 < self.maps@.len() && (#[trigger] self.maps@[a2]).0 == (s, z);
                    if a2 != a {
                        assert(self.maps@[a2].0 != self.maps@[a].0) by {
                            if a2 < a {} else {}
                        }
                    }
                } else {
                    assert forall|a: int| 0 <= a < self.maps@.len() implies (#[trigger] self.maps@[a]).0 != (s, z) by {
                        let k = choose|k: int| 0 <= k < before.len() && same_entry(before[k], self.maps@[a]);
                    }
                }
            }
        }
    }
}

/// Same key and same grid contents.
pub open spec fn same_entry(a: ((SpaceId, i32), FloorMap), b: ((SpaceId, i32), FloorMap)) -> bool {
    a.0 == b.0 && a.1@ == b.1@
}

/// A copy of `m`.
pub fn clone_floor_map(m: &FloorMap) -> (c: FloorMap)
    ensures
        c@ == m@,
{
    let mut tiles: Vec<Option<String>> = Vec::new();
    let mut i: usize = 0;
    while i < m.tiles.len()
        invariant
            i <= m.tiles@.len(),
            tiles@ == m.tiles@.take(i as int),
        decreases m.tiles@.len() - i,
    {
        let t: Option<String> = match &m.tiles[i] {
            Some(s) => Some(s.clone()),
            None => None,
        };
        tiles.push(t);
        assert(m.tiles@.take(i + 1) == m.tiles@.take(i as int).push(m.tiles@[i as int]));
        i = i + 1;
    }
    assert(tiles@ == m.tiles@);
    FloorMap { width: m.width, height: m.height, tiles }
}

} // verus!
