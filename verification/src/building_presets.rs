//! Authoring-time bundles of wall, floor and door ids used by the editor's
//! building tool, and their cross-check against loaded definitions.

use vstd::prelude::*;

use crate::floor_definitions::FloorTilesetDefinitions;
use crate::text::{seq_lt, str_eq, str_lt};

verus! {

/// Wall object type per building edge, with optional corner overrides.
pub struct WallSlots {
    pub north: String,
    pub south: String,
    pub east: String,
    pub west: String,
    pub corner_nw: Option<String>,
    pub corner_ne: Option<String>,
    pub corner_sw: Option<String>,
    pub corner_se: Option<String>,
}

/// One building preset.
pub struct BuildingPreset {
    pub id: String,
    pub name: String,
    pub walls: WallSlots,
    pub default_floor: Option<String>,
    pub default_door: Option<String>,
}

/// `[s]` for `Some(s)`, nothing for `None`.
pub open spec fn opt_seq(o: Option<String>) -> Seq<Seq<char>> {
    match o {
        Some(s) => seq![s@],
        None => Seq::empty(),
    }
}

impl WallSlots {
    /// The four edge walls, then the corner overrides that are set
    /// (north-west, north-east, south-west, south-east).
    pub open spec fn wall_ids_spec(&self) -> Seq<Seq<char>> {
        seq![self.north@, self.south@, self.east@, self.west@] + opt_seq(self.corner_nw) + opt_seq(self.corner_ne)
            + opt_seq(self.corner_sw) + opt_seq(self.corner_se)
    }

    /// Every wall type id this preset references.
    pub fn all_wall_ids(&self) -> (v: Vec<String>)
        ensures
            v@.map_values(|s: String| s@) == self.wall_ids_spec(),
    {
        let mut v: Vec<String> = Vec::new();
        v.push(self.north.clone());
        v.push(self.south.clone());
        v.push(self.east.clone());
        v.push(self.west.clone());
        let ghost base = v@;
        proof {
            assert(base.map_values(|s: String| s@) =~= seq![self.north@, self.south@, self.east@, self.west@]);
        }
        push_opt(&mut v, &self.corner_nw);
        push_opt(&mut v, &self.corner_ne);
        push_opt(&mut v, &self.corner_sw);
        push_opt(&mut v, &self.corner_se);
        v
    }
}

/// Appends the string of `o`, if any.
fn push_opt(v: &mut Vec<String>, o: &Option<String>)
    ensures
        final(v)@.map_values(|s: String| s@) == old(v)@.map_values(|s: String| s@) + opt_seq(*o),
{
    let ghost before = v@;
    match o {
        Some(s) => {
            v.push(s.clone());
            assert(v@.map_values(|s: String| s@) =~= before.map_values(|s: String| s@) + opt_seq(*o));
        },
        None => {
            assert(v@.map_values(|s: String| s@) =~= before.map_values(|s: String| s@) + opt_seq(*o));
        },
    }
}

/// A reference of a preset that no loaded definition answers.
#[derive(Debug, PartialEq, Eq)]
pub enum PresetProblem {
    /// `(preset id, wall object id)`.
    UnknownWall(String, String),
    /// `(preset id, door object id)`.
    UnknownDoor(String, String),
    /// `(preset id, floor type id)`.
    UnknownFloor(String, String),
}

/// `(kind, preset id, referenced id)` with kind `0` wall, `1` door, `2` floor.
pub open spec fn problem_view(p: PresetProblem) -> (int, Seq<char>, Seq<char>) {
    match p {
        PresetProblem::UnknownWall(a, b) => (0, a@, b@),
        PresetProblem::UnknownDoor(a, b) => (1, a@, b@),
        PresetProblem::UnknownFloor(a, b) => (2, a@, b@),
    }
}

/// Some id of `ids` is `x`.
pub open spec fn known_id(ids: Seq<String>, x: Seq<char>) -> bool {
    exists|i: int| 0 <= i < ids.len() && (#[trigger] ids[i])@ == x
}

/// The unknown walls among `walls`, in order.
pub open spec fn wall_problems(pid: Seq<char>, walls: Seq<Seq<char>>, objects: Seq<String>) -> Seq<(int, Seq<char>, Seq<char>)>
    decreases walls.len(),
{
    if walls.len() == 0 {
        Seq::empty()
    } else {
        let rest = wall_problems(pid, walls.drop_last(), objects);
        if known_id(objects, walls.last()) {
            rest
        } else {
            rest.push((0, pid, walls.last()))
        }
    }
}

/// Everything wrong with one preset, in check order: walls, door, floor.
pub open spec fn preset_problems(p: BuildingPreset, objects: Seq<String>, floors: FloorTilesetDefinitions) -> Seq<(int, Seq<char>, Seq<char>)> {
    wall_problems(p.id@, p.walls.wall_ids_spec(), objects)
        + match p.default_door {
            Some(d) => if known_id(objects, d@) { Seq::empty() } else { seq![(1int, p.id@, d@)] },
            None => Seq::empty(),
        }
        + match p.default_floor {
            Some(f) => if floors.index_of(f@) is Some { Seq::empty() } else { seq![(2int, p.id@, f@)] },
            None => Seq::empty(),
        }
}

/// Everything wrong with the presets, preset by preset.
pub open spec fn all_problems(presets: Seq<BuildingPreset>, objects: Seq<String>, floors: FloorTilesetDefinitions) -> Seq<(int, Seq<char>, Seq<char>)>
    decreases presets.len(),
{
    if presets.len() == 0 {
        Seq::empty()
    } else {
        all_problems(presets.drop_last(), objects, floors) + preset_problems(presets.last(), objects, floors)
    }
}

/// Whether `ids` holds `x`.
fn contains_id(ids: &Vec<String>, x: &String) -> (b: bool)
    ensures
        b == known_id(ids@, x@),
{
    let mut i: usize = 0;
    while i < ids.len()
        invariant
            i <= ids@.len(),
            forall|k: int| 0 <= k < i ==> (#[trigger] ids@[k])@ != x@,
        decreases ids@.len() - i,
    {
        if str_eq(ids[i].as_str(), x.as_str()) {
            return true;
        }
        i = i + 1;
    }
    false
}

/// Presets by id, in increasing id order.
pub struct BuildingPresets {
    pub by_id: Vec<BuildingPreset>,
}

impl BuildingPresets {
    /// Ids strictly increase.
    pub open spec fn wf(&self) -> bool {
        forall|i: int, j: int| 0 <= i < j < self.by_id@.len() ==> seq_lt((#[trigger] self.by_id@[i]).id@, (#[trigger] self.by_id@[j]).id@)
    }

    /// Position of the preset with id `id`.
    pub open spec fn index_of(&self, id: Seq<char>) -> Option<int> {
        preset_index(self.by_id@, id)
    }

    pub fn new() -> (p: Self)
        ensures
            p.wf(),
            p.by_id@.len() == 0,
    {
        BuildingPresets { by_id: Vec::new() }
    }

    /// The preset with id `id`.
    pub fn get(&self, id: &str) -> (r: Option<&BuildingPreset>)
        requires
            self.wf(),
        ensures
            r is Some <==> self.index_of(id@) is Some,
            r is Some ==> *r->0 == self.by_id@[self.index_of(id@)->0],
    {
        let mut i: usize = 0;
        while i < self.by_id.len()
            invariant
                self.wf(),
                i <= self.by_id@.len(),
                forall|k: int| 0 <= k < i ==> (#[trigger] self.by_id@[k]).id@ != id@,
            decreases self.by_id@.len() - i,
        {
            if str_eq(self.by_id[i].id.as_str(), id) {
                proof {
                    let c = choose|k: int| 0 <= k < self.by_id@.len() && (#[trigger] self.by_id@[k]).id@ == id@;
                    if c > i as int {
                        crate::text::lemma_seq_lt_total(self.by_id@[i as int].id@, self.by_id@[c].id@);
                    }
                }
                return Some(&self.by_id[i]);
            }
            i = i + 1;
        }
        None
    }

    /// Every preset, by increasing id.
    pub fn iter(&self) -> (r: &Vec<BuildingPreset>)
        ensures
            r@ == self.by_id@,
    {
        &self.by_id
    }

    pub fn is_empty(&self) -> (b: bool)
        ensures
            b == (self.by_id@.len() == 0),
    {
        self.by_id.len() == 0
    }

    /// Adds `preset`, replacing the preset with the same id if any, and
    /// keeps the ids in increasing order.
    pub fn insert(&mut self, preset: BuildingPreset)
        requires
            old(self).wf(),
        ensures
            final(self).wf(),
            final(self).index_of(preset.id@) is Some,
            final(self).by_id@[final(self).index_of(preset.id@)->0] == preset,
            forall|id: Seq<char>| id != preset.id@ ==> (#[trigger] final(self).index_of(id) is Some) == old(self).index_of(id) is Some,
            forall|id: Seq<char>| id != preset.id@ && (#[trigger] old(self).index_of(id)) is Some ==>
                final(self).by_id@[final(self).index_of(id)->0] == old(self).by_id@[old(self).index_of(id)->0],
    {
        let ghost before = self.by_id@;
        let ghost key = preset.id@;
        let mut pos: usize = 0;
        while pos < self.by_id.len()
            invariant
                self.wf(),
                self.by_id@ == before,
                key == preset.id@,
                pos <= before.len(),
                forall|k: int| 0 <= k < pos ==> seq_lt((#[trigger] before[k]).id@, key),
            ensures
                pos <= before.len(),
                forall|k: int| 0 <= k < pos ==> seq_lt((#[trigger] before[k]).id@, key),
                pos < before.len() ==> !seq_lt(before[pos as int].id@, key),
            decreases before.len() - pos,
        {
            if str_lt(self.by_id[pos].id.as_str(), preset.id.as_str()) {
                pos = pos + 1;
            } else {
                break;
            }
        }
        if pos < self.by_id.len() && str_eq(self.by_id[pos].id.as_str(), preset.id.as_str()) {
            self.by_id.set(pos, preset);
            proof {
                lemma_presets_update(before, self.by_id@, pos as int, key, true);
            }
        } else {
            proof {
                if pos < before.len() {
                    crate::text::lemma_seq_lt_total(before[pos as int].id@, key);
                }
            }
            self.by_id.insert(pos, preset);
            proof {
                lemma_presets_update(before, self.by_id@, pos as int, key, false);
            }
        }
    }

    /// The first reference, by preset id and then walls, door and floor,
    /// that `objects` (known object type ids) or `floors` does not answer.
    pub fn validate_against(&self, objects: &Vec<String>, floors: &FloorTilesetDefinitions) -> (r: Option<PresetProblem>)
        requires
            floors.wf(),
        ensures
            r is None <==> all_problems(self.by_id@, objects@, *floors).len() == 0,
            r is Some ==> problem_view(r->0) == all_problems(self.by_id@, objects@, *floors)[0],
    {
        let mut i: usize = 0;
        assert(self.by_id@.take(0) == Seq::<BuildingPreset>::empty());
        while i < self.by_id.len()
            invariant
                floors.wf(),
                i <= self.by_id@.len(),
                all_problems(self.by_id@.take(i as int), objects@, *floors).len() == 0,
            decreases self.by_id@.len() - i,
        {
            let p = &self.by_id[i];
            proof {
                assert(self.by_id@.take(i + 1).drop_last() == self.by_id@.take(i as int));
                lemma_all_problems_prefix(self.by_id@, i + 1, objects@, *floors);
            }
            let walls = p.walls.all_wall_ids();
            let ghost wv = walls@.map_values(|s: String| s@);
            let mut k: usize = 0;
            assert(wv.take(0) == Seq::<Seq<char>>::empty());
            while k < walls.len()
                invariant
                    floors.wf(),
                    i < self.by_id@.len(),
                    *p == self.by_id@[i as int],
                    all_problems(self.by_id@.take(i as int), objects@, *floors).len() == 0,
                    wv == walls@.map_values(|s: String| s@),
                    wv == p.walls.wall_ids_spec(),
                    k <= wv.len(),
                    wall_problems(p.id@, wv.take(k as int), objects@).len() == 0,
                decreases wv.len() - k,
            {
                assert(wv.take(k + 1).drop_last() == wv.take(k as int));
                assert(wv[k as int] == walls@[k as int]@);
                if !contains_id(objects, &walls[k]) {
                    proof {
                        lemma_wall_problems_prefix(p.id@, wv, k + 1, objects@);
                        assert(wall_problems(p.id@, wv.take(k + 1), objects@) == seq![(0int, p.id@, wv[k as int])]);
                        let wp = wall_problems(p.id@, wv, objects@);
                        assert(wp.len() >= 1);
                        assert(wp.take(1) == seq![(0int, p.id@, wv[k as int])]);
                        assert(wp.take(1)[0] == wp[0]);
                        assert(wp[0] == (0int, p.id@, wv[k as int]));
                        assert(preset_problems(*p, objects@, *floors)[0] == wp[0]);
                        lemma_first_problem(self.by_id@, i as int, objects@, *floors);
                    }
                    return Some(PresetProblem::UnknownWall(p.id.clone(), walls[k].clone()));
                }
                k = k + 1;
            }
            assert(wv.take(wv.len() as int) == wv);
            match &p.default_door {
                Some(d) => {
                    if !contains_id(objects, d) {
                        proof {
                            lemma_first_problem(self.by_id@, i as int, objects@, *floors);
                        }
                        return Some(PresetProblem::UnknownDoor(p.id.clone(), d.clone()));
                    }
                },
                None => {},
            }
            match &p.default_floor {
                Some(f) => {
                    if !floors.contains(f.as_str()) {
                        proof {
                            lemma_first_problem(self.by_id@, i as int, objects@, *floors);
                        }
                        return Some(PresetProblem::UnknownFloor(p.id.clone(), f.clone()));
                    }
                },
                None => {},
            }
            i = i + 1;
        }
        assert(self.by_id@.take(self.by_id@.len() as int) == self.by_id@);
        None
    }
}

/// Problems of a prefix come first.
proof fn lemma_all_problems_prefix(presets: Seq<BuildingPreset>, n: int, objects: Seq<String>, floors: FloorTilesetDefinitions)
    requires
        0 <= n <= presets.len(),
    ensures
        all_problems(presets.take(n), objects, floors).len() <= all_problems(presets, objects, floors).len(),
        all_problems(presets, objects, floors).take(all_problems(presets.take(n), objects, floors).len() as int)
            == all_problems(presets.take(n), objects, floors),
    decreases presets.len() - n,
{
    if n < presets.len() {
        lemma_all_problems_prefix(presets, n + 1, objects, floors);
        assert(presets.take(n + 1).drop_last() == presets.take(n));
        let a = all_problems(presets.take(n), objects, floors);
        let b = all_problems(presets.take(n + 1), objects, floors);
        assert(b.take(a.len() as int) == a);
    } else {
        assert(presets.take(n) == presets);
    }
}

/// Unknown walls of a prefix come first.
proof fn lemma_wall_problems_prefix(pid: Seq<char>, walls: Seq<Seq<char>>, n: int, objects: Seq<String>)
    requires
        0 <= n <= walls.len(),
    ensures
        wall_problems(pid, walls.take(n), objects).len() <= wall_problems(pid, walls, objects).len(),
        wall_problems(pid, walls, objects).take(wall_problems(pid, walls.take(n), objects).len() as int)
            == wall_problems(pid, walls.take(n), objects),
    decreases walls.len() - n,
{
    if n < walls.len() {
        lemma_wall_problems_prefix(pid, walls, n + 1, objects);
        assert(walls.take(n + 1).drop_last() == walls.take(n));
        let a = wall_problems(pid, walls.take(n), objects);
        let b = wall_problems(pid, walls.take(n + 1), objects);
        assert(b.take(a.len() as int) == a);
    } else {
        assert(walls.take(n) == walls);
    }
}

/// With no problem before preset `i`, the first problem overall is the
/// first problem of preset `i`, if it has one.
proof fn lemma_first_problem(presets: Seq<BuildingPreset>, i: int, objects: Seq<String>, floors: FloorTilesetDefinitions)
    requires
        0 <= i < presets.len(),
        all_problems(presets.take(i), objects, floors).len() == 0,
    ensures
        preset_problems(presets[i], objects, floors).len() > 0 ==> all_problems(presets, objects, floors).len() > 0
            && all_problems(presets, objects, floors)[0] == preset_problems(presets[i], objects, floors)[0],
{
    lemma_all_problems_prefix(presets, i + 1, objects, floors);
    assert(presets.take(i + 1).drop_last() == presets.take(i));
    assert(presets.take(i + 1).last() == presets[i]);
    let a = all_problems(presets.take(i + 1), objects, floors);
    assert(a == Seq::<(int, Seq<char>, Seq<char>)>::empty() + preset_problems(presets[i], objects, floors));
}

/// Replacing (`same`) or inserting at `pos` keeps ids sorted and the lookups right.
proof fn lemma_presets_update(before: Seq<BuildingPreset>, after: Seq<BuildingPreset>, pos: int, key: Seq<char>, same: bool)
    requires
        0 <= pos <= before.len(),
        forall|i: int, j: int| 0 <= i < j < before.len() ==> seq_lt((#[trigger] before[i]).id@, (#[trigger] before[j]).id@),
        forall|k: int| 0 <= k < pos ==> seq_lt((#[trigger] before[k]).id@, key),
        same ==> pos < before.len() && before[pos].id@ == key && after == before.update(pos, after[pos]),
        !same ==> (pos < before.len() ==> seq_lt(key, before[pos].id@)) && after.len() == before.len() + 1
            && after == before.insert(pos, after[pos]),
        after[pos].id@ == key,
    ensures
        forall|i: int, j: int| 0 <= i < j < after.len() ==> seq_lt((#[trigger] after[i]).id@, (#[trigger] after[j]).id@),
        preset_index(after, key) == Some(pos),
        forall|id: Seq<char>| id != key ==> (#[trigger] preset_index(after, id) is Some) == preset_index(before, id) is Some,
        forall|id: Seq<char>| id != key && (#[trigger] preset_index(before, id)) is Some ==>
            after[preset_index(after, id)->0] == before[preset_index(before, id)->0],
{
    assert forall|i: int, j: int| 0 <= i < j < after.len() implies seq_lt((#[trigger] after[i]).id@, (#[trigger] after[j]).id@) by {
        if same {
            if i == pos {
                assert(seq_lt(before[i].id@, before[j].id@));
            } else if j == pos {
                assert(seq_lt(before[i].id@, key));
            }
        } else {
            if j < pos {
                assert(after[i] == before[i] && after[j] == before[j]);
            } else if j == pos {
                assert(after[i] == before[i]);
            } else if i == pos {
                assert(after[j] == before[j - 1]);
                if j - 1 > pos {
                    crate::text::lemma_seq_lt_trans(key, before[pos].id@, before[j - 1].id@);
                }
            } else if i < pos {
                assert(after[i] == before[i] && after[j] == before[j - 1]);
                assert(seq_lt(before[i].id@, before[j - 1].id@));
            } else {
                assert(after[i] == before[i - 1] && after[j] == before[j - 1]);
            }
        }
    }
    lemma_sorted_unique(after);
    lemma_sorted_unique(before);
    assert forall|j: int| 0 <= j < after.len() && j != pos implies (#[trigger] after[j]).id@ != key by {
        assert(after[pos].id@ == key);
    }
    assert(after[pos].id@ == key);
    assert forall|id: Seq<char>| id != key implies (#[trigger] preset_index(after, id) is Some) == preset_index(before, id) is Some by {
        if preset_index(after, id) is Some {
            let j = choose|j: int| 0 <= j < after.len() && (#[trigger] after[j]).id@ == id;
            if same {
                assert(before[j] == after[j]);
            } else if j < pos {
                assert(before[j] == after[j]);
            } else {
                assert(before[j - 1] == after[j]);
            }
        }
        if preset_index(before, id) is Some {
            let j = choose|j: int| 0 <= j < before.len() && (#[trigger] before[j]).id@ == id;
            if same {
                assert(after[j] == before[j]);
            } else if j < pos {
                assert(after[j] == before[j]);
            } else {
                assert(after[j + 1] == before[j]);
            }
        }
    }
    assert forall|id: Seq<char>| id != key && (#[trigger] preset_index(before, id)) is Some implies
        after[preset_index(after, id)->0] == before[preset_index(before, id)->0] by {
        let jb = preset_index(before, id)->0;
        let ja = preset_index(after, id)->0;
        let jt = if same || jb < pos { jb } else { jb + 1 };
        assert(after[jt] == before[jb]);
        if ja != jt {
            assert(after[ja].id@ != after[jt].id@);
        }
    }
}

/// Strictly sorted ids are pairwise different.
proof fn lemma_sorted_unique(s: Seq<BuildingPreset>)
    requires
        forall|i: int, j: int| 0 <= i < j < s.len() ==> seq_lt((#[trigger] s[i]).id@, (#[trigger] s[j]).id@),
    ensures
        forall|i: int, j: int| 0 <= i < s.len() && 0 <= j < s.len() && i != j ==> (#[trigger] s[i]).id@ != (#[trigger] s[j]).id@,
{
    assert forall|i: int, j: int| 0 <= i < s.len() && 0 <= j < s.len() && i != j implies (#[trigger] s[i]).id@ != (#[trigger] s[j]).id@ by {
        crate::text::lemma_seq_lt_total(s[i].id@, s[j].id@);
        if i < j {
            assert(seq_lt(s[i].id@, s[j].id@));
        } else {
            assert(seq_lt(s[j].id@, s[i].id@));
        }
    }
}

/// Position of the preset with id `id` in `s`.
pub open spec fn preset_index(s: Seq<BuildingPreset>, id: Seq<char>) -> Option<int> {
    if exists|i: int| 0 <= i < s.len() && (#[trigger] s[i]).id@ == id {
        Some(choose|i: int| 0 <= i < s.len() && (#[trigger] s[i]).id@ == id)
    } else {
        None
    }
}

} // verus!
