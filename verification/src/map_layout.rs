//! Authored map layouts: spaces, their floors, portals and object trees,
//! and the resolution of object trees into flat runtime objects.

use std::collections::HashMap;

use vstd::prelude::*;

use crate::components::TilePosition;
use crate::direction::Direction;
use crate::floor_map::FloorMap;

verus! {

/// Whether a space survives when nobody is in it.
#[derive(Clone, Copy, Debug, PartialEq, Eq, Structural)]
pub enum SpacePermanence {
    Persistent,
    Ephemeral,
}

impl SpacePermanence {
    pub fn is_persistent(self) -> (b: bool)
        ensures
            b == (self == SpacePermanence::Persistent),
    {
        match self {
            SpacePermanence::Persistent => true,
            SpacePermanence::Ephemeral => false,
        }
    }
}

/// A tile of a space as authored (`z` defaults to the ground floor).
#[derive(Clone, Copy, Debug, PartialEq, Eq, Structural)]
pub struct TileCoordinate {
    pub x: i32,
    pub y: i32,
    pub z: i32,
}

impl TileCoordinate {
    pub fn to_tile_position(self) -> (p: TilePosition)
        ensures
            p == (TilePosition { x: self.x, y: self.y, z: self.z }),
    {
        TilePosition::new(self.x, self.y, self.z)
    }
}

/// A filled `w × h` rectangle of tiles with its corner at `(x, y)`.
#[derive(Clone, Copy, Debug, PartialEq, Eq, Structural)]
pub struct TileRectangleArea {
    pub x: i32,
    pub y: i32,
    pub w: i32,
    pub h: i32,
    pub z: i32,
}

/// Inclusive tile bounds.
#[derive(Clone, Copy, Debug, PartialEq, Eq, Structural)]
pub struct TileRectangle {
    pub min_x: i32,
    pub min_y: i32,
    pub max_x: i32,
    pub max_y: i32,
}

/// A portal from a tile of this space to a tile of another.
pub struct PortalDefinition {
    pub id: String,
    pub source: TileCoordinate,
    pub destination_space_id: String,
    pub destination_tile: TileCoordinate,
    pub destination_permanence: Option<SpacePermanence>,
}

/// Movement behaviour of an authored creature. Step intervals are seconds
/// held as the bit pattern of an IEEE-754 `f32`.
#[derive(Clone, Copy, Debug, PartialEq, Eq, Structural)]
pub enum MapBehavior {
    Roam { step_interval_seconds_bits: u32, bounds: TileRectangle },
    RoamAndChase {
        step_interval_seconds_bits: u32,
        bounds: TileRectangle,
        detect_distance_tiles: i32,
        disengage_distance_tiles: i32,
    },
}

/// Free-form `key: value` properties of an object, in authored order.
pub type ObjectProperties = Vec<(String, String)>;

/// An authored object, with an optional symbolic `id` other objects'
/// `contents` may refer to.
pub struct MapObjectInstance {
    pub id: Option<String>,
    pub type_id: String,
    pub properties: ObjectProperties,
    pub placement: Option<TileCoordinate>,
    pub contents: Vec<MapObjectChild>,
    pub behavior: Option<MapBehavior>,
    pub facing: Option<Direction>,
}

/// An entry of a container's `contents`: a reference to another object's
/// symbolic id, or a nested object that lives inside the container.
pub enum MapObjectChild {
    Reference(String),
    Inline(Box<MapObjectInstance>),
}

/// A top-level authored object entry.
pub enum MapObjectEntry {
    Explicit(MapObjectInstance),
    Anonymous(AnonymousObjectPlacements),
}

/// Many identical, unnamed objects: one per listed tile.
pub struct AnonymousObjectPlacements {
    pub type_id: String,
    pub properties: ObjectProperties,
    pub placement: Vec<TileCoordinate>,
    pub facing: Option<Direction>,
}

/// A runtime object: numeric id, contents as runtime ids.
pub struct ResolvedObject {
    pub id: u64,
    pub type_id: String,
    pub properties: ObjectProperties,
    pub placement: Option<TileCoordinate>,
    pub contents: Vec<u64>,
    pub behavior: Option<MapBehavior>,
    pub facing: Option<Direction>,
}

/// Floor tiles of one floor type: single tiles and rectangles.
pub struct FloorPlacements {
    pub placement: Vec<TileCoordinate>,
    pub rects: Vec<TileRectangleArea>,
}

// ── Views ─────────────────────────────────────────────────────────────────────

/// Properties as character sequences.
pub open spec fn props_view(p: Seq<(String, String)>) -> Seq<(Seq<char>, Seq<char>)> {
    p.map_values(|e: (String, String)| (e.0@, e.1@))
}

/// The plain content of a resolved object.
pub struct ResolvedView {
    pub id: u64,
    pub type_id: Seq<char>,
    pub properties: Seq<(Seq<char>, Seq<char>)>,
    pub placement: Option<TileCoordinate>,
    pub contents: Seq<u64>,
    pub behavior: Option<MapBehavior>,
    pub facing: Option<Direction>,
}

impl View for ResolvedObject {
    type V = ResolvedView;

    open spec fn view(&self) -> ResolvedView {
        ResolvedView {
            id: self.id,
            type_id: self.type_id@,
            properties: props_view(self.properties@),
            placement: self.placement,
            contents: self.contents@,
            behavior: self.behavior,
            facing: self.facing,
        }
    }
}

// ── Flattening an object tree ─────────────────────────────────────────────────

/// One object of an authored tree, as the resolver sees it.
pub struct Proto {
    pub name: Option<Seq<char>>,
    pub type_id: Seq<char>,
    pub properties: Seq<(Seq<char>, Seq<char>)>,
    pub placement: Option<TileCoordinate>,
    pub children: Seq<MapObjectChild>,
    pub behavior: Option<MapBehavior>,
    pub facing: Option<Direction>,
    /// Nested inside its parent's `contents`.
    pub inline: bool,
}

pub open spec fn instance_proto(inst: MapObjectInstance, inline: bool) -> Proto {
    Proto {
        name: match inst.id {
            Some(n) => Some(n@),
            None => None,
        },
        type_id: inst.type_id@,
        properties: props_view(inst.properties@),
        placement: inst.placement,
        children: inst.contents@,
        behavior: inst.behavior,
        facing: inst.facing,
        inline,
    }
}

/// An instance and its inline descendants in depth-first pre-order.
pub open spec fn flat_instance(inst: MapObjectInstance, inline: bool) -> Seq<Proto>
    decreases inst, 1int,
{
    seq![instance_proto(inst, inline)] + flat_children(inst.contents@)
}

/// The inline descendants reached through `cs`, in order.
pub open spec fn flat_children(cs: Seq<MapObjectChild>) -> Seq<Proto>
    decreases cs, 0int,
{
    if cs.len() == 0 {
        Seq::empty()
    } else {
        flat_children(cs.drop_last()) + match cs.last() {
            MapObjectChild::Inline(b) => flat_instance(*b, true),
            MapObjectChild::Reference(_) => Seq::empty(),
        }
    }
}

/// The prototype of the object placed on `tile` by an anonymous group.
pub open spec fn anon_proto(g: AnonymousObjectPlacements, tile: TileCoordinate) -> Proto {
    Proto {
        name: None,
        type_id: g.type_id@,
        properties: props_view(g.properties@),
        placement: Some(tile),
        children: Seq::empty(),
        behavior: None,
        facing: g.facing,
        inline: false,
    }
}

/// The objects one top-level entry expands to.
pub open spec fn flat_entry(e: MapObjectEntry) -> Seq<Proto> {
    match e {
        MapObjectEntry::Explicit(inst) => flat_instance(inst, false),
        MapObjectEntry::Anonymous(g) => g.placement@.map_values(|t: TileCoordinate| anon_proto(g, t)),
    }
}

/// The objects a list of entries expands to, entry by entry.
pub open spec fn flat_entries(es: Seq<MapObjectEntry>) -> Seq<Proto>
    decreases es.len(),
{
    if es.len() == 0 {
        Seq::empty()
    } else {
        flat_entries(es.drop_last()) + flat_entry(es.last())
    }
}

/// Flattening distributes over concatenation of child lists.
pub proof fn lemma_flat_children_append(a: Seq<MapObjectChild>, b: Seq<MapObjectChild>)
    ensures
        flat_children(a + b) == flat_children(a) + flat_children(b),
    decreases b.len(),
{
    if b.len() == 0 {
        assert(a + b == a);
        assert(flat_children(b) == Seq::<Proto>::empty());
    } else {
        lemma_flat_children_append(a, b.drop_last());
        assert((a + b).drop_last() == a + b.drop_last());
        assert((a + b).last() == b.last());
    }
}

/// Taking one more child adds that child's subtree at the end.
pub proof fn lemma_flat_children_take(cs: Seq<MapObjectChild>, k: int)
    requires
        0 <= k < cs.len(),
    ensures
        flat_children(cs.take(k + 1)) == flat_children(cs.take(k)) + match cs[k] {
            MapObjectChild::Inline(b) => flat_instance(*b, true),
            MapObjectChild::Reference(_) => Seq::empty(),
        },
        flat_children(cs.take(k)).len() + flat_children(cs.take(k + 1)).len() - flat_children(cs.take(k)).len()
            <= flat_children(cs).len(),
{
    assert(cs.take(k + 1).drop_last() == cs.take(k));
    lemma_flat_children_append(cs.take(k + 1), cs.skip(k + 1));
    assert(cs.take(k + 1) + cs.skip(k + 1) == cs);
}

/// Flattening entries distributes over concatenation.
pub proof fn lemma_flat_entries_append(a: Seq<MapObjectEntry>, b: Seq<MapObjectEntry>)
    ensures
        flat_entries(a + b) == flat_entries(a) + flat_entries(b),
    decreases b.len(),
{
    if b.len() == 0 {
        assert(a + b == a);
    } else {
        lemma_flat_entries_append(a, b.drop_last());
        assert((a + b).drop_last() == a + b.drop_last());
        assert((a + b).last() == b.last());
    }
}

// ── Names ─────────────────────────────────────────────────────────────────────

/// A name table as character sequences.
pub open spec fn names_view(v: Seq<(String, u64)>) -> Seq<(Seq<char>, u64)> {
    v.map_values(|e: (String, u64)| (e.0@, e.1))
}

/// The symbolic names among `protos`, each with the id it gets when the
/// first of `protos` gets `base`.
pub open spec fn proto_names(protos: Seq<Proto>, base: int) -> Seq<(Seq<char>, u64)>
    decreases protos.len(),
{
    if protos.len() == 0 {
        Seq::empty()
    } else {
        let rest = proto_names(protos.drop_last(), base);
        match protos.last().name {
            Some(n) => rest.push((n, (base + protos.len() - 1) as u64)),
            None => rest,
        }
    }
}

pub proof fn lemma_proto_names_append(a: Seq<Proto>, b: Seq<Proto>, base: int)
    ensures
        proto_names(a + b, base) == proto_names(a, base) + proto_names(b, base + a.len()),
    decreases b.len(),
{
    if b.len() == 0 {
        assert(a + b == a);
    } else {
        lemma_proto_names_append(a, b.drop_last(), base);
        assert((a + b).drop_last() == a + b.drop_last());
        assert((a + b).last() == b.last());
    }
}

/// The id bound to `name`: its first binding, or `u64::MAX` when unbound.
pub open spec fn lookup_name(table: Seq<(Seq<char>, u64)>, name: Seq<char>) -> u64
    decreases table.len(),
{
    if table.len() == 0 {
        u64::MAX
    } else if table[0].0 == name {
        table[0].1
    } else {
        lookup_name(table.drop_first(), name)
    }
}

/// Appends the names of `inst` and its inline descendants, numbering
/// objects in pre-order from `*next_id`.
fn collect_names(inst: &MapObjectInstance, inline: bool, next_id: &mut u64, names: &mut Vec<(String, u64)>)
    requires
        *old(next_id) + flat_instance(*inst, inline).len() <= u64::MAX,
    ensures
        *final(next_id) == *old(next_id) + flat_instance(*inst, inline).len(),
        names_view(final(names)@) == names_view(old(names)@) + proto_names(flat_instance(*inst, inline), *old(next_id) as int),
    decreases inst,
{
    let ghost cs = inst.contents@;
    let ghost head = seq![instance_proto(*inst, inline)];
    let ghost start_names = names_view(names@);
    let id = *next_id;
    proof {
        assert(head.drop_last() == Seq::<Proto>::empty());
        assert(head.last() == instance_proto(*inst, inline));
        assert(proto_names(Seq::<Proto>::empty(), id as int) == Seq::<(Seq<char>, u64)>::empty());
    }
    match &inst.id {
        Some(n) => {
            let ghost prev = names@;
            let nc = n.clone();
            names.push((nc, id));
            proof {
                assert(names@ == prev.push((nc, id)));
                assert(names_view(names@) == names_view(prev).push((n@, id)));
                assert(proto_names(head, id as int) == seq![(n@, id)]);
            }
        },
        None => {
            assert(proto_names(head, id as int) == Seq::<(Seq<char>, u64)>::empty());
        },
    }
    *next_id = id + 1;
    proof {
        assert(names_view(names@) == start_names + proto_names(head, id as int));
        assert(cs.take(0) == Seq::<MapObjectChild>::empty());
    }
    let mut k: usize = 0;
    while k < inst.contents.len()
        invariant
            cs == inst.contents@,
            head == seq![instance_proto(*inst, inline)],
            flat_instance(*inst, inline) == head + flat_children(cs),
            0 <= k <= cs.len(),
            id + flat_instance(*inst, inline).len() <= u64::MAX,
            *next_id == id + 1 + flat_children(cs.take(k as int)).len(),
            flat_children(cs.take(k as int)).len() <= flat_children(cs).len(),
            names_view(names@) == start_names + proto_names(head + flat_children(cs.take(k as int)), id as int),
        decreases cs.len() - k,
    {
        proof {
            lemma_flat_children_take(cs, k as int);
            lemma_proto_names_append(head + flat_children(cs.take(k as int)), flat_children(cs.take(k + 1)).skip(flat_children(cs.take(k as int)).len() as int), id as int);
        }
        match &inst.contents[k] {
            MapObjectChild::Inline(b) => {
                let ghost before = names_view(names@);
                let ghost at = *next_id;
                collect_names(b, true, next_id, names);
                proof {
                    let sub = flat_instance(**b, true);
                    assert(flat_children(cs.take(k + 1)) == flat_children(cs.take(k as int)) + sub);
                    assert(flat_children(cs.take(k + 1)).skip(flat_children(cs.take(k as int)).len() as int) == sub);
                    assert(head + flat_children(cs.take(k + 1)) == (head + flat_children(cs.take(k as int))) + sub);
                }
            },
            MapObjectChild::Reference(_) => {
                proof {
                    assert(flat_children(cs.take(k + 1)) == flat_children(cs.take(k as int)));
                }
            },
        }
        k = k + 1;
    }
    proof {
        assert(cs.take(cs.len() as int) == cs);
    }
}

/// The id bound to `name` in `names` (first binding), or `u64::MAX`.
fn lookup_id(names: &Vec<(String, u64)>, name: &String) -> (id: u64)
    ensures
        id == lookup_name(names_view(names@), name@),
{
    let ghost table = names_view(names@);
    let mut i: usize = 0;
    assert(table.skip(0) == table);
    while i < names.len()
        invariant
            table == names_view(names@),
            i <= names@.len(),
            lookup_name(table, name@) == lookup_name(table.skip(i as int), name@),
        decreases names@.len() - i,
    {
        proof {
            assert(table.skip(i as int).drop_first() == table.skip(i + 1));
            assert(table.skip(i as int)[0] == (names@[i as int].0@, names@[i as int].1));
        }
        if names[i].0 == *name {
            return names[i].1;
        }
        i = i + 1;
    }
    proof {
        assert(table.skip(i as int).len() == 0);
    }
    u64::MAX
}

// ── Resolved views ────────────────────────────────────────────────────────────

/// Runtime id of child `k` of an object with id `id`: an inline child gets
/// the id after everything flattened before it; a reference gets the id
/// bound to its name.
pub open spec fn child_id(cs: Seq<MapObjectChild>, k: int, id: int, table: Seq<(Seq<char>, u64)>) -> u64 {
    match cs[k] {
        MapObjectChild::Inline(_) => (id + 1 + flat_children(cs.take(k)).len()) as u64,
        MapObjectChild::Reference(n) => lookup_name(table, n@),
    }
}

/// The resolved object a prototype becomes under id `id`.
pub open spec fn view_of(q: Proto, id: int, table: Seq<(Seq<char>, u64)>) -> ResolvedView {
    ResolvedView {
        id: id as u64,
        type_id: q.type_id,
        properties: q.properties,
        placement: q.placement,
        contents: Seq::new(q.children.len(), |k: int| child_id(q.children, k, id, table)),
        behavior: q.behavior,
        facing: q.facing,
    }
}

/// Resolved objects for `protos`, numbered from `base`.
pub open spec fn views_of(protos: Seq<Proto>, base: int, table: Seq<(Seq<char>, u64)>) -> Seq<ResolvedView> {
    Seq::new(protos.len(), |i: int| view_of(protos[i], base + i, table))
}

/// Views of a list of resolved objects.
pub open spec fn resolved_views(v: Seq<ResolvedObject>) -> Seq<ResolvedView> {
    v.map_values(|r: ResolvedObject| r@)
}

pub proof fn lemma_views_of_append(a: Seq<Proto>, b: Seq<Proto>, base: int, table: Seq<(Seq<char>, u64)>)
    ensures
        views_of(a + b, base, table) == views_of(a, base, table) + views_of(b, base + a.len(), table),
{
    assert(views_of(a + b, base, table) =~= views_of(a, base, table) + views_of(b, base + a.len(), table));
}

/// A copy of a property list.
pub fn clone_properties(p: &ObjectProperties) -> (c: ObjectProperties)
    ensures
        c@ == p@,
{
    let mut c: ObjectProperties = Vec::new();
    let mut i: usize = 0;
    while i < p.len()
        invariant
            i <= p@.len(),
            c@ == p@.take(i as int),
        decreases p@.len() - i,
    {
        let k = p[i].0.clone();
        let v = p[i].1.clone();
        c.push((k, v));
        assert(p@.take(i + 1) == p@.take(i as int).push(p@[i as int]));
        i = i + 1;
    }
    assert(p@.take(p@.len() as int) == p@);
    c
}

/// Appends the resolved objects of `inst` and its inline descendants in
/// pre-order, numbering from `*next_id`; returns the id of `inst`.
fn walk_instance(
    inst: &MapObjectInstance,
    inline: bool,
    next_id: &mut u64,
    names: &Vec<(String, u64)>,
    out: &mut Vec<ResolvedObject>,
) -> (id: u64)
    requires
        *old(next_id) + flat_instance(*inst, inline).len() <= u64::MAX,
    ensures
        id == *old(next_id),
        *final(next_id) == *old(next_id) + flat_instance(*inst, inline).len(),
        resolved_views(final(out)@) == resolved_views(old(out)@)
            + views_of(flat_instance(*inst, inline), *old(next_id) as int, names_view(names@)),
    decreases inst,
{
    let ghost cs = inst.contents@;
    let ghost table = names_view(names@);
    let ghost start_out = resolved_views(out@);
    let id = *next_id;
    *next_id = id + 1;
    let mut sub: Vec<ResolvedObject> = Vec::new();
    let mut child_ids: Vec<u64> = Vec::new();
    proof {
        assert(cs.take(0) == Seq::<MapObjectChild>::empty());
        assert(resolved_views(sub@) == views_of(flat_children(cs.take(0)), id + 1, table));
    }
    let mut k: usize = 0;
    while k < inst.contents.len()
        invariant
            cs == inst.contents@,
            table == names_view(names@),
            flat_instance(*inst, inline) == seq![instance_proto(*inst, inline)] + flat_children(cs),
            0 <= k <= cs.len(),
            id + flat_instance(*inst, inline).len() <= u64::MAX,
            *next_id == id + 1 + flat_children(cs.take(k as int)).len(),
            flat_children(cs.take(k as int)).len() <= flat_children(cs).len(),
            resolved_views(sub@) == views_of(flat_children(cs.take(k as int)), id + 1, table),
            child_ids@.len() == k,
            forall|j: int| 0 <= j < k ==> child_ids@[j] == #[trigger] child_id(cs, j, id as int, table),
        decreases cs.len() - k,
    {
        proof {
            lemma_flat_children_take(cs, k as int);
        }
        match &inst.contents[k] {
            MapObjectChild::Inline(b) => {
                let ghost at = *next_id;
                let ghost prev = sub@;
                let cid = walk_instance(b, true, next_id, names, &mut sub);
                proof {
                    let sub_flat = flat_instance(**b, true);
                    lemma_views_of_append(flat_children(cs.take(k as int)), sub_flat, id + 1, table);
                    assert(cid == id + 1 + flat_children(cs.take(k as int)).len());
                }
                child_ids.push(cid);
            },
            MapObjectChild::Reference(n) => {
                let cid = lookup_id(names, n);
                child_ids.push(cid);
                proof {
                    assert(flat_children(cs.take(k + 1)) == flat_children(cs.take(k as int)) + Seq::<Proto>::empty());
                }
            },
        }
        k = k + 1;
    }
    let obj = ResolvedObject {
        id,
        type_id: inst.type_id.clone(),
        properties: clone_properties(&inst.properties),
        placement: inst.placement,
        contents: child_ids,
        behavior: inst.behavior,
        facing: inst.facing,
    };
    let ghost before = out@;
    let ghost subs = sub@;
    let ghost ov = obj@;
    proof {
        assert(cs.take(cs.len() as int) == cs);
        let q = instance_proto(*inst, inline);
        assert(ov.contents =~= view_of(q, id as int, table).contents);
        assert(ov == view_of(q, id as int, table));
        lemma_views_of_append(seq![q], flat_children(cs), id as int, table);
        assert(views_of(seq![q], id as int, table) =~= seq![ov]);
    }
    out.push(obj);
    out.append(&mut sub);
    proof {
        assert(out@ == before.push(obj) + subs);
        assert(resolved_views(out@) =~= resolved_views(before) + seq![ov] + resolved_views(subs));
    }
    id
}

/// Names of every object the entries expand to, numbered from `start`.
fn collect_entry_names(objects: &Vec<MapObjectEntry>, start: u64) -> (names: Vec<(String, u64)>)
    requires
        start + flat_entries(objects@).len() <= u64::MAX,
    ensures
        names_view(names@) == proto_names(flat_entries(objects@), start as int),
{
    let mut names: Vec<(String, u64)> = Vec::new();
    let mut next_id = start;
    let mut e: usize = 0;
    proof {
        assert(objects@.take(0) == Seq::<MapObjectEntry>::empty());
        assert(names_view(names@) =~= Seq::<(Seq<char>, u64)>::empty());
    }
    while e < objects.len()
        invariant
            0 <= e <= objects@.len(),
            start + flat_entries(objects@).len() <= u64::MAX,
            next_id == start + flat_entries(objects@.take(e as int)).len(),
            flat_entries(objects@.take(e as int)).len() <= flat_entries(objects@).len(),
            names_view(names@) == proto_names(flat_entries(objects@.take(e as int)), start as int),
        decreases objects@.len() - e,
    {
        proof {
            assert(objects@.take(e + 1).drop_last() == objects@.take(e as int));
            lemma_flat_entries_append(objects@.take(e + 1), objects@.skip(e + 1));
            assert(objects@.take(e + 1) + objects@.skip(e + 1) == objects@);
            lemma_proto_names_append(flat_entries(objects@.take(e as int)), flat_entry(objects@[e as int]), start as int);
        }
        match &objects[e] {
            MapObjectEntry::Explicit(inst) => {
                collect_names(inst, false, &mut next_id, &mut names);
            },
            MapObjectEntry::Anonymous(g) => {
                proof {
                    let f = flat_entry(objects@[e as int]);
                    assert forall|n: int| 0 <= n <= f.len() implies proto_names(#[trigger] f.take(n), next_id as int) == Seq::<(Seq<char>, u64)>::empty() by {
                        lemma_anon_names(*g, n, next_id as int);
                    }
                    assert(f.take(f.len() as int) == f);
                }
                next_id = next_id + g.placement.len() as u64;
            },
        }
        e = e + 1;
    }
    proof {
        assert(objects@.take(objects@.len() as int) == objects@);
    }
    names
}

/// Anonymous objects carry no names.
proof fn lemma_anon_names(g: AnonymousObjectPlacements, n: int, base: int)
    requires
        0 <= n <= g.placement@.len(),
    ensures
        proto_names(g.placement@.map_values(|t: TileCoordinate| anon_proto(g, t)).take(n), base) == Seq::<(Seq<char>, u64)>::empty(),
    decreases n,
{
    let f = g.placement@.map_values(|t: TileCoordinate| anon_proto(g, t));
    if n > 0 {
        assert(f.take(n).drop_last() == f.take(n - 1));
        lemma_anon_names(g, n - 1, base);
    }
}

/// Appends the resolved objects of every entry, numbering from `start`;
/// returns the next free id.
fn walk_entries(objects: &Vec<MapObjectEntry>, start: u64, names: &Vec<(String, u64)>, out: &mut Vec<ResolvedObject>) -> (next: u64)
    requires
        start + flat_entries(objects@).len() <= u64::MAX,
    ensures
        next == start + flat_entries(objects@).len(),
        resolved_views(final(out)@) == resolved_views(old(out)@) + views_of(flat_entries(objects@), start as int, names_view(names@)),
{
    let ghost table = names_view(names@);
    let ghost start_out = resolved_views(out@);
    let mut next_id = start;
    let mut e: usize = 0;
    proof {
        assert(objects@.take(0) == Seq::<MapObjectEntry>::empty());
        assert(views_of(flat_entries(objects@.take(0)), start as int, table) =~= Seq::<ResolvedView>::empty());
        assert(resolved_views(out@) =~= start_out + Seq::<ResolvedView>::empty());
    }
    while e < objects.len()
        invariant
            table == names_view(names@),
            0 <= e <= objects@.len(),
            start + flat_entries(objects@).len() <= u64::MAX,
            next_id == start + flat_entries(objects@.take(e as int)).len(),
            flat_entries(objects@.take(e as int)).len() <= flat_entries(objects@).len(),
            resolved_views(out@) == start_out + views_of(flat_entries(objects@.take(e as int)), start as int, table),
        decreases objects@.len() - e,
    {
        proof {
            assert(objects@.take(e + 1).drop_last() == objects@.take(e as int));
            lemma_flat_entries_append(objects@.take(e + 1), objects@.skip(e + 1));
            assert(objects@.take(e + 1) + objects@.skip(e + 1) == objects@);
            lemma_views_of_append(flat_entries(objects@.take(e as int)), flat_entry(objects@[e as int]), start as int, table);
        }
        match &objects[e] {
            MapObjectEntry::Explicit(inst) => {
                walk_instance(inst, false, &mut next_id, names, out);
            },
            MapObjectEntry::Anonymous(g) => {
                let ghost f = flat_entry(objects@[e as int]);
                let ghost base = next_id as int;
                let ghost at_out = resolved_views(out@);
                let mut t: usize = 0;
                while t < g.placement.len()
                    invariant
                        f == g.placement@.map_values(|tt: TileCoordinate| anon_proto(*g, tt)),
                        base + f.len() <= u64::MAX,
                        0 <= t <= g.placement@.len(),
                        next_id == base + t,
                        resolved_views(out@) == at_out + views_of(f.take(t as int), base, table),
                    decreases g.placement@.len() - t,
                {
                    let obj = ResolvedObject {
                        id: next_id,
                        type_id: g.type_id.clone(),
                        properties: clone_properties(&g.properties),
                        placement: Some(g.placement[t]),
                        contents: Vec::new(),
                        behavior: None,
                        facing: g.facing,
                    };
                    let ghost ov = obj@;
                    let ghost prev = out@;
                    proof {
                        assert(ov.contents =~= view_of(f[t as int], base + t, table).contents);
                        assert(ov == view_of(f[t as int], base + t, table));
                        assert(views_of(f.take(t + 1), base, table) =~= views_of(f.take(t as int), base, table).push(ov));
                    }
                    out.push(obj);
                    proof {
                        assert(resolved_views(out@) =~= resolved_views(prev).push(ov));
                    }
                    next_id = next_id + 1;
                    t = t + 1;
                }
                proof {
                    assert(f.take(f.len() as int) == f);
                }
            },
        }
        e = e + 1;
    }
    proof {
        assert(objects@.take(objects@.len() as int) == objects@);
    }
    next_id
}

// ── Tile grids ────────────────────────────────────────────────────────────────

/// `line` without one trailing carriage return.
pub open spec fn strip_cr(line: Seq<char>) -> Seq<char> {
    if line.len() > 0 && line.last() == '\r' {
        line.drop_last()
    } else {
        line
    }
}

/// The lines of `s` after the partial line `cur`: each `'\n'` ends a line
/// (dropping a `'\r'` before it); an unterminated last line is kept as is
/// when it is not empty.
pub open spec fn lines_from(s: Seq<char>, cur: Seq<char>) -> Seq<Seq<char>>
    decreases s.len(),
{
    if s.len() == 0 {
        if cur.len() == 0 {
            Seq::empty()
        } else {
            seq![cur]
        }
    } else if s[0] == '\n' {
        seq![strip_cr(cur)] + lines_from(s.drop_first(), Seq::empty())
    } else {
        lines_from(s.drop_first(), cur.push(s[0]))
    }
}

/// The lines of `s`, as `str::lines` splits them.
pub open spec fn lines_spec(s: Seq<char>) -> Seq<Seq<char>> {
    lines_from(s, Seq::empty())
}

pub open spec fn rows_view(rows: Seq<Vec<char>>) -> Seq<Seq<char>> {
    rows.map_values(|r: Vec<char>| r@)
}

/// The lines of `s` as character vectors.
pub fn split_lines(s: &str) -> (rows: Vec<Vec<char>>)
    ensures
        rows_view(rows@) == lines_spec(s@),
{
    let chars = crate::text::chars_of(s);
    let ghost all = s@;
    let mut rows: Vec<Vec<char>> = Vec::new();
    let mut cur: Vec<char> = Vec::new();
    let mut i: usize = 0;
    assert(all.skip(0) == all);
    while i < chars.len()
        invariant
            chars@ == all,
            i <= all.len(),
            lines_spec(all) == rows_view(rows@) + lines_from(all.skip(i as int), cur@),
        decreases all.len() - i,
    {
        let c = chars[i];
        proof {
            assert(all.skip(i as int)[0] == c);
            assert(all.skip(i as int).drop_first() == all.skip(i + 1));
        }
        if c == '\n' {
            let n = cur.len();
            if n > 0 && cur[n - 1] == '\r' {
                cur.pop();
            }
            let ghost prev = rows@;
            let line = cur;
            rows.push(line);
            cur = Vec::new();
            proof {
                assert(rows_view(rows@) == rows_view(prev).push(line@));
                assert(rows_view(rows@) + lines_from(all.skip(i + 1), cur@) == rows_view(prev) + (seq![line@] + lines_from(all.skip(i + 1), Seq::empty())));
            }
        } else {
            cur.push(c);
        }
        i = i + 1;
    }
    if cur.len() > 0 {
        let ghost prev = rows@;
        rows.push(cur);
        proof {
            assert(rows_view(rows@) == rows_view(prev).push(cur@));
        }
    }
    proof {
        assert(all.skip(i as int).len() == 0);
        assert(rows_view(rows@) =~= lines_spec(all));
    }
    rows
}

/// Legend as character sequences.
pub open spec fn legend_view(legend: Seq<(String, String)>) -> Seq<(Seq<char>, Seq<char>)> {
    props_view(legend)
}

/// The object type the legend maps `c` to (first matching key).
pub open spec fn legend_lookup(legend: Seq<(Seq<char>, Seq<char>)>, c: char) -> Option<Seq<char>>
    decreases legend.len(),
{
    if legend.len() == 0 {
        None
    } else if legend[0].0 == seq![c] {
        Some(legend[0].1)
    } else {
        legend_lookup(legend.drop_first(), c)
    }
}

/// The typed tiles of one grid row `y`, left to right.
pub open spec fn row_cells(row: Seq<char>, y: int, legend: Seq<(Seq<char>, Seq<char>)>) -> Seq<(Seq<char>, TileCoordinate)>
    decreases row.len(),
{
    if row.len() == 0 {
        Seq::empty()
    } else {
        let rest = row_cells(row.drop_last(), y, legend);
        match legend_lookup(legend, row.last()) {
            Some(t) => rest.push((t, TileCoordinate { x: (row.len() - 1) as i32, y: y as i32, z: 0 })),
            None => rest,
        }
    }
}

/// The typed tiles of a grid in row-major order.
pub open spec fn grid_cells(rows: Seq<Seq<char>>, legend: Seq<(Seq<char>, Seq<char>)>) -> Seq<(Seq<char>, TileCoordinate)>
    decreases rows.len(),
{
    if rows.len() == 0 {
        Seq::empty()
    } else {
        grid_cells(rows.drop_last(), legend) + row_cells(rows.last(), rows.len() - 1, legend)
    }
}

/// Index of the first group of type `t` at or after `i` (the length if none).
pub open spec fn group_index(groups: Seq<(Seq<char>, Seq<TileCoordinate>)>, t: Seq<char>, i: int) -> int
    decreases groups.len() - i,
{
    if i < 0 || i >= groups.len() {
        groups.len() as int
    } else if groups[i].0 == t {
        i
    } else {
        group_index(groups, t, i + 1)
    }
}

/// Typed tiles grouped by type: groups in order of first appearance, each
/// with its tiles in order.
pub open spec fn group_cells(cells: Seq<(Seq<char>, TileCoordinate)>) -> Seq<(Seq<char>, Seq<TileCoordinate>)>
    decreases cells.len(),
{
    if cells.len() == 0 {
        Seq::empty()
    } else {
        let g = group_cells(cells.drop_last());
        let (t, tile) = cells.last();
        let i = group_index(g, t, 0);
        if i < g.len() {
            g.update(i, (t, g[i].1.push(tile)))
        } else {
            g.push((t, seq![tile]))
        }
    }
}

/// A tile grid is usable: one row per unit of height, each `width`
/// characters, and every legend key a single character.
pub open spec fn grid_ok(rows: Seq<Seq<char>>, legend: Seq<(Seq<char>, Seq<char>)>, width: int, height: int) -> bool {
    &&& rows.len() == height
    &&& forall|i: int| 0 <= i < legend.len() ==> (#[trigger] legend[i]).0.len() == 1
    &&& forall|r: int| 0 <= r < rows.len() ==> (#[trigger] rows[r]).len() == width
}

pub open spec fn groups_view(g: Seq<(String, Vec<TileCoordinate>)>) -> Seq<(Seq<char>, Seq<TileCoordinate>)> {
    g.map_values(|e: (String, Vec<TileCoordinate>)| (e.0@, e.1@))
}

/// The type `c` maps to in `legend` (first matching key).
fn legend_type(legend: &Vec<(String, String)>, c: char) -> (t: Option<String>)
    requires
        forall|i: int| 0 <= i < legend@.len() ==> (#[trigger] legend@[i]).0@.len() == 1,
    ensures
        match t {
            Some(s) => legend_lookup(legend_view(legend@), c) == Some(s@),
            None => legend_lookup(legend_view(legend@), c) is None,
        },
{
    let ghost lv = legend_view(legend@);
    let mut i: usize = 0;
    assert(lv.skip(0) == lv);
    while i < legend.len()
        invariant
            lv == legend_view(legend@),
            i <= legend@.len(),
            forall|j: int| 0 <= j < legend@.len() ==> (#[trigger] legend@[j]).0@.len() == 1,
            legend_lookup(lv, c) == legend_lookup(lv.skip(i as int), c),
        decreases legend@.len() - i,
    {
        proof {
            assert(lv.skip(i as int).drop_first() == lv.skip(i + 1));
            assert(lv.skip(i as int)[0] == (legend@[i as int].0@, legend@[i as int].1@));
        }
        let key = crate::text::chars_of(legend[i].0.as_str());
        assert(legend@[i as int].0@.len() == 1);
        if key[0] == c {
            assert(key@ =~= seq![c]);
            return Some(legend[i].1.clone());
        } else {
            assert(key@ != seq![c]) by {
                assert(seq![c][0] == c);
            }
        }
        i = i + 1;
    }
    assert(lv.skip(i as int).len() == 0);
    None
}

/// Adds `tile` to the group of type `t`, opening a new group if needed.
fn add_to_group(groups: &mut Vec<(String, Vec<TileCoordinate>)>, t: String, tile: TileCoordinate)
    ensures
        ({
            let g = groups_view(old(groups)@);
            let i = group_index(g, t@, 0);
            groups_view(final(groups)@) == if i < g.len() {
                g.update(i, (t@, g[i].1.push(tile)))
            } else {
                g.push((t@, seq![tile]))
            }
        }),
{
    let ghost g = groups_view(groups@);
    let mut i: usize = 0;
    while i < groups.len()
        invariant
            g == groups_view(groups@),
            g == groups_view(old(groups)@),
            i <= g.len(),
            group_index(g, t@, 0) == group_index(g, t@, i as int),
        decreases g.len() - i,
    {
        if groups[i].0 == t {
            assert(group_index(g, t@, i as int) == i);
            let ghost before = groups@;
            let mut entry = (String::new(), Vec::new());
            std::mem::swap(&mut entry, &mut groups[i]);
            entry.1.push(tile);
            groups.set(i, entry);
            proof {
                assert(groups_view(groups@) =~= g.update(i as int, (t@, g[i as int].1.push(tile))));
            }
            return;
        }
        i = i + 1;
    }
    let ghost before = groups@;
    assert(group_index(g, t@, i as int) == g.len());
    let mut tiles: Vec<TileCoordinate> = Vec::new();
    tiles.push(tile);
    assert(tiles@ =~= seq![tile]);
    groups.push((t, tiles));
    proof {
        assert(groups_view(groups@) =~= g.push((t@, seq![tile])));
    }
}

/// The typed tiles of a grid, grouped by type.
fn tile_groups(rows: &Vec<Vec<char>>, legend: &Vec<(String, String)>, width: i32, height: i32) -> (groups: Vec<(String, Vec<TileCoordinate>)>)
    requires
        grid_ok(rows_view(rows@), legend_view(legend@), width as int, height as int),
    ensures
        groups_view(groups@) == group_cells(grid_cells(rows_view(rows@), legend_view(legend@))),
{
    let ghost rv = rows_view(rows@);
    let ghost lv = legend_view(legend@);
    proof {
        assert forall|i: int| 0 <= i < legend@.len() implies (#[trigger] legend@[i]).0@.len() == 1 by {
            assert(lv[i].0 == legend@[i].0@);
        }
    }
    let mut groups: Vec<(String, Vec<TileCoordinate>)> = Vec::new();
    let ghost mut cells: Seq<(Seq<char>, TileCoordinate)> = Seq::empty();
    let mut r: usize = 0;
    assert(rv.take(0) == Seq::<Seq<char>>::empty());
    assert(groups_view(groups@) =~= group_cells(cells));
    while r < rows.len()
        invariant
            rv == rows_view(rows@),
            lv == legend_view(legend@),
            grid_ok(rv, lv, width as int, height as int),
            forall|i: int| 0 <= i < legend@.len() ==> (#[trigger] legend@[i]).0@.len() == 1,
            r <= rows@.len(),
            cells == grid_cells(rv.take(r as int), lv),
            groups_view(groups@) == group_cells(cells),
        decreases rows@.len() - r,
    {
        let ghost row = rv[r as int];
        assert(rows@[r as int]@ == row);
        let mut c: usize = 0;
        assert(row.take(0) == Seq::<char>::empty());
        while c < rows[r].len()
            invariant
                rv == rows_view(rows@),
                lv == legend_view(legend@),
                grid_ok(rv, lv, width as int, height as int),
                forall|i: int| 0 <= i < legend@.len() ==> (#[trigger] legend@[i]).0@.len() == 1,
                r < rows@.len(),
                row == rv[r as int],
                rows@[r as int]@ == row,
                c <= row.len(),
                cells == grid_cells(rv.take(r as int), lv) + row_cells(row.take(c as int), r as int, lv),
                groups_view(groups@) == group_cells(cells),
            decreases row.len() - c,
        {
            let ch = rows[r][c];
            proof {
                assert(row.take(c + 1).drop_last() == row.take(c as int));
                assert(row.take(c + 1).last() == ch);
                assert(row.len() == width);
                assert(rv.len() == height);
            }
            match legend_type(legend, ch) {
                Some(t) => {
                    let tile = TileCoordinate { x: c as i32, y: r as i32, z: 0 };
                    let ghost tv = t@;
                    add_to_group(&mut groups, t, tile);
                    proof {
                        let prev = cells;
                        cells = cells.push((tv, tile));
                        assert(cells.drop_last() == prev);
                        assert(grid_cells(rv.take(r as int), lv) + row_cells(row.take(c + 1), r as int, lv)
                            == (grid_cells(rv.take(r as int), lv) + row_cells(row.take(c as int), r as int, lv)).push((tv, tile)));
                    }
                },
                None => {},
            }
            c = c + 1;
        }
        proof {
            assert(row.take(row.len() as int) == row);
            assert(rv.take(r + 1).drop_last() == rv.take(r as int));
            assert(rv.take(r + 1).last() == row);
        }
        r = r + 1;
    }
    proof {
        assert(rv.take(rv.len() as int) == rv);
    }
    groups
}

/// The object prototype of one grid tile of type `ty`.
pub open spec fn grid_proto(ty: Seq<char>, tile: TileCoordinate) -> Proto {
    Proto {
        name: None,
        type_id: ty,
        properties: Seq::empty(),
        placement: Some(tile),
        children: Seq::empty(),
        behavior: None,
        facing: None,
        inline: false,
    }
}

/// The objects the tile groups expand to, group by group.
pub open spec fn group_protos(groups: Seq<(Seq<char>, Seq<TileCoordinate>)>) -> Seq<Proto>
    decreases groups.len(),
{
    if groups.len() == 0 {
        Seq::empty()
    } else {
        group_protos(groups.drop_last()) + groups.last().1.map_values(|t: TileCoordinate| grid_proto(groups.last().0, t))
    }
}

// ── Space definitions ─────────────────────────────────────────────────────────

/// One authored space: its size, fill floor, floor overlays, portals and
/// objects, and (after `resolve_objects`) the flat runtime objects.
pub struct SpaceDefinition {
    pub authored_id: String,
    pub width: i32,
    pub height: i32,
    pub fill_floor_type: String,
    pub permanence: SpacePermanence,
    pub portals: Vec<PortalDefinition>,
    pub objects: Vec<MapObjectEntry>,
    /// Floor placements per floor type id, overlaid on `fill_floor_type`.
    pub floors: Vec<(String, FloorPlacements)>,
    /// Single-character keys of `tiles` mapped to object type ids.
    pub legend: Vec<(String, String)>,
    /// ASCII grid of objects, row-major with `y = 0` on the first line.
    pub tiles: Option<String>,
    pub resolved_objects: Vec<ResolvedObject>,
    /// Runtime id → position in `resolved_objects`.
    pub object_indices: HashMap<u64, usize>,
    /// Symbolic name → runtime id, filled by `resolve_objects`.
    pub authored_id_lookup: Vec<(String, u64)>,
}

/// The names in a table are pairwise different.
pub open spec fn names_distinct(table: Seq<(Seq<char>, u64)>) -> bool {
    forall|i: int, j: int| 0 <= i < j < table.len() ==> (#[trigger] table[i]).0 != (#[trigger] table[j]).0
}

/// No inline child declares a placement of its own.
pub open spec fn inline_unplaced(protos: Seq<Proto>) -> bool {
    forall|p: int| 0 <= p < protos.len() && (#[trigger] protos[p]).inline ==> protos[p].placement is None
}

/// A `contents` entry is inline or names some object of `table`.
pub open spec fn reference_ok(c: MapObjectChild, table: Seq<(Seq<char>, u64)>) -> bool {
    match c {
        MapObjectChild::Reference(n) => exists|i: int| 0 <= i < table.len() && (#[trigger] table[i]).0 == n@,
        MapObjectChild::Inline(_) => true,
    }
}

/// Every `contents` reference names some object.
pub open spec fn references_bound(protos: Seq<Proto>, table: Seq<(Seq<char>, u64)>) -> bool {
    forall|p: int, k: int| 0 <= p < protos.len() && 0 <= k < protos[p].children.len() ==>
        #[trigger] reference_ok(protos[p].children[k], table)
}

/// Every placed object lies inside the space.
pub open spec fn placements_inside(v: Seq<ResolvedView>, width: int, height: int) -> bool {
    forall|p: int| 0 <= p < v.len() ==> match (#[trigger] v[p]).placement {
        Some(t) => 0 <= t.x < width && 0 <= t.y < height,
        None => true,
    }
}

/// No object contains itself.
pub open spec fn no_self_containment(v: Seq<ResolvedView>) -> bool {
    forall|p: int, k: int| 0 <= p < v.len() && 0 <= k < (#[trigger] v[p]).contents.len() ==> #[trigger] v[p].contents[k] != v[p].id
}

/// How often `c` occurs in `s`.
pub open spec fn count_of(s: Seq<u64>, c: u64) -> nat
    decreases s.len(),
{
    if s.len() == 0 {
        0
    } else {
        count_of(s.drop_last(), c) + if s.last() == c { 1nat } else { 0nat }
    }
}

/// How often `c` occurs in the contents of all of `v`.
pub open spec fn contained_count(v: Seq<ResolvedView>, c: u64) -> nat
    decreases v.len(),
{
    if v.len() == 0 {
        0
    } else {
        contained_count(v.drop_last(), c) + count_of(v.last().contents, c)
    }
}

/// In how many places object `o` (numbered from `start`) is: on a tile,
/// and in each container slot holding it.
pub open spec fn location_count(v: Seq<ResolvedView>, start: int, o: int) -> nat {
    (if v[o].placement is Some { 1nat } else { 0nat }) + contained_count(v, (start + o) as u64)
}

/// Every object is in at most one place.
pub open spec fn single_location(v: Seq<ResolvedView>, start: int) -> bool {
    forall|o: int| 0 <= o < v.len() ==> #[trigger] location_count(v, start, o) <= 1
}

/// Every portal starts inside the space.
pub open spec fn portals_inside(portals: Seq<PortalDefinition>, width: int, height: int) -> bool {
    forall|i: int| 0 <= i < portals.len() ==> {
        let t = (#[trigger] portals[i]).source;
        0 <= t.x < width && 0 <= t.y < height
    }
}

impl SpaceDefinition {
    /// `object_indices` maps every resolved id to its position.
    pub open spec fn index_ok(&self) -> bool {
        &&& forall|id: u64| #[trigger] self.object_indices@.contains_key(id) ==>
            self.object_indices@[id] < self.resolved_objects@.len() && self.resolved_objects@[self.object_indices@[id] as int].id == id
        &&& forall|i: int| 0 <= i < self.resolved_objects@.len() ==> self.object_indices@.contains_key(#[trigger] self.resolved_objects@[i].id)
    }

    /// The tile grid, if any, has the declared size and a usable legend.
    pub open spec fn tile_grid_ok(&self) -> bool {
        match self.tiles {
            Some(t) => grid_ok(lines_spec(t@), legend_view(self.legend@), self.width as int, self.height as int),
            None => true,
        }
    }

    /// The object groups the tile grid expands to.
    pub open spec fn grid_groups(&self) -> Seq<(Seq<char>, Seq<TileCoordinate>)> {
        match self.tiles {
            Some(t) => group_cells(grid_cells(lines_spec(t@), legend_view(self.legend@))),
            None => Seq::empty(),
        }
    }

    /// Every object of the space in resolution order: the authored entries,
    /// then the tile grid's groups.
    pub open spec fn resolution_protos(&self) -> Seq<Proto> {
        flat_entries(self.objects@) + group_protos(self.grid_groups())
    }

    /// The name table resolution builds when numbering from `start`.
    pub open spec fn resolution_names(&self, start: int) -> Seq<(Seq<char>, u64)> {
        proto_names(self.resolution_protos(), start)
    }

    /// The resolved objects when numbering from `start`.
    pub open spec fn resolution_views(&self, start: int) -> Seq<ResolvedView> {
        views_of(self.resolution_protos(), start, self.resolution_names(start))
    }

    /// Resolution from `start` goes through: a usable tile grid, ids that
    /// fit, unique names, placement-free inline children, bound references,
    /// in-bounds placements and portals, no self-containment and every
    /// object in at most one place.
    pub open spec fn resolvable(&self, start: u64) -> bool {
        let protos = self.resolution_protos();
        let table = self.resolution_names(start as int);
        let v = self.resolution_views(start as int);
        &&& self.tile_grid_ok()
        &&& start + protos.len() <= u64::MAX
        &&& names_distinct(table)
        &&& inline_unplaced(protos)
        &&& references_bound(protos, table)
        &&& placements_inside(v, self.width as int, self.height as int)
        &&& no_self_containment(v)
        &&& single_location(v, start as int)
        &&& portals_inside(self.portals@, self.width as int, self.height as int)
    }

    /// A blank space: no objects, portals, floors or grid.
    pub fn new_empty(authored_id: String, width: i32, height: i32, fill_floor_type: String) -> (d: Self)
        ensures
            d.authored_id == authored_id,
            d.width == width,
            d.height == height,
            d.fill_floor_type == fill_floor_type,
            d.permanence == SpacePermanence::Persistent,
            d.portals@.len() == 0,
            d.objects@.len() == 0,
            d.floors@.len() == 0,
            d.legend@.len() == 0,
            d.tiles is None,
            d.resolved_objects@.len() == 0,
            d.index_ok(),
    {
        let d = SpaceDefinition {
            authored_id,
            width,
            height,
            fill_floor_type,
            permanence: SpacePermanence::Persistent,
            portals: Vec::new(),
            objects: Vec::new(),
            floors: Vec::new(),
            legend: Vec::new(),
            tiles: None,
            resolved_objects: Vec::new(),
            object_indices: HashMap::new(),
            authored_id_lookup: Vec::new(),
        };
        proof {
            broadcast use vstd::std_specs::hash::group_hash_axioms;
            assert(d.object_indices@ == Map::<u64, usize>::empty());
        }
        d
    }

    /// One anonymous entry per tile-grid group, in group order.
    fn grid_entries(&self) -> (added: Vec<MapObjectEntry>)
        requires
            self.tile_grid_ok(),
        ensures
            flat_entries(added@) == group_protos(self.grid_groups()),
    {
        let rows = match &self.tiles {
            Some(t) => split_lines(t.as_str()),
            None => {
                let added: Vec<MapObjectEntry> = Vec::new();
                assert(group_protos(Seq::empty()) == Seq::<Proto>::empty());
                assert(flat_entries(added@) == Seq::<Proto>::empty());
                return added;
            },
        };
        let mut groups = tile_groups(&rows, &self.legend, self.width, self.height);
        let ghost gv = groups_view(groups@);
        let mut added: Vec<MapObjectEntry> = Vec::new();
        let mut i: usize = 0;
        assert(gv.take(0) == Seq::<(Seq<char>, Seq<TileCoordinate>)>::empty());
        while i < groups.len()
            invariant
                i <= gv.len(),
                groups@.len() == gv.len(),
                forall|j: int| i <= j < gv.len() ==> groups_view(groups@)[j] == #[trigger] gv[j],
                flat_entries(added@) == group_protos(gv.take(i as int)),
            decreases gv.len() - i,
        {
            let ghost g = gv[i as int];
            assert(groups_view(groups@)[i as int] == g);
            let mut entry: (String, Vec<TileCoordinate>) = (String::new(), Vec::new());
            let ghost before = groups@;
            std::mem::swap(&mut entry, &mut groups[i]);
            proof {
                assert forall|j: int| i < j < gv.len() implies groups_view(groups@)[j] == #[trigger] gv[j] by {
                    assert(groups@[j] == before[j]);
                }
            }
            assert(entry == before[i as int]);
            let (type_id, placement) = entry;
            assert(type_id@ == g.0 && placement@ == g.1);
            let group = AnonymousObjectPlacements {
                type_id,
                properties: Vec::new(),
                placement,
                facing: None,
            };
            proof {
                assert(props_view(group.properties@) =~= Seq::<(Seq<char>, Seq<char>)>::empty());
                assert forall|t: TileCoordinate| anon_proto(group, t) == grid_proto(g.0, t) by {}
            }
            let e = MapObjectEntry::Anonymous(group);
            let ghost prev = added@;
            added.push(e);
            proof {
                assert(added@.drop_last() == prev);
                assert(gv.take(i + 1).drop_last() == gv.take(i as int));
                assert(gv.take(i + 1).last() == g);
                assert(flat_entry(e) =~= g.1.map_values(|t: TileCoordinate| grid_proto(g.0, t)));
            }
            i = i + 1;
        }
        proof {
            assert(gv.take(gv.len() as int) == gv);
        }
        added
    }

    /// Appends one anonymous entry per tile-grid group (nothing without a grid).
    fn expand_tile_grid(&mut self)
        requires
            old(self).tile_grid_ok(),
        ensures
            flat_entries(final(self).objects@) == flat_entries(old(self).objects@) + group_protos(old(self).grid_groups()),
            final(self).authored_id == old(self).authored_id,
            final(self).width == old(self).width,
            final(self).height == old(self).height,
            final(self).fill_floor_type == old(self).fill_floor_type,
            final(self).permanence == old(self).permanence,
            final(self).portals == old(self).portals,
            final(self).floors == old(self).floors,
            final(self).legend == old(self).legend,
            final(self).tiles == old(self).tiles,
            final(self).resolved_objects == old(self).resolved_objects,
            final(self).object_indices == old(self).object_indices,
            final(self).authored_id_lookup == old(self).authored_id_lookup,
    {
        let mut added = self.grid_entries();
        proof {
            lemma_flat_entries_append(self.objects@, added@);
        }
        self.objects.append(&mut added);
    }

    /// Expands the tile grid, numbers every object from `start_id` in
    /// resolution order, binds `contents` references to runtime ids and
    /// indexes the result; returns the next free id.
    pub fn resolve_objects(&mut self, start_id: u64) -> (next: u64)
        requires
            old(self).resolvable(start_id),
        ensures
            next == start_id + old(self).resolution_protos().len(),
            resolved_views(final(self).resolved_objects@) == old(self).resolution_views(start_id as int),
            final(self).index_ok(),
            flat_entries(final(self).objects@) == old(self).resolution_protos(),
            names_view(final(self).authored_id_lookup@) == old(self).resolution_names(start_id as int),
            final(self).authored_id == old(self).authored_id,
            final(self).width == old(self).width,
            final(self).height == old(self).height,
            final(self).fill_floor_type == old(self).fill_floor_type,
            final(self).permanence == old(self).permanence,
            final(self).portals == old(self).portals,
            final(self).floors == old(self).floors,
            final(self).legend == old(self).legend,
            final(self).tiles == old(self).tiles,
    {
        self.expand_tile_grid();
        let names = collect_entry_names(&self.objects, start_id);
        let mut resolved: Vec<ResolvedObject> = Vec::new();
        let next = walk_entries(&self.objects, start_id, &names, &mut resolved);
        let ghost v = resolved_views(resolved@);
        let mut indices: HashMap<u64, usize> = HashMap::new();
        let mut i: usize = 0;
        proof {
            broadcast use vstd::std_specs::hash::group_hash_axioms;
            assert(v =~= old(self).resolution_views(start_id as int));
        }
        while i < resolved.len()
            invariant
                v == resolved_views(resolved@),
                v == old(self).resolution_views(start_id as int),
                start_id + v.len() <= u64::MAX,
                i <= resolved@.len(),
                forall|id: u64| #[trigger] indices@.contains_key(id) ==>
                    indices@[id] < i && resolved@[indices@[id] as int].id == id,
                forall|j: int| 0 <= j < i ==> indices@.contains_key(#[trigger] resolved@[j].id),
            decreases resolved@.len() - i,
        {
            broadcast use vstd::std_specs::hash::group_hash_axioms;
            let id = resolved[i].id;
            proof {
                assert(v[i as int].id == resolved@[i as int].id);
                assert forall|j: int| 0 <= j < resolved@.len() implies (#[trigger] resolved@[j]).id == start_id + j by {
                    assert(v[j].id == resolved@[j].id);
                }
            }
            indices.insert(id, i);
            i = i + 1;
        }
        self.resolved_objects = resolved;
        self.object_indices = indices;
        self.authored_id_lookup = names;
        next
    }
}

/// Every name of `proto_names(protos, base)` carries an id among the
/// `protos.len()` ids from `base`.
proof fn lemma_proto_names_range(protos: Seq<Proto>, base: int)
    requires
        0 <= base,
        base + protos.len() <= u64::MAX + 1,
    ensures
        forall|i: int| 0 <= i < proto_names(protos, base).len() ==>
            base <= (#[trigger] proto_names(protos, base)[i]).1 < base + protos.len(),
    decreases protos.len(),
{
    if protos.len() > 0 {
        lemma_proto_names_range(protos.drop_last(), base);
        let rest = proto_names(protos.drop_last(), base);
        let all = proto_names(protos, base);
        assert forall|i: int| 0 <= i < all.len() implies base <= (#[trigger] all[i]).1 < base + protos.len() by {
            match protos.last().name {
                Some(n) => {
                    assert(all == rest.push((n, (base + protos.len() - 1) as u64)));
                    if i < rest.len() {
                        assert(all[i] == rest[i]);
                    }
                },
                None => {
                    assert(all == rest);
                },
            }
        }
    }
}

/// A name present in a table looks up to the id of one of its entries.
proof fn lemma_lookup_present(table: Seq<(Seq<char>, u64)>, name: Seq<char>)
    requires
        exists|i: int| 0 <= i < table.len() && (#[trigger] table[i]).0 == name,
    ensures
        exists|j: int| 0 <= j < table.len() && (#[trigger] table[j]).0 == name && lookup_name(table, name) == table[j].1,
    decreases table.len(),
{
    if table[0].0 != name {
        let i = choose|i: int| 0 <= i < table.len() && (#[trigger] table[i]).0 == name;
        assert(table.drop_first()[i - 1] == table[i]);
        lemma_lookup_present(table.drop_first(), name);
        let j = choose|j: int| 0 <= j < table.drop_first().len() && (#[trigger] table.drop_first()[j]).0 == name
            && lookup_name(table.drop_first(), name) == table.drop_first()[j].1;
        assert(table[j + 1] == table.drop_first()[j]);
    } else {
        assert(table[0].0 == name);
    }
}

impl SpaceDefinition {
    /// What resolution from `start` gives for a space it accepts: objects
    /// numbered `start, start + 1, …` in resolution order; every placement
    /// and portal source inside the space; no object containing itself;
    /// every object placed or contained at most once; and every `contents`
    /// reference naming one of the resolved objects.
    pub proof fn lemma_resolution_laws(&self, start: u64)
        requires
            self.resolvable(start),
        ensures
            ({
                let protos = self.resolution_protos();
                let v = self.resolution_views(start as int);
                &&& v.len() == protos.len()
                &&& forall|i: int| 0 <= i < v.len() ==> (#[trigger] v[i]).id == start + i
                &&& placements_inside(v, self.width as int, self.height as int)
                &&& portals_inside(self.portals@, self.width as int, self.height as int)
                &&& no_self_containment(v)
                &&& single_location(v, start as int)
                &&& forall|p: int, k: int| 0 <= p < v.len() && 0 <= k < protos[p].children.len()
                    && (#[trigger] protos[p].children[k]) is Reference ==>
                    start <= v[p].contents[k] < start + v.len()
            }),
    {
        let protos = self.resolution_protos();
        let table = self.resolution_names(start as int);
        let v = self.resolution_views(start as int);
        lemma_proto_names_range(protos, start as int);
        assert forall|p: int, k: int| 0 <= p < v.len() && 0 <= k < protos[p].children.len()
            && (#[trigger] protos[p].children[k]) is Reference implies
            start <= v[p].contents[k] < start + v.len() by {
            assert(reference_ok(protos[p].children[k], table));
            match protos[p].children[k] {
                MapObjectChild::Reference(n) => {
                    lemma_lookup_present(table, n@);
                    let j = choose|j: int| 0 <= j < table.len() && (#[trigger] table[j]).0 == n@ && lookup_name(table, n@) == table[j].1;
                    assert(v[p].contents[k] == child_id(protos[p].children, k, start + p, table));
                },
                MapObjectChild::Inline(_) => {},
            }
        }
    }
}

// ── Checking resolution ──────────────────────────────────────────────────────

/// Why resolving a space would fail.
#[derive(Clone, Copy, Debug, PartialEq, Eq, Structural)]
pub enum ResolveProblem {
    /// The tile grid's row count differs from the height.
    GridRowCount,
    /// A legend key is not exactly one character.
    LegendKey,
    /// A tile grid row's length differs from the width.
    GridRowWidth,
    /// The runtime ids would run past `u64::MAX`.
    IdOverflow,
    /// Two objects declare the same symbolic id.
    DuplicateName,
    /// An inline child declares a placement.
    PlacedInlineChild,
    /// A `contents` reference names no object.
    MissingReference,
    /// An object is placed outside the space.
    PlacementOutside,
    /// An object contains itself.
    SelfContainment,
    /// An object is in more than one place.
    MultipleLocations,
    /// A portal starts outside the space.
    PortalOutside,
}

/// Size of an instance's expansion, when it is at most `budget`.
fn count_instance(inst: &MapObjectInstance, inline: bool, budget: u64) -> (n: Option<u64>)
    ensures
        match n {
            Some(c) => c == flat_instance(*inst, inline).len() && c <= budget,
            None => flat_instance(*inst, inline).len() > budget,
        },
    decreases inst,
{
    let ghost cs = inst.contents@;
    if budget == 0 {
        return None;
    }
    let mut used: u64 = 1;
    let mut k: usize = 0;
    assert(cs.take(0) == Seq::<MapObjectChild>::empty());
    while k < inst.contents.len()
        invariant
            cs == inst.contents@,
            flat_instance(*inst, inline) == seq![instance_proto(*inst, inline)] + flat_children(cs),
            k <= cs.len(),
            used == 1 + flat_children(cs.take(k as int)).len(),
            used <= budget,
        decreases cs.len() - k,
    {
        proof {
            lemma_flat_children_take(cs, k as int);
            lemma_flat_children_append(cs.take(k + 1), cs.skip(k + 1));
            assert(cs.take(k + 1) + cs.skip(k + 1) == cs);
        }
        match &inst.contents[k] {
            MapObjectChild::Inline(b) => {
                match count_instance(b, true, budget - used) {
                    Some(c) => {
                        used = used + c;
                    },
                    None => {
                        return None;
                    },
                }
            },
            MapObjectChild::Reference(_) => {},
        }
        k = k + 1;
    }
    assert(cs.take(cs.len() as int) == cs);
    Some(used)
}

/// Size of the entries' expansion, when it is at most `budget`.
fn count_entries(objects: &Vec<MapObjectEntry>, budget: u64) -> (n: Option<u64>)
    ensures
        match n {
            Some(c) => c == flat_entries(objects@).len() && c <= budget,
            None => flat_entries(objects@).len() > budget,
        },
{
    let mut used: u64 = 0;
    let mut e: usize = 0;
    assert(objects@.take(0) == Seq::<MapObjectEntry>::empty());
    while e < objects.len()
        invariant
            e <= objects@.len(),
            used == flat_entries(objects@.take(e as int)).len(),
            used <= budget,
        decreases objects@.len() - e,
    {
        proof {
            assert(objects@.take(e + 1).drop_last() == objects@.take(e as int));
            lemma_flat_entries_append(objects@.take(e + 1), objects@.skip(e + 1));
            assert(objects@.take(e + 1) + objects@.skip(e + 1) == objects@);
        }
        match &objects[e] {
            MapObjectEntry::Explicit(inst) => {
                match count_instance(inst, false, budget - used) {
                    Some(c) => {
                        used = used + c;
                    },
                    None => {
                        return None;
                    },
                }
            },
            MapObjectEntry::Anonymous(g) => {
                let c = g.placement.len();
                if c as u64 > budget - used {
                    return None;
                }
                used = used + c as u64;
            },
        }
        e = e + 1;
    }
    assert(objects@.take(objects@.len() as int) == objects@);
    Some(used)
}

impl SpaceDefinition {
    /// What is wrong with the tile grid, if anything.
    pub fn grid_problem(&self) -> (p: Option<ResolveProblem>)
        ensures
            p is None <==> self.tile_grid_ok(),
            p == Some(ResolveProblem::GridRowCount) ==> self.tiles is Some && lines_spec(self.tiles->0@).len() != self.height,
            p == Some(ResolveProblem::LegendKey) ==> exists|i: int| 0 <= i < self.legend@.len() && (#[trigger] self.legend@[i]).0@.len() != 1,
            p == Some(ResolveProblem::GridRowWidth) ==> self.tiles is Some
                && exists|r: int| 0 <= r < lines_spec(self.tiles->0@).len() && (#[trigger] lines_spec(self.tiles->0@)[r]).len() != self.width,
            p is Some ==> p == Some(ResolveProblem::GridRowCount) || p == Some(ResolveProblem::LegendKey) || p == Some(ResolveProblem::GridRowWidth),
    {
        let t = match &self.tiles {
            Some(t) => t,
            None => {
                return None;
            },
        };
        let rows = split_lines(t.as_str());
        let ghost rv = rows_view(rows@);
        let ghost lv = legend_view(self.legend@);
        if self.height < 0 || rows.len() != self.height as usize {
            return Some(ResolveProblem::GridRowCount);
        }
        let mut i: usize = 0;
        while i < self.legend.len()
            invariant
                i <= self.legend@.len(),
                lv == legend_view(self.legend@),
                self.tiles is Some,
                forall|j: int| 0 <= j < i ==> (#[trigger] self.legend@[j]).0@.len() == 1,
            decreases self.legend@.len() - i,
        {
            let key = crate::text::chars_of(self.legend[i].0.as_str());
            if key.len() != 1 {
                assert(lv[i as int].0 == self.legend@[i as int].0@);
                assert(lv[i as int].0.len() != 1);
                return Some(ResolveProblem::LegendKey);
            }
            i = i + 1;
        }
        proof {
            assert forall|j: int| 0 <= j < lv.len() implies (#[trigger] lv[j]).0.len() == 1 by {
                assert(lv[j].0 == self.legend@[j].0@);
            }
        }
        let mut r: usize = 0;
        while r < rows.len()
            invariant
                r <= rows@.len(),
                rv == rows_view(rows@),
                self.tiles is Some,
                rv == lines_spec(self.tiles->0@),
                forall|j: int| 0 <= j < r ==> (#[trigger] rv[j]).len() == self.width,
            decreases rows@.len() - r,
        {
            assert(rv[r as int] == rows@[r as int]@);
            if self.width < 0 || rows[r].len() != self.width as usize {
                assert(rv[r as int].len() != self.width);
                assert(lines_spec(self.tiles->0@)[r as int].len() != self.width);
                return Some(ResolveProblem::GridRowWidth);
            }
            r = r + 1;
        }
        None
    }
}

/// Name-table ids lie in `[base, base + |protos|)`.
proof fn lemma_proto_names_ids(protos: Seq<Proto>, base: int)
    requires
        0 <= base,
        base + protos.len() <= u64::MAX,
    ensures
        forall|i: int| 0 <= i < proto_names(protos, base).len() ==>
            base <= (#[trigger] proto_names(protos, base)[i]).1 < base + protos.len(),
    decreases protos.len(),
{
    if protos.len() > 0 {
        let rest = proto_names(protos.drop_last(), base);
        let table = proto_names(protos, base);
        lemma_proto_names_ids(protos.drop_last(), base);
        assert forall|i: int| 0 <= i < table.len() implies base <= (#[trigger] table[i]).1 < base + protos.len() by {
            if i < rest.len() {
                assert(table[i] == rest[i]);
                assert(base <= rest[i].1 < base + protos.len() - 1);
            } else {
                assert(table[i].1 == (base + protos.len() - 1) as u64);
            }
        }
    }
}

/// Without `u64::MAX` among the ids, a lookup fails exactly when the name is unbound.
proof fn lemma_lookup_bound(table: Seq<(Seq<char>, u64)>, n: Seq<char>)
    requires
        forall|i: int| 0 <= i < table.len() ==> (#[trigger] table[i]).1 != u64::MAX,
    ensures
        lookup_name(table, n) != u64::MAX <==> exists|i: int| 0 <= i < table.len() && (#[trigger] table[i]).0 == n,
    decreases table.len(),
{
    if table.len() > 0 {
        let rest = table.drop_first();
        assert forall|i: int| 0 <= i < rest.len() implies (#[trigger] rest[i]).1 != u64::MAX by {
            assert(rest[i] == table[i + 1]);
        }
        lemma_lookup_bound(rest, n);
        if table[0].0 != n {
            if exists|i: int| 0 <= i < table.len() && (#[trigger] table[i]).0 == n {
                let i = choose|i: int| 0 <= i < table.len() && (#[trigger] table[i]).0 == n;
                assert(rest[i - 1] == table[i]);
            }
            if exists|i: int| 0 <= i < rest.len() && (#[trigger] rest[i]).0 == n {
                let i = choose|i: int| 0 <= i < rest.len() && (#[trigger] rest[i]).0 == n;
                assert(rest[i] == table[i + 1]);
            }
        }
    }
}

pub proof fn lemma_inline_unplaced_append(a: Seq<Proto>, b: Seq<Proto>)
    ensures
        inline_unplaced(a + b) == (inline_unplaced(a) && inline_unplaced(b)),
{
    if inline_unplaced(a) && inline_unplaced(b) {
        assert forall|p: int| 0 <= p < (a + b).len() && (#[trigger] (a + b)[p]).inline implies (a + b)[p].placement is None by {
            if p < a.len() {
                assert((a + b)[p] == a[p]);
            } else {
                assert((a + b)[p] == b[p - a.len()]);
            }
        }
    }
    if inline_unplaced(a + b) {
        assert forall|p: int| 0 <= p < a.len() && (#[trigger] a[p]).inline implies a[p].placement is None by {
            assert((a + b)[p] == a[p]);
        }
        assert forall|p: int| 0 <= p < b.len() && (#[trigger] b[p]).inline implies b[p].placement is None by {
            assert((a + b)[a.len() + p] == b[p]);
        }
    }
}

pub proof fn lemma_references_bound_append(a: Seq<Proto>, b: Seq<Proto>, table: Seq<(Seq<char>, u64)>)
    ensures
        references_bound(a + b, table) == (references_bound(a, table) && references_bound(b, table)),
{
    if references_bound(a, table) && references_bound(b, table) {
        assert forall|p: int, k: int| 0 <= p < (a + b).len() && 0 <= k < (a + b)[p].children.len() implies
            #[trigger] reference_ok((a + b)[p].children[k], table) by {
            if p < a.len() {
                assert((a + b)[p] == a[p]);
            } else {
                assert((a + b)[p] == b[p - a.len()]);
            }
        }
    }
    if references_bound(a + b, table) {
        assert forall|p: int, k: int| 0 <= p < a.len() && 0 <= k < a[p].children.len() implies
            #[trigger] reference_ok(a[p].children[k], table) by {
            assert((a + b)[p] == a[p]);
        }
        assert forall|p: int, k: int| 0 <= p < b.len() && 0 <= k < b[p].children.len() implies
            #[trigger] reference_ok(b[p].children[k], table) by {
            assert((a + b)[a.len() + p] == b[p]);
        }
    }
}

/// Whether every inline object of the expansion of `inst` is unplaced, and
/// whether every reference in it is bound in `names`.
fn check_instance(inst: &MapObjectInstance, inline: bool, names: &Vec<(String, u64)>) -> (r: (bool, bool))
    requires
        forall|i: int| 0 <= i < names@.len() ==> (#[trigger] names@[i]).1 != u64::MAX,
    ensures
        r.0 == inline_unplaced(flat_instance(*inst, inline)),
        r.1 == references_bound(flat_instance(*inst, inline), names_view(names@)),
    decreases inst,
{
    let ghost cs = inst.contents@;
    let ghost table = names_view(names@);
    let ghost root = seq![instance_proto(*inst, inline)];
    proof {
        assert forall|i: int| 0 <= i < table.len() implies (#[trigger] table[i]).1 != u64::MAX by {
            assert(table[i].1 == names@[i].1);
        }
    }
    let mut unplaced = !(inline && inst.placement.is_some());
    let mut own_bound = true;
    let mut sub_unplaced = true;
    let mut sub_bound = true;
    assert(cs.take(0) == Seq::<MapObjectChild>::empty());
    assert(inline_unplaced(root) == unplaced);
    let mut k: usize = 0;
    while k < inst.contents.len()
        invariant
            cs == inst.contents@,
            table == names_view(names@),
            forall|i: int| 0 <= i < table.len() ==> (#[trigger] table[i]).1 != u64::MAX,
            forall|i: int| 0 <= i < names@.len() ==> (#[trigger] names@[i]).1 != u64::MAX,
            k <= cs.len(),
            own_bound == forall|j: int| 0 <= j < k ==> #[trigger] reference_ok(cs[j], table),
            sub_unplaced == inline_unplaced(flat_children(cs.take(k as int))),
            sub_bound == references_bound(flat_children(cs.take(k as int)), table),
        decreases cs.len() - k,
    {
        proof {
            lemma_flat_children_take(cs, k as int);
        }
        match &inst.contents[k] {
            MapObjectChild::Inline(b) => {
                let (u, bd) = check_instance(b, true, names);
                proof {
                    assert(reference_ok(cs[k as int], table));
                    assert((forall|j: int| 0 <= j < k + 1 ==> #[trigger] reference_ok(cs[j], table))
                        == (forall|j: int| 0 <= j < k ==> #[trigger] reference_ok(cs[j], table)));
                    lemma_inline_unplaced_append(flat_children(cs.take(k as int)), flat_instance(**b, true));
                    lemma_references_bound_append(flat_children(cs.take(k as int)), flat_instance(**b, true), table);
                }
                sub_unplaced = sub_unplaced && u;
                sub_bound = sub_bound && bd;
            },
            MapObjectChild::Reference(n) => {
                let id = lookup_id(names, n);
                proof {
                    lemma_lookup_bound(table, n@);
                    assert(flat_children(cs.take(k + 1)) == flat_children(cs.take(k as int)) + Seq::<Proto>::empty());
                }
                if id == u64::MAX {
                    assert(!reference_ok(cs[k as int], table));
                    own_bound = false;
                } else {
                    assert(reference_ok(cs[k as int], table));
                    assert((forall|j: int| 0 <= j < k + 1 ==> #[trigger] reference_ok(cs[j], table))
                        == (forall|j: int| 0 <= j < k ==> #[trigger] reference_ok(cs[j], table)));
                }
            },
        }
        k = k + 1;
    }
    proof {
        assert(cs.take(cs.len() as int) == cs);
        lemma_inline_unplaced_append(root, flat_children(cs));
        lemma_references_bound_append(root, flat_children(cs), table);
        assert(root[0].children == cs);
        if own_bound {
            assert forall|p: int, j: int| 0 <= p < root.len() && 0 <= j < root[p].children.len() implies
                #[trigger] reference_ok(root[p].children[j], table) by {
                assert(reference_ok(cs[j], table));
            }
        } else {
            let j = choose|j: int| 0 <= j < cs.len() && !#[trigger] reference_ok(cs[j], table);
            assert(!reference_ok(root[0].children[j], table));
        }
    }
    (unplaced && sub_unplaced, own_bound && sub_bound)
}

/// `check_instance` over every entry.
fn check_entries(objects: &Vec<MapObjectEntry>, names: &Vec<(String, u64)>) -> (r: (bool, bool))
    requires
        forall|i: int| 0 <= i < names@.len() ==> (#[trigger] names@[i]).1 != u64::MAX,
    ensures
        r.0 == inline_unplaced(flat_entries(objects@)),
        r.1 == references_bound(flat_entries(objects@), names_view(names@)),
{
    let ghost table = names_view(names@);
    let mut unplaced = true;
    let mut bound = true;
    let mut e: usize = 0;
    assert(objects@.take(0) == Seq::<MapObjectEntry>::empty());
    while e < objects.len()
        invariant
            table == names_view(names@),
            forall|i: int| 0 <= i < names@.len() ==> (#[trigger] names@[i]).1 != u64::MAX,
            e <= objects@.len(),
            unplaced == inline_unplaced(flat_entries(objects@.take(e as int))),
            bound == references_bound(flat_entries(objects@.take(e as int)), table),
        decreases objects@.len() - e,
    {
        proof {
            assert(objects@.take(e + 1).drop_last() == objects@.take(e as int));
            lemma_inline_unplaced_append(flat_entries(objects@.take(e as int)), flat_entry(objects@[e as int]));
            lemma_references_bound_append(flat_entries(objects@.take(e as int)), flat_entry(objects@[e as int]), table);
        }
        match &objects[e] {
            MapObjectEntry::Explicit(inst) => {
                let (u, b) = check_instance(inst, false, names);
                unplaced = unplaced && u;
                bound = bound && b;
            },
            MapObjectEntry::Anonymous(g) => {
                proof {
                    let f = flat_entry(objects@[e as int]);
                    assert(inline_unplaced(f));
                    assert forall|p: int, k: int| 0 <= p < f.len() && 0 <= k < f[p].children.len() implies
                        #[trigger] reference_ok(f[p].children[k], table) by {
                        assert(f[p].children.len() == 0);
                    }
                }
            },
        }
        e = e + 1;
    }
    assert(objects@.take(objects@.len() as int) == objects@);
    (unplaced, bound)
}

/// Whether no name occurs twice in `names`.
fn names_unique(names: &Vec<(String, u64)>) -> (b: bool)
    ensures
        b == names_distinct(names_view(names@)),
{
    let ghost t = names_view(names@);
    let mut i: usize = 0;
    while i < names.len()
        invariant
            t == names_view(names@),
            i <= names@.len(),
            forall|a: int, b: int| 0 <= a < i && a < b < t.len() ==> (#[trigger] t[a]).0 != (#[trigger] t[b]).0,
        decreases names@.len() - i,
    {
        let mut j: usize = i + 1;
        while j < names.len()
            invariant
                t == names_view(names@),
                i < names@.len(),
                i + 1 <= j <= names@.len(),
                forall|a: int, b: int| 0 <= a < i && a < b < t.len() ==> (#[trigger] t[a]).0 != (#[trigger] t[b]).0,
                forall|b: int| i < b < j ==> t[i as int].0 != (#[trigger] t[b]).0,
            decreases names@.len() - j,
        {
            if names[i].0 == names[j].0 {
                assert(t[i as int].0 == t[j as int].0);
                return false;
            }
            j = j + 1;
        }
        i = i + 1;
    }
    true
}

/// Whether every placed object lies inside `width × height`.
fn placements_ok(resolved: &Vec<ResolvedObject>, width: i32, height: i32) -> (b: bool)
    ensures
        b == placements_inside(resolved_views(resolved@), width as int, height as int),
{
    let ghost v = resolved_views(resolved@);
    let mut i: usize = 0;
    while i < resolved.len()
        invariant
            v == resolved_views(resolved@),
            i <= v.len(),
            forall|p: int| 0 <= p < i ==> match (#[trigger] v[p]).placement {
                Some(t) => 0 <= t.x < width && 0 <= t.y < height,
                None => true,
            },
        decreases v.len() - i,
    {
        assert(v[i as int].placement == resolved@[i as int].placement);
        match resolved[i].placement {
            Some(t) => {
                if !(t.x >= 0 && t.y >= 0 && t.x < width && t.y < height) {
                    return false;
                }
            },
            None => {},
        }
        i = i + 1;
    }
    true
}

/// Whether no object lists its own id among its contents.
fn self_containment_free(resolved: &Vec<ResolvedObject>) -> (b: bool)
    ensures
        b == no_self_containment(resolved_views(resolved@)),
{
    let ghost v = resolved_views(resolved@);
    let mut i: usize = 0;
    while i < resolved.len()
        invariant
            v == resolved_views(resolved@),
            i <= v.len(),
            forall|p: int, k: int| 0 <= p < i && 0 <= k < (#[trigger] v[p]).contents.len() ==> #[trigger] v[p].contents[k] != v[p].id,
        decreases v.len() - i,
    {
        assert(v[i as int] == resolved@[i as int]@);
        let mut k: usize = 0;
        while k < resolved[i].contents.len()
            invariant
                v == resolved_views(resolved@),
                i < v.len(),
                v[i as int] == resolved@[i as int]@,
                k <= v[i as int].contents.len(),
                forall|p: int, kk: int| 0 <= p < i && 0 <= kk < (#[trigger] v[p]).contents.len() ==> #[trigger] v[p].contents[kk] != v[p].id,
                forall|kk: int| 0 <= kk < k ==> #[trigger] v[i as int].contents[kk] != v[i as int].id,
            decreases v[i as int].contents.len() - k,
        {
            if resolved[i].contents[k] == resolved[i].id {
                return false;
            }
            k = k + 1;
        }
        i = i + 1;
    }
    true
}

/// Whether every portal starts inside `width × height`.
fn portals_ok(portals: &Vec<PortalDefinition>, width: i32, height: i32) -> (b: bool)
    ensures
        b == portals_inside(portals@, width as int, height as int),
{
    let mut i: usize = 0;
    while i < portals.len()
        invariant
            i <= portals@.len(),
            forall|j: int| 0 <= j < i ==> {
                let t = (#[trigger] portals@[j]).source;
                0 <= t.x < width && 0 <= t.y < height
            },
        decreases portals@.len() - i,
    {
        let t = portals[i].source;
        if !(t.x >= 0 && t.y >= 0 && t.x < width && t.y < height) {
            return false;
        }
        i = i + 1;
    }
    true
}

pub proof fn lemma_count_of_append(a: Seq<u64>, b: Seq<u64>, c: u64)
    ensures
        count_of(a + b, c) == count_of(a, c) + count_of(b, c),
    decreases b.len(),
{
    if b.len() == 0 {
        assert(a + b == a);
    } else {
        lemma_count_of_append(a, b.drop_last(), c);
        assert((a + b).drop_last() == a + b.drop_last());
    }
}

pub proof fn lemma_contained_count_append(a: Seq<ResolvedView>, b: Seq<ResolvedView>, c: u64)
    ensures
        contained_count(a + b, c) == contained_count(a, c) + contained_count(b, c),
    decreases b.len(),
{
    if b.len() == 0 {
        assert(a + b == a);
    } else {
        lemma_contained_count_append(a, b.drop_last(), c);
        assert((a + b).drop_last() == a + b.drop_last());
    }
}

/// Placement plus the container slots seen so far: all of `v[..p]` and the
/// first `k` slots of `v[p]`.
pub open spec fn partial_count(v: Seq<ResolvedView>, start: int, o: int, p: int, k: int) -> nat {
    (if v[o].placement is Some { 1nat } else { 0nat })
        + contained_count(v.take(p), (start + o) as u64)
        + if p < v.len() { count_of(v[p].contents.take(k), (start + o) as u64) } else { 0nat }
}

/// The partial count never exceeds the full one, and counts one more slot
/// holding the object when there is one.
proof fn lemma_partial_le(v: Seq<ResolvedView>, start: int, o: int, p: int, k: int)
    requires
        0 <= o < v.len(),
        0 <= p < v.len(),
        0 <= k < v[p].contents.len(),
    ensures
        partial_count(v, start, o, p, k) + (if v[p].contents[k] == (start + o) as u64 { 1nat } else { 0nat })
            <= location_count(v, start, o),
        partial_count(v, start, o, p, k + 1) == partial_count(v, start, o, p, k)
            + (if v[p].contents[k] == (start + o) as u64 { 1nat } else { 0nat }),
{
    let c = (start + o) as u64;
    let s = v[p].contents;
    assert(s.take(k + 1).drop_last() == s.take(k));
    lemma_count_of_append(s.take(k + 1), s.skip(k + 1), c);
    assert(s.take(k + 1) + s.skip(k + 1) == s);
    lemma_contained_count_append(v.take(p + 1), v.skip(p + 1), c);
    assert(v.take(p + 1) + v.skip(p + 1) == v);
    assert(v.take(p + 1).drop_last() == v.take(p));
}

/// One more slot changes the partial count of exactly the object it holds.
proof fn lemma_partial_step(v: Seq<ResolvedView>, start: int, p: int, k: int)
    requires
        0 <= start,
        start + v.len() <= u64::MAX,
        0 <= p < v.len(),
        0 <= k < v[p].contents.len(),
    ensures
        forall|r: int| 0 <= r < v.len() ==> #[trigger] partial_count(v, start, r, p, k + 1) == partial_count(v, start, r, p, k)
            + (if v[p].contents[k] == start + r { 1nat } else { 0nat }),
{
    assert forall|r: int| 0 <= r < v.len() implies #[trigger] partial_count(v, start, r, p, k + 1) == partial_count(v, start, r, p, k)
        + (if v[p].contents[k] == start + r { 1nat } else { 0nat }) by {
        lemma_partial_le(v, start, r, p, k);
        assert((start + r) as u64 == start + r);
    }
}

/// Whether every object (numbered from `start`) is in at most one place.
#[verifier::spinoff_prover]
fn locations_ok(resolved: &Vec<ResolvedObject>, start: u64) -> (b: bool)
    requires
        start + resolved@.len() <= u64::MAX,
    ensures
        b == single_location(resolved_views(resolved@), start as int),
{
    let ghost v = resolved_views(resolved@);
    let n = resolved.len();
    let mut seen: Vec<bool> = Vec::new();
    let mut o: usize = 0;
    while o < n
        invariant
            v == resolved_views(resolved@),
            n == v.len(),
            o <= n,
            seen@.len() == o,
            forall|q: int| 0 <= q < o ==> #[trigger] seen@[q] == (v[q].placement is Some),
        decreases n - o,
    {
        assert(v[o as int].placement == resolved@[o as int].placement);
        seen.push(resolved[o].placement.is_some());
        o = o + 1;
    }
    proof {
        assert(v.take(0) == Seq::<ResolvedView>::empty());
        assert forall|q: int| 0 <= q < n implies #[trigger] seen@[q] == (partial_count(v, start as int, q, 0, 0) >= 1)
            && partial_count(v, start as int, q, 0, 0) <= 1 by {
            if n > 0 {
                assert(v[0].contents.take(0) == Seq::<u64>::empty());
            }
        }
    }
    let mut p: usize = 0;
    while p < n
        invariant
            v == resolved_views(resolved@),
            n == v.len(),
            start + n <= u64::MAX,
            p <= n,
            seen@.len() == n,
            forall|q: int| 0 <= q < n ==> #[trigger] seen@[q] == (partial_count(v, start as int, q, p as int, 0) >= 1)
                && partial_count(v, start as int, q, p as int, 0) <= 1,
        decreases n - p,
    {
        assert(v[p as int] == resolved@[p as int]@);
        let ghost cs = v[p as int].contents;
        let mut k: usize = 0;
        while k < resolved[p].contents.len()
            invariant
                v == resolved_views(resolved@),
                n == v.len(),
                start + n <= u64::MAX,
                p < n,
                cs == v[p as int].contents,
                v[p as int] == resolved@[p as int]@,
                k <= cs.len(),
                seen@.len() == n,
                forall|q: int| 0 <= q < n ==> #[trigger] seen@[q] == (partial_count(v, start as int, q, p as int, k as int) >= 1)
                    && partial_count(v, start as int, q, p as int, k as int) <= 1,
            decreases cs.len() - k,
        {
            let c = resolved[p].contents[k];
            proof {
                lemma_partial_step(v, start as int, p as int, k as int);
            }
            if c >= start && c - start < n as u64 {
                let q = (c - start) as usize;
                if seen[q] {
                    proof {
                        lemma_partial_le(v, start as int, q as int, p as int, k as int);
                        assert(location_count(v, start as int, q as int) > 1);
                    }
                    return false;
                }
                let ghost before = seen@;
                seen.set(q, true);
                proof {
                    assert forall|r: int| 0 <= r < n implies #[trigger] seen@[r] == (partial_count(v, start as int, r, p as int, k + 1) >= 1)
                        && partial_count(v, start as int, r, p as int, k + 1) <= 1 by {
                        assert(partial_count(v, start as int, r, p as int, k + 1) == partial_count(v, start as int, r, p as int, k as int)
                            + (if c == start + r { 1nat } else { 0nat }));
                        if r != q as int {
                            assert(seen@[r] == before[r]);
                        } else {
                            assert(!before[r]);
                        }
                    }
                }
            } else {
                proof {
                    assert forall|r: int| 0 <= r < n implies #[trigger] seen@[r] == (partial_count(v, start as int, r, p as int, k + 1) >= 1)
                        && partial_count(v, start as int, r, p as int, k + 1) <= 1 by {
                        assert(partial_count(v, start as int, r, p as int, k + 1) == partial_count(v, start as int, r, p as int, k as int)
                            + (if c == start + r { 1nat } else { 0nat }));
                        assert(c != start + r);
                    }
                }
            }
            assert(forall|r: int| 0 <= r < n ==> #[trigger] seen@[r] == (partial_count(v, start as int, r, p as int, k + 1) >= 1)
                && partial_count(v, start as int, r, p as int, k + 1) <= 1);
            assert(seen@.len() == n);
            k = k + 1;
        }
        proof {
            assert(cs.take(cs.len() as int) == cs);
            assert(v.take(p + 1).drop_last() == v.take(p as int));
            assert(v.take(p + 1).last() == v[p as int]);
            assert forall|q: int| 0 <= q < n implies
                partial_count(v, start as int, q, p + 1, 0) == partial_count(v, start as int, q, p as int, cs.len() as int) by {
                if p + 1 < n {
                    assert(v[p + 1].contents.take(0) == Seq::<u64>::empty());
                }
            }
            assert forall|q: int| 0 <= q < n implies #[trigger] seen@[q] == (partial_count(v, start as int, q, p + 1, 0) >= 1)
                && partial_count(v, start as int, q, p + 1, 0) <= 1 by {
                assert(partial_count(v, start as int, q, p + 1, 0) == partial_count(v, start as int, q, p as int, cs.len() as int));
            }
        }
        p = p + 1;
    }
    proof {
        assert(v.take(n as int) == v);
        assert forall|q: int| 0 <= q < n implies #[trigger] location_count(v, start as int, q) <= 1 by {
            assert(seen@[q] == (partial_count(v, start as int, q, n as int, 0) >= 1));
        }
    }
    true
}

impl SpaceDefinition {
    /// Why `resolve_objects(start_id)` would fail, if it would; `None`
    /// exactly when the space is resolvable from `start_id`.
    pub fn resolution_problem(&self, start_id: u64) -> (p: Option<ResolveProblem>)
        ensures
            p is None <==> self.resolvable(start_id),
            p == Some(ResolveProblem::GridRowCount) ==> self.tiles is Some && lines_spec(self.tiles->0@).len() != self.height,
            p == Some(ResolveProblem::LegendKey) ==> exists|i: int| 0 <= i < self.legend@.len() && (#[trigger] self.legend@[i]).0@.len() != 1,
            p == Some(ResolveProblem::GridRowWidth) ==> self.tiles is Some
                && exists|r: int| 0 <= r < lines_spec(self.tiles->0@).len() && (#[trigger] lines_spec(self.tiles->0@)[r]).len() != self.width,
            p == Some(ResolveProblem::IdOverflow) ==> start_id + self.resolution_protos().len() > u64::MAX,
            p == Some(ResolveProblem::DuplicateName) ==> !names_distinct(self.resolution_names(start_id as int)),
            p == Some(ResolveProblem::PlacedInlineChild) ==> !inline_unplaced(self.resolution_protos()),
            p == Some(ResolveProblem::MissingReference) ==> !references_bound(self.resolution_protos(), self.resolution_names(start_id as int)),
            p == Some(ResolveProblem::PlacementOutside) ==>
                !placements_inside(self.resolution_views(start_id as int), self.width as int, self.height as int),
            p == Some(ResolveProblem::SelfContainment) ==> !no_self_containment(self.resolution_views(start_id as int)),
            p == Some(ResolveProblem::MultipleLocations) ==> !single_location(self.resolution_views(start_id as int), start_id as int),
            p == Some(ResolveProblem::PortalOutside) ==> !portals_inside(self.portals@, self.width as int, self.height as int),
    {
        match self.grid_problem() {
            Some(problem) => {
                return Some(problem);
            },
            None => {},
        }
        let extra = self.grid_entries();
        let ghost fo = flat_entries(self.objects@);
        let ghost fe = flat_entries(extra@);
        let ghost protos = self.resolution_protos();
        assert(protos == fo + fe);
        let budget = u64::MAX - start_id;
        let n1 = match count_entries(&self.objects, budget) {
            Some(c) => c,
            None => {
                return Some(ResolveProblem::IdOverflow);
            },
        };
        let n2 = match count_entries(&extra, budget - n1) {
            Some(c) => c,
            None => {
                return Some(ResolveProblem::IdOverflow);
            },
        };
        let mut names = collect_entry_names(&self.objects, start_id);
        let mut more = collect_entry_names(&extra, start_id + n1);
        let ghost names_before = names@;
        names.append(&mut more);
        let ghost table = self.resolution_names(start_id as int);
        proof {
            lemma_proto_names_append(fo, fe, start_id as int);
            assert(names_view(names@) =~= names_view(names_before) + proto_names(fe, start_id + n1));
            assert(names_view(names@) == table);
        }
        if !names_unique(&names) {
            return Some(ResolveProblem::DuplicateName);
        }
        proof {
            lemma_proto_names_ids(protos, start_id as int);
            assert forall|i: int| 0 <= i < names@.len() implies (#[trigger] names@[i]).1 != u64::MAX by {
                assert(table[i].1 == names@[i].1);
            }
        }
        let (u1, b1) = check_entries(&self.objects, &names);
        let (u2, b2) = check_entries(&extra, &names);
        proof {
            lemma_inline_unplaced_append(fo, fe);
            lemma_references_bound_append(fo, fe, table);
        }
        if !(u1 && u2) {
            return Some(ResolveProblem::PlacedInlineChild);
        }
        if !(b1 && b2) {
            return Some(ResolveProblem::MissingReference);
        }
        let mut resolved: Vec<ResolvedObject> = Vec::new();
        let n = walk_entries(&self.objects, start_id, &names, &mut resolved);
        walk_entries(&extra, n, &names, &mut resolved);
        proof {
            lemma_views_of_append(fo, fe, start_id as int, table);
            assert(resolved_views(resolved@) =~= self.resolution_views(start_id as int));
        }
        if !placements_ok(&resolved, self.width, self.height) {
            return Some(ResolveProblem::PlacementOutside);
        }
        if !self_containment_free(&resolved) {
            return Some(ResolveProblem::SelfContainment);
        }
        if !locations_ok(&resolved, start_id) {
            return Some(ResolveProblem::MultipleLocations);
        }
        if !portals_ok(&self.portals, self.width, self.height) {
            return Some(ResolveProblem::PortalOutside);
        }
        None
    }
}

/// The portal source of `portal` as a tile position.
pub open spec fn source_position(portal: PortalDefinition) -> TilePosition {
    TilePosition { x: portal.source.x, y: portal.source.y, z: portal.source.z }
}

impl SpaceDefinition {
    /// The first portal whose source is `tile_position`.
    pub fn portal_at(&self, tile_position: TilePosition) -> (r: Option<&PortalDefinition>)
        ensures
            r is None <==> forall|i: int| 0 <= i < self.portals@.len() ==> source_position(#[trigger] self.portals@[i]) != tile_position,
            r is Some ==> exists|i: int| 0 <= i < self.portals@.len() && *r->0 == self.portals@[i]
                && source_position(self.portals@[i]) == tile_position
                && forall|j: int| 0 <= j < i ==> source_position(#[trigger] self.portals@[j]) != tile_position,
    {
        let mut i: usize = 0;
        while i < self.portals.len()
            invariant
                i <= self.portals@.len(),
                forall|j: int| 0 <= j < i ==> source_position(#[trigger] self.portals@[j]) != tile_position,
            decreases self.portals@.len() - i,
        {
            if self.portals[i].source.to_tile_position() == tile_position {
                return Some(&self.portals[i]);
            }
            i = i + 1;
        }
        None
    }

    /// Whether some resolved object holds `object_id` in its contents.
    pub fn is_contained(&self, object_id: u64) -> (b: bool)
        ensures
            b == exists|p: int, k: int| 0 <= p < self.resolved_objects@.len()
                && 0 <= k < self.resolved_objects@[p].contents@.len()
                && #[trigger] self.resolved_objects@[p].contents@[k] == object_id,
    {
        let mut p: usize = 0;
        while p < self.resolved_objects.len()
            invariant
                p <= self.resolved_objects@.len(),
                forall|q: int, k: int| 0 <= q < p && 0 <= k < self.resolved_objects@[q].contents@.len()
                    ==> #[trigger] self.resolved_objects@[q].contents@[k] != object_id,
            decreases self.resolved_objects@.len() - p,
        {
            let mut k: usize = 0;
            while k < self.resolved_objects[p].contents.len()
                invariant
                    p < self.resolved_objects@.len(),
                    k <= self.resolved_objects@[p as int].contents@.len(),
                    forall|q: int, kk: int| 0 <= q < p && 0 <= kk < self.resolved_objects@[q].contents@.len()
                        ==> #[trigger] self.resolved_objects@[q].contents@[kk] != object_id,
                    forall|kk: int| 0 <= kk < k ==> #[trigger] self.resolved_objects@[p as int].contents@[kk] != object_id,
                decreases self.resolved_objects@[p as int].contents@.len() - k,
            {
                if self.resolved_objects[p].contents[k] == object_id {
                    return true;
                }
                k = k + 1;
            }
            p = p + 1;
        }
        false
    }

    /// The resolved object with runtime id `object_id`.
    pub fn find_resolved(&self, object_id: u64) -> (r: Option<&ResolvedObject>)
        requires
            self.index_ok(),
        ensures
            r is Some <==> exists|i: int| 0 <= i < self.resolved_objects@.len() && (#[trigger] self.resolved_objects@[i]).id == object_id,
            r is Some ==> r->0.id == object_id
                && exists|i: int| 0 <= i < self.resolved_objects@.len() && *r->0 == self.resolved_objects@[i],
    {
        broadcast use vstd::std_specs::hash::group_hash_axioms;
        match self.object_indices.get(&object_id) {
            Some(i) => {
                let i = *i;
                if i < self.resolved_objects.len() {
                    Some(&self.resolved_objects[i])
                } else {
                    None
                }
            },
            None => {
                proof {
                    assert forall|i: int| 0 <= i < self.resolved_objects@.len() implies (#[trigger] self.resolved_objects@[i]).id != object_id by {
                        assert(self.object_indices@.contains_key(self.resolved_objects@[i].id));
                    }
                }
                None
            },
        }
    }
}

// ── Floor maps ────────────────────────────────────────────────────────────────

/// A floor type written at a tile.
pub struct FloorWrite {
    pub x: int,
    pub y: int,
    pub floor: String,
}

/// The floor at `(x, y)` after applying `writes` in order over `base`.
pub open spec fn paint(writes: Seq<FloorWrite>, base: Option<String>, x: int, y: int) -> Option<String>
    decreases writes.len(),
{
    if writes.len() == 0 {
        base
    } else if writes.last().x == x && writes.last().y == y {
        Some(writes.last().floor)
    } else {
        paint(writes.drop_last(), base, x, y)
    }
}

/// Writes of the single tiles on floor `z`, in order.
pub open spec fn tile_writes(placement: Seq<TileCoordinate>, z: int, floor: String) -> Seq<FloorWrite>
    decreases placement.len(),
{
    if placement.len() == 0 {
        Seq::empty()
    } else {
        let rest = tile_writes(placement.drop_last(), z, floor);
        let t = placement.last();
        if t.z == z {
            rest.push(FloorWrite { x: t.x as int, y: t.y as int, floor })
        } else {
            rest
        }
    }
}

/// Writes of one rectangle row, left to right.
pub open spec fn row_writes(x: int, y: int, w: int, floor: String) -> Seq<FloorWrite> {
    if w <= 0 {
        Seq::empty()
    } else {
        Seq::new(w as nat, |dx: int| FloorWrite { x: x + dx, y, floor })
    }
}

/// Writes of the first `rows` rows of a rectangle, row by row.
pub open spec fn rect_writes(r: TileRectangleArea, rows: int, floor: String) -> Seq<FloorWrite>
    decreases rows,
{
    if rows <= 0 {
        Seq::empty()
    } else {
        rect_writes(r, rows - 1, floor) + row_writes(r.x as int, r.y + rows - 1, r.w as int, floor)
    }
}

/// Writes of the rectangles on floor `z`, in order.
pub open spec fn rects_writes(rects: Seq<TileRectangleArea>, z: int, floor: String) -> Seq<FloorWrite>
    decreases rects.len(),
{
    if rects.len() == 0 {
        Seq::empty()
    } else {
        let r = rects.last();
        rects_writes(rects.drop_last(), z, floor) + if r.z == z { rect_writes(r, r.h as int, floor) } else { Seq::empty() }
    }
}

/// Every overlay write on floor `z`: group by group, tiles then rectangles.
pub open spec fn floor_writes(floors: Seq<(String, FloorPlacements)>, z: int) -> Seq<FloorWrite>
    decreases floors.len(),
{
    if floors.len() == 0 {
        Seq::empty()
    } else {
        let g = floors.last();
        floor_writes(floors.drop_last(), z) + tile_writes(g.1.placement@, z, g.0) + rects_writes(g.1.rects@, z, g.0)
    }
}

/// Every rectangle on floor `z` stays within `i32` coordinates.
pub open spec fn rects_fit(floors: Seq<(String, FloorPlacements)>, z: int) -> bool {
    forall|i: int, j: int| 0 <= i < floors.len() && 0 <= j < floors[i].1.rects@.len() ==> {
        let r = #[trigger] floors[i].1.rects@[j];
        r.z == z && r.w > 0 && r.h > 0 ==> r.x + r.w - 1 <= i32::MAX && r.y + r.h - 1 <= i32::MAX
    }
}

/// `map` shows `base` overlaid with `writes` on every in-bounds tile.
pub open spec fn painted(map: FloorMap, writes: Seq<FloorWrite>, base: Option<String>) -> bool {
    forall|x: int, y: int| #[trigger] map.in_bounds_spec(x, y) ==> map.tile(x, y) == paint(writes, base, x, y)
}

/// Writes `floor` at `(x, y)` and records the write.
fn write_floor(map: &mut FloorMap, x: i32, y: i32, floor: &String, Ghost(writes): Ghost<Seq<FloorWrite>>, Ghost(base): Ghost<Option<String>>)
    requires
        old(map).wf(),
        painted(*old(map), writes, base),
    ensures
        final(map).wf(),
        final(map).width == old(map).width,
        final(map).height == old(map).height,
        painted(*final(map), writes.push(FloorWrite { x: x as int, y: y as int, floor: *floor }), base),
{
    let ghost w2 = writes.push(FloorWrite { x: x as int, y: y as int, floor: *floor });
    map.set(x, y, Some(floor.clone()));
    proof {
        assert forall|a: int, b: int| #[trigger] map.in_bounds_spec(a, b) implies map.tile(a, b) == paint(w2, base, a, b) by {
            assert(w2.drop_last() == writes);
            assert(old(map).in_bounds_spec(a, b));
        }
    }
}

impl SpaceDefinition {
    /// The floor grid of floor `z`: every cell starts as the fill type and is
    /// overlaid with every placement on `z` in order; writes outside the
    /// grid are dropped.
    pub fn build_floor_map(&self, z: i32) -> (map: FloorMap)
        requires
            self.width >= 0,
            self.height >= 0,
            self.width * self.height <= usize::MAX,
            rects_fit(self.floors@, z as int),
        ensures
            map.wf(),
            map.width == self.width,
            map.height == self.height,
            painted(map, floor_writes(self.floors@, z as int), Some(self.fill_floor_type)),
    {
        let fill = Some(self.fill_floor_type.clone());
        let ghost base = fill;
        let mut map = FloorMap::new_filled(self.width, self.height, fill);
        proof {
            assert forall|x: int, y: int| #[trigger] map.in_bounds_spec(x, y) implies map.tile(x, y) == paint(Seq::empty(), base, x, y) by {
                crate::dungeon_gen::lemma_index_in_range(map.width as int, map.height as int, x, y);
            }
        }
        let ghost mut w: Seq<FloorWrite> = Seq::empty();
        let mut g: usize = 0;
        assert(self.floors@.take(0) == Seq::<(String, FloorPlacements)>::empty());
        while g < self.floors.len()
            invariant
                map.wf(),
                map.width == self.width,
                map.height == self.height,
                rects_fit(self.floors@, z as int),
                g <= self.floors@.len(),
                w == floor_writes(self.floors@.take(g as int), z as int),
                painted(map, w, base),
            decreases self.floors@.len() - g,
        {
            let floor = &self.floors[g].0;
            let group = &self.floors[g].1;
            let ghost w0 = w;
            let mut t: usize = 0;
            assert(group.placement@.take(0) == Seq::<TileCoordinate>::empty());
            while t < group.placement.len()
                invariant
                    map.wf(),
                    map.width == self.width,
                    map.height == self.height,
                    t <= group.placement@.len(),
                    w == w0 + tile_writes(group.placement@.take(t as int), z as int, *floor),
                    painted(map, w, base),
                decreases group.placement@.len() - t,
            {
                let tile = group.placement[t];
                assert(group.placement@.take(t + 1).drop_last() == group.placement@.take(t as int));
                if tile.z == z {
                    write_floor(&mut map, tile.x, tile.y, floor, Ghost(w), Ghost(base));
                    proof {
                        w = w.push(FloorWrite { x: tile.x as int, y: tile.y as int, floor: *floor });
                    }
                }
                t = t + 1;
            }
            assert(group.placement@.take(group.placement@.len() as int) == group.placement@);
            let ghost w1 = w;
            let mut ri: usize = 0;
            assert(group.rects@.take(0) == Seq::<TileRectangleArea>::empty());
            while ri < group.rects.len()
                invariant
                    map.wf(),
                    map.width == self.width,
                    map.height == self.height,
                    rects_fit(self.floors@, z as int),
                    g < self.floors@.len(),
                    *group == self.floors@[g as int].1,
                    ri <= group.rects@.len(),
                    w == w1 + rects_writes(group.rects@.take(ri as int), z as int, *floor),
                    painted(map, w, base),
                decreases group.rects@.len() - ri,
            {
                let rect = group.rects[ri];
                assert(group.rects@.take(ri + 1).drop_last() == group.rects@.take(ri as int));
                if rect.z == z {
                    let ghost wr = w;
                    let mut dy: i32 = 0;
                    while dy < rect.h
                        invariant
                            map.wf(),
                            map.width == self.width,
                            map.height == self.height,
                            rect == self.floors@[g as int].1.rects@[ri as int],
                            rect.z == z,
                            rect.w > 0 && rect.h > 0 ==> rect.x + rect.w - 1 <= i32::MAX && rect.y + rect.h - 1 <= i32::MAX,
                            0 <= dy <= rect.h || (rect.h <= 0 && dy == 0),
                            w == wr + rect_writes(rect, dy as int, *floor),
                            painted(map, w, base),
                        decreases rect.h - dy,
                    {
                        let ghost wd = w;
                        let mut dx: i32 = 0;
                        while dx < rect.w
                            invariant
                                map.wf(),
                                map.width == self.width,
                                map.height == self.height,
                                rect.z == z,
                                rect.h > 0,
                                0 <= dy < rect.h,
                                rect.w > 0 ==> rect.x + rect.w - 1 <= i32::MAX && rect.y + rect.h - 1 <= i32::MAX,
                                0 <= dx <= rect.w || (rect.w <= 0 && dx == 0),
                                w == wd + row_writes(rect.x as int, rect.y + dy, rect.w as int, *floor).take(dx as int),
                                painted(map, w, base),
                            decreases rect.w - dx,
                        {
                            let x = rect.x + dx;
                            let y = rect.y + dy;
                            write_floor(&mut map, x, y, floor, Ghost(w), Ghost(base));
                            proof {
                                let rw = row_writes(rect.x as int, rect.y + dy, rect.w as int, *floor);
                                assert(rw.take(dx + 1) == rw.take(dx as int).push(FloorWrite { x: x as int, y: y as int, floor: *floor }));
                                w = w.push(FloorWrite { x: x as int, y: y as int, floor: *floor });
                            }
                            dx = dx + 1;
                        }
                        proof {
                            let rw = row_writes(rect.x as int, rect.y + dy, rect.w as int, *floor);
                            if rect.w > 0 {
                                assert(rw.take(rect.w as int) == rw);
                            } else {
                                assert(rw.take(0) == rw);
                            }
                        }
                        dy = dy + 1;
                    }
                    proof {
                        if rect.h <= 0 {
                            assert(rect_writes(rect, rect.h as int, *floor) == rect_writes(rect, 0, *floor));
                        }
                    }
                }
                ri = ri + 1;
            }
            proof {
                assert(group.rects@.take(group.rects@.len() as int) == group.rects@);
                assert(self.floors@.take(g + 1).drop_last() == self.floors@.take(g as int));
                assert(self.floors@.take(g + 1).last() == self.floors@[g as int]);
            }
            g = g + 1;
        }
        assert(self.floors@.take(self.floors@.len() as int) == self.floors@);
        map
    }
}

// ── The set of spaces ─────────────────────────────────────────────────────────

/// Every loaded space, at most one per authored id, and the id of the space
/// new players start in.
pub struct SpaceDefinitions {
    pub bootstrap_space_id: String,
    pub spaces: Vec<SpaceDefinition>,
}

impl SpaceDefinitions {
    /// No two spaces share an authored id.
    pub open spec fn wf(&self) -> bool {
        forall|i: int, j: int| 0 <= i < j < self.spaces@.len() ==>
            (#[trigger] self.spaces@[i]).authored_id@ != (#[trigger] self.spaces@[j]).authored_id@
    }

    /// Position of the space with authored id `id`.
    pub open spec fn index_of(&self, id: Seq<char>) -> Option<int> {
        space_index(self.spaces@, id)
    }

    /// No spaces yet.
    pub fn new(bootstrap_space_id: String) -> (d: Self)
        ensures
            d.wf(),
            d.bootstrap_space_id == bootstrap_space_id,
            d.spaces@.len() == 0,
    {
        SpaceDefinitions { bootstrap_space_id, spaces: Vec::new() }
    }

    fn position(&self, authored_id: &str) -> (r: Option<usize>)
        requires
            self.wf(),
        ensures
            r is Some <==> self.index_of(authored_id@) is Some,
            r is Some ==> r->0 == self.index_of(authored_id@)->0 && r->0 < self.spaces@.len(),
    {
        let mut i: usize = 0;
        while i < self.spaces.len()
            invariant
                self.wf(),
                i <= self.spaces@.len(),
                forall|k: int| 0 <= k < i ==> (#[trigger] self.spaces@[k]).authored_id@ != authored_id@,
            decreases self.spaces@.len() - i,
        {
            if crate::text::str_eq(self.spaces[i].authored_id.as_str(), authored_id) {
                proof {
                    let c = choose|k: int| 0 <= k < self.spaces@.len() && (#[trigger] self.spaces@[k]).authored_id@ == authored_id@;
                    if c != i as int {
                        if c > i as int {
                            assert(self.spaces@[i as int].authored_id@ != self.spaces@[c].authored_id@);
                        }
                    }
                }
                return Some(i);
            }
            i = i + 1;
        }
        None
    }

    /// The space with authored id `authored_id`.
    pub fn get(&self, authored_id: &str) -> (r: Option<&SpaceDefinition>)
        requires
            self.wf(),
        ensures
            r is Some <==> self.index_of(authored_id@) is Some,
            r is Some ==> *r->0 == self.spaces@[self.index_of(authored_id@)->0],
    {
        match self.position(authored_id) {
            Some(i) => Some(&self.spaces[i]),
            None => None,
        }
    }

    /// The space new players start in.
    pub fn bootstrap_space(&self) -> (r: Option<&SpaceDefinition>)
        requires
            self.wf(),
        ensures
            r is Some <==> self.index_of(self.bootstrap_space_id@) is Some,
            r is Some ==> *r->0 == self.spaces@[self.index_of(self.bootstrap_space_id@)->0],
    {
        self.get(self.bootstrap_space_id.as_str())
    }

    /// Every space, in load order.
    pub fn iter(&self) -> (r: &Vec<SpaceDefinition>)
        ensures
            r@ == self.spaces@,
    {
        &self.spaces
    }

    /// Inserts `def`, replacing the space with the same authored id if any.
    pub fn insert_or_replace(&mut self, def: SpaceDefinition)
        requires
            old(self).wf(),
        ensures
            final(self).wf(),
            final(self).bootstrap_space_id == old(self).bootstrap_space_id,
            final(self).index_of(def.authored_id@) is Some,
            final(self).spaces@[final(self).index_of(def.authored_id@)->0] == def,
            forall|id: Seq<char>| id != def.authored_id@ ==> #[trigger] final(self).index_of(id) is Some
                == old(self).index_of(id) is Some,
            forall|id: Seq<char>| id != def.authored_id@ && (#[trigger] old(self).index_of(id)) is Some ==>
                final(self).spaces@[final(self).index_of(id)->0] == old(self).spaces@[old(self).index_of(id)->0],
    {
        let ghost before = self.spaces@;
        let ghost key = def.authored_id@;
        match self.position(def.authored_id.as_str()) {
            Some(i) => {
                self.spaces.set(i, def);
                proof {
                    assert forall|a: int, b: int| 0 <= a < b < self.spaces@.len() implies
                        (#[trigger] self.spaces@[a]).authored_id@ != (#[trigger] self.spaces@[b]).authored_id@ by {
                        assert(before[a].authored_id@ != before[b].authored_id@);
                    }
                    lemma_index_after_update(before, self.spaces@, i as int, key);
                }
            },
            None => {
                self.spaces.push(def);
                proof {
                    assert forall|a: int, b: int| 0 <= a < b < self.spaces@.len() implies
                        (#[trigger] self.spaces@[a]).authored_id@ != (#[trigger] self.spaces@[b]).authored_id@ by {
                        if b < before.len() {
                            assert(before[a].authored_id@ != before[b].authored_id@);
                        } else {
                            assert(self.spaces@[a] == before[a]);
                        }
                    }
                    lemma_index_after_update(before, self.spaces@, before.len() as int, key);
                }
            },
        }
    }

    /// The first id free after every resolved object of the spaces other
    /// than `authored_id` (one past their largest id; `1` when there is none).
    pub fn next_start_id(&self, authored_id: &str) -> (n: u64)
        requires
            forall|s: int, k: int| 0 <= s < self.spaces@.len() && self.spaces@[s].authored_id@ != authored_id@
                && 0 <= k < self.spaces@[s].resolved_objects@.len() ==> #[trigger] self.spaces@[s].resolved_objects@[k].id < u64::MAX,
        ensures
            n >= 1,
            forall|s: int, k: int| 0 <= s < self.spaces@.len() && self.spaces@[s].authored_id@ != authored_id@
                && 0 <= k < self.spaces@[s].resolved_objects@.len() ==> #[trigger] self.spaces@[s].resolved_objects@[k].id < n,
            n == 1 || exists|s: int, k: int| 0 <= s < self.spaces@.len() && self.spaces@[s].authored_id@ != authored_id@
                && 0 <= k < self.spaces@[s].resolved_objects@.len() && #[trigger] self.spaces@[s].resolved_objects@[k].id + 1 == n,
    {
        let mut n: u64 = 1;
        let mut s: usize = 0;
        while s < self.spaces.len()
            invariant
                s <= self.spaces@.len(),
                n >= 1,
                forall|ss: int, k: int| 0 <= ss < self.spaces@.len() && self.spaces@[ss].authored_id@ != authored_id@
                    && 0 <= k < self.spaces@[ss].resolved_objects@.len() ==> #[trigger] self.spaces@[ss].resolved_objects@[k].id < u64::MAX,
                forall|ss: int, k: int| 0 <= ss < s && self.spaces@[ss].authored_id@ != authored_id@
                    && 0 <= k < self.spaces@[ss].resolved_objects@.len() ==> #[trigger] self.spaces@[ss].resolved_objects@[k].id < n,
                n == 1 || exists|ss: int, k: int| 0 <= ss < s && self.spaces@[ss].authored_id@ != authored_id@
                    && 0 <= k < self.spaces@[ss].resolved_objects@.len() && #[trigger] self.spaces@[ss].resolved_objects@[k].id + 1 == n,
            decreases self.spaces@.len() - s,
        {
            if !crate::text::str_eq(self.spaces[s].authored_id.as_str(), authored_id) {
                let objs = &self.spaces[s].resolved_objects;
                let mut k: usize = 0;
                while k < objs.len()
                    invariant
                        s < self.spaces@.len(),
                        *objs == self.spaces@[s as int].resolved_objects,
                        self.spaces@[s as int].authored_id@ != authored_id@,
                        k <= objs@.len(),
                        n >= 1,
                        forall|ss: int, kk: int| 0 <= ss < self.spaces@.len() && self.spaces@[ss].authored_id@ != authored_id@
                            && 0 <= kk < self.spaces@[ss].resolved_objects@.len() ==> #[trigger] self.spaces@[ss].resolved_objects@[kk].id < u64::MAX,
                        forall|ss: int, kk: int| 0 <= ss < s && self.spaces@[ss].authored_id@ != authored_id@
                            && 0 <= kk < self.spaces@[ss].resolved_objects@.len() ==> #[trigger] self.spaces@[ss].resolved_objects@[kk].id < n,
                        forall|kk: int| 0 <= kk < k ==> #[trigger] self.spaces@[s as int].resolved_objects@[kk].id < n,
                        n == 1 || exists|ss: int, kk: int| 0 <= ss <= s && self.spaces@[ss].authored_id@ != authored_id@
                            && 0 <= kk < self.spaces@[ss].resolved_objects@.len() && #[trigger] self.spaces@[ss].resolved_objects@[kk].id + 1 == n,
                    decreases objs@.len() - k,
                {
                    let id = objs[k].id;
                    assert(id == self.spaces@[s as int].resolved_objects@[k as int].id);
                    if id >= n {
                        n = id + 1;
                    }
                    k = k + 1;
                }
            }
            s = s + 1;
        }
        n
    }

    /// The first portal, by space then portal order, whose destination space
    /// is not loaded: `(space index, portal index)`.
    pub fn dangling_portal(&self) -> (r: Option<(usize, usize)>)
        requires
            self.wf(),
        ensures
            r is None <==> forall|s: int, p: int| 0 <= s < self.spaces@.len() && 0 <= p < self.spaces@[s].portals@.len()
                ==> self.index_of((#[trigger] self.spaces@[s].portals@[p]).destination_space_id@) is Some,
            r is Some ==> {
                let (s, p) = r->0;
                &&& s < self.spaces@.len()
                &&& p < self.spaces@[s as int].portals@.len()
                &&& self.index_of(self.spaces@[s as int].portals@[p as int].destination_space_id@) is None
            },
    {
        let mut s: usize = 0;
        while s < self.spaces.len()
            invariant
                self.wf(),
                s <= self.spaces@.len(),
                forall|ss: int, p: int| 0 <= ss < s && 0 <= p < self.spaces@[ss].portals@.len()
                    ==> self.index_of((#[trigger] self.spaces@[ss].portals@[p]).destination_space_id@) is Some,
            decreases self.spaces@.len() - s,
        {
            let mut p: usize = 0;
            while p < self.spaces[s].portals.len()
                invariant
                    self.wf(),
                    s < self.spaces@.len(),
                    p <= self.spaces@[s as int].portals@.len(),
                    forall|ss: int, pp: int| 0 <= ss < s && 0 <= pp < self.spaces@[ss].portals@.len()
                        ==> self.index_of((#[trigger] self.spaces@[ss].portals@[pp]).destination_space_id@) is Some,
                    forall|pp: int| 0 <= pp < p
                        ==> self.index_of((#[trigger] self.spaces@[s as int].portals@[pp]).destination_space_id@) is Some,
                decreases self.spaces@[s as int].portals@.len() - p,
            {
                if self.position(self.spaces[s].portals[p].destination_space_id.as_str()).is_none() {
                    return Some((s, p));
                }
                p = p + 1;
            }
            s = s + 1;
        }
        None
    }
}

/// Position of the space with authored id `id` in `spaces`.
pub open spec fn space_index(spaces: Seq<SpaceDefinition>, id: Seq<char>) -> Option<int> {
    if exists|i: int| 0 <= i < spaces.len() && (#[trigger] spaces[i]).authored_id@ == id {
        Some(choose|i: int| 0 <= i < spaces.len() && (#[trigger] spaces[i]).authored_id@ == id)
    } else {
        None
    }
}

/// Looking up ids after replacing or appending the entry at `i` whose id is `key`.
proof fn lemma_index_after_update(before: Seq<SpaceDefinition>, after: Seq<SpaceDefinition>, i: int, key: Seq<char>)
    requires
        0 <= i <= before.len(),
        after.len() == if i < before.len() { before.len() } else { before.len() + 1 },
        after[i].authored_id@ == key,
        i < before.len() ==> before[i].authored_id@ == key,
        forall|j: int| 0 <= j < after.len() && j != i ==> after[j] == before[j],
        forall|a: int, b: int| 0 <= a < b < after.len() ==> (#[trigger] after[a]).authored_id@ != (#[trigger] after[b]).authored_id@,
        forall|a: int, b: int| 0 <= a < b < before.len() ==> (#[trigger] before[a]).authored_id@ != (#[trigger] before[b]).authored_id@,
    ensures
        space_index(after, key) == Some(i),
        forall|id: Seq<char>| id != key ==> (#[trigger] space_index(after, id) is Some) == space_index(before, id) is Some,
        forall|id: Seq<char>| id != key && (#[trigger] space_index(before, id)) is Some ==>
            after[space_index(after, id)->0] == before[space_index(before, id)->0],
{
    let c = choose|j: int| 0 <= j < after.len() && (#[trigger] after[j]).authored_id@ == key;
    if c != i {
        if c < i {
            assert(after[c].authored_id@ != after[i].authored_id@);
        } else {
            assert(after[i].authored_id@ != after[c].authored_id@);
        }
    }
    assert forall|id: Seq<char>| id != key implies (#[trigger] space_index(after, id) is Some) == space_index(before, id) is Some by {
        if space_index(after, id) is Some {
            let j = choose|j: int| 0 <= j < after.len() && (#[trigger] after[j]).authored_id@ == id;
            assert(j != i);
            assert(before[j] == after[j]);
        }
        if space_index(before, id) is Some {
            let j = choose|j: int| 0 <= j < before.len() && (#[trigger] before[j]).authored_id@ == id;
            assert(j != i);
            assert(after[j] == before[j]);
        }
    }
    assert forall|id: Seq<char>| id != key && (#[trigger] space_index(before, id)) is Some implies
        after[space_index(after, id)->0] == before[space_index(before, id)->0] by {
        let jb = space_index(before, id)->0;
        assert(jb != i);
        assert(after[jb] == before[jb]);
        let ja = space_index(after, id)->0;
        if ja != jb {
            if ja < jb {
                assert(after[ja].authored_id@ != after[jb].authored_id@);
            } else {
                assert(after[jb].authored_id@ != after[ja].authored_id@);
            }
        }
    }
}

} // verus!
