//! Floor tileset and transition definitions, and the canonical ordering of
//! floor-type pairs.

use vstd::prelude::*;

use crate::direction::is_whitespace_spec;
use crate::text::{chars_of, seq_lt, str_eq, str_lt};

verus! {

/// A sparse ripple animation played over cells of a floor type. The
/// floating-point fields are carried as their IEEE-754 bit patterns.
#[derive(Debug)]
pub struct FloorRippleDef {
    pub sheet_path: String,
    pub frame_width: u32,
    pub frame_height: u32,
    pub frame_count: u32,
    pub fps_bits: u32,
    pub rate_per_tile_per_second_bits: u32,
    pub z_offset_bits: u32,
}

/// One floor tileset.
pub struct FloorTilesetDefinition {
    pub id: String,
    pub name: String,
    pub priority: i32,
    pub tile_size_px: u32,
    pub atlas_path: Option<String>,
    pub debug_color: [u8; 3],
    pub occludes_floor_above: bool,
    pub walkable_surface: bool,
    /// Per-corner-bitmask variant weights (at most one entry per mask).
    pub variants: Vec<(u8, Vec<u32>)>,
    pub ripple: Option<FloorRippleDef>,
}

/// A blended atlas between two floor types, keyed by canonical `(low, high)`.
pub struct FloorTransitionDefinition {
    pub low: String,
    pub high: String,
    pub tile_size_px: u32,
    pub atlas_path: String,
    /// Per-bitmask variant weights indexed by the high-side mask.
    pub variants: Vec<(u8, Vec<u32>)>,
}

/// Weights of `mask` in a variant table: the listed weights when the mask
/// has an entry, else the single weight `[1]`.
pub open spec fn variant_weights_spec(variants: Seq<(u8, Vec<u32>)>, mask: u8) -> Seq<u32> {
    if exists|i: int| 0 <= i < variants.len() && (#[trigger] variants[i]).0 == mask {
        let i = choose|i: int| 0 <= i < variants.len() && (#[trigger] variants[i]).0 == mask;
        variants[i].1@
    } else {
        seq![1u32]
    }
}

/// No mask has two entries.
pub open spec fn variant_keys_unique(variants: Seq<(u8, Vec<u32>)>) -> bool {
    forall|i: int, j: int| 0 <= i < j < variants.len() ==> (#[trigger] variants[i]).0 != (#[trigger] variants[j]).0
}

/// Largest number of variants of any mask, and at least one.
pub open spec fn max_variants_spec(variants: Seq<(u8, Vec<u32>)>) -> int
    decreases variants.len(),
{
    if variants.len() == 0 {
        1
    } else {
        let rest = max_variants_spec(variants.drop_last());
        let l = variants.last().1@.len() as int;
        if l > rest { l } else { rest }
    }
}

fn weights_of(variants: &Vec<(u8, Vec<u32>)>, mask: u8) -> (w: Vec<u32>)
    requires
        variant_keys_unique(variants@),
    ensures
        w@ == variant_weights_spec(variants@, mask),
{
    let mut i: usize = 0;
    while i < variants.len()
        invariant
            variant_keys_unique(variants@),
            i <= variants@.len(),
            forall|k: int| 0 <= k < i ==> (#[trigger] variants@[k]).0 != mask,
        decreases variants@.len() - i,
    {
        if variants[i].0 == mask {
            let ghost c = choose|k: int| 0 <= k < variants@.len() && (#[trigger] variants@[k]).0 == mask;
            assert(c == i as int) by {
                if c < i as int {
                } else if c > i as int {
                    assert(variants@[i as int].0 != variants@[c].0);
                }
            }
            let w = variants[i].1.clone();
            assert(w@ =~= variants@[i as int].1@);
            return w;
        }
        i = i + 1;
    }
    let mut one: Vec<u32> = Vec::new();
    one.push(1);
    assert(one@ == seq![1u32]);
    one
}

fn max_variants_of(variants: &Vec<(u8, Vec<u32>)>) -> (m: usize)
    ensures
        m == max_variants_spec(variants@),
{
    let mut m: usize = 1;
    let mut i: usize = 0;
    while i < variants.len()
        invariant
            i <= variants@.len(),
            m == max_variants_spec(variants@.take(i as int)),
        decreases variants@.len() - i,
    {
        assert(variants@.take(i + 1).drop_last() == variants@.take(i as int));
        let l = variants[i].1.len();
        if l > m {
            m = l;
        }
        i = i + 1;
    }
    assert(variants@.take(variants@.len() as int) == variants@);
    m
}

impl FloorTilesetDefinition {
    /// Variant weights for a corner bitmask (see `variant_weights_spec`).
    pub fn variant_weights(&self, mask: u8) -> (w: Vec<u32>)
        requires
            variant_keys_unique(self.variants@),
        ensures
            w@ == variant_weights_spec(self.variants@, mask),
    {
        weights_of(&self.variants, mask)
    }

    /// Largest variant count over all masks, at least 1.
    pub fn max_variants(&self) -> (m: usize)
        ensures
            m == max_variants_spec(self.variants@),
    {
        max_variants_of(&self.variants)
    }
}

impl FloorTransitionDefinition {
    /// Variant weights for a high-side bitmask (see `variant_weights_spec`).
    pub fn variant_weights(&self, mask: u8) -> (w: Vec<u32>)
        requires
            variant_keys_unique(self.variants@),
        ensures
            w@ == variant_weights_spec(self.variants@, mask),
    {
        weights_of(&self.variants, mask)
    }

    /// Largest variant count over all masks, at least 1.
    pub fn max_variants(&self) -> (m: usize)
        ensures
            m == max_variants_spec(self.variants@),
    {
        max_variants_of(&self.variants)
    }
}

/// All loaded floor tilesets (one per id) and transitions (one per pair).
pub struct FloorTilesetDefinitions {
    pub by_id: Vec<FloorTilesetDefinition>,
    pub transitions: Vec<FloorTransitionDefinition>,
}

/// `(priority_a, id_a) < (priority_b, id_b)` in tuple order.
pub open spec fn key_lt(pa: int, a: Seq<char>, pb: int, b: Seq<char>) -> bool {
    pa < pb || (pa == pb && seq_lt(a, b))
}

impl FloorTilesetDefinitions {
    /// Ids are unique, and so are transition pairs.
    pub open spec fn wf(&self) -> bool {
        &&& forall|i: int, j: int| 0 <= i < j < self.by_id@.len() ==> (#[trigger] self.by_id@[i]).id@ != (#[trigger] self.by_id@[j]).id@
        &&& forall|i: int, j: int| 0 <= i < j < self.transitions@.len() ==>
            !((#[trigger] self.transitions@[i]).low@ == (#[trigger] self.transitions@[j]).low@ && self.transitions@[i].high@ == self.transitions@[j].high@)
    }

    /// Index of the tileset with id `id`.
    pub open spec fn index_of(&self, id: Seq<char>) -> Option<int> {
        if exists|i: int| 0 <= i < self.by_id@.len() && (#[trigger] self.by_id@[i]).id@ == id {
            Some(choose|i: int| 0 <= i < self.by_id@.len() && (#[trigger] self.by_id@[i]).id@ == id)
        } else {
            None
        }
    }

    /// Priority of the tileset `id`, if loaded.
    pub open spec fn priority_of(&self, id: Seq<char>) -> Option<int> {
        match self.index_of(id) {
            Some(i) => Some(self.by_id@[i].priority as int),
            None => None,
        }
    }

    /// The pair in canonical `(low, high)` order: lower priority first,
    /// alphabetical id on equal priority. `None` when either id is unknown.
    pub open spec fn canonical_spec(&self, a: Seq<char>, b: Seq<char>) -> Option<(Seq<char>, Seq<char>)> {
        match (self.priority_of(a), self.priority_of(b)) {
            (Some(pa), Some(pb)) => if key_lt(pb, b, pa, a) { Some((b, a)) } else { Some((a, b)) },
            _ => None,
        }
    }

    /// Index of the transition authored for `(low, high)`.
    pub open spec fn transition_index(&self, low: Seq<char>, high: Seq<char>) -> Option<int> {
        if exists|i: int| 0 <= i < self.transitions@.len() && (#[trigger] self.transitions@[i]).low@ == low && self.transitions@[i].high@ == high {
            Some(choose|i: int| 0 <= i < self.transitions@.len() && (#[trigger] self.transitions@[i]).low@ == low && self.transitions@[i].high@ == high)
        } else {
            None
        }
    }

    fn find(&self, id: &str) -> (r: Option<usize>)
        requires
            self.wf(),
        ensures
            r is Some <==> self.index_of(id@) is Some,
            r is Some ==> r->0 == self.index_of(id@)->0 && r->0 < self.by_id@.len(),
    {
        let mut i: usize = 0;
        while i < self.by_id.len()
            invariant
                self.wf(),
                i <= self.by_id@.len(),
                forall|k: int| 0 <= k < i ==> (#[trigger] self.by_id@[k]).id@ != id@,
            decreases self.by_id@.len() - i,
        {
            if str_eq(self.by_id[i].id.as_str(), id) {
                proof {
                    let c = choose|k: int| 0 <= k < self.by_id@.len() && (#[trigger] self.by_id@[k]).id@ == id@;
                    if c != i as int {
                        if c < i as int {
                        } else {
                            assert(self.by_id@[i as int].id@ != self.by_id@[c].id@);
                        }
                    }
                }
                return Some(i);
            }
            i = i + 1;
        }
        None
    }

    /// The tileset with id `id`.
    pub fn get(&self, id: &str) -> (d: Option<&FloorTilesetDefinition>)
        requires
            self.wf(),
        ensures
            d is Some <==> self.index_of(id@) is Some,
            d is Some ==> d->0 == self.by_id@[self.index_of(id@)->0],
    {
        match self.find(id) {
            Some(i) => Some(&self.by_id[i]),
            None => None,
        }
    }

    /// Whether a tileset with id `id` is loaded.
    pub fn contains(&self, id: &str) -> (b: bool)
        requires
            self.wf(),
        ensures
            b == self.index_of(id@) is Some,
    {
        self.find(id).is_some()
    }

    /// Ids of all loaded tilesets.
    pub fn ids(&self) -> (v: Vec<String>)
        ensures
            v@.len() == self.by_id@.len(),
            forall|i: int| 0 <= i < v@.len() ==> #[trigger] v@[i] == self.by_id@[i].id,
    {
        let mut v: Vec<String> = Vec::new();
        let mut i: usize = 0;
        while i < self.by_id.len()
            invariant
                i <= self.by_id@.len(),
                v@.len() == i,
                forall|k: int| 0 <= k < i ==> #[trigger] v@[k] == self.by_id@[k].id,
            decreases self.by_id@.len() - i,
        {
            v.push(self.by_id[i].id.clone());
            i = i + 1;
        }
        v
    }

    /// The pair in canonical `(low, high)` order (see `canonical_spec`).
    pub fn canonicalise_pair<'a>(&self, a: &'a String, b: &'a String) -> (r: Option<(&'a String, &'a String)>)
        requires
            self.wf(),
        ensures
            r is Some <==> self.canonical_spec(a@, b@) is Some,
            r is Some ==> ({
                let (x, y) = r.unwrap();
                (x@, y@) == self.canonical_spec(a@, b@).unwrap()
            }),
    {
        let ia = self.find(a.as_str())?;
        let ib = self.find(b.as_str())?;
        let pa = self.by_id[ia].priority;
        let pb = self.by_id[ib].priority;
        let greater = pb < pa || (pa == pb && str_lt(b.as_str(), a.as_str()));
        if greater {
            Some((b, a))
        } else {
            Some((a, b))
        }
    }

    /// The transition authored for the unordered pair `{a, b}`, with the
    /// pair in canonical order.
    pub fn transition_for<'a>(&'a self, a: &'a String, b: &'a String) -> (r: Option<(&'a String, &'a String, &'a FloorTransitionDefinition)>)
        requires
            self.wf(),
        ensures
            r is Some <==> (self.canonical_spec(a@, b@) is Some && ({
                let (low, high) = self.canonical_spec(a@, b@).unwrap();
                self.transition_index(low, high) is Some
            })),
            r is Some ==> ({
                let (low, high) = self.canonical_spec(a@, b@).unwrap();
                let (rl, rh, rd) = r.unwrap();
                &&& rl@ == low
                &&& rh@ == high
                &&& *rd == self.transitions@[self.transition_index(low, high).unwrap()]
            }),
    {
        let (low, high) = self.canonicalise_pair(a, b)?;
        let ghost canon = self.canonical_spec(a@, b@);
        let mut i: usize = 0;
        while i < self.transitions.len()
            invariant
                self.wf(),
                canon == self.canonical_spec(a@, b@),
                canon is Some,
                (low@, high@) == canon.unwrap(),
                i <= self.transitions@.len(),
                forall|k: int| 0 <= k < i ==> !((#[trigger] self.transitions@[k]).low@ == low@ && self.transitions@[k].high@ == high@),
            decreases self.transitions@.len() - i,
        {
            if str_eq(self.transitions[i].low.as_str(), low.as_str()) && str_eq(self.transitions[i].high.as_str(), high.as_str()) {
                proof {
                    let c = choose|k: int| 0 <= k < self.transitions@.len() && (#[trigger] self.transitions@[k]).low@ == low@ && self.transitions@[k].high@ == high@;
                    if c != i as int {
                        if c < i as int {
                        } else {
                            assert(!(self.transitions@[i as int].low@ == self.transitions@[c].low@ && self.transitions@[i as int].high@ == self.transitions@[c].high@));
                        }
                    }
                }
                return Some((low, high, &self.transitions[i]));
            }
            i = i + 1;
        }
        None
    }
}

/// A tileset found at position `i` is the one `index_of` names.
proof fn lemma_index_of_at(defs: FloorTilesetDefinitions, i: int)
    requires
        defs.wf(),
        0 <= i < defs.by_id@.len(),
    ensures
        defs.index_of(defs.by_id@[i].id@) == Some(i),
{
    let id = defs.by_id@[i].id@;
    let c = choose|k: int| 0 <= k < defs.by_id@.len() && (#[trigger] defs.by_id@[k]).id@ == id;
    if c != i {
        if c < i {
            assert(defs.by_id@[c].id@ != defs.by_id@[i].id@);
        } else {
            assert(defs.by_id@[i].id@ != defs.by_id@[c].id@);
        }
    }
}

/// A transition found at position `i` is the one `transition_index` names.
proof fn lemma_transition_index_at(defs: FloorTilesetDefinitions, i: int)
    requires
        defs.wf(),
        0 <= i < defs.transitions@.len(),
    ensures
        defs.transition_index(defs.transitions@[i].low@, defs.transitions@[i].high@) == Some(i),
{
    let lo = defs.transitions@[i].low@;
    let hi = defs.transitions@[i].high@;
    let c = choose|k: int| 0 <= k < defs.transitions@.len() && (#[trigger] defs.transitions@[k]).low@ == lo && defs.transitions@[k].high@ == hi;
    if c != i {
        if c < i {
            assert(!(defs.transitions@[c].low@ == defs.transitions@[i].low@ && defs.transitions@[c].high@ == defs.transitions@[i].high@));
        } else {
            assert(!(defs.transitions@[i].low@ == defs.transitions@[c].low@ && defs.transitions@[i].high@ == defs.transitions@[c].high@));
        }
    }
}

impl FloorTilesetDefinitions {
    /// No tilesets and no transitions.
    pub fn new() -> (s: Self)
        ensures
            s.wf(),
            s.by_id@.len() == 0,
            s.transitions@.len() == 0,
    {
        FloorTilesetDefinitions { by_id: Vec::new(), transitions: Vec::new() }
    }

    /// Adds a tileset, replacing the one with the same id: afterwards the
    /// id reads back `def`, every other id reads back what it did, and the
    /// transitions are unchanged.
    pub fn insert_tileset(&mut self, def: FloorTilesetDefinition)
        requires
            old(self).wf(),
        ensures
            final(self).wf(),
            final(self).index_of(def.id@) is Some,
            final(self).by_id@[final(self).index_of(def.id@)->0] == def,
            forall|id: Seq<char>| id != def.id@ ==> (#[trigger] final(self).index_of(id) is Some) == old(self).index_of(id) is Some,
            forall|id: Seq<char>| id != def.id@ && #[trigger] old(self).index_of(id) is Some ==>
                final(self).by_id@[final(self).index_of(id)->0] == old(self).by_id@[old(self).index_of(id)->0],
            final(self).transitions == old(self).transitions,
    {
        let ghost before = *self;
        let ghost id = def.id@;
        let found = self.find(def.id.as_str());
        match found {
            Some(i) => {
                self.by_id.set(i, def);
            },
            None => {
                self.by_id.push(def);
            },
        }
        let ghost after = *self;
        assert(after.wf()) by {
            assert forall|a: int, b: int| 0 <= a < b < after.by_id@.len() implies (#[trigger] after.by_id@[a]).id@ != (#[trigger] after.by_id@[b]).id@ by {
                match found {
                    Some(i) => {
                        if a == i as int {
                            if before.by_id@[b].id@ == id {
                                lemma_index_of_at(before, b);
                            }
                        } else if b == i as int {
                            if before.by_id@[a].id@ == id {
                                lemma_index_of_at(before, a);
                            }
                        }
                    },
                    None => {
                        if b == before.by_id@.len() {
                            assert(before.by_id@[a].id@ != id);
                        }
                    },
                }
            }
        }
        let ghost k = match found { Some(i) => i as int, None => before.by_id@.len() as int };
        proof { lemma_index_of_at(after, k); }
        assert forall|o: Seq<char>| o != id implies (#[trigger] after.index_of(o) is Some) == before.index_of(o) is Some
            && (before.index_of(o) is Some ==> after.by_id@[after.index_of(o)->0] == before.by_id@[before.index_of(o)->0]) by {
            if before.index_of(o) is Some {
                let j = before.index_of(o)->0;
                assert(before.by_id@[j].id@ == o);
                assert(j != k);
                assert(after.by_id@[j] == before.by_id@[j]);
                lemma_index_of_at(after, j);
            }
            if after.index_of(o) is Some {
                let j = after.index_of(o)->0;
                assert(after.by_id@[j].id@ == o);
                assert(j != k);
                assert(after.by_id@[j] == before.by_id@[j]);
            }
        }
    }

    /// Position of the transition authored for `(low, high)`.
    fn find_transition(&self, low: &str, high: &str) -> (r: Option<usize>)
        requires
            self.wf(),
        ensures
            r is Some <==> self.transition_index(low@, high@) is Some,
            r is Some ==> r->0 == self.transition_index(low@, high@)->0 && r->0 < self.transitions@.len(),
    {
        let mut i: usize = 0;
        while i < self.transitions.len()
            invariant
                self.wf(),
                i <= self.transitions@.len(),
                forall|k: int| 0 <= k < i ==> !((#[trigger] self.transitions@[k]).low@ == low@ && self.transitions@[k].high@ == high@),
            decreases self.transitions@.len() - i,
        {
            if str_eq(self.transitions[i].low.as_str(), low) && str_eq(self.transitions[i].high.as_str(), high) {
                proof {
                    lemma_transition_index_at(*self, i as int);
                }
                return Some(i);
            }
            i = i + 1;
        }
        None
    }

    /// Adds a transition, replacing the one for the same `(low, high)`
    /// pair: afterwards the pair reads back `def`, every other pair reads
    /// back what it did, and the tilesets are unchanged.
    pub fn insert_transition(&mut self, def: FloorTransitionDefinition)
        requires
            old(self).wf(),
        ensures
            final(self).wf(),
            final(self).transition_index(def.low@, def.high@) is Some,
            final(self).transitions@[final(self).transition_index(def.low@, def.high@)->0] == def,
            forall|lo: Seq<char>, hi: Seq<char>| !(lo == def.low@ && hi == def.high@) ==>
                (#[trigger] final(self).transition_index(lo, hi) is Some) == old(self).transition_index(lo, hi) is Some,
            forall|lo: Seq<char>, hi: Seq<char>| !(lo == def.low@ && hi == def.high@) && #[trigger] old(self).transition_index(lo, hi) is Some ==>
                final(self).transitions@[final(self).transition_index(lo, hi)->0] == old(self).transitions@[old(self).transition_index(lo, hi)->0],
            final(self).by_id == old(self).by_id,
    {
        let ghost before = *self;
        let ghost dl = def.low@;
        let ghost dh = def.high@;
        let found = self.find_transition(def.low.as_str(), def.high.as_str());
        proof {
            match found {
                Some(f) => {
                    lemma_transition_index_at(before, f as int);
                },
                None => {
                    assert forall|k: int| 0 <= k < before.transitions@.len() implies !((#[trigger] before.transitions@[k]).low@ == dl && before.transitions@[k].high@ == dh) by {
                        if before.transitions@[k].low@ == dl && before.transitions@[k].high@ == dh {
                            lemma_transition_index_at(before, k);
                        }
                    }
                },
            }
        }
        match found {
            Some(f) => {
                self.transitions.set(f, def);
            },
            None => {
                self.transitions.push(def);
            },
        }
        let ghost after = *self;
        assert(after.wf()) by {
            assert forall|a: int, b: int| 0 <= a < b < after.transitions@.len() implies
                !((#[trigger] after.transitions@[a]).low@ == (#[trigger] after.transitions@[b]).low@ && after.transitions@[a].high@ == after.transitions@[b].high@) by {
                match found {
                    Some(f) => {
                        if a == f as int {
                            if before.transitions@[b].low@ == dl && before.transitions@[b].high@ == dh {
                                lemma_transition_index_at(before, b);
                                lemma_transition_index_at(before, f as int);
                            }
                        } else if b == f as int {
                            if before.transitions@[a].low@ == dl && before.transitions@[a].high@ == dh {
                                lemma_transition_index_at(before, a);
                                lemma_transition_index_at(before, f as int);
                            }
                        }
                    },
                    None => {},
                }
            }
        }
        let ghost k = match found { Some(f) => f as int, None => before.transitions@.len() as int };
        proof { lemma_transition_index_at(after, k); }
        assert forall|lo: Seq<char>, hi: Seq<char>| !(lo == dl && hi == dh) implies
            (#[trigger] after.transition_index(lo, hi) is Some) == before.transition_index(lo, hi) is Some
            && (before.transition_index(lo, hi) is Some ==> after.transitions@[after.transition_index(lo, hi)->0] == before.transitions@[before.transition_index(lo, hi)->0]) by {
            if before.transition_index(lo, hi) is Some {
                let j = before.transition_index(lo, hi)->0;
                assert(j != k);
                assert(after.transitions@[j] == before.transitions@[j]);
                lemma_transition_index_at(after, j);
            }
            if after.transition_index(lo, hi) is Some {
                let j = after.transition_index(lo, hi)->0;
                assert(j != k);
                assert(after.transitions@[j] == before.transitions@[j]);
            }
        }
    }
}

/// Canonical order does not depend on the order the pair is given in.
pub proof fn lemma_canonical_symmetric(defs: FloorTilesetDefinitions, a: Seq<char>, b: Seq<char>)
    requires
        defs.wf(),
    ensures
        defs.canonical_spec(a, b) == defs.canonical_spec(b, a),
{
    crate::text::lemma_seq_lt_total(a, b);
}

/// The canonical pair is the given pair in some order, lower key first.
pub proof fn lemma_canonical_ordered(defs: FloorTilesetDefinitions, a: Seq<char>, b: Seq<char>)
    requires
        defs.wf(),
        defs.canonical_spec(a, b) is Some,
    ensures
        ({
            let (low, high) = defs.canonical_spec(a, b).unwrap();
            &&& (low == a && high == b) || (low == b && high == a)
            &&& !key_lt(defs.priority_of(high).unwrap(), high, defs.priority_of(low).unwrap(), low)
        }),
{
    crate::text::lemma_seq_lt_total(a, b);
}

impl FloorTilesetDefinitions {
    /// Every tileset, in load order.
    pub fn iter(&self) -> (r: &Vec<FloorTilesetDefinition>)
        ensures
            r@ == self.by_id@,
    {
        &self.by_id
    }

    /// Every transition, in load order.
    pub fn transitions(&self) -> (r: &Vec<FloorTransitionDefinition>)
        ensures
            r@ == self.transitions@,
    {
        &self.transitions
    }
}

// ── Load-time checks ──────────────────────────────────────────────────────────

/// What is wrong with a variant table entry.
#[derive(Clone, Copy, Debug, PartialEq, Eq, Structural)]
pub enum VariantProblem {
    /// The mask is outside `1..=15`.
    KeyOutOfRange(u8),
    /// The mask has no weights.
    EmptyWeights(u8),
    /// One of the mask's weights is zero.
    ZeroWeight(u8),
}

/// The first problem of a variant table, in table order.
pub open spec fn variant_problem_spec(variants: Seq<(u8, Vec<u32>)>) -> Option<VariantProblem>
    decreases variants.len(),
{
    if variants.len() == 0 {
        None
    } else {
        let (m, w) = variants[0];
        if !(1 <= m <= 15) {
            Some(VariantProblem::KeyOutOfRange(m))
        } else if w@.len() == 0 {
            Some(VariantProblem::EmptyWeights(m))
        } else if exists|i: int| 0 <= i < w@.len() && w@[i] == 0 {
            Some(VariantProblem::ZeroWeight(m))
        } else {
            variant_problem_spec(variants.drop_first())
        }
    }
}

/// The first problem of a variant table, in table order.
pub fn variant_problem(variants: &Vec<(u8, Vec<u32>)>) -> (r: Option<VariantProblem>)
    ensures
        r == variant_problem_spec(variants@),
{
    let mut i: usize = 0;
    assert(variants@.skip(0) == variants@);
    while i < variants.len()
        invariant
            i <= variants@.len(),
            variant_problem_spec(variants@) == variant_problem_spec(variants@.skip(i as int)),
        decreases variants@.len() - i,
    {
        let m = variants[i].0;
        let w = &variants[i].1;
        proof {
            assert(variants@.skip(i as int)[0] == variants@[i as int]);
            assert(variants@.skip(i as int).drop_first() == variants@.skip(i + 1));
        }
        if !(1 <= m && m <= 15) {
            return Some(VariantProblem::KeyOutOfRange(m));
        }
        if w.len() == 0 {
            return Some(VariantProblem::EmptyWeights(m));
        }
        let mut k: usize = 0;
        while k < w.len()
            invariant
                i < variants@.len(),
                *w == variants@[i as int].1,
                m == variants@[i as int].0,
                1 <= m <= 15,
                w@.len() > 0,
                variants@.skip(i as int)[0] == variants@[i as int],
                variant_problem_spec(variants@) == variant_problem_spec(variants@.skip(i as int)),
                k <= w@.len(),
                forall|j: int| 0 <= j < k ==> w@[j] != 0,
            decreases w@.len() - k,
        {
            if w[k] == 0 {
                assert(w@[k as int] == 0);
                return Some(VariantProblem::ZeroWeight(m));
            }
            k = k + 1;
        }
        i = i + 1;
    }
    None
}

/// What is wrong with a loaded floor tileset.
#[derive(Clone, Copy, Debug, PartialEq, Eq, Structural)]
pub enum TilesetProblem {
    /// The id differs from the directory the tileset was loaded from.
    IdMismatch,
    /// `tile_size_px` is zero.
    ZeroTileSize,
    Variant(VariantProblem),
    /// The ripple has no frames.
    RippleFrameCount,
    /// A ripple frame dimension is zero.
    RippleFrameSize,
    /// The ripple frame rate is not a positive number.
    RippleFps,
    /// The ripple rate is negative or not a number.
    RippleRate,
}

/// The bit pattern of an `f32` greater than `0.0` (positive, up to `+inf`).
pub open spec fn f32_bits_positive(bits: u32) -> bool {
    0 < bits <= 0x7F80_0000
}

/// The bit pattern of an `f32` at least `0.0` (`-0.0`, or `+0.0` up to `+inf`).
pub open spec fn f32_bits_non_negative(bits: u32) -> bool {
    bits <= 0x7F80_0000 || bits == 0x8000_0000
}

/// The first problem of a tileset loaded from directory `dir`.
pub open spec fn tileset_problem_spec(def: FloorTilesetDefinition, dir: Seq<char>) -> Option<TilesetProblem> {
    if def.id@ != dir {
        Some(TilesetProblem::IdMismatch)
    } else if def.tile_size_px == 0 {
        Some(TilesetProblem::ZeroTileSize)
    } else if variant_problem_spec(def.variants@) is Some {
        Some(TilesetProblem::Variant(variant_problem_spec(def.variants@)->0))
    } else {
        match def.ripple {
            Some(r) => if r.frame_count == 0 {
                Some(TilesetProblem::RippleFrameCount)
            } else if r.frame_width == 0 || r.frame_height == 0 {
                Some(TilesetProblem::RippleFrameSize)
            } else if !f32_bits_positive(r.fps_bits) {
                Some(TilesetProblem::RippleFps)
            } else if !f32_bits_non_negative(r.rate_per_tile_per_second_bits) {
                Some(TilesetProblem::RippleRate)
            } else {
                None
            },
            None => None,
        }
    }
}

/// Every character of `s` is white space (so `s.trim()` is empty).
pub fn is_blank(s: &str) -> (b: bool)
    ensures
        b == forall|i: int| 0 <= i < s@.len() ==> is_whitespace_spec(#[trigger] s@[i]),
{
    let chars = chars_of(s);
    let mut i: usize = 0;
    while i < chars.len()
        invariant
            chars@ == s@,
            i <= chars@.len(),
            forall|j: int| 0 <= j < i ==> is_whitespace_spec(#[trigger] s@[j]),
        decreases chars@.len() - i,
    {
        if !crate::direction::is_whitespace(chars[i]) {
            return false;
        }
        i = i + 1;
    }
    true
}

impl FloorTilesetDefinition {
    /// A blank id takes the name of the directory the tileset was loaded from.
    pub fn default_id_to(&mut self, directory_name: &str)
        ensures
            final(self).id@ == if forall|i: int| 0 <= i < old(self).id@.len() ==> is_whitespace_spec(#[trigger] old(self).id@[i]) {
                directory_name@
            } else {
                old(self).id@
            },
            final(self).name == old(self).name,
            final(self).priority == old(self).priority,
            final(self).tile_size_px == old(self).tile_size_px,
            final(self).atlas_path == old(self).atlas_path,
            final(self).debug_color == old(self).debug_color,
            final(self).occludes_floor_above == old(self).occludes_floor_above,
            final(self).walkable_surface == old(self).walkable_surface,
            final(self).variants == old(self).variants,
            final(self).ripple == old(self).ripple,
    {
        if is_blank(self.id.as_str()) {
            self.id = directory_name.to_owned();
        }
    }

    /// The first problem of this tileset when loaded from `directory_name`.
    pub fn validation_problem(&self, directory_name: &str) -> (r: Option<TilesetProblem>)
        ensures
            r == tileset_problem_spec(*self, directory_name@),
    {
        if !str_eq(self.id.as_str(), directory_name) {
            return Some(TilesetProblem::IdMismatch);
        }
        if self.tile_size_px == 0 {
            return Some(TilesetProblem::ZeroTileSize);
        }
        match variant_problem(&self.variants) {
            Some(p) => {
                return Some(TilesetProblem::Variant(p));
            },
            None => {},
        }
        match &self.ripple {
            Some(r) => {
                if r.frame_count == 0 {
                    Some(TilesetProblem::RippleFrameCount)
                } else if r.frame_width == 0 || r.frame_height == 0 {
                    Some(TilesetProblem::RippleFrameSize)
                } else if !(0 < r.fps_bits && r.fps_bits <= 0x7F80_0000) {
                    Some(TilesetProblem::RippleFps)
                } else if !(r.rate_per_tile_per_second_bits <= 0x7F80_0000 || r.rate_per_tile_per_second_bits == 0x8000_0000) {
                    Some(TilesetProblem::RippleRate)
                } else {
                    None
                }
            },
            None => None,
        }
    }
}

/// What is wrong with a loaded floor transition.
#[derive(Clone, Copy, Debug, PartialEq, Eq, Structural)]
pub enum TransitionProblem {
    /// `low` and `high` name the same floor type.
    SameEndpoints,
    /// `low` is not a loaded tileset.
    UnknownLow,
    /// `high` is not a loaded tileset.
    UnknownHigh,
    /// `(priority, id)` of `low` comes after that of `high`.
    NotCanonical,
    /// The directory is not named `<low>__<high>`.
    DirectoryMismatch,
    /// `tile_size_px` differs from one of the endpoints'.
    TileSizeMismatch,
    Variant(VariantProblem),
}

/// The first problem of a transition loaded from directory `dir`, checked
/// against the loaded tilesets.
pub open spec fn transition_problem_spec(def: FloorTransitionDefinition, dir: Seq<char>, tilesets: FloorTilesetDefinitions) -> Option<TransitionProblem> {
    if def.low@ == def.high@ {
        Some(TransitionProblem::SameEndpoints)
    } else if tilesets.index_of(def.low@) is None {
        Some(TransitionProblem::UnknownLow)
    } else if tilesets.index_of(def.high@) is None {
        Some(TransitionProblem::UnknownHigh)
    } else {
        let lo = tilesets.by_id@[tilesets.index_of(def.low@)->0];
        let hi = tilesets.by_id@[tilesets.index_of(def.high@)->0];
        if key_lt(hi.priority as int, def.high@, lo.priority as int, def.low@) {
            Some(TransitionProblem::NotCanonical)
        } else if dir != def.low@ + seq!['_', '_'] + def.high@ {
            Some(TransitionProblem::DirectoryMismatch)
        } else if def.tile_size_px != lo.tile_size_px || def.tile_size_px != hi.tile_size_px {
            Some(TransitionProblem::TileSizeMismatch)
        } else if variant_problem_spec(def.variants@) is Some {
            Some(TransitionProblem::Variant(variant_problem_spec(def.variants@)->0))
        } else {
            None
        }
    }
}

/// Whether `dir` spells `low`, two underscores, then `high`.
fn is_pair_directory(dir: &str, low: &str, high: &str) -> (b: bool)
    ensures
        b == (dir@ == low@ + seq!['_', '_'] + high@),
{
    let mut expected = chars_of(low);
    expected.push('_');
    expected.push('_');
    let mut h = chars_of(high);
    expected.append(&mut h);
    let d = chars_of(dir);
    assert(expected@ == low@ + seq!['_', '_'] + high@);
    if d.len() != expected.len() {
        return false;
    }
    let mut i: usize = 0;
    while i < d.len()
        invariant
            d@ == dir@,
            expected@ == low@ + seq!['_', '_'] + high@,
            d@.len() == expected@.len(),
            i <= d@.len(),
            forall|j: int| 0 <= j < i ==> d@[j] == expected@[j],
        decreases d@.len() - i,
    {
        if d[i] != expected[i] {
            return false;
        }
        i = i + 1;
    }
    assert(d@ == expected@);
    true
}

impl FloorTransitionDefinition {
    /// The first problem of this transition when loaded from
    /// `directory_name` alongside `tilesets`.
    pub fn validation_problem(&self, directory_name: &str, tilesets: &FloorTilesetDefinitions) -> (r: Option<TransitionProblem>)
        requires
            tilesets.wf(),
        ensures
            r == transition_problem_spec(*self, directory_name@, *tilesets),
    {
        if str_eq(self.low.as_str(), self.high.as_str()) {
            return Some(TransitionProblem::SameEndpoints);
        }
        let lo = match tilesets.get(self.low.as_str()) {
            Some(d) => d,
            None => {
                return Some(TransitionProblem::UnknownLow);
            },
        };
        let hi = match tilesets.get(self.high.as_str()) {
            Some(d) => d,
            None => {
                return Some(TransitionProblem::UnknownHigh);
            },
        };
        let high_first = hi.priority < lo.priority || (hi.priority == lo.priority && str_lt(self.high.as_str(), self.low.as_str()));
        if high_first {
            return Some(TransitionProblem::NotCanonical);
        }
        if !is_pair_directory(directory_name, self.low.as_str(), self.high.as_str()) {
            return Some(TransitionProblem::DirectoryMismatch);
        }
        if self.tile_size_px != lo.tile_size_px || self.tile_size_px != hi.tile_size_px {
            return Some(TransitionProblem::TileSizeMismatch);
        }
        match variant_problem(&self.variants) {
            Some(p) => Some(TransitionProblem::Variant(p)),
            None => None,
        }
    }
}

} // verus!
