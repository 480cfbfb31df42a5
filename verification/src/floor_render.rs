//! Pure floor-rendering decisions: which variant a corner cell shows, how a
//! corner's four tiles are drawn (hard edges or a transition), and the
//! atlas layout permutation.

use std::collections::hash_map::DefaultHasher;
use std::hash::Hasher;

use vstd::prelude::*;

use crate::components::SpaceId;
use crate::floor_definitions::{key_lt, FloorTilesetDefinitions, FloorTransitionDefinition};
use crate::text::{seq_lt, str_eq, str_lt};

verus! {

/// Atlas index (in the 4×4 authoring layout) of each corner bitmask
/// `0..=15` (NW=1, NE=2, SW=4, SE=8).
pub const MASK_TO_AUTHORING_INDEX: [usize; 16] = [12, 0, 13, 3, 15, 11, 4, 2, 8, 14, 1, 5, 9, 7, 10, 6];

/// Inverse of `MASK_TO_AUTHORING_INDEX`: the bitmask depicted by each
/// authoring-layout tile.
pub const AUTHORING_INDEX_TO_MASK: [u8; 16] = [1, 10, 7, 3, 6, 11, 15, 13, 8, 12, 14, 5, 0, 2, 9, 4];

pub open spec fn mask_to_index_spec(mask: int) -> int {
    seq![12int, 0, 13, 3, 15, 11, 4, 2, 8, 14, 1, 5, 9, 7, 10, 6][mask]
}

pub open spec fn index_to_mask_spec(idx: int) -> int {
    seq![1int, 10, 7, 3, 6, 11, 15, 13, 8, 12, 14, 5, 0, 2, 9, 4][idx]
}

/// Authoring-layout atlas index of a corner bitmask.
pub fn mask_to_authoring_index(mask: u8) -> (i: usize)
    requires
        mask < 16,
    ensures
        i == mask_to_index_spec(mask as int),
{
    let table: [usize; 16] = [12, 0, 13, 3, 15, 11, 4, 2, 8, 14, 1, 5, 9, 7, 10, 6];
    assert(table@ == seq![12usize, 0, 13, 3, 15, 11, 4, 2, 8, 14, 1, 5, 9, 7, 10, 6]);
    table[mask as usize]
}

/// Corner bitmask depicted by an authoring-layout atlas index.
pub fn authoring_index_to_mask(idx: usize) -> (m: u8)
    requires
        idx < 16,
    ensures
        m == index_to_mask_spec(idx as int),
{
    let table: [u8; 16] = [1, 10, 7, 3, 6, 11, 15, 13, 8, 12, 14, 5, 0, 2, 9, 4];
    assert(table@ == seq![1u8, 10, 7, 3, 6, 11, 15, 13, 8, 12, 14, 5, 0, 2, 9, 4]);
    table[idx]
}

/// Atlas cell drawn for a corner cell: the authoring index of the low four
/// bits of `mask`, in variant block `variant` (16 cells per block).
pub fn floor_atlas_index(mask: u8, variant: usize) -> (idx: usize)
    requires
        variant * 16 + 15 <= usize::MAX,
    ensures
        idx == mask_to_index_spec((mask & 0xF) as int) + variant * 16,
{
    let low = mask & 0xF;
    assert(low < 16) by (bit_vector)
        requires
            low == mask & 0xF,
    ;
    let base = mask_to_authoring_index(low);
    assert(base < 16) by {
        assert(low == 0 || low == 1 || low == 2 || low == 3 || low == 4 || low == 5 || low == 6 || low == 7 || low == 8
            || low == 9 || low == 10 || low == 11 || low == 12 || low == 13 || low == 14 || low == 15);
    }
    base + variant * 16
}

/// The two tables are inverse permutations of `0..16`.
pub proof fn lemma_authoring_tables_inverse()
    ensures
        forall|m: int| 0 <= m < 16 ==> 0 <= #[trigger] mask_to_index_spec(m) < 16 && index_to_mask_spec(mask_to_index_spec(m)) == m,
        forall|i: int| 0 <= i < 16 ==> 0 <= #[trigger] index_to_mask_spec(i) < 16 && mask_to_index_spec(index_to_mask_spec(i)) == i,
{
    assert forall|m: int| 0 <= m < 16 implies 0 <= #[trigger] mask_to_index_spec(m) < 16 && index_to_mask_spec(mask_to_index_spec(m)) == m by {
        assert(0 <= m < 16);
        assert(m == 0 || m == 1 || m == 2 || m == 3 || m == 4 || m == 5 || m == 6 || m == 7 || m == 8 || m == 9 || m == 10 || m == 11 || m == 12 || m == 13 || m == 14 || m == 15);
    }
    assert forall|i: int| 0 <= i < 16 implies 0 <= #[trigger] index_to_mask_spec(i) < 16 && mask_to_index_spec(index_to_mask_spec(i)) == i by {
        assert(i == 0 || i == 1 || i == 2 || i == 3 || i == 4 || i == 5 || i == 6 || i == 7 || i == 8 || i == 9 || i == 10 || i == 11 || i == 12 || i == 13 || i == 14 || i == 15);
    }
}

// ── Variant choice ────────────────────────────────────────────────────────────

pub open spec fn weight_sum(w: Seq<u32>) -> int
    decreases w.len(),
{
    if w.len() == 0 { 0 } else { weight_sum(w.drop_last()) + w.last() as int }
}

/// First index `i >= k` whose weight exceeds the remaining `t`, subtracting
/// the weights passed over; the last index when `t` outlasts them all.
pub open spec fn walk_weights(t: int, w: Seq<u32>, k: int) -> int
    decreases w.len() - k,
{
    if k >= w.len() {
        w.len() - 1
    } else if t < w[k] as int {
        k
    } else {
        walk_weights(t - w[k] as int, w, k + 1)
    }
}

/// Variant index chosen by hash value `h`: `0` for at most one weight,
/// otherwise the weighted pick of `h mod max(total, 1)`.
pub open spec fn pick_weighted_spec(h: u64, w: Seq<u32>) -> int {
    if w.len() <= 1 {
        0
    } else {
        let total = weight_sum(w);
        let t = (h as int) % (if total >= 1 { total } else { 1 });
        walk_weights(t, w, 0)
    }
}

proof fn lemma_weight_sum_prefix(w: Seq<u32>, k: int)
    requires
        0 <= k <= w.len(),
    ensures
        weight_sum(w.take(k)) <= weight_sum(w),
        0 <= weight_sum(w.take(k)),
    decreases w.len(),
{
    if w.len() > 0 {
        if k == w.len() {
            assert(w.take(k) == w);
        } else {
            assert(w.take(k) == w.drop_last().take(k));
            lemma_weight_sum_prefix(w.drop_last(), k);
        }
        lemma_weight_sum_prefix(w.drop_last(), w.drop_last().len() as int);
        assert(w.drop_last().take(w.drop_last().len() as int) == w.drop_last());
    }
}

proof fn lemma_walk_in_range(t: int, w: Seq<u32>, k: int)
    requires
        w.len() >= 1,
        0 <= k,
    ensures
        0 <= walk_weights(t, w, k) < w.len(),
    decreases w.len() - k,
{
    if k < w.len() && !(t < w[k] as int) {
        lemma_walk_in_range(t - w[k] as int, w, k + 1);
    }
}

/// Weighted pick from a hash value (see `pick_weighted_spec`).
pub fn pick_weighted(h: u64, weights: &[u32]) -> (v: usize)
    requires
        weight_sum(weights@) <= u64::MAX,
    ensures
        v == pick_weighted_spec(h, weights@),
        weights@.len() >= 1 ==> v < weights@.len(),
{
    if weights.len() <= 1 {
        return 0;
    }
    let mut total: u64 = 0;
    let mut k: usize = 0;
    while k < weights.len()
        invariant
            k <= weights@.len(),
            weight_sum(weights@) <= u64::MAX,
            total == weight_sum(weights@.take(k as int)),
        decreases weights@.len() - k,
    {
        proof {
            assert(weights@.take(k + 1).drop_last() == weights@.take(k as int));
            lemma_weight_sum_prefix(weights@, k + 1);
        }
        total = total + weights[k] as u64;
        k = k + 1;
    }
    assert(weights@.take(weights@.len() as int) == weights@);
    let divisor: u64 = if total >= 1 { total } else { 1 };
    let mut t: u64 = h % divisor;
    let mut i: usize = 0;
    while i < weights.len()
        invariant
            i <= weights@.len(),
            weights@.len() >= 2,
            walk_weights(t as int, weights@, i as int) == pick_weighted_spec(h, weights@),
        decreases weights@.len() - i,
    {
        let w = weights[i] as u64;
        if t < w {
            return i;
        }
        t = t - w;
        i = i + 1;
    }
    proof {
        lemma_walk_in_range(t as int, weights@, i as int);
    }
    weights.len() - 1
}

/// Feeds a `u64` to the std hasher (`Hasher::write_u64`). What it appends
/// depends on the machine's byte order, so no contract is stated.
#[verifier::external_body]
fn hasher_write_u64(h: &mut DefaultHasher, v: u64) {
    h.write_u64(v)
}

/// Feeds an `i32` to the std hasher (`Hasher::write_i32`). What it appends
/// depends on the machine's byte order, so no contract is stated.
#[verifier::external_body]
fn hasher_write_i32(h: &mut DefaultHasher, v: i32) {
    h.write_i32(v)
}

/// Deterministically picks a variant index for the corner cell `(rx, ry)`
/// of `space_id`, distributed by `weights`: the weighted pick of the std
/// default hash of `(space, rx, ry)`.
pub fn pick_variant(space_id: SpaceId, rx: i32, ry: i32, weights: &[u32]) -> (v: usize)
    requires
        weight_sum(weights@) <= u64::MAX,
    ensures
        weights@.len() <= 1 ==> v == 0,
        weights@.len() >= 1 ==> v < weights@.len(),
        exists|h: u64| v == pick_weighted_spec(h, weights@),
{
    if weights.len() <= 1 {
        assert(0 == pick_weighted_spec(0, weights@));
        return 0;
    }
    let mut h = DefaultHasher::new();
    hasher_write_u64(&mut h, space_id.0);
    hasher_write_i32(&mut h, rx);
    hasher_write_i32(&mut h, ry);
    let digest = h.finish();
    pick_weighted(digest, weights)
}

// ── Corner classification ─────────────────────────────────────────────────────

/// The four tiles around a corner, in bit order NW=1, NE=2, SW=4, SE=8.
pub open spec fn corner_seq(nw: Option<Seq<char>>, ne: Option<Seq<char>>, sw: Option<Seq<char>>, se: Option<Seq<char>>) -> Seq<Option<Seq<char>>> {
    seq![nw, ne, sw, se]
}

/// Bits of the corners holding floor type `id`.
pub open spec fn mask_of(c: Seq<Option<Seq<char>>>, id: Seq<char>) -> int {
    (if c[0] == Some(id) { 1int } else { 0 }) + (if c[1] == Some(id) { 2int } else { 0 }) + (if c[2] == Some(id) { 4int } else { 0 }) + (if c[3] == Some(id) { 8int } else { 0 })
}

/// Floor type `id` occupies some corner.
pub open spec fn present(c: Seq<Option<Seq<char>>>, id: Seq<char>) -> bool {
    c[0] == Some(id) || c[1] == Some(id) || c[2] == Some(id) || c[3] == Some(id)
}

/// Sort key priority: the tileset's priority, `0` when unknown.
pub open spec fn prio_or_zero(defs: FloorTilesetDefinitions, id: Seq<char>) -> int {
    match defs.priority_of(id) {
        Some(p) => p,
        None => 0,
    }
}

/// `entries` lists every floor type at the corner once with its bits,
/// ordered by `(priority, id)`.
pub open spec fn is_hard_edge_listing(defs: FloorTilesetDefinitions, c: Seq<Option<Seq<char>>>, entries: Seq<(Seq<char>, u8)>) -> bool {
    &&& forall|i: int| 0 <= i < entries.len() ==> present(c, (#[trigger] entries[i]).0) && entries[i].1 as int == mask_of(c, entries[i].0)
    &&& forall|id: Seq<char>| #[trigger] present(c, id) ==> exists|i: int| 0 <= i < entries.len() && (#[trigger] entries[i]).0 == id
    &&& forall|i: int, j: int| 0 <= i < j < entries.len() ==>
        key_lt(prio_or_zero(defs, (#[trigger] entries[i]).0), entries[i].0, prio_or_zero(defs, (#[trigger] entries[j]).0), entries[j].0)
}

/// What to spawn at one corner: one hard-edged cell per floor type, or a
/// low base plus a transition overlay with the high side's bits.
#[derive(Debug, PartialEq, Eq)]
pub enum CornerRenderPlan<'a> {
    HardEdges(Vec<(&'a String, u8)>),
    Transition { low: &'a String, high: &'a String, high_mask: u8 },
}

pub open spec fn opt_view(o: Option<&String>) -> Option<Seq<char>> {
    match o {
        Some(s) => Some(s@),
        None => None,
    }
}

fn opt_eq(a: Option<&String>, b: &String) -> (r: bool)
    ensures
        r == (opt_view(a) == Some(b@)),
{
    match a {
        Some(s) => str_eq(s.as_str(), b.as_str()),
        None => false,
    }
}

/// Distinct floor types at the corner, in first-corner order, with bits.
fn group_corners<'a>(nw: Option<&'a String>, ne: Option<&'a String>, sw: Option<&'a String>, se: Option<&'a String>) -> (g: Vec<(&'a String, u8)>)
    ensures
        ({
            let c = corner_seq(opt_view(nw), opt_view(ne), opt_view(sw), opt_view(se));
            &&& forall|i: int| 0 <= i < g@.len() ==> present(c, (#[trigger] g@[i]).0@) && g@[i].1 as int == mask_of(c, g@[i].0@)
            &&& forall|id: Seq<char>| #[trigger] present(c, id) ==> exists|i: int| 0 <= i < g@.len() && (#[trigger] g@[i]).0@ == id
            &&& forall|i: int, j: int| 0 <= i < j < g@.len() ==> (#[trigger] g@[i]).0@ != (#[trigger] g@[j]).0@
        }),
{
    let ghost c = corner_seq(opt_view(nw), opt_view(ne), opt_view(sw), opt_view(se));
    let corners: [Option<&'a String>; 4] = [nw, ne, sw, se];
    let mut g: Vec<(&'a String, u8)> = Vec::new();
    let mut k: usize = 0;
    while k < 4
        invariant
            k <= 4,
            c == corner_seq(opt_view(nw), opt_view(ne), opt_view(sw), opt_view(se)),
            corners@ == seq![nw, ne, sw, se],
            forall|i: int| 0 <= i < g@.len() ==> present(c, (#[trigger] g@[i]).0@) && g@[i].1 as int == mask_of(c, g@[i].0@),
            forall|id: Seq<char>| #[trigger] present_upto(c, id, k as int) ==> exists|i: int| 0 <= i < g@.len() && (#[trigger] g@[i]).0@ == id,
            forall|i: int| 0 <= i < g@.len() ==> present_upto(c, (#[trigger] g@[i]).0@, k as int),
            forall|i: int, j: int| 0 <= i < j < g@.len() ==> (#[trigger] g@[i]).0@ != (#[trigger] g@[j]).0@,
        decreases 4 - k,
    {
        let cur = corners[k];
        if cur.is_none() {
            proof {
                assert(c[k as int] is None);
                assert forall|id: Seq<char>| #[trigger] present_upto(c, id, k + 1) implies exists|i: int| 0 <= i < g@.len() && (#[trigger] g@[i]).0@ == id by {
                    let j = choose|j: int| 0 <= j < k + 1 && j < 4 && c[j] == Some(id);
                    assert(j != k as int);
                    assert(present_upto(c, id, k as int));
                }
                assert forall|i: int| 0 <= i < g@.len() implies present_upto(c, (#[trigger] g@[i]).0@, k + 1) by {
                    let id = g@[i].0@;
                    assert(present_upto(c, id, k as int));
                    let j = choose|j: int| 0 <= j < k && j < 4 && c[j] == Some(id);
                }
            }
        }
        if let Some(t) = cur {
            let mut seen = false;
            let mut q: usize = 0;
            while q < g.len()
                invariant
                    q <= g@.len(),
                    seen == exists|i: int| 0 <= i < q && (#[trigger] g@[i]).0@ == t@,
                decreases g@.len() - q,
            {
                if str_eq(g[q].0.as_str(), t.as_str()) {
                    seen = true;
                }
                q = q + 1;
            }
            if !seen {
                let m: u8 = (if opt_eq(nw, t) { 1u8 } else { 0 }) + (if opt_eq(ne, t) { 2u8 } else { 0 })
                    + (if opt_eq(sw, t) { 4u8 } else { 0 }) + (if opt_eq(se, t) { 8u8 } else { 0 });
                let ghost prev = g@;
                g.push((t, m));
                proof {
                    assert(c[k as int] == Some(t@));
                    assert forall|i: int, j: int| 0 <= i < j < g@.len() implies (#[trigger] g@[i]).0@ != (#[trigger] g@[j]).0@ by {
                        if j == prev.len() {
                            assert(g@[i] == prev[i]);
                        } else {
                            assert(g@[i] == prev[i] && g@[j] == prev[j]);
                        }
                    }
                    assert forall|i: int| 0 <= i < g@.len() implies present(c, (#[trigger] g@[i]).0@) && g@[i].1 as int == mask_of(c, g@[i].0@) by {
                        if i < prev.len() {
                            assert(g@[i] == prev[i]);
                        }
                    }
                    assert forall|i: int| 0 <= i < g@.len() implies present_upto(c, (#[trigger] g@[i]).0@, k + 1) by {
                        if i < prev.len() {
                            assert(g@[i] == prev[i]);
                        }
                    }
                    assert forall|id: Seq<char>| #[trigger] present_upto(c, id, k + 1) implies exists|i: int| 0 <= i < g@.len() && (#[trigger] g@[i]).0@ == id by {
                        if present_upto(c, id, k as int) {
                            let i = choose|i: int| 0 <= i < prev.len() && (#[trigger] prev[i]).0@ == id;
                            assert(g@[i] == prev[i]);
                        } else {
                            assert(g@[prev.len() as int].0@ == id);
                        }
                    }
                }
            } else {
                proof {
                    assert forall|id: Seq<char>| #[trigger] present_upto(c, id, k + 1) implies exists|i: int| 0 <= i < g@.len() && (#[trigger] g@[i]).0@ == id by {
                        if !present_upto(c, id, k as int) {
                            assert(id == t@);
                        }
                    }
                }
            }
        }
        k = k + 1;
    }
    proof {
        assert forall|id: Seq<char>| #[trigger] present(c, id) implies exists|i: int| 0 <= i < g@.len() && (#[trigger] g@[i]).0@ == id by {
            assert(present_upto(c, id, 4));
        }
    }
    g
}

/// `id` occupies one of the first `k` corners.
pub open spec fn present_upto(c: Seq<Option<Seq<char>>>, id: Seq<char>, k: int) -> bool {
    exists|j: int| 0 <= j < k && j < 4 && c[j] == Some(id)
}

fn prio_of(defs: &FloorTilesetDefinitions, id: &String) -> (p: i32)
    requires
        defs.wf(),
    ensures
        p == prio_or_zero(*defs, id@),
{
    match defs.get(id.as_str()) {
        Some(d) => d.priority,
        None => 0,
    }
}

/// Per-type `(floor_id, mask)` entries for a corner, sorted by `(priority
/// asc, id asc)` (see `is_hard_edge_listing`).
pub fn hard_edge_entries<'a>(
    floor_defs: &'a FloorTilesetDefinitions,
    nw: Option<&'a String>,
    ne: Option<&'a String>,
    sw: Option<&'a String>,
    se: Option<&'a String>,
) -> (entries: Vec<(&'a String, u8)>)
    requires
        floor_defs.wf(),
    ensures
        is_hard_edge_listing(*floor_defs, corner_seq(opt_view(nw), opt_view(ne), opt_view(sw), opt_view(se)),
            entries@.map_values(|e: (&String, u8)| (e.0@, e.1))),
{
    let ghost c = corner_seq(opt_view(nw), opt_view(ne), opt_view(sw), opt_view(se));
    let groups = group_corners(nw, ne, sw, se);
    let mut out: Vec<(&'a String, u8)> = Vec::new();
    let mut k: usize = 0;
    while k < groups.len()
        invariant
            floor_defs.wf(),
            k <= groups@.len(),
            forall|i: int| 0 <= i < groups@.len() ==> present(c, (#[trigger] groups@[i]).0@) && groups@[i].1 as int == mask_of(c, groups@[i].0@),
            forall|i: int, j: int| 0 <= i < j < groups@.len() ==> (#[trigger] groups@[i]).0@ != (#[trigger] groups@[j]).0@,
            out@.len() == k,
            forall|i: int| 0 <= i < out@.len() ==> exists|q: int| 0 <= q < k && (#[trigger] out@[i]).0@ == groups@[q].0@ && out@[i].1 == groups@[q].1,
            forall|q: int| #![trigger groups@[q]] 0 <= q < k ==> exists|i: int| 0 <= i < out@.len() && (#[trigger] out@[i]).0@ == groups@[q].0@,
            forall|i: int, j: int| 0 <= i < j < out@.len() ==>
                key_lt(prio_or_zero(*floor_defs, (#[trigger] out@[i]).0@), out@[i].0@, prio_or_zero(*floor_defs, (#[trigger] out@[j]).0@), out@[j].0@),
        decreases groups@.len() - k,
    {
        let (id, m) = groups[k];
        let ghost prev = out@;
        proof {
            assert forall|i: int| 0 <= i < prev.len() implies (#[trigger] prev[i]).0@ != id@ by {
                let q = choose|q: int| 0 <= q < k && prev[i].0@ == groups@[q].0@ && prev[i].1 == groups@[q].1;
            }
        }
        insert_sorted(&mut out, id, m, floor_defs);
        proof {
            assert forall|i: int| 0 <= i < out@.len() implies exists|q: int| 0 <= q < k + 1 && (#[trigger] out@[i]).0@ == groups@[q].0@ && out@[i].1 == groups@[q].1 by {
                if out@[i].0@ == id@ && out@[i].1 == m {
                    assert(groups@[k as int].0@ == id@);
                } else {
                    let j = choose|j: int| 0 <= j < prev.len() && prev[j].0@ == out@[i].0@ && prev[j].1 == out@[i].1;
                    let q = choose|q: int| 0 <= q < k && (#[trigger] prev[j]).0@ == groups@[q].0@ && prev[j].1 == groups@[q].1;
                }
            }
            assert forall|q: int| #![trigger groups@[q]] 0 <= q < k + 1 implies exists|i: int| 0 <= i < out@.len() && (#[trigger] out@[i]).0@ == groups@[q].0@ by {
                if q < k {
                    let j = choose|j: int| 0 <= j < prev.len() && (#[trigger] prev[j]).0@ == groups@[q].0@;
                    assert(prev[j].0@ == prev[j].0@);
                }
            }
        }
        k = k + 1;
    }
    proof {
        let ev = out@.map_values(|e: (&String, u8)| (e.0@, e.1));
        assert forall|i: int| 0 <= i < ev.len() implies present(c, (#[trigger] ev[i]).0) && ev[i].1 as int == mask_of(c, ev[i].0) by {
            let q = choose|q: int| 0 <= q < groups@.len() && out@[i].0@ == groups@[q].0@ && out@[i].1 == groups@[q].1;
        }
        assert forall|id: Seq<char>| #[trigger] present(c, id) implies exists|i: int| 0 <= i < ev.len() && (#[trigger] ev[i]).0 == id by {
            let q = choose|q: int| 0 <= q < groups@.len() && (#[trigger] groups@[q]).0@ == id;
            let i = choose|i: int| 0 <= i < out@.len() && (#[trigger] out@[i]).0@ == groups@[q].0@;
            assert(ev[i].0 == id);
        }
        assert forall|i: int, j: int| 0 <= i < j < ev.len() implies
            key_lt(prio_or_zero(*floor_defs, (#[trigger] ev[i]).0), ev[i].0, prio_or_zero(*floor_defs, (#[trigger] ev[j]).0), ev[j].0) by {
            assert(ev[i].0 == out@[i].0@ && ev[j].0 == out@[j].0@);
        }
    }
    out
}

/// Entries strictly ordered by `(priority, id)`.
pub open spec fn sorted_entries(defs: FloorTilesetDefinitions, s: Seq<(&String, u8)>) -> bool {
    forall|i: int, j: int| 0 <= i < j < s.len() ==>
        key_lt(prio_or_zero(defs, (#[trigger] s[i]).0@), s[i].0@, prio_or_zero(defs, (#[trigger] s[j]).0@), s[j].0@)
}

/// Number of leading entries that come before `(p, id)` in `(priority, id)` order.
fn sorted_position(out: &Vec<(&String, u8)>, id: &String, p: i32, floor_defs: &FloorTilesetDefinitions) -> (pos: usize)
    requires
        floor_defs.wf(),
        p == prio_or_zero(*floor_defs, id@),
    ensures
        pos <= out@.len(),
        forall|i: int| 0 <= i < pos ==> key_lt(prio_or_zero(*floor_defs, (#[trigger] out@[i]).0@), out@[i].0@, p as int, id@),
        pos < out@.len() ==> !key_lt(prio_or_zero(*floor_defs, out@[pos as int].0@), out@[pos as int].0@, p as int, id@),
{
    let mut pos: usize = 0;
    while pos < out.len()
        invariant
            floor_defs.wf(),
            pos <= out@.len(),
            p == prio_or_zero(*floor_defs, id@),
            forall|i: int| 0 <= i < pos ==> key_lt(prio_or_zero(*floor_defs, (#[trigger] out@[i]).0@), out@[i].0@, p as int, id@),
        ensures
            pos <= out@.len(),
            forall|i: int| 0 <= i < pos ==> key_lt(prio_or_zero(*floor_defs, (#[trigger] out@[i]).0@), out@[i].0@, p as int, id@),
            pos < out@.len() ==> !key_lt(prio_or_zero(*floor_defs, out@[pos as int].0@), out@[pos as int].0@, p as int, id@),
        decreases out@.len() - pos,
    {
        let q = prio_of(floor_defs, out[pos].0);
        if q < p || (q == p && str_lt(out[pos].0.as_str(), id.as_str())) {
            pos = pos + 1;
        } else {
            break;
        }
    }
    pos
}

/// What inserting `e` at `pos` keeps and adds.
proof fn lemma_insert_members<'a>(prev: Seq<(&'a String, u8)>, pos: int, e: (&'a String, u8))
    requires
        0 <= pos <= prev.len(),
    ensures
        ({
            let out = prev.insert(pos, e);
            &&& out.len() == prev.len() + 1
            &&& exists|i: int| 0 <= i < out.len() && (#[trigger] out[i]).0@ == e.0@ && out[i].1 == e.1
            &&& forall|j: int| 0 <= j < prev.len() ==> exists|i: int| 0 <= i < out.len() && (#[trigger] out[i]).0@ == (#[trigger] prev[j]).0@ && out[i].1 == prev[j].1
            &&& forall|i: int| 0 <= i < out.len() ==> ((#[trigger] out[i]).0@ == e.0@ && out[i].1 == e.1)
                || exists|j: int| 0 <= j < prev.len() && prev[j].0@ == out[i].0@ && prev[j].1 == out[i].1
        }),
{
    let out = prev.insert(pos, e);
    assert(out[pos].0@ == e.0@ && out[pos].1 == e.1);
    assert forall|j: int| 0 <= j < prev.len() implies exists|i: int| 0 <= i < out.len() && (#[trigger] out[i]).0@ == (#[trigger] prev[j]).0@ && out[i].1 == prev[j].1 by {
        if j < pos {
            assert(out[j] == prev[j]);
        } else {
            assert(out[j + 1] == prev[j]);
        }
    }
    assert forall|i: int| 0 <= i < out.len() implies ((#[trigger] out[i]).0@ == e.0@ && out[i].1 == e.1)
        || exists|j: int| 0 <= j < prev.len() && prev[j].0@ == out[i].0@ && prev[j].1 == out[i].1 by {
        if i < pos {
            assert(out[i] == prev[i]);
        } else if i > pos {
            assert(out[i] == prev[i - 1]);
        }
    }
}

/// Inserts `(id, m)` at its place in a sorted entry list.
#[verifier::spinoff_prover]
fn insert_sorted<'a>(out: &mut Vec<(&'a String, u8)>, id: &'a String, m: u8, floor_defs: &FloorTilesetDefinitions)
    requires
        floor_defs.wf(),
        sorted_entries(*floor_defs, old(out)@),
        forall|i: int| 0 <= i < old(out)@.len() ==> (#[trigger] old(out)@[i]).0@ != id@,
    ensures
        sorted_entries(*floor_defs, final(out)@),
        final(out)@.len() == old(out)@.len() + 1,
        exists|i: int| 0 <= i < final(out)@.len() && (#[trigger] final(out)@[i]).0@ == id@ && final(out)@[i].1 == m,
        forall|j: int| 0 <= j < old(out)@.len() ==> exists|i: int| 0 <= i < final(out)@.len() && (#[trigger] final(out)@[i]).0@ == (#[trigger] old(out)@[j]).0@ && final(out)@[i].1 == old(out)@[j].1,
        forall|i: int| 0 <= i < final(out)@.len() ==> ((#[trigger] final(out)@[i]).0@ == id@ && final(out)@[i].1 == m)
            || exists|j: int| 0 <= j < old(out)@.len() && old(out)@[j].0@ == final(out)@[i].0@ && old(out)@[j].1 == final(out)@[i].1,
{
    let p = prio_of(floor_defs, id);
    let pos = sorted_position(out, id, p, floor_defs);
    let ghost prev = out@;
    proof {
        if pos < prev.len() {
            crate::text::lemma_seq_lt_total(prev[pos as int].0@, id@);
            assert(prev[pos as int].0@ != id@);
            assert(key_lt(p as int, id@, prio_or_zero(*floor_defs, prev[pos as int].0@), prev[pos as int].0@));
        }
    }
    out.insert(pos, (id, m));
    proof {
        lemma_insert_keeps_sorted(*floor_defs, prev, pos as int, (id, m));
        lemma_insert_members(prev, pos as int, (id, m));
    }
}

/// Inserting an entry between its smaller and larger neighbours keeps the
/// list sorted.
proof fn lemma_insert_keeps_sorted<'a>(defs: FloorTilesetDefinitions, prev: Seq<(&'a String, u8)>, pos: int, e: (&'a String, u8))
    requires
        sorted_entries(defs, prev),
        0 <= pos <= prev.len(),
        forall|i: int| 0 <= i < pos ==> key_lt(prio_or_zero(defs, (#[trigger] prev[i]).0@), prev[i].0@, prio_or_zero(defs, e.0@), e.0@),
        pos < prev.len() ==> key_lt(prio_or_zero(defs, e.0@), e.0@, prio_or_zero(defs, prev[pos].0@), prev[pos].0@),
    ensures
        sorted_entries(defs, prev.insert(pos, e)),
{
    let out = prev.insert(pos, e);
    assert forall|i: int, j: int| 0 <= i < j < out.len() implies
        key_lt(prio_or_zero(defs, (#[trigger] out[i]).0@), out[i].0@, prio_or_zero(defs, (#[trigger] out[j]).0@), out[j].0@) by {
        let a = out[i];
        let b = out[j];
        if j < pos {
            assert(a == prev[i] && b == prev[j]);
        } else if j == pos {
            assert(a == prev[i]);
        } else if i == pos {
            assert(b == prev[j - 1]);
            if j - 1 > pos {
                let pp = prev[pos];
                assert(key_lt(prio_or_zero(defs, pp.0@), pp.0@, prio_or_zero(defs, b.0@), b.0@));
                lemma_key_lt_trans(prio_or_zero(defs, e.0@), e.0@, prio_or_zero(defs, pp.0@), pp.0@, prio_or_zero(defs, b.0@), b.0@);
            }
        } else if i < pos {
            assert(a == prev[i] && b == prev[j - 1]);
        } else {
            assert(a == prev[i - 1] && b == prev[j - 1]);
        }
    }
}

/// `(priority, id)` order is transitive.
pub proof fn lemma_key_lt_trans(pa: int, a: Seq<char>, pb: int, b: Seq<char>, pc: int, c: Seq<char>)
    requires
        key_lt(pa, a, pb, b),
        key_lt(pb, b, pc, c),
    ensures
        key_lt(pa, a, pc, c),
{
    if pa == pb && pb == pc {
        crate::text::lemma_seq_lt_trans(a, b, c);
    }
}

/// Exactly two floor types `a != b` occupy the corner.
pub open spec fn two_types(c: Seq<Option<Seq<char>>>, a: Seq<char>, b: Seq<char>) -> bool {
    &&& a != b
    &&& present(c, a)
    &&& present(c, b)
    &&& forall|id: Seq<char>| #[trigger] present(c, id) ==> id == a || id == b
}

/// Decides what to spawn at the corner whose four tiles are `nw, ne, sw,
/// se`: exactly two distinct floor types with an authored transition give a
/// `Transition` (canonical pair, high side's bits); anything else gives
/// `HardEdges` (see `hard_edge_entries`).
pub fn classify_corner<'a>(
    floor_defs: &'a FloorTilesetDefinitions,
    nw: Option<&'a String>,
    ne: Option<&'a String>,
    sw: Option<&'a String>,
    se: Option<&'a String>,
) -> (plan: CornerRenderPlan<'a>)
    requires
        floor_defs.wf(),
    ensures
        ({
            let c = corner_seq(opt_view(nw), opt_view(ne), opt_view(sw), opt_view(se));
            match plan {
                CornerRenderPlan::Transition { low, high, high_mask } => {
                    &&& two_types(c, low@, high@)
                    &&& floor_defs.canonical_spec(low@, high@) == Some((low@, high@))
                    &&& floor_defs.transition_index(low@, high@) is Some
                    &&& high_mask as int == mask_of(c, high@)
                },
                CornerRenderPlan::HardEdges(entries) => {
                    &&& is_hard_edge_listing(*floor_defs, c, entries@.map_values(|e: (&String, u8)| (e.0@, e.1)))
                    &&& forall|a: Seq<char>, b: Seq<char>| two_types(c, a, b) ==> ({
                        let canon = floor_defs.canonical_spec(a, b);
                        canon is None || floor_defs.transition_index(canon.unwrap().0, canon.unwrap().1) is None
                    })
                },
            }
        }),
{
    let ghost c = corner_seq(opt_view(nw), opt_view(ne), opt_view(sw), opt_view(se));
    let groups = group_corners(nw, ne, sw, se);
    if groups.len() == 2 {
        let (a_id, a_mask) = groups[0];
        let (b_id, b_mask) = groups[1];
        proof {
            assert(groups@[0].0@ != groups@[1].0@);
            assert forall|id: Seq<char>| #[trigger] present(c, id) implies id == a_id@ || id == b_id@ by {
                let i = choose|i: int| 0 <= i < groups@.len() && (#[trigger] groups@[i]).0@ == id;
            }
        }
        match floor_defs.transition_for(a_id, b_id) {
            Some((low, high, _def)) => {
                let high_mask = if str_eq(low.as_str(), a_id.as_str()) { b_mask } else { a_mask };
                proof {
                    crate::floor_definitions::lemma_canonical_ordered(*floor_defs, a_id@, b_id@);
                    crate::floor_definitions::lemma_canonical_symmetric(*floor_defs, a_id@, b_id@);
                    lemma_canonical_fixed(*floor_defs, a_id@, b_id@);
                }
                return CornerRenderPlan::Transition { low, high, high_mask };
            },
            None => {
                proof {
                    assert forall|a: Seq<char>, b: Seq<char>| two_types(c, a, b) implies ({
                        let canon = floor_defs.canonical_spec(a, b);
                        canon is None || floor_defs.transition_index(canon.unwrap().0, canon.unwrap().1) is None
                    }) by {
                        crate::floor_definitions::lemma_canonical_symmetric(*floor_defs, a_id@, b_id@);
                        assert((a == a_id@ && b == b_id@) || (a == b_id@ && b == a_id@));
                    }
                }
            },
        }
    } else {
        proof {
            assert forall|a: Seq<char>, b: Seq<char>| two_types(c, a, b) implies ({
                let canon = floor_defs.canonical_spec(a, b);
                canon is None || floor_defs.transition_index(canon.unwrap().0, canon.unwrap().1) is None
            }) by {
                let ia = choose|i: int| 0 <= i < groups@.len() && (#[trigger] groups@[i]).0@ == a;
                let ib = choose|i: int| 0 <= i < groups@.len() && (#[trigger] groups@[i]).0@ == b;
                assert(ia != ib);
                if groups@.len() > 2 {
                    let k = if ia != 0 && ib != 0 { 0int } else if ia != 1 && ib != 1 { 1int } else { 2int };
                    assert(present(c, groups@[k].0@));
                    assert(groups@[k].0@ != a && groups@[k].0@ != b);
                }
            }
        }
    }
    CornerRenderPlan::HardEdges(hard_edge_entries(floor_defs, nw, ne, sw, se))
}

/// A canonical pair is its own canonical form.
pub proof fn lemma_canonical_fixed(defs: FloorTilesetDefinitions, a: Seq<char>, b: Seq<char>)
    requires
        defs.wf(),
        defs.canonical_spec(a, b) is Some,
    ensures
        ({
            let (low, high) = defs.canonical_spec(a, b).unwrap();
            defs.canonical_spec(low, high) == Some((low, high))
        }),
{
    crate::text::lemma_seq_lt_total(a, b);
}


/// At most one canonical pair of two floor types occupies a corner: two
/// pairs that both list exactly the corner's two types, each in canonical
/// order, are the same pair.
pub proof fn lemma_corner_pair_unique(defs: FloorTilesetDefinitions, c: Seq<Option<Seq<char>>>,
    a: Seq<char>, b: Seq<char>, a2: Seq<char>, b2: Seq<char>)
    requires
        defs.wf(),
        two_types(c, a, b),
        defs.canonical_spec(a, b) == Some((a, b)),
        two_types(c, a2, b2),
        defs.canonical_spec(a2, b2) == Some((a2, b2)),
    ensures
        a == a2 && b == b2,
{
    assert(present(c, a2) && present(c, b2));
    if a != a2 || b != b2 {
        assert(a2 == b && b2 == a);
        crate::floor_definitions::lemma_canonical_symmetric(defs, a, b);
    }
}

/// Which corners hold which floor type does not decide between a
/// transition and hard edges: corners holding the same floor types have
/// the same two-type pairs, so the same canonical pair with an authored
/// transition, or none.
pub proof fn lemma_classification_ignores_corner_order(defs: FloorTilesetDefinitions,
    c1: Seq<Option<Seq<char>>>, c2: Seq<Option<Seq<char>>>, a: Seq<char>, b: Seq<char>)
    requires
        defs.wf(),
        forall|id: Seq<char>| #[trigger] present(c1, id) <==> present(c2, id),
    ensures
        two_types(c1, a, b) <==> two_types(c2, a, b),
{
    if two_types(c1, a, b) {
        assert(present(c1, a) && present(c1, b));
        assert forall|id: Seq<char>| #[trigger] present(c2, id) implies id == a || id == b by {
            assert(present(c1, id));
        }
    }
    if two_types(c2, a, b) {
        assert(present(c2, a) && present(c2, b));
        assert forall|id: Seq<char>| #[trigger] present(c1, id) implies id == a || id == b by {
            assert(present(c2, id));
        }
    }
}

} // verus!
