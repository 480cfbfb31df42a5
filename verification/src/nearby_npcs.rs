//! The Nearby NPCs list: which NPCs it shows and in what order. It shows
//! the NPCs on the player's floor within their inspect range plus two
//! tiles, most threatening first and nearest first within a threat tier.

use vstd::prelude::*;

use crate::components::{chebyshev_distance, floor_index, TilePosition};
use crate::hidden::DEFAULT_INSPECT_RANGE;

verus! {

/// What the list reads of one world object.
#[derive(Clone, Copy, Debug, PartialEq, Eq, Structural)]
pub struct NpcSighting {
    pub object_id: u64,
    pub tile_position: TilePosition,
    pub is_npc: bool,
    pub is_targeting_local_player: bool,
    pub is_hostile: bool,
    /// The inspect range of the object's definition, if it gives one.
    pub inspect_range: Option<i32>,
}

/// Threat tier, lower is more dangerous: 0 = targeting the local player,
/// 1 = hostile, 2 = passive.
pub open spec fn threat_tier_spec(o: NpcSighting) -> int {
    if o.is_targeting_local_player {
        0
    } else if o.is_hostile {
        1
    } else {
        2
    }
}

/// The threat tier of an NPC (see `threat_tier_spec`).
pub fn nearby_npc_threat_tier(o: &NpcSighting) -> (tier: u8)
    ensures
        tier == threat_tier_spec(*o),
{
    if o.is_targeting_local_player {
        0
    } else if o.is_hostile {
        1
    } else {
        2
    }
}

/// The status dot of an NPC's row: red when it targets the local player,
/// yellow when hostile, green otherwise.
pub open spec fn dot_asset_spec(o: NpcSighting) -> Seq<char> {
    if o.is_targeting_local_player {
        "ui/hud_indicators/dot_red.png"@
    } else if o.is_hostile {
        "ui/hud_indicators/dot_yellow.png"@
    } else {
        "ui/hud_indicators/dot_green.png"@
    }
}

/// The asset path of an NPC's status dot (see `dot_asset_spec`).
pub fn nearby_npc_dot_asset(o: &NpcSighting) -> (path: &'static str)
    ensures
        path@ == dot_asset_spec(*o),
{
    if o.is_targeting_local_player {
        "ui/hud_indicators/dot_red.png"
    } else if o.is_hostile {
        "ui/hud_indicators/dot_yellow.png"
    } else {
        "ui/hud_indicators/dot_green.png"
    }
}

/// Chebyshev distance between two tiles.
pub open spec fn cheb(a: TilePosition, b: TilePosition) -> int {
    let dx = if a.x - b.x < 0 { b.x - a.x } else { a.x - b.x };
    let dy = if a.y - b.y < 0 { b.y - a.y } else { a.y - b.y };
    if dx >= dy { dx } else { dy }
}

/// How far from the player an NPC still shows: its inspect range (the
/// default when it has none) plus two tiles.
pub open spec fn window(o: NpcSighting) -> int {
    (match o.inspect_range {
        Some(r) => r as int,
        None => DEFAULT_INSPECT_RANGE as int,
    }) + 2
}

/// The list shows `o`: an NPC on the player's floor within its window.
pub open spec fn is_nearby(player: TilePosition, o: NpcSighting) -> bool {
    &&& o.is_npc
    &&& o.tile_position.z as int / 2 == player.z as int / 2
    &&& cheb(player, o.tile_position) <= window(o)
}

/// Entry `i` of `npcs` is listed before entry `j`: a lower threat tier,
/// then a shorter distance, then the earlier entry.
pub open spec fn listed_before(player: TilePosition, npcs: Seq<NpcSighting>, i: int, j: int) -> bool {
    let ti = threat_tier_spec(npcs[i]);
    let tj = threat_tier_spec(npcs[j]);
    let di = cheb(player, npcs[i].tile_position);
    let dj = cheb(player, npcs[j].tile_position);
    ti < tj || (ti == tj && (di < dj || (di == dj && i < j)))
}

/// The distances and windows of every NPC fit in an `i32`.
pub open spec fn sightings_fit(player: TilePosition, npcs: Seq<NpcSighting>) -> bool {
    forall|k: int| 0 <= k < npcs.len() ==> {
        let t = (#[trigger] npcs[k]).tile_position;
        &&& i32::MIN < t.x - player.x <= i32::MAX
        &&& i32::MIN < player.x - t.x <= i32::MAX
        &&& i32::MIN < t.y - player.y <= i32::MAX
        &&& i32::MIN < player.y - t.y <= i32::MAX
        &&& (npcs[k].inspect_range matches Some(r) ==> r <= i32::MAX - 2)
    }
}

/// `order` lists positions of `npcs`, each before the next.
pub open spec fn ordered(player: TilePosition, npcs: Seq<NpcSighting>, order: Seq<usize>) -> bool {
    &&& forall|i: int| 0 <= i < order.len() ==> #[trigger] order[i] < npcs.len()
    &&& forall|i: int, j: int| 0 <= i < j < order.len() ==> listed_before(player, npcs, #[trigger] order[i] as int, #[trigger] order[j] as int)
}

/// `listed_before` is transitive.
proof fn lemma_listed_before_trans(player: TilePosition, npcs: Seq<NpcSighting>, a: int, b: int, c: int)
    requires
        listed_before(player, npcs, a, b),
        listed_before(player, npcs, b, c),
    ensures
        listed_before(player, npcs, a, c),
{
}

/// Whether entry `i` is listed before entry `j`.
fn is_listed_before(player: TilePosition, npcs: &Vec<NpcSighting>, i: usize, j: usize) -> (b: bool)
    requires
        i < npcs@.len(),
        j < npcs@.len(),
        sightings_fit(player, npcs@),
    ensures
        b == listed_before(player, npcs@, i as int, j as int),
{
    let a = &npcs[i];
    let c = &npcs[j];
    assert(sightings_fit(player, npcs@));
    let ti = nearby_npc_threat_tier(a);
    let tj = nearby_npc_threat_tier(c);
    let di = chebyshev_distance(player, a.tile_position);
    let dj = chebyshev_distance(player, c.tile_position);
    ti < tj || (ti == tj && (di < dj || (di == dj && i < j)))
}

/// The NPCs the list shows, as positions in `npcs`, in list order:
/// exactly the nearby ones, by threat tier, then distance, then position.
pub fn nearby_npcs(player_tile: TilePosition, npcs: &Vec<NpcSighting>) -> (order: Vec<usize>)
    requires
        sightings_fit(player_tile, npcs@),
    ensures
        ordered(player_tile, npcs@, order@),
        forall|i: int| 0 <= i < order@.len() ==> is_nearby(player_tile, npcs@[#[trigger] order@[i] as int]),
        forall|k: int| 0 <= k < npcs@.len() && is_nearby(player_tile, #[trigger] npcs@[k]) ==> order@.contains(k as usize),
{
    let player_floor = floor_index(player_tile.z);
    let mut order: Vec<usize> = Vec::new();
    let mut k: usize = 0;
    while k < npcs.len()
        invariant
            sightings_fit(player_tile, npcs@),
            player_floor == player_tile.z as int / 2,
            k <= npcs@.len(),
            ordered(player_tile, npcs@, order@),
            forall|i: int| 0 <= i < order@.len() ==> #[trigger] order@[i] < k,
            forall|i: int| 0 <= i < order@.len() ==> is_nearby(player_tile, npcs@[#[trigger] order@[i] as int]),
            forall|m: int| 0 <= m < k && is_nearby(player_tile, #[trigger] npcs@[m]) ==> order@.contains(m as usize),
        decreases npcs@.len() - k,
    {
        let o = &npcs[k];
        assert(sightings_fit(player_tile, npcs@));
        assert(npcs@[k as int] == *o);
        let window: i32 = match o.inspect_range {
            Some(r) => r + 2,
            None => DEFAULT_INSPECT_RANGE + 2,
        };
        let shown = o.is_npc && floor_index(o.tile_position.z) == player_floor
            && chebyshev_distance(player_tile, o.tile_position) <= window;
        if shown {
            let ghost prev = order@;
            let mut p: usize = 0;
            while p < order.len() && !is_listed_before(player_tile, npcs, k, order[p])
                invariant
                    order@ == prev,
                    sightings_fit(player_tile, npcs@),
                    k < npcs@.len(),
                    p <= prev.len(),
                    forall|i: int| 0 <= i < prev.len() ==> #[trigger] prev[i] < k,
                    forall|i: int| 0 <= i < p ==> listed_before(player_tile, npcs@, #[trigger] prev[i] as int, k as int),
                decreases prev.len() - p,
            {
                proof {
                    let q = prev[p as int] as int;
                    assert(q < k);
                    assert(!listed_before(player_tile, npcs@, k as int, q));
                }
                p = p + 1;
            }
            order.insert(p, k);
            proof {
                let ghost next = order@;
                assert(next == prev.insert(p as int, k));
                assert forall|i: int, j: int| 0 <= i < j < next.len() implies listed_before(player_tile, npcs@, #[trigger] next[i] as int, #[trigger] next[j] as int) by {
                    if j < p {
                        assert(next[i] == prev[i] && next[j] == prev[j]);
                    } else if j == p {
                        assert(next[i] == prev[i]);
                    } else if i == p {
                        assert(next[j] == prev[j - 1]);
                        if j - 1 > p {
                            assert(listed_before(player_tile, npcs@, prev[p as int] as int, prev[j - 1] as int));
                            lemma_listed_before_trans(player_tile, npcs@, k as int, prev[p as int] as int, prev[j - 1] as int);
                        }
                    } else if i < p {
                        assert(next[i] == prev[i] && next[j] == prev[j - 1]);
                    } else {
                        assert(next[i] == prev[i - 1] && next[j] == prev[j - 1]);
                    }
                }
                assert forall|i: int| 0 <= i < next.len() implies #[trigger] next[i] < k + 1 && next[i] < npcs@.len() by {
                    if i < p {
                        assert(next[i] == prev[i]);
                    } else if i > p {
                        assert(next[i] == prev[i - 1]);
                    }
                }
                assert forall|i: int| 0 <= i < next.len() implies is_nearby(player_tile, npcs@[#[trigger] next[i] as int]) by {
                    if i < p {
                        assert(next[i] == prev[i]);
                    } else if i > p {
                        assert(next[i] == prev[i - 1]);
                    }
                }
                assert forall|m: int| 0 <= m < k + 1 && is_nearby(player_tile, #[trigger] npcs@[m]) implies next.contains(m as usize) by {
                    if m == k {
                        assert(next[p as int] == k);
                    } else {
                        assert(prev.contains(m as usize));
                        let i = choose|i: int| 0 <= i < prev.len() && prev[i] == m as usize;
                        if i < p {
                            assert(next[i] == prev[i]);
                        } else {
                            assert(next[i + 1] == prev[i]);
                        }
                    }
                }
            }
        } else {
            proof {
                assert(!is_nearby(player_tile, npcs@[k as int]));
                assert forall|i: int| 0 <= i < order@.len() implies #[trigger] order@[i] < k + 1 by {}
            }
        }
        k = k + 1;
    }
    order
}

} // verus!
