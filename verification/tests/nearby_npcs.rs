use tbd_mud::components::TilePosition;
use tbd_mud::nearby_npcs::{nearby_npc_dot_asset, nearby_npc_threat_tier, nearby_npcs, NpcSighting};

fn npc(id: u64, x: i32, y: i32, z: i32) -> NpcSighting {
    NpcSighting {
        object_id: id,
        tile_position: TilePosition { x, y, z },
        is_npc: true,
        is_targeting_local_player: false,
        is_hostile: false,
        inspect_range: None,
    }
}

#[test]
fn threat_tiers_and_dots() {
    let mut o = npc(1, 0, 0, 0);
    assert_eq!(nearby_npc_threat_tier(&o), 2);
    assert_eq!(nearby_npc_dot_asset(&o), "ui/hud_indicators/dot_green.png");
    o.is_hostile = true;
    assert_eq!(nearby_npc_threat_tier(&o), 1);
    assert_eq!(nearby_npc_dot_asset(&o), "ui/hud_indicators/dot_yellow.png");
    o.is_targeting_local_player = true;
    assert_eq!(nearby_npc_threat_tier(&o), 0);
    assert_eq!(nearby_npc_dot_asset(&o), "ui/hud_indicators/dot_red.png");
}

#[test]
fn list_filters_by_floor_range_and_kind() {
    let player = TilePosition { x: 10, y: 10, z: 1 };
    let mut far = npc(1, 16, 10, 0);
    far.inspect_range = Some(3);
    let mut wide = npc(2, 16, 10, 0);
    wide.inspect_range = Some(4);
    let upstairs = npc(3, 10, 11, 2);
    let mut chest = npc(4, 10, 11, 0);
    chest.is_npc = false;
    let edge = npc(5, 5, 5, 1);
    let list = vec![far, wide, upstairs, chest, edge];
    assert_eq!(nearby_npcs(player, &list), vec![4, 1]);
}

#[test]
fn list_orders_threat_then_distance_then_input() {
    let player = TilePosition { x: 0, y: 0, z: 0 };
    let passive_near = npc(1, 1, 0, 0);
    let mut hostile_far = npc(2, 4, 4, 0);
    hostile_far.is_hostile = true;
    let mut aggro = npc(3, -5, 0, 0);
    aggro.is_targeting_local_player = true;
    let passive_near_too = npc(4, 0, -1, 0);
    let mut hostile_near = npc(5, 2, 2, 0);
    hostile_near.is_hostile = true;
    let list = vec![passive_near, hostile_far, aggro, passive_near_too, hostile_near];
    assert_eq!(nearby_npcs(player, &list), vec![2, 4, 1, 0, 3]);
}
