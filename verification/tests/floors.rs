use tbd_mud::components::{SpaceId, TilePosition};
use tbd_mud::direction::Direction;
use tbd_mud::floor_definitions::{FloorTilesetDefinition, FloorTilesetDefinitions};
use tbd_mud::floor_map::{FloorMap, FloorMaps};
use tbd_mud::floors::{
    floormap_tile_occludes, floormap_tile_walkable, should_apply_indoor_tint, visible_floor_range, IndoorTileMap,
    MAX_FLOORS_ABOVE,
};

/// Indoor at (5, 5, 0) only — every other tile is outdoor.
fn indoor_55() -> IndoorTileMap {
    let mut map = IndoorTileMap::new();
    map.insert(SpaceId(1), 5, 5, 0);
    map
}

fn wooden_floor_defs() -> FloorTilesetDefinitions {
    FloorTilesetDefinitions {
        by_id: vec![FloorTilesetDefinition {
            id: "wooden_floor".to_string(),
            name: "Wooden Floor".to_string(),
            priority: 100,
            tile_size_px: 16,
            atlas_path: None,
            debug_color: [0, 0, 0],
            occludes_floor_above: true,
            walkable_surface: true,
            variants: Vec::new(),
            ripple: None,
        }],
        transitions: Vec::new(),
    }
}

/// What the client reads off the floor maps above a player: whether floor
/// `player_floor + s` covers `(x, y)`, for `s` in `1..=MAX_FLOORS_ABOVE`.
fn covered_above(maps: &FloorMaps, defs: &FloorTilesetDefinitions, space: SpaceId, x: i32, y: i32, player_floor: i32) -> Vec<bool> {
    (1..=MAX_FLOORS_ABOVE)
        .map(|s| floormap_tile_occludes(maps.get(space, player_floor + s), defs, x, y))
        .collect()
}

#[test]
fn no_facing_tints_when_own_tile_is_indoor() {
    let indoor = indoor_55();
    assert!(should_apply_indoor_tint(&indoor, SpaceId(1), 5, 5, 0, None));
    assert!(!should_apply_indoor_tint(&indoor, SpaceId(1), 6, 5, 0, None));
}

#[test]
fn south_facing_wall_tints_only_when_north_neighbor_is_indoor() {
    let indoor = indoor_55();
    assert!(should_apply_indoor_tint(&indoor, SpaceId(1), 5, 6, 0, Some(Direction::South)));
    assert!(!should_apply_indoor_tint(&indoor, SpaceId(1), 5, 4, 0, Some(Direction::South)));
}

#[test]
fn east_facing_wall_tints_only_when_west_neighbor_is_indoor() {
    let indoor = indoor_55();
    assert!(should_apply_indoor_tint(&indoor, SpaceId(1), 4, 5, 0, Some(Direction::East)));
    assert!(!should_apply_indoor_tint(&indoor, SpaceId(1), 6, 5, 0, Some(Direction::East)));
}

#[test]
fn north_and_west_facings_are_symmetric() {
    let indoor = indoor_55();
    assert!(should_apply_indoor_tint(&indoor, SpaceId(1), 5, 4, 0, Some(Direction::North)));
    assert!(should_apply_indoor_tint(&indoor, SpaceId(1), 6, 5, 0, Some(Direction::West)));
}

#[test]
fn recompute_populates_indoor_tile_below_each_roof() {
    // An occluding roof object on floor 1 (raw z = 2) covers floor 0 at (5, 5).
    let mut map = IndoorTileMap::new();
    map.mark_object_roof(SpaceId(7), 5, 5, 2);
    assert!(map.contains(SpaceId(7), 5, 5, 0));
    assert!(!map.contains(SpaceId(7), 5, 5, 1));
    assert!(!map.contains(SpaceId(7), 4, 5, 0));
}

#[test]
fn recompute_populates_indoor_tile_for_painted_upper_floor() {
    let space = SpaceId(9);
    let mut grid = FloorMap::new_filled(10, 10, None);
    grid.set(5, 5, Some("wooden_floor".to_string()));
    let mut maps = FloorMaps::new();
    maps.insert(space, 1, grid);
    let floor_defs = wooden_floor_defs();

    let mut map = IndoorTileMap::new();
    map.mark_painted_roofs(&maps, &floor_defs);
    assert!(map.contains(space, 5, 5, 0));
    assert!(!map.contains(space, 4, 5, 0));
    assert!(!map.contains(space, 5, 5, 1));
}

#[test]
fn visible_floor_range_clamps_under_painted_upper_floor() {
    let space = SpaceId(11);
    let mut maps = FloorMaps::new();
    maps.insert(space, 0, FloorMap::new_filled(0, 0, None));
    let mut upper = FloorMap::new_filled(10, 10, None);
    upper.set(5, 5, Some("wooden_floor".to_string()));
    maps.insert(space, 1, upper);
    let floor_defs = wooden_floor_defs();

    let covered = covered_above(&maps, &floor_defs, space, 5, 5, 0);
    let range = visible_floor_range(0, &covered, Some(0));
    assert_eq!(range.player_floor, 0);
    assert_eq!(range.highest_visible, 0, "painted upper floor must clamp highest_visible");
}

#[test]
fn visible_floor_range_uncapped_below_and_scans_above() {
    let space = SpaceId(3);
    let mut maps = FloorMaps::new();
    maps.insert(space, 0, FloorMap::new_filled(0, 0, None));
    let floor_defs = FloorTilesetDefinitions { by_id: Vec::new(), transitions: Vec::new() };

    let covered = covered_above(&maps, &floor_defs, space, 0, 0, 2);
    let range = visible_floor_range(4, &covered, Some(0));
    assert_eq!(range.player_floor, 2);
    assert_eq!(range.lowest_visible, 0, "no MAX_FLOORS_BELOW cap");
    assert_eq!(range.highest_visible, 2 + MAX_FLOORS_ABOVE, "no roof above player → full upper scan");
}

#[test]
fn visible_floor_range_stops_below_first_cover() {
    let mut covered = vec![false; MAX_FLOORS_ABOVE as usize];
    covered[3] = true;
    let range = visible_floor_range(0, &covered, None);
    assert_eq!(range.highest_visible, 3);
    assert_eq!(range.lowest_visible, 0);
    assert!(range.contains(3));
    assert!(!range.contains(4));
}

#[test]
fn visible_floor_range_keeps_player_floor_when_space_starts_higher() {
    let covered = vec![false; MAX_FLOORS_ABOVE as usize];
    let range = visible_floor_range(-3, &covered, Some(1));
    assert_eq!(range.player_floor, -2);
    assert_eq!(range.lowest_visible, -2);
}

#[test]
fn floormap_tile_flags_follow_tileset() {
    let mut grid = FloorMap::new_filled(2, 2, None);
    grid.set(1, 1, Some("wooden_floor".to_string()));
    let defs = wooden_floor_defs();
    assert!(floormap_tile_occludes(Some(&grid), &defs, 1, 1));
    assert!(floormap_tile_walkable(Some(&grid), &defs, 1, 1));
    assert!(!floormap_tile_occludes(Some(&grid), &defs, 0, 0));
    assert!(!floormap_tile_walkable(None, &defs, 1, 1));
}

#[test]
fn indoor_map_clear_forgets_everything() {
    let mut map = indoor_55();
    map.clear();
    assert!(!map.contains(SpaceId(1), 5, 5, 0));
}

#[test]
fn floor_maps_iterate_keys_and_grids() {
    let mut maps = FloorMaps::new();
    maps.insert(SpaceId(1), 0, FloorMap::new_filled(2, 1, None));
    maps.insert(SpaceId(2), 3, FloorMap::new_filled(1, 1, None));
    maps.insert(SpaceId(1), 0, FloorMap::new_filled(3, 1, None));
    let listed: Vec<(SpaceId, i32, (i32, i32))> = maps.iter().into_iter().map(|(s, z, m)| (s, z, m.dimensions())).collect();
    assert_eq!(listed.len(), 2);
    assert!(listed.contains(&(SpaceId(1), 0, (3, 1))), "insert replaces");
    maps.remove_space(SpaceId(1));
    assert!(maps.get(SpaceId(1), 0).is_none());
    assert!(maps.get(SpaceId(2), 3).is_some());
}

#[test]
fn recompute_marks_the_tile_below_each_occluding_object() {
    let mut map = IndoorTileMap::new();
    let objects = vec![
        (SpaceId(1), TilePosition::new(5, 5, 2), true),
        (SpaceId(1), TilePosition::new(6, 5, 2), false),
        (SpaceId(2), TilePosition::new(1, 1, 4), true),
    ];
    map.mark_object_roofs(&objects);
    assert!(map.contains(SpaceId(1), 5, 5, 0));
    assert!(!map.contains(SpaceId(1), 6, 5, 0));
    assert!(map.contains(SpaceId(2), 1, 1, 1));
    assert!(!map.contains(SpaceId(1), 5, 5, 1));
}

#[test]
fn tint_at_the_edge_of_the_coordinate_range_without_facing() {
    let mut map = IndoorTileMap::new();
    map.insert(SpaceId(3), i32::MAX, i32::MIN, 0);
    assert!(should_apply_indoor_tint(&map, SpaceId(3), i32::MAX, i32::MIN, 0, None));
    assert!(!should_apply_indoor_tint(&map, SpaceId(3), i32::MAX, i32::MIN, 1, None));
}
