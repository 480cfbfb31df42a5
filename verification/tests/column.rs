use tbd_mud::column::{slab_cell_z, surface_z, Column, FloorGeometry};
use tbd_mud::components::{SpaceId, TilePosition};
use tbd_mud::floor_definitions::{FloorTilesetDefinition, FloorTilesetDefinitions};
use tbd_mud::floor_map::{FloorMap, FloorMaps};

const SPACE: SpaceId = SpaceId(1);

fn floor_defs_with_wood() -> FloorTilesetDefinitions {
    FloorTilesetDefinitions {
        by_id: vec![FloorTilesetDefinition {
            id: "wood".to_string(),
            name: "Wood".to_string(),
            priority: 100,
            tile_size_px: 16,
            atlas_path: None,
            debug_color: [0, 0, 0],
            occludes_floor_above: true,
            walkable_surface: true,
            variants: Vec::new(),
            ripple: None,
        }],
        transitions: Vec::new(),
    }
}

/// Floor maps painting `wood` at (0, 0) on each of `painted_floors`.
fn floor_maps(painted_floors: &[i32]) -> FloorMaps {
    let mut maps = FloorMaps::new();
    for fi in painted_floors {
        maps.insert(SPACE, *fi, FloorMap::new_filled(1, 1, Some("wood".to_string())));
    }
    maps
}

/// Column at (0, 0) with a painted floor on each of `painted_floors` and
/// the given block-sized objects.
fn column(objects: Vec<(i32, u8, bool)>, painted_floors: Vec<i32>) -> Column {
    let defs = floor_defs_with_wood();
    let maps = floor_maps(&painted_floors);
    Column::new(&objects, &FloorGeometry::client(&maps, &defs), SPACE, 0, 0)
}

#[test]
fn slab_between_truth_table() {
    let col = column(vec![], vec![1]);
    assert!(col.slab_between(0, 2));
    assert!(!col.slab_between(2, 2));
    assert!(col.slab_between(2, 0));
    assert!(!col.slab_between(0, 1));
    assert!(!col.slab_between(2, 3));
}

#[test]
fn surface_from_keeps_ground_drops_on_the_ground() {
    let col = column(vec![], vec![1]);
    assert_eq!(col.top_surface(), 2, "raw top is still the floor above");
    assert_eq!(col.surface_from(0), 0);
    assert_eq!(col.surface_from(2), 2);
}

#[test]
fn surface_from_still_stacks_onto_adjacent_full_blocks() {
    let col = column(vec![(0, 2, true)], vec![]);
    assert_eq!(col.surface_from(0), 2);
    assert!(col.surface_from_is_walkable(0));
}

#[test]
fn wall_top_is_not_walkable_even_flush_with_a_floor() {
    let col = column(vec![(0, 2, false)], vec![1]);
    assert_eq!(col.top_surface(), 2);
    assert!(!col.top_is_walkable(), "the wall's flag must win the tie");
}

#[test]
fn empty_column_is_ground_and_walkable() {
    let col = column(vec![], vec![]);
    assert_eq!(col.top_surface(), 0);
    assert!(col.top_is_walkable());
    assert_eq!(col.surface_from(0), 0);
}

#[test]
fn flat_objects_do_not_raise_the_column() {
    let col = column(vec![(0, 0, true)], vec![]);
    assert_eq!(col.top_surface(), 0);
}

#[test]
fn slab_cell_sits_below_the_walking_surface() {
    assert_eq!(slab_cell_z(1), 1);
    assert_eq!(surface_z(1), 2);
    assert_eq!(slab_cell_z(2), 3);
    assert_eq!(surface_z(2), 4);
}

#[test]
fn geometry_slab_between_sees_painted_floor() {
    let defs = floor_defs_with_wood();
    let maps = floor_maps(&[1]);
    let geometry = FloorGeometry::client(&maps, &defs);
    assert!(geometry.slab_between(SPACE, 0, 0, 0, 2));
    assert!(!geometry.slab_between(SPACE, 0, 0, 0, 1));
    assert!(!geometry.slab_between(SPACE, 5, 5, 0, 2), "outside the painted grid");
    assert!(!geometry.slab_between(SpaceId(2), 0, 0, 0, 2), "another space");
}

#[test]
fn stacked_blocks_raise_the_top() {
    let col = column(vec![(0, 2, true), (2, 1, true)], vec![]);
    assert_eq!(col.top_surface(), 3);
    assert!(col.top_is_walkable());
    assert_eq!(col.surface_from(0), 3);
}

#[test]
fn reachable_blocks_through_the_floor_but_not_over_a_barrel() {
    let defs = floor_defs_with_wood();
    let roofed = floor_maps(&[1]);
    let geometry = FloorGeometry::client(&roofed, &defs);
    let ground = TilePosition::new(0, 0, 0);
    assert!(geometry.reachable(true, &ground, &TilePosition::new(1, 0, 0), SPACE));
    assert!(geometry.reachable(true, &ground, &TilePosition::new(1, 0, 1), SPACE));
    assert!(!geometry.reachable(true, &ground, &TilePosition::new(1, 0, 2), SPACE));
    let upstairs = TilePosition::new(0, 0, 2);
    assert!(!geometry.reachable(true, &upstairs, &TilePosition::new(1, 0, 0), SPACE));
    assert!(geometry.reachable(true, &upstairs, &TilePosition::new(1, 0, 2), SPACE));
    let open = floor_maps(&[]);
    let outdoors = FloorGeometry::client(&open, &defs);
    assert!(outdoors.reachable(true, &ground, &TilePosition::new(1, 0, 2), SPACE));
    assert!(!outdoors.reachable(false, &ground, &TilePosition::new(3, 0, 0), SPACE));
}
