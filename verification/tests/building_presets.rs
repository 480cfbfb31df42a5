use tbd_mud::building_presets::{BuildingPreset, BuildingPresets, PresetProblem, WallSlots};
use tbd_mud::floor_definitions::{FloorTilesetDefinition, FloorTilesetDefinitions};

fn walls(n: &str, s: &str, e: &str, w: &str) -> WallSlots {
    WallSlots {
        north: n.to_owned(),
        south: s.to_owned(),
        east: e.to_owned(),
        west: w.to_owned(),
        corner_nw: None,
        corner_ne: None,
        corner_sw: None,
        corner_se: None,
    }
}

fn preset(id: &str, floor: Option<&str>, door: Option<&str>) -> BuildingPreset {
    BuildingPreset {
        id: id.to_owned(),
        name: id.to_owned(),
        walls: walls("wall", "wall", "side_wall", "side_wall"),
        default_floor: floor.map(str::to_owned),
        default_door: door.map(str::to_owned),
    }
}

fn floors(ids: &[&str]) -> FloorTilesetDefinitions {
    FloorTilesetDefinitions {
        by_id: ids
            .iter()
            .map(|id| FloorTilesetDefinition {
                id: (*id).to_owned(),
                name: (*id).to_owned(),
                priority: 0,
                tile_size_px: 16,
                atlas_path: None,
                debug_color: [0, 0, 0],
                occludes_floor_above: false,
                walkable_surface: true,
                variants: Vec::new(),
                ripple: None,
            })
            .collect(),
        transitions: Vec::new(),
    }
}

#[test]
fn all_wall_ids_lists_edges_then_set_corners() {
    let mut w = walls("castle_wall_h", "castle_wall_h", "castle_wall_v", "castle_wall_v");
    assert_eq!(w.all_wall_ids().len(), 4);
    w.corner_nw = Some("castle_corner_nw".to_owned());
    w.corner_ne = Some("castle_corner_ne".to_owned());
    w.corner_sw = Some("castle_corner_sw".to_owned());
    w.corner_se = Some("castle_corner_se".to_owned());
    let ids = w.all_wall_ids();
    assert_eq!(ids.len(), 8);
    assert!(ids.contains(&"castle_corner_ne".to_owned()));
    assert_eq!(ids[0], "castle_wall_h");
    assert_eq!(ids[7], "castle_corner_se");
}

#[test]
fn presets_are_kept_by_id_in_order() {
    let mut presets = BuildingPresets::new();
    assert!(presets.is_empty());
    presets.insert(preset("stone", Some("cobblestone"), Some("wooden_door")));
    presets.insert(preset("castle", None, None));
    presets.insert(preset("hut", None, None));
    let ids: Vec<&str> = presets.iter().iter().map(|p| p.id.as_str()).collect();
    assert_eq!(ids, vec!["castle", "hut", "stone"]);
    let stone = presets.get("stone").expect("stone preset exists");
    assert_eq!(stone.walls.north, "wall");
    assert_eq!(stone.walls.east, "side_wall");
    assert_eq!(stone.default_door.as_deref(), Some("wooden_door"));
    assert!(presets.get("tower").is_none());
    presets.insert(preset("stone", None, Some("iron_door")));
    assert_eq!(presets.iter().len(), 3, "same id replaces");
    assert_eq!(presets.get("stone").unwrap().default_door.as_deref(), Some("iron_door"));
}

#[test]
fn validate_against_reports_the_first_unknown_reference() {
    let objects = vec!["wall".to_owned(), "side_wall".to_owned(), "wooden_door".to_owned()];
    let floor_defs = floors(&["cobblestone"]);
    let mut presets = BuildingPresets::new();
    presets.insert(preset("stone", Some("cobblestone"), Some("wooden_door")));
    assert_eq!(presets.validate_against(&objects, &floor_defs), None);

    presets.insert(preset("zinc", Some("marble"), None));
    assert_eq!(
        presets.validate_against(&objects, &floor_defs),
        Some(PresetProblem::UnknownFloor("zinc".to_owned(), "marble".to_owned()))
    );
    presets.insert(preset("brick", None, Some("gate")));
    assert_eq!(
        presets.validate_against(&objects, &floor_defs),
        Some(PresetProblem::UnknownDoor("brick".to_owned(), "gate".to_owned()))
    );
    let mut odd = preset("adobe", None, None);
    odd.walls.corner_se = Some("mystery".to_owned());
    presets.insert(odd);
    assert_eq!(
        presets.validate_against(&objects, &floor_defs),
        Some(PresetProblem::UnknownWall("adobe".to_owned(), "mystery".to_owned()))
    );
}
