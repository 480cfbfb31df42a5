use tbd_mud::floor_definitions::{
    FloorRippleDef, FloorTilesetDefinition, FloorTilesetDefinitions, FloorTransitionDefinition, TilesetProblem,
    TransitionProblem, VariantProblem,
};

fn ts(id: &str, priority: i32) -> FloorTilesetDefinition {
    FloorTilesetDefinition {
        id: id.to_owned(),
        name: id.to_owned(),
        priority,
        tile_size_px: 16,
        atlas_path: None,
        debug_color: [0, 0, 0],
        occludes_floor_above: false,
        walkable_surface: true,
        variants: Vec::new(),
        ripple: None,
    }
}

fn tr(low: &str, high: &str) -> FloorTransitionDefinition {
    FloorTransitionDefinition {
        low: low.to_owned(),
        high: high.to_owned(),
        tile_size_px: 16,
        atlas_path: format!("floors/transitions/{low}__{high}/tileset.png"),
        variants: Vec::new(),
    }
}

fn defs_with(floors: &[(&str, i32)], transitions: &[(&str, &str)]) -> FloorTilesetDefinitions {
    FloorTilesetDefinitions {
        by_id: floors.iter().map(|(id, p)| ts(id, *p)).collect(),
        transitions: transitions.iter().map(|(l, h)| tr(l, h)).collect(),
    }
}

#[test]
fn canonicalise_pair_orders_by_priority() {
    let defs = defs_with(&[("grass", 0), ("brick", 1)], &[]);
    let g = "grass".to_owned();
    let b = "brick".to_owned();
    let (low, high) = defs.canonicalise_pair(&g, &b).unwrap();
    assert_eq!(low, "grass");
    assert_eq!(high, "brick");
    let (low, high) = defs.canonicalise_pair(&b, &g).unwrap();
    assert_eq!(low, "grass");
    assert_eq!(high, "brick");
}

#[test]
fn canonicalise_pair_alphabetical_tiebreak() {
    let defs = defs_with(&[("xeno", 5), ("alpha", 5)], &[]);
    let x = "xeno".to_owned();
    let a = "alpha".to_owned();
    let (low, high) = defs.canonicalise_pair(&x, &a).unwrap();
    assert_eq!(low, "alpha");
    assert_eq!(high, "xeno");
}

#[test]
fn transition_lookup_is_order_insensitive() {
    let defs = defs_with(&[("grass", 0), ("brick", 1)], &[("grass", "brick")]);
    let g = "grass".to_owned();
    let b = "brick".to_owned();
    let (low_a, high_a, _) = defs.transition_for(&g, &b).unwrap();
    let (low_b, high_b, _) = defs.transition_for(&b, &g).unwrap();
    assert_eq!(low_a, "grass");
    assert_eq!(high_a, "brick");
    assert_eq!(low_b, "grass");
    assert_eq!(high_b, "brick");
}

#[test]
fn transition_lookup_returns_none_when_unauthored() {
    let defs = defs_with(&[("grass", 0), ("brick", 1)], &[]);
    let g = "grass".to_owned();
    let b = "brick".to_owned();
    assert!(defs.transition_for(&g, &b).is_none());
}

#[test]
fn canonicalise_pair_unknown_id_returns_none() {
    let defs = defs_with(&[("grass", 0)], &[]);
    let g = "grass".to_owned();
    let unknown = "unknown".to_owned();
    assert!(defs.canonicalise_pair(&g, &unknown).is_none());
}

#[test]
fn canonicalise_pair_is_symmetric_and_ordered() {
    let defs = defs_with(&[("sand", 3), ("mud", 3), ("rock", 9)], &[]);
    let names = ["sand", "mud", "rock"];
    for a in names {
        for b in names {
            let a = a.to_owned();
            let b = b.to_owned();
            let ab = defs.canonicalise_pair(&a, &b).unwrap();
            let ba = defs.canonicalise_pair(&b, &a).unwrap();
            assert_eq!(ab, ba);
        }
    }
    let m = "mud".to_owned();
    let r = "rock".to_owned();
    assert_eq!(defs.canonicalise_pair(&r, &m).unwrap(), (&m, &r));
}

#[test]
fn get_contains_and_ids_see_every_tileset() {
    let defs = defs_with(&[("grass", 0), ("brick", 1)], &[]);
    assert!(defs.contains("grass"));
    assert!(!defs.contains("lava"));
    assert_eq!(defs.get("brick").unwrap().priority, 1);
    assert!(defs.get("lava").is_none());
    let mut ids = defs.ids();
    ids.sort();
    assert_eq!(ids, vec!["brick".to_owned(), "grass".to_owned()]);
}

#[test]
fn variant_weights_default_to_single_weight() {
    let mut t = ts("grass", 0);
    t.variants = vec![(5, vec![3, 1, 1])];
    assert_eq!(t.variant_weights(5), vec![3, 1, 1]);
    assert_eq!(t.variant_weights(6), vec![1]);
    assert_eq!(t.max_variants(), 3);
    assert_eq!(ts("dirt", 0).max_variants(), 1);
}

#[test]
fn tileset_validation_reports_first_problem() {
    let mut t = ts("grass", 0);
    assert_eq!(t.validation_problem("grass"), None);
    assert_eq!(t.validation_problem("sand"), Some(TilesetProblem::IdMismatch));
    t.variants = vec![(3, vec![1, 2]), (16, vec![1])];
    assert_eq!(t.validation_problem("grass"), Some(TilesetProblem::Variant(VariantProblem::KeyOutOfRange(16))));
    t.variants = vec![(3, vec![1, 0])];
    assert_eq!(t.validation_problem("grass"), Some(TilesetProblem::Variant(VariantProblem::ZeroWeight(3))));
    t.variants = vec![(4, Vec::new())];
    assert_eq!(t.validation_problem("grass"), Some(TilesetProblem::Variant(VariantProblem::EmptyWeights(4))));
    t.variants = Vec::new();
    let ripple = |fps: f32, rate: f32, frames: u32| FloorRippleDef {
        sheet_path: "r.png".to_owned(),
        frame_width: 8,
        frame_height: 8,
        frame_count: frames,
        fps_bits: fps.to_bits(),
        rate_per_tile_per_second_bits: rate.to_bits(),
        z_offset_bits: 0.0f32.to_bits(),
    };
    t.ripple = Some(ripple(12.0, 0.0, 4));
    assert_eq!(t.validation_problem("grass"), None);
    t.ripple = Some(ripple(12.0, -0.0, 4));
    assert_eq!(t.validation_problem("grass"), None, "-0.0 >= 0.0");
    t.ripple = Some(ripple(0.0, 0.0, 4));
    assert_eq!(t.validation_problem("grass"), Some(TilesetProblem::RippleFps));
    t.ripple = Some(ripple(f32::NAN, 0.0, 4));
    assert_eq!(t.validation_problem("grass"), Some(TilesetProblem::RippleFps));
    t.ripple = Some(ripple(12.0, -1.0, 4));
    assert_eq!(t.validation_problem("grass"), Some(TilesetProblem::RippleRate));
    t.ripple = Some(ripple(12.0, 1.0, 0));
    assert_eq!(t.validation_problem("grass"), Some(TilesetProblem::RippleFrameCount));
    t.tile_size_px = 0;
    assert_eq!(t.validation_problem("grass"), Some(TilesetProblem::ZeroTileSize));
}

#[test]
fn blank_tileset_id_takes_directory_name() {
    let mut t = ts("  ", 0);
    t.default_id_to("moss");
    assert_eq!(t.id, "moss");
    let mut u = ts("clay", 0);
    u.default_id_to("moss");
    assert_eq!(u.id, "clay");
}

#[test]
fn transition_validation_reports_first_problem() {
    let defs = defs_with(&[("grass", 0), ("brick", 1)], &[]);
    assert_eq!(tr("grass", "brick").validation_problem("grass__brick", &defs), None);
    assert_eq!(tr("grass", "grass").validation_problem("grass__grass", &defs), Some(TransitionProblem::SameEndpoints));
    assert_eq!(tr("lava", "brick").validation_problem("lava__brick", &defs), Some(TransitionProblem::UnknownLow));
    assert_eq!(tr("grass", "lava").validation_problem("grass__lava", &defs), Some(TransitionProblem::UnknownHigh));
    assert_eq!(tr("brick", "grass").validation_problem("brick__grass", &defs), Some(TransitionProblem::NotCanonical));
    assert_eq!(tr("grass", "brick").validation_problem("grass_brick", &defs), Some(TransitionProblem::DirectoryMismatch));
    let mut t = tr("grass", "brick");
    t.tile_size_px = 32;
    assert_eq!(t.validation_problem("grass__brick", &defs), Some(TransitionProblem::TileSizeMismatch));
}

#[test]
fn iter_and_transitions_list_everything() {
    let defs = defs_with(&[("grass", 0), ("brick", 1)], &[("grass", "brick")]);
    assert_eq!(defs.iter().len(), 2);
    assert_eq!(defs.transitions().len(), 1);
    assert_eq!(defs.transitions()[0].low, "grass");
}

#[test]
fn insert_tileset_replaces_same_id_and_keeps_others() {
    let mut defs = FloorTilesetDefinitions::new();
    defs.insert_tileset(ts("grass", 0));
    defs.insert_tileset(ts("brick", 1));
    defs.insert_tileset(ts("grass", 7));
    assert_eq!(defs.iter().len(), 2);
    assert_eq!(defs.get("grass").unwrap().priority, 7);
    assert_eq!(defs.get("brick").unwrap().priority, 1);
    assert!(defs.get("water").is_none());
}

#[test]
fn insert_transition_replaces_same_pair() {
    let mut defs = defs_with(&[("grass", 0), ("brick", 1)], &[]);
    defs.insert_transition(tr("grass", "brick"));
    let mut wider = tr("grass", "brick");
    wider.tile_size_px = 32;
    defs.insert_transition(wider);
    assert_eq!(defs.transitions().len(), 1);
    let g = "grass".to_owned();
    let b = "brick".to_owned();
    let (_, _, t) = defs.transition_for(&b, &g).unwrap();
    assert_eq!(t.tile_size_px, 32);
}
