use tbd_mud::components::SpaceId;
use tbd_mud::floor_definitions::{FloorTilesetDefinition, FloorTilesetDefinitions, FloorTransitionDefinition};
use tbd_mud::floor_render::{
    authoring_index_to_mask, classify_corner, floor_atlas_index, mask_to_authoring_index, pick_variant, pick_weighted, CornerRenderPlan,
    AUTHORING_INDEX_TO_MASK, MASK_TO_AUTHORING_INDEX,
};

#[test]
fn pick_variant_single_weight_is_zero() {
    assert_eq!(pick_variant(SpaceId(7), 3, 4, &[1]), 0);
    assert_eq!(pick_variant(SpaceId(7), 3, 4, &[42]), 0);
}

#[test]
fn pick_variant_is_deterministic() {
    let weights = [1, 1, 1, 1];
    let a = pick_variant(SpaceId(1), 17, -23, &weights);
    let b = pick_variant(SpaceId(1), 17, -23, &weights);
    assert_eq!(a, b);
}

#[test]
fn pick_variant_stays_in_bounds() {
    let weights = [3, 1, 1];
    for x in -50..50 {
        for y in -50..50 {
            let v = pick_variant(SpaceId(0), x, y, &weights);
            assert!(v < weights.len(), "variant {} out of bounds", v);
        }
    }
}

fn ts(id: &str, priority: i32) -> FloorTilesetDefinition {
    FloorTilesetDefinition {
        id: id.to_owned(),
        name: id.to_owned(),
        priority,
        tile_size_px: 16,
        atlas_path: None,
        debug_color: [0, 0, 0],
        occludes_floor_above: false,
        walkable_surface: true,
        variants: Vec::new(),
        ripple: None,
    }
}

fn tr(low: &str, high: &str) -> FloorTransitionDefinition {
    FloorTransitionDefinition {
        low: low.to_owned(),
        high: high.to_owned(),
        tile_size_px: 16,
        atlas_path: format!("floors/transitions/{low}__{high}/tileset.png"),
        variants: Vec::new(),
    }
}

fn defs(floors: &[(&str, i32)], transitions: &[(&str, &str)]) -> FloorTilesetDefinitions {
    FloorTilesetDefinitions {
        by_id: floors.iter().map(|(id, p)| ts(id, *p)).collect(),
        transitions: transitions.iter().map(|(l, h)| tr(l, h)).collect(),
    }
}

#[test]
fn classify_single_type_corner_is_hard_edges() {
    let defs = defs(&[("grass", 0)], &[]);
    let g = "grass".to_owned();
    let plan = classify_corner(&defs, Some(&g), Some(&g), Some(&g), Some(&g));
    match plan {
        CornerRenderPlan::HardEdges(e) => {
            assert_eq!(e.len(), 1);
            assert_eq!(e[0].0, &g);
            assert_eq!(e[0].1, 0xF);
        }
        other => panic!("expected HardEdges, got {other:?}"),
    }
}

#[test]
fn classify_two_types_with_transition_uses_transition() {
    let defs = defs(&[("grass", 0), ("brick", 1)], &[("grass", "brick")]);
    let g = "grass".to_owned();
    let b = "brick".to_owned();
    let plan = classify_corner(&defs, Some(&b), Some(&g), Some(&g), Some(&b));
    match plan {
        CornerRenderPlan::Transition { low, high, high_mask } => {
            assert_eq!(low, &g);
            assert_eq!(high, &b);
            assert_eq!(high_mask, 9, "high mask should be NW+SE = 1|8");
        }
        other => panic!("expected Transition, got {other:?}"),
    }
}

#[test]
fn classify_two_types_without_transition_falls_back() {
    let defs = defs(&[("grass", 0), ("brick", 1)], &[]);
    let g = "grass".to_owned();
    let b = "brick".to_owned();
    let plan = classify_corner(&defs, Some(&g), Some(&b), Some(&g), Some(&b));
    match plan {
        CornerRenderPlan::HardEdges(e) => assert_eq!(e.len(), 2),
        other => panic!("expected HardEdges fallback, got {other:?}"),
    }
}

#[test]
fn hardedges_sorts_by_priority_then_id() {
    let d1 = defs(&[("grass", 0), ("cave_floor", 0)], &[]);
    let g = "grass".to_owned();
    let c = "cave_floor".to_owned();
    let plan = classify_corner(&d1, Some(&g), Some(&g), Some(&g), Some(&c));
    match plan {
        CornerRenderPlan::HardEdges(e) => {
            assert_eq!(e.len(), 2);
            assert_eq!(e[0].0, &c, "cave_floor (alphabetically first) at index 0");
            assert_eq!(e[1].0, &g, "grass at index 1");
        }
        other => panic!("expected HardEdges, got {other:?}"),
    }

    let d2 = defs(&[("zebra", 0), ("alpha", 5)], &[]);
    let z = "zebra".to_owned();
    let a = "alpha".to_owned();
    let plan = classify_corner(&d2, Some(&z), Some(&a), Some(&z), Some(&a));
    match plan {
        CornerRenderPlan::HardEdges(e) => {
            assert_eq!(e[0].0, &z, "zebra (priority 0) before alpha (priority 5)");
            assert_eq!(e[1].0, &a);
        }
        other => panic!("expected HardEdges, got {other:?}"),
    }
}

#[test]
fn classify_three_types_falls_back_even_with_transitions() {
    let defs = defs(
        &[("grass", 0), ("brick", 1), ("sand", 2)],
        &[("grass", "brick"), ("brick", "sand"), ("grass", "sand")],
    );
    let g = "grass".to_owned();
    let b = "brick".to_owned();
    let s = "sand".to_owned();
    let plan = classify_corner(&defs, Some(&g), Some(&b), Some(&s), Some(&g));
    match plan {
        CornerRenderPlan::HardEdges(e) => assert_eq!(e.len(), 3),
        other => panic!("expected HardEdges fallback for 3 types, got {other:?}"),
    }
}

#[test]
fn classify_lookup_is_independent_of_corner_order() {
    let defs = defs(&[("grass", 0), ("brick", 1)], &[("grass", "brick")]);
    let g = "grass".to_owned();
    let b = "brick".to_owned();
    let a = classify_corner(&defs, Some(&g), Some(&b), Some(&g), Some(&b));
    let b_plan = classify_corner(&defs, Some(&g), Some(&b), Some(&g), Some(&b));
    assert_eq!(a, b_plan);
    if let CornerRenderPlan::Transition { high_mask, .. } = a {
        assert_eq!(high_mask, 10, "brick mask should be NE+SE = 2|8");
    } else {
        panic!("expected Transition");
    }
}

#[test]
fn pick_variant_distribution_skews_with_weights() {
    let weights = [9, 1];
    let mut zero = 0usize;
    let mut total = 0usize;
    for x in 0..200 {
        for y in 0..200 {
            if pick_variant(SpaceId(0), x, y, &weights) == 0 {
                zero += 1;
            }
            total += 1;
        }
    }
    let ratio = zero as f64 / total as f64;
    assert!((0.85..=0.95).contains(&ratio), "expected ~0.9 for weights [9,1], got {ratio}");
}

#[test]
fn mask_to_authoring_index_is_a_permutation_of_0_to_15() {
    let mut seen = [false; 16];
    for &i in &MASK_TO_AUTHORING_INDEX {
        assert!(i < 16, "index {i} out of range");
        assert!(!seen[i], "duplicate index {i}");
        seen[i] = true;
    }
    assert!(seen.iter().all(|&b| b));
}

#[test]
fn mask_to_authoring_index_known_anchors() {
    assert_eq!(MASK_TO_AUTHORING_INDEX[0], 12);
    assert_eq!(MASK_TO_AUTHORING_INDEX[1], 0);
    assert_eq!(MASK_TO_AUTHORING_INDEX[15], 6);
}

#[test]
fn authoring_index_to_mask_is_exact_inverse() {
    for mask in 0u8..16 {
        let idx = MASK_TO_AUTHORING_INDEX[mask as usize];
        assert_eq!(AUTHORING_INDEX_TO_MASK[idx], mask, "inverse mismatch at mask {mask}");
    }
    for idx in 0usize..16 {
        let mask = AUTHORING_INDEX_TO_MASK[idx];
        assert_eq!(MASK_TO_AUTHORING_INDEX[mask as usize], idx);
    }
}

#[test]
fn table_accessors_round_trip() {
    for mask in 0u8..16 {
        assert_eq!(authoring_index_to_mask(mask_to_authoring_index(mask)), mask);
    }
}

#[test]
fn pick_weighted_walks_cumulative_weights() {
    assert_eq!(pick_weighted(0, &[3, 1, 1]), 0);
    assert_eq!(pick_weighted(2, &[3, 1, 1]), 0);
    assert_eq!(pick_weighted(3, &[3, 1, 1]), 1);
    assert_eq!(pick_weighted(4, &[3, 1, 1]), 2);
    assert_eq!(pick_weighted(5, &[3, 1, 1]), 0, "hash is taken modulo the total");
    assert_eq!(pick_weighted(7, &[0, 0, 2]), 2);
}

#[test]
fn classify_void_corner_is_empty_hard_edges() {
    let defs = defs(&[("grass", 0)], &[]);
    let plan = classify_corner(&defs, None, None, None, None);
    assert_eq!(plan, CornerRenderPlan::HardEdges(Vec::new()));
}

#[test]
fn atlas_index_offsets_by_variant_block() {
    assert_eq!(floor_atlas_index(0xF, 0), 6);
    assert_eq!(floor_atlas_index(0xF, 2), 38);
    assert_eq!(floor_atlas_index(8, 1), 8 + 16);
    assert_eq!(floor_atlas_index(0x1F, 0), floor_atlas_index(0xF, 0));
    for mask in 0u8..16 {
        assert_eq!(floor_atlas_index(mask, 3), MASK_TO_AUTHORING_INDEX[mask as usize] + 48);
    }
}
