use tbd_mud::dungeon_gen::{
    carve_one_corridor, generate_dungeon, has_carved_neighbor, seed_from_clock, Cell, DungeonParams, DungeonTuning, Layout, Rng,
    Room,
};
use tbd_mud::map_layout::{MapObjectEntry, SpaceDefinition};

/// The fractional knobs of a dungeon, as authored.
struct Knobs {
    corridor_wander: f32,
    extra_corridor_ratio: f32,
    branch_factor: f32,
}

impl Default for Knobs {
    fn default() -> Self {
        Knobs { corridor_wander: 0.55, extra_corridor_ratio: 0.4, branch_factor: 0.5 }
    }
}

/// The integer tuning the generator consumes, derived from the knobs.
fn tuning(params: &DungeonParams, knobs: &Knobs) -> DungeonTuning {
    let wander = knobs.corridor_wander.clamp(0.0, 1.0);
    let wander_threshold = (wander * (1u32 << 24) as f32).ceil() as u64;
    let extra_corridors = (0..=params.target_rooms as usize)
        .map(|n| ((n as f32) * knobs.extra_corridor_ratio).floor() as usize)
        .collect();
    let spurs = if knobs.branch_factor > 0.0 {
        let factor = knobs.branch_factor.clamp(0.0, 1.0);
        (0..=(params.width * params.height) as usize)
            .map(|t| ((t as f32) * factor * 0.05).round() as usize)
            .collect()
    } else {
        Vec::new()
    };
    DungeonTuning { wander_threshold, extra_corridors, spurs }
}

fn generate(name: &str, params: DungeonParams, knobs: Knobs) -> SpaceDefinition {
    let t = tuning(&params, &knobs);
    generate_dungeon(name.to_owned(), &params, &t)
}

fn count(def: &SpaceDefinition) -> (usize, usize) {
    let walls: usize = def
        .objects
        .iter()
        .filter_map(|e| match e {
            MapObjectEntry::Anonymous(g) if g.type_id == "wall" => Some(g.placement.len()),
            _ => None,
        })
        .sum();
    let floor_cells: usize = def.floors.iter().map(|(_, f)| f.placement.len()).sum();
    (walls, floor_cells)
}

#[test]
fn determinism_same_seed_same_output() {
    let p = DungeonParams { seed: 42, ..DungeonParams::default() };
    let q = DungeonParams { seed: 42, ..DungeonParams::default() };
    let a = generate("a", p, Knobs::default());
    let b = generate("b", q, Knobs::default());
    assert_eq!(count(&a), count(&b));
}

#[test]
fn produces_some_walls_and_floors() {
    let p = DungeonParams { seed: 1, ..DungeonParams::default() };
    let def = generate("d", p, Knobs::default());
    let (walls, floors) = count(&def);
    assert!(walls > 0, "expected walls, got {walls}");
    assert!(floors > 0 || !def.floors.is_empty());
}

#[test]
fn straight_corridors_when_wander_is_zero() {
    let p = DungeonParams { seed: 7, ..DungeonParams::default() };
    let def = generate("d", p, Knobs { corridor_wander: 0.0, ..Knobs::default() });
    let (walls, _) = count(&def);
    assert!(walls > 0);
}

#[test]
fn handles_tiny_map_without_panicking() {
    let p = DungeonParams { width: 12, height: 12, seed: 99, ..DungeonParams::default() };
    let _ = generate("tiny", p, Knobs::default());
}

#[test]
fn generated_space_has_layout_dimensions_and_default_floors() {
    let p = DungeonParams { seed: 5, ..DungeonParams::default() };
    let def = generate("dungeon", p, Knobs::default());
    assert_eq!(def.authored_id, "dungeon");
    assert_eq!((def.width, def.height), (64, 48));
    assert_eq!(def.fill_floor_type, "");
    for (id, f) in &def.floors {
        assert!(id == "cobblestone" || id == "dirt_path");
        assert!(f.rects.is_empty());
        for t in &f.placement {
            assert!(t.x >= 0 && t.x < 64 && t.y >= 0 && t.y < 48 && t.z == 0);
        }
    }
}

#[test]
fn same_floor_type_merges_chamber_and_corridor_tiles() {
    let p = DungeonParams {
        seed: 3,
        corridor_floor: "cobblestone".to_owned(),
        ..DungeonParams::default()
    };
    let def = generate("d", p, Knobs::default());
    assert_eq!(def.floors.len(), 1);
    assert_eq!(def.floors[0].0, "cobblestone");
}

#[test]
fn fill_floor_type_is_not_repeated_as_a_group() {
    let p = DungeonParams {
        seed: 3,
        fill_floor_type: "dirt_path".to_owned(),
        ..DungeonParams::default()
    };
    let def = generate("d", p, Knobs::default());
    assert!(def.floors.iter().all(|(id, _)| id != "dirt_path"));
}

#[test]
fn carved_neighbor_looks_at_all_eight_cells() {
    let mut layout = Layout::new(3, 3);
    assert!(!has_carved_neighbor(&layout, 1, 1));
    layout.set(2, 2, Cell::Corridor);
    assert!(has_carved_neighbor(&layout, 1, 1), "diagonal neighbour counts");
    assert!(!has_carved_neighbor(&layout, 2, 2), "the cell itself does not count");
    assert!(has_carved_neighbor(&layout, 3, 3), "out-of-grid centre still sees the corner");
}

#[test]
fn layout_reads_back_what_was_written() {
    let mut layout = Layout::new(4, 2);
    assert!(layout.in_bounds(3, 1));
    assert!(!layout.in_bounds(4, 1));
    assert_eq!(layout.idx(3, 1), 7);
    layout.set(3, 1, Cell::Chamber);
    assert_eq!(layout.get(3, 1), Cell::Chamber);
    assert_eq!(layout.get(2, 1), Cell::Wall);
}

#[test]
fn rooms_centre_contain_and_overlap() {
    let a = Room { x: 2, y: 2, w: 4, h: 3 };
    let b = Room { x: 9, y: 2, w: 2, h: 2 };
    assert_eq!(a.center(), (4, 3));
    assert!(a.contains(5, 4));
    assert!(!a.contains(6, 4));
    assert!(!a.overlaps_padded(&b, 3), "gap of exactly the padding");
    assert!(a.overlaps_padded(&b, 4));
}

#[test]
fn rng_is_splitmix64() {
    let mut rng = Rng::new(0);
    assert_eq!(rng.next_u64(), 0x6E789E6AA1B965F4, "a zero seed starts from the golden gamma");
    let mut seeded = Rng::new(1);
    let mut again = Rng::new(1);
    assert_eq!(seeded.next_u64(), again.next_u64());
    let mut r = Rng::new(12345);
    for _ in 0..100 {
        let v = r.gen_range_i32(-3, 4);
        assert!((-3..4).contains(&v));
    }
    assert_eq!(r.gen_range_usize(5, 5), 5, "empty range yields its start");
}

/// Whether a 4-connected run of non-wall cells joins `a` and `b`.
fn open_path(layout: &Layout, w: i32, h: i32, a: (i32, i32), b: (i32, i32)) -> bool {
    let mut seen = vec![false; (w * h) as usize];
    let mut stack = vec![a];
    while let Some((x, y)) = stack.pop() {
        if x < 0 || y < 0 || x >= w || y >= h || layout.get(x, y) == Cell::Wall {
            continue;
        }
        let i = (y * w + x) as usize;
        if seen[i] {
            continue;
        }
        seen[i] = true;
        if (x, y) == b {
            return true;
        }
        stack.extend([(x + 1, y), (x - 1, y), (x, y + 1), (x, y - 1)]);
    }
    false
}

#[test]
fn corridors_join_room_centres_even_when_capped() {
    let from = Room { x: 2, y: 2, w: 3, h: 3 };
    let to = Room { x: 40, y: 30, w: 3, h: 3 };
    for seed in 1..40u64 {
        for thr in [0u64, 1 << 23, 1 << 24] {
            let mut layout = Layout::new(48, 40);
            let mut rng = Rng::new(seed);
            carve_one_corridor(&mut layout, &mut rng, &from, &to, thr);
            assert!(open_path(&layout, 48, 40, from.center(), to.center()), "seed {seed} thr {thr}");
        }
    }
}

#[test]
fn negative_grid_gives_a_bare_space() {
    let p = DungeonParams { width: -1, height: -1, seed: 42, ..DungeonParams::default() };
    let t = DungeonTuning { wander_threshold: 0, extra_corridors: vec![0; p.target_rooms as usize + 1], spurs: Vec::new() };
    let def = generate_dungeon("neg".to_owned(), &p, &t);
    assert_eq!((def.width, def.height), (-1, -1));
    assert!(def.objects.is_empty());
    assert!(def.floors.is_empty());
}

#[test]
fn clock_seed_is_never_zero() {
    assert_eq!(seed_from_clock(None), 0xC0FFEE);
    assert_eq!(seed_from_clock(Some(0)), 1);
    assert_eq!(seed_from_clock(Some(1u128 << 64)), 1);
    assert_eq!(seed_from_clock(Some((1u128 << 64) + 7)), 7);
    assert_eq!(seed_from_clock(Some(123)), 123);
}

#[test]
fn zero_seed_generates_from_the_clock() {
    let p = DungeonParams { seed: 0, ..DungeonParams::default() };
    let def = generate("clock", p, Knobs::default());
    assert_eq!((def.width, def.height), (64, 48));
}
