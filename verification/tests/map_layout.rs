use tbd_mud::components::TilePosition;
use tbd_mud::direction::Direction;
use tbd_mud::map_layout::{
    AnonymousObjectPlacements, FloorPlacements, MapObjectChild, MapObjectEntry, MapObjectInstance, PortalDefinition,
    ResolveProblem, SpaceDefinition, SpacePermanence, TileCoordinate, TileRectangleArea,
};

fn instance(type_id: &str) -> MapObjectInstance {
    MapObjectInstance {
        id: None,
        type_id: type_id.to_owned(),
        properties: Vec::new(),
        placement: None,
        contents: Vec::new(),
        behavior: None,
        facing: None,
    }
}

fn space(objects: Vec<MapObjectEntry>) -> SpaceDefinition {
    let mut def = SpaceDefinition::new_empty("t".to_owned(), 4, 4, "grass".to_owned());
    def.objects = objects;
    def
}

fn resolve(def: &mut SpaceDefinition, start: u64) -> u64 {
    assert_eq!(def.resolution_problem(start), None);
    def.resolve_objects(start)
}

#[test]
fn inline_children_get_unique_ids_and_parent_contents() {
    let mut barrel = instance("barrel");
    barrel.placement = Some(TileCoordinate { x: 1, y: 1, z: 0 });
    let mut scroll = instance("scroll");
    scroll.properties = vec![("spell_id".to_owned(), "spark_bolt".to_owned())];
    barrel.contents = vec![
        MapObjectChild::Inline(Box::new(instance("potion"))),
        MapObjectChild::Inline(Box::new(scroll)),
    ];
    let mut def = space(vec![MapObjectEntry::Explicit(barrel)]);
    resolve(&mut def, 1);
    assert_eq!(def.resolved_objects.len(), 3);
    let barrel = &def.resolved_objects[0];
    let potion = &def.resolved_objects[1];
    let scroll = &def.resolved_objects[2];
    assert_eq!(barrel.type_id, "barrel");
    assert_eq!(potion.type_id, "potion");
    assert_eq!(scroll.type_id, "scroll");
    assert_eq!(scroll.properties, vec![("spell_id".to_owned(), "spark_bolt".to_owned())]);
    assert_eq!(barrel.contents, vec![potion.id, scroll.id]);
    assert!(potion.placement.is_none());
    assert!(scroll.placement.is_none());
}

#[test]
fn symbolic_references_resolve_to_runtime_ids() {
    let mut barrel = instance("barrel");
    barrel.placement = Some(TileCoordinate { x: 0, y: 0, z: 0 });
    barrel.contents = vec![MapObjectChild::Reference("shiny_potion".to_owned())];
    let mut potion = instance("potion");
    potion.id = Some("shiny_potion".to_owned());
    let mut def = space(vec![MapObjectEntry::Explicit(barrel), MapObjectEntry::Explicit(potion)]);
    resolve(&mut def, 1);
    let barrel = def.resolved_objects.iter().find(|o| o.type_id == "barrel").unwrap();
    let potion = def.resolved_objects.iter().find(|o| o.type_id == "potion").unwrap();
    assert_eq!(barrel.contents, vec![potion.id]);
}

#[test]
fn resolution_numbers_in_pre_order_and_returns_next_id() {
    let mut chest = instance("chest");
    chest.placement = Some(TileCoordinate { x: 2, y: 2, z: 0 });
    let mut bag = instance("bag");
    bag.contents = vec![MapObjectChild::Inline(Box::new(instance("coin")))];
    chest.contents = vec![MapObjectChild::Inline(Box::new(bag)), MapObjectChild::Inline(Box::new(instance("gem")))];
    let walls = AnonymousObjectPlacements {
        type_id: "wall".to_owned(),
        properties: Vec::new(),
        placement: vec![TileCoordinate { x: 0, y: 0, z: 0 }, TileCoordinate { x: 3, y: 0, z: 0 }],
        facing: Some(Direction::South),
    };
    let mut def = space(vec![MapObjectEntry::Explicit(chest), MapObjectEntry::Anonymous(walls)]);
    let next = resolve(&mut def, 10);
    assert_eq!(next, 16);
    let ids: Vec<u64> = def.resolved_objects.iter().map(|o| o.id).collect();
    assert_eq!(ids, vec![10, 11, 12, 13, 14, 15]);
    let types: Vec<&str> = def.resolved_objects.iter().map(|o| o.type_id.as_str()).collect();
    assert_eq!(types, vec!["chest", "bag", "coin", "gem", "wall", "wall"]);
    assert_eq!(def.resolved_objects[0].contents, vec![11, 13]);
    assert_eq!(def.resolved_objects[1].contents, vec![12]);
    assert_eq!(def.resolved_objects[5].placement, Some(TileCoordinate { x: 3, y: 0, z: 0 }));
    assert_eq!(def.resolved_objects[5].facing, Some(Direction::South));
    assert!(def.is_contained(12));
    assert!(!def.is_contained(10));
    assert_eq!(def.find_resolved(13).unwrap().type_id, "gem");
    assert!(def.find_resolved(16).is_none());
}

#[test]
fn tile_grid_expands_into_grouped_objects() {
    let mut def = SpaceDefinition::new_empty("g".to_owned(), 3, 2, "grass".to_owned());
    def.legend = vec![("#".to_owned(), "wall".to_owned()), ("T".to_owned(), "tree".to_owned())];
    def.tiles = Some("#.T\r\nT##\n".to_owned());
    let next = resolve(&mut def, 1);
    assert_eq!(next, 6);
    let placed: Vec<(&str, i32, i32)> = def
        .resolved_objects
        .iter()
        .map(|o| (o.type_id.as_str(), o.placement.unwrap().x, o.placement.unwrap().y))
        .collect();
    assert_eq!(
        placed,
        vec![("wall", 0, 0), ("wall", 1, 1), ("wall", 2, 1), ("tree", 2, 0), ("tree", 0, 1)]
    );
}

#[test]
fn resolution_problems_are_reported() {
    // Missing reference.
    let mut barrel = instance("barrel");
    barrel.placement = Some(TileCoordinate { x: 0, y: 0, z: 0 });
    barrel.contents = vec![MapObjectChild::Reference("does_not_exist".to_owned())];
    let def = space(vec![MapObjectEntry::Explicit(barrel)]);
    assert_eq!(def.resolution_problem(1), Some(ResolveProblem::MissingReference));

    // Duplicate symbolic id.
    let mut a = instance("potion");
    a.id = Some("foo".to_owned());
    let mut b = instance("scroll");
    b.id = Some("foo".to_owned());
    let def = space(vec![MapObjectEntry::Explicit(a), MapObjectEntry::Explicit(b)]);
    assert_eq!(def.resolution_problem(1), Some(ResolveProblem::DuplicateName));

    // Inline child with its own placement.
    let mut barrel = instance("barrel");
    barrel.placement = Some(TileCoordinate { x: 0, y: 0, z: 0 });
    let mut potion = instance("potion");
    potion.placement = Some(TileCoordinate { x: 1, y: 1, z: 0 });
    barrel.contents = vec![MapObjectChild::Inline(Box::new(potion))];
    let def = space(vec![MapObjectEntry::Explicit(barrel)]);
    assert_eq!(def.resolution_problem(1), Some(ResolveProblem::PlacedInlineChild));

    // Placement outside the space.
    let mut far = instance("rock");
    far.placement = Some(TileCoordinate { x: 4, y: 0, z: 0 });
    let def = space(vec![MapObjectEntry::Explicit(far)]);
    assert_eq!(def.resolution_problem(1), Some(ResolveProblem::PlacementOutside));

    // Self-containment.
    let mut selfish = instance("box");
    selfish.id = Some("me".to_owned());
    selfish.contents = vec![MapObjectChild::Reference("me".to_owned())];
    let def = space(vec![MapObjectEntry::Explicit(selfish)]);
    assert_eq!(def.resolution_problem(1), Some(ResolveProblem::SelfContainment));

    // Placed and contained at once.
    let mut chest = instance("chest");
    chest.contents = vec![MapObjectChild::Reference("coin".to_owned())];
    let mut coin = instance("coin");
    coin.id = Some("coin".to_owned());
    coin.placement = Some(TileCoordinate { x: 1, y: 1, z: 0 });
    let def = space(vec![MapObjectEntry::Explicit(chest), MapObjectEntry::Explicit(coin)]);
    assert_eq!(def.resolution_problem(1), Some(ResolveProblem::MultipleLocations));

    // Ids past u64::MAX.
    let def = space(vec![MapObjectEntry::Explicit(instance("rock"))]);
    assert_eq!(def.resolution_problem(u64::MAX), Some(ResolveProblem::IdOverflow));
    assert_eq!(def.resolution_problem(u64::MAX - 1), None);

    // Portal outside the space.
    let mut def = space(Vec::new());
    def.portals = vec![PortalDefinition {
        id: "p".to_owned(),
        source: TileCoordinate { x: -1, y: 0, z: 0 },
        destination_space_id: "elsewhere".to_owned(),
        destination_tile: TileCoordinate { x: 0, y: 0, z: 0 },
        destination_permanence: None,
    }];
    assert_eq!(def.resolution_problem(1), Some(ResolveProblem::PortalOutside));
}

#[test]
fn tile_grid_problems_are_reported() {
    let mut def = SpaceDefinition::new_empty("g".to_owned(), 2, 2, String::new());
    def.legend = vec![("#".to_owned(), "wall".to_owned())];
    def.tiles = Some("##\n".to_owned());
    assert_eq!(def.resolution_problem(1), Some(ResolveProblem::GridRowCount));
    def.tiles = Some("##\n#\n".to_owned());
    assert_eq!(def.resolution_problem(1), Some(ResolveProblem::GridRowWidth));
    def.tiles = Some("##\n##\n".to_owned());
    def.legend = vec![("ab".to_owned(), "wall".to_owned())];
    assert_eq!(def.resolution_problem(1), Some(ResolveProblem::LegendKey));
    assert_eq!(def.grid_problem(), Some(ResolveProblem::LegendKey));
}

#[test]
fn build_floor_map_overlays_placements_on_the_fill() {
    let mut def = SpaceDefinition::new_empty("f".to_owned(), 4, 3, "grass".to_owned());
    def.floors = vec![
        (
            "dirt".to_owned(),
            FloorPlacements {
                placement: vec![TileCoordinate { x: 0, y: 0, z: 0 }, TileCoordinate { x: 9, y: 9, z: 0 }],
                rects: vec![TileRectangleArea { x: 1, y: 1, w: 2, h: 2, z: 0 }],
            },
        ),
        (
            "stone".to_owned(),
            FloorPlacements {
                placement: vec![TileCoordinate { x: 2, y: 2, z: 0 }, TileCoordinate { x: 3, y: 0, z: 2 }],
                rects: Vec::new(),
            },
        ),
    ];
    let ground = def.build_floor_map(0);
    assert_eq!(ground.dimensions(), (4, 3));
    assert_eq!(ground.get(0, 0).map(|s| s.as_str()), Some("dirt"));
    assert_eq!(ground.get(1, 1).map(|s| s.as_str()), Some("dirt"));
    assert_eq!(ground.get(2, 2).map(|s| s.as_str()), Some("stone"), "later groups paint over earlier ones");
    assert_eq!(ground.get(3, 2).map(|s| s.as_str()), Some("grass"));
    let upper = def.build_floor_map(2);
    assert_eq!(upper.get(3, 0).map(|s| s.as_str()), Some("stone"));
    assert_eq!(upper.get(0, 0).map(|s| s.as_str()), Some("grass"), "every uncovered cell reads the fill");
}

#[test]
fn portal_lookup_and_permanence() {
    let mut def = space(Vec::new());
    def.portals = vec![PortalDefinition {
        id: "stairs".to_owned(),
        source: TileCoordinate { x: 1, y: 2, z: 0 },
        destination_space_id: "cellar".to_owned(),
        destination_tile: TileCoordinate { x: 0, y: 0, z: 0 },
        destination_permanence: Some(SpacePermanence::Ephemeral),
    }];
    assert_eq!(def.portal_at(TilePosition::new(1, 2, 0)).unwrap().id, "stairs");
    assert!(def.portal_at(TilePosition::new(1, 2, 2)).is_none());
    assert!(SpacePermanence::Persistent.is_persistent());
    assert!(!SpacePermanence::Ephemeral.is_persistent());
    assert_eq!(TileCoordinate { x: 1, y: 2, z: 3 }.to_tile_position(), TilePosition::new(1, 2, 3));
}
