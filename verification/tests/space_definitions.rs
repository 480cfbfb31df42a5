use tbd_mud::map_layout::{
    AnonymousObjectPlacements, MapObjectEntry, PortalDefinition, SpaceDefinition, SpaceDefinitions, TileCoordinate,
};

fn space_with_walls(id: &str, walls: i32) -> SpaceDefinition {
    let mut def = SpaceDefinition::new_empty(id.to_owned(), 8, 8, "grass".to_owned());
    def.objects = vec![MapObjectEntry::Anonymous(AnonymousObjectPlacements {
        type_id: "wall".to_owned(),
        properties: Vec::new(),
        placement: (0..walls).map(|x| TileCoordinate { x, y: 0, z: 0 }).collect(),
        facing: None,
    })];
    def
}

fn portal(id: &str, to: &str) -> PortalDefinition {
    PortalDefinition {
        id: id.to_owned(),
        source: TileCoordinate { x: 1, y: 1, z: 0 },
        destination_space_id: to.to_owned(),
        destination_tile: TileCoordinate { x: 0, y: 0, z: 0 },
        destination_permanence: None,
    }
}

#[test]
fn insert_or_replace_reads_back_and_replaces_by_id() {
    let mut spaces = SpaceDefinitions::new("overworld".to_owned());
    assert!(spaces.bootstrap_space().is_none());
    spaces.insert_or_replace(SpaceDefinition::new_empty("overworld".to_owned(), 10, 10, "grass".to_owned()));
    spaces.insert_or_replace(SpaceDefinition::new_empty("cellar".to_owned(), 4, 4, "dirt".to_owned()));
    spaces.insert_or_replace(SpaceDefinition::new_empty("overworld".to_owned(), 20, 12, "sand".to_owned()));
    assert_eq!(spaces.iter().len(), 2);
    let overworld = spaces.bootstrap_space().unwrap();
    assert_eq!((overworld.width, overworld.height), (20, 12));
    assert_eq!(overworld.fill_floor_type, "sand");
    assert_eq!(spaces.get("cellar").unwrap().fill_floor_type, "dirt");
    assert!(spaces.get("attic").is_none());
}

#[test]
fn dangling_portal_names_the_first_missing_destination() {
    let mut spaces = SpaceDefinitions::new("overworld".to_owned());
    let mut overworld = SpaceDefinition::new_empty("overworld".to_owned(), 10, 10, "grass".to_owned());
    overworld.portals = vec![portal("down", "cellar"), portal("up", "attic")];
    spaces.insert_or_replace(overworld);
    spaces.insert_or_replace(SpaceDefinition::new_empty("cellar".to_owned(), 4, 4, "dirt".to_owned()));
    assert_eq!(spaces.dangling_portal(), Some((0, 1)));
    spaces.insert_or_replace(SpaceDefinition::new_empty("attic".to_owned(), 4, 4, "wood".to_owned()));
    assert_eq!(spaces.dangling_portal(), None);
}

#[test]
fn next_start_id_follows_other_spaces_only() {
    let mut spaces = SpaceDefinitions::new("overworld".to_owned());
    assert_eq!(spaces.next_start_id("cellar"), 1);
    let mut overworld = space_with_walls("overworld", 3);
    let next = overworld.resolve_objects(1);
    assert_eq!(next, 4);
    spaces.insert_or_replace(overworld);
    let mut cellar = space_with_walls("cellar", 2);
    cellar.resolve_objects(4);
    spaces.insert_or_replace(cellar);
    assert_eq!(spaces.next_start_id("cellar"), 4);
    assert_eq!(spaces.next_start_id("overworld"), 6);
    assert_eq!(spaces.next_start_id("attic"), 6);
}
