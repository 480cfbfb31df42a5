use tbd_mud::map_layout::{MapObjectEntry, MapObjectInstance, SpaceDefinition, TileCoordinate};

fn placed(type_id: &str, id: Option<&str>, x: i32, props: Vec<(&str, &str)>) -> MapObjectInstance {
    MapObjectInstance {
        id: id.map(|s| s.to_owned()),
        type_id: type_id.to_owned(),
        properties: props.into_iter().map(|(k, v)| (k.to_owned(), v.to_owned())).collect(),
        placement: Some(TileCoordinate { x, y: 0, z: 0 }),
        contents: Vec::new(),
        behavior: None,
        facing: None,
    }
}

fn lever_and_door(target: &str) -> SpaceDefinition {
    let lever = placed("lever", None, 0, vec![("target", target), ("label", "pull me")]);
    let door = placed("door", Some("cellar_door"), 1, vec![]);
    let mut def = SpaceDefinition::new_empty("cellar".to_owned(), 4, 4, "grass".to_owned());
    def.objects = vec![MapObjectEntry::Explicit(lever), MapObjectEntry::Explicit(door)];
    assert_eq!(def.resolution_problem(40), None);
    def.resolve_objects(40);
    def
}

fn rules() -> Vec<(String, Vec<String>)> {
    vec![("lever".to_owned(), vec!["target".to_owned()])]
}

#[test]
fn wired_property_becomes_runtime_id() {
    let mut def = lever_and_door("cellar_door");
    let rules = rules();
    assert!(def.wiring_problem(&rules).is_none());
    def.resolve_wiring(&rules);
    let lever = &def.resolved_objects[0];
    let door = &def.resolved_objects[1];
    assert_eq!(door.id, 41);
    assert_eq!(
        lever.properties,
        vec![("target".to_owned(), "41".to_owned()), ("label".to_owned(), "pull me".to_owned())]
    );
    assert!(door.properties.is_empty());
}

#[test]
fn dangling_wire_is_reported() {
    let def = lever_and_door("no_such_door");
    let problem = def.wiring_problem(&rules()).expect("dangling target");
    assert_eq!(problem.type_id, "lever");
    assert_eq!(problem.key, "target");
    assert_eq!(problem.target, "no_such_door");
}

#[test]
fn types_without_rules_keep_their_properties() {
    let mut def = lever_and_door("cellar_door");
    let none: Vec<(String, Vec<String>)> = vec![("door".to_owned(), vec!["target".to_owned()])];
    assert!(def.wiring_problem(&none).is_none());
    def.resolve_wiring(&none);
    assert_eq!(def.resolved_objects[0].properties[0].1, "cellar_door");
}

fn lever_rules() -> Vec<(String, Vec<String>)> {
    vec![("lever".to_owned(), vec!["target".to_owned()]), ("wooden_door".to_owned(), Vec::new())]
}

#[test]
fn wires_to_resolves_authored_id_to_runtime_u64() {
    let mut door = placed("wooden_door", Some("cellar_door"), 1, vec![]);
    door.placement = Some(TileCoordinate { x: 1, y: 1, z: 0 });
    let mut lever = placed("lever", None, 2, vec![("target", "cellar_door")]);
    lever.placement = Some(TileCoordinate { x: 2, y: 2, z: 0 });
    let mut def = SpaceDefinition::new_empty("t".to_owned(), 4, 4, "grass".to_owned());
    def.objects = vec![MapObjectEntry::Explicit(door), MapObjectEntry::Explicit(lever)];
    assert_eq!(def.resolution_problem(1), None);
    def.resolve_objects(1);
    let rules = lever_rules();
    assert!(def.wiring_problem(&rules).is_none());
    def.resolve_wiring(&rules);
    let lever = def.resolved_objects.iter().find(|o| o.type_id == "lever").unwrap();
    let resolved_target = &lever.properties.iter().find(|(k, _)| k == "target").unwrap().1;
    let target_id: u64 = resolved_target.parse().expect("resolved target should be a runtime id");
    let door = def.resolved_objects.iter().find(|o| o.type_id == "wooden_door").unwrap();
    assert_eq!(target_id, door.id);
}

#[test]
fn wires_to_reports_missing_target() {
    let mut lever = placed("lever", None, 2, vec![("target", "ghost_door")]);
    lever.placement = Some(TileCoordinate { x: 2, y: 2, z: 0 });
    let mut def = SpaceDefinition::new_empty("t".to_owned(), 4, 4, "grass".to_owned());
    def.objects = vec![MapObjectEntry::Explicit(lever)];
    assert_eq!(def.resolution_problem(1), None);
    def.resolve_objects(1);
    let problem = def.wiring_problem(&lever_rules()).expect("missing target is a problem");
    assert_eq!(problem.target, "ghost_door");
}

#[test]
fn wired_target_resolves_through_its_property_template() {
    let mut def = lever_and_door("cellar_door");
    let rules = rules();
    def.resolve_wiring(&rules);
    let lever = &def.resolved_objects[0];
    let door_id = def.resolved_objects[1].id;
    assert_eq!(tbd_mud::interactions::resolve_target_id("{properties.target}", Some(&lever.properties)), Some(door_id));
}
