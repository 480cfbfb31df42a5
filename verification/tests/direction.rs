use tbd_mud::direction::Direction;

#[test]
fn from_delta_cardinals() {
    assert_eq!(Direction::from_delta(1, 0), Some(Direction::East));
    assert_eq!(Direction::from_delta(-1, 0), Some(Direction::West));
    assert_eq!(Direction::from_delta(0, 1), Some(Direction::North));
    assert_eq!(Direction::from_delta(0, -1), Some(Direction::South));
}

#[test]
fn from_delta_zero_returns_none() {
    assert_eq!(Direction::from_delta(0, 0), None);
}

#[test]
fn from_delta_diagonal_prefers_horizontal_when_abs_dx_greater() {
    assert_eq!(Direction::from_delta(2, 1), Some(Direction::East));
    assert_eq!(Direction::from_delta(-3, 1), Some(Direction::West));
}

#[test]
fn from_delta_diagonal_prefers_vertical_when_abs_dy_greater_or_equal() {
    assert_eq!(Direction::from_delta(1, 2), Some(Direction::North));
    assert_eq!(Direction::from_delta(1, -1), Some(Direction::South));
}

#[test]
fn to_delta_roundtrip() {
    for dir in [
        Direction::North,
        Direction::South,
        Direction::East,
        Direction::West,
    ] {
        let d = dir.to_delta();
        assert_eq!(Direction::from_delta(d.0, d.1), Some(dir));
    }
}

#[test]
fn from_yaml_parses_common_forms() {
    assert_eq!(Direction::from_yaml("north"), Some(Direction::North));
    assert_eq!(Direction::from_yaml("N"), Some(Direction::North));
    assert_eq!(Direction::from_yaml(" east "), Some(Direction::East));
    assert_eq!(Direction::from_yaml("left"), Some(Direction::West));
    assert_eq!(Direction::from_yaml("nope"), None);
}

#[test]
fn to_delta_gives_unit_steps() {
    assert_eq!(Direction::North.to_delta(), (0, 1));
    assert_eq!(Direction::South.to_delta(), (0, -1));
    assert_eq!(Direction::East.to_delta(), (1, 0));
    assert_eq!(Direction::West.to_delta(), (-1, 0));
}

#[test]
fn from_delta_scaled_steps_keep_direction() {
    assert_eq!(Direction::from_delta(5, 0), Some(Direction::East));
    assert_eq!(Direction::from_delta(0, -7), Some(Direction::South));
    assert_eq!(Direction::from_delta(-2, 2), Some(Direction::North));
}

#[test]
fn from_yaml_accepts_case_and_aliases() {
    assert_eq!(Direction::from_yaml("SOUTH"), Some(Direction::South));
    assert_eq!(Direction::from_yaml("w"), Some(Direction::West));
    assert_eq!(Direction::from_yaml("up"), Some(Direction::North));
    assert_eq!(Direction::from_yaml("down"), Some(Direction::South));
    assert_eq!(Direction::from_yaml("right"), Some(Direction::East));
    assert_eq!(Direction::from_yaml(""), None);
}
