use tbd_mud::animation::{facing_suffix, is_walk_clip};
use tbd_mud::chat::{classify_chat_line, ChatLineStyle};
use tbd_mud::direction::Direction;
use tbd_mud::floor_animation::next_random_u64;
use tbd_mud::procedural_button::is_rounded_corner;

#[test]
fn facing_suffix_names_each_direction() {
    assert_eq!(facing_suffix(Direction::North), "_n");
    assert_eq!(facing_suffix(Direction::South), "_s");
    assert_eq!(facing_suffix(Direction::East), "_e");
    assert_eq!(facing_suffix(Direction::West), "_w");
    assert_eq!(format!("walk{}", facing_suffix(Direction::North)), "walk_n");
}

#[test]
fn walk_clip_detection() {
    assert!(is_walk_clip("walk"));
    assert!(is_walk_clip("walk_n"));
    assert!(is_walk_clip("walk_"));
    assert!(!is_walk_clip("walker"));
    assert!(!is_walk_clip("idle"));
    assert!(!is_walk_clip("wal"));
    assert!(!is_walk_clip(""));
}

#[test]
fn lcg_stream_steps() {
    let mut seed: u64 = 0;
    assert_eq!(next_random_u64(&mut seed), 1);
    assert_eq!(seed, 1);
    assert_eq!(next_random_u64(&mut seed), 6364136223846793006);
    let mut wrap: u64 = u64::MAX;
    let expected = u64::MAX.wrapping_mul(6364136223846793005).wrapping_add(1);
    assert_eq!(next_random_u64(&mut wrap), expected);
    assert_eq!(wrap, expected);
}

#[test]
fn rounded_corners_are_the_four_corner_pixels() {
    assert!(is_rounded_corner(0, 0, 8, 6));
    assert!(is_rounded_corner(7, 0, 8, 6));
    assert!(is_rounded_corner(0, 5, 8, 6));
    assert!(is_rounded_corner(7, 5, 8, 6));
    assert!(!is_rounded_corner(1, 0, 8, 6));
    assert!(!is_rounded_corner(3, 3, 8, 6));
    assert!(!is_rounded_corner(7, 4, 8, 6));
    assert!(is_rounded_corner(0, 0, 1, 1));
}

#[test]
fn chat_lines_are_classified() {
    assert_eq!(classify_chat_line("[System] Server restarting"), ChatLineStyle::ChatSystem);
    assert_eq!(classify_chat_line("[System notice] hi"), ChatLineStyle::ChatSystem);
    assert_eq!(classify_chat_line("Bob whispers: psst"), ChatLineStyle::ChatWhisper);
    assert_eq!(classify_chat_line("Bob says: hello"), ChatLineStyle::ChatSay);
    assert_eq!(classify_chat_line("[Systemic] whispers"), ChatLineStyle::ChatWhisper);
    assert_eq!(classify_chat_line("whisper"), ChatLineStyle::ChatSay);
    assert_eq!(classify_chat_line(""), ChatLineStyle::ChatSay);
}
