//! Verified core of a small tile-based MUD world: procedural dungeon
//! layout, floor maps, floor tileset rules and floor rendering decisions,
//! the voxel column model, facing directions, map-layout resolution and
//! object wiring and side-effect targets, building presets, hidden objects
//! and the rules of hiding them, the Nearby NPCs list, and a few small
//! naming and styling rules of the client.

pub mod dungeon_gen;
pub mod components;
pub mod direction;
pub mod text;
pub mod floor_map;
pub mod floor_definitions;
pub mod column;
pub mod floors;
pub mod floor_render;
pub mod map_layout;
pub mod building_presets;
pub mod floor_flavors;
pub mod animation;
pub mod floor_animation;
pub mod procedural_button;
pub mod chat;
pub mod wiring;
pub mod hidden;
pub mod nearby_npcs;
pub mod hide_action;
pub mod interactions;
