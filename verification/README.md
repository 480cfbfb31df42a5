# tbd_mud

The world rules of a small tile-based MUD, written in Verus: every function
under `src/` carries a contract that Verus proves.

- `src/` — the verified library: dungeon generation (`dungeon_gen`), floor
  grids (`floor_map`), floor tilesets and transitions (`floor_definitions`),
  corner-cell rendering decisions (`floor_render`), the flooring atlas
  transform (`floor_flavors`), indoor tinting and visible floors (`floors`),
  the tile-column model (`column`), map layouts and object resolution
  (`map_layout`), object wiring and side-effect targets (`wiring`,
  `interactions`), building presets, hidden objects and hiding
  (`hidden`, `hide_action`), the Nearby NPCs list (`nearby_npcs`), and small
  naming rules (`direction`, `animation`,
  `chat`, `procedural_button`, `floor_animation`).
- `tests/` — tests of the library on concrete values.
- `app/` — ordinary Rust around the library: YAML loading from `assets/`,
  the serde forms of the library's types, the clock-seeded dungeon front end,
  and floating-point helpers (lighting curve, sprite rotation, lerps, quadrant
  clipping, perception pacing).
