//! Verified core of a Dorfromantik helper: hex geometry, tiles, feature groups,
//! board scoring and the game loop, the seeded tile deck, the Unity xorshift
//! generator, config-string, rule-table and save-file decoding, tile-generator
//! seeds, preset ordering, and the quest-tile topology parser.

pub mod board;
pub mod config;
pub mod game_core;
pub mod game_state;
pub mod group;
pub mod hex;
pub mod prng;
pub mod text;
pub mod tile;
pub mod utils;
