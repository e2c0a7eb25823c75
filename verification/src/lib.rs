//! Verified core of a hex-map strategy game engine.
//!
//! - `hex`, `engine`: hex geometry, the game map of terrain codes, errors
//!   and the engine's random source.
//! - `text`, `data_format`: character-level helpers and the WML data format.
//! - `terrain`, `terrain_rules`, `visuals`, `sprites`, `sorting`: terrain
//!   codes, the terrain graphics rules, the visual layers of a map in
//!   drawing order, and the sprite file of each layer.
//! - `map`, `adventure`, `game`, `resources`: reading maps, adventures,
//!   dialogs and game packages.
//! - `pathfinding`, `combat`: movement search, combat arithmetic and the
//!   order of strikes.
//! - `value`, `world`, `store`, `persistence`: the values of the world, the
//!   world itself, the transactional store with its random source, and
//!   opening saved games.
//! - `protocol`, `session`: the messages between engine and clients with
//!   their validation, and the session that checks, deduplicates and
//!   answers them and keeps each viewer's view.
//! - `terrain_scene`, `runtime`: data of terrain render scripts and runtime
//!   errors.
pub mod adventure;
pub mod combat;
pub mod data_format;
pub mod engine;
pub mod game;
pub mod hex;
pub mod map;
pub mod pathfinding;
pub mod persistence;
pub mod protocol;
pub mod resources;
pub mod runtime;
pub mod session;
pub mod sorting;
pub mod sprites;
pub mod store;
pub mod terrain;
pub mod terrain_rules;
pub mod terrain_scene;
pub mod text;
pub mod value;
pub mod visuals;
pub mod world;
