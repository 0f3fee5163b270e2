//! Core of a real-time, tick-driven, multi-player territory-conquest game.
//!
//! The library holds the verified game engine: the board model with
//! per-tile ownership and fog-of-war, the move resolver, the random map
//! generator, the per-game state with its reinforcement schedule and
//! update rendering, and the per-connection action queue and lobby rules.
//! Transport, serialization and the wall-clock tick loop live outside the
//! library and talk to it through plain values.

pub mod connection;
pub mod game;
pub mod grid;
pub mod map;
pub mod map_generator;
pub mod player;
pub mod server;
pub mod tile;
