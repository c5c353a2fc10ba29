//! Verified core of a tile-based colony simulation: the map, tile locks,
//! task scheduling, A* pathfinding, the per-pawn decisions of the game's
//! systems and the reactions of a client connection. Floating-point needs,
//! sockets, persistence and the ECS scheduling loop live outside this crate.

pub mod components;
pub mod resources;
pub mod open_set;
pub mod pathfinding;
pub mod systems;
pub mod networking;
pub mod setup;
