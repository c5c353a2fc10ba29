//! Decision logic of the game's systems: each function takes one pawn's
//! state, or the scheduler's inputs, and works out what changes.

pub mod task_scheduler_system;
pub mod movement_system;
pub mod pathfinding_system;
pub mod needs_system;
pub mod network_system;
pub mod building_system;
pub mod entertainment_system;
