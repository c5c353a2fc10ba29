//! Carrying out the commands that network clients send.

use vstd::prelude::*;

use crate::components::Position;
use crate::resources::{NetworkCommand, SaveLoadState, TileMap};

verus! {

/// Applies one client command: save and load requests are recorded, a tile
/// is replaced (inside the map only), and a request to spawn a pawn is
/// handed back as the position to spawn it at. Subscriptions change nothing
/// here.
pub fn apply_network_command(
    command: NetworkCommand,
    tile_map: &mut TileMap,
    save_load_state: &mut SaveLoadState,
) -> (spawn_at: Option<Position>)
    requires
        old(tile_map).wf(),
    ensures
        final(tile_map).wf(),
        match command {
            NetworkCommand::SaveGame(path) => {
                &&& final(save_load_state).pending_save == Some(path)
                &&& final(save_load_state).pending_load == old(save_load_state).pending_load
                &&& final(tile_map).tiles@ == old(tile_map).tiles@
                &&& spawn_at.is_none()
            },
            NetworkCommand::LoadGame(path) => {
                &&& final(save_load_state).pending_load == Some(path)
                &&& final(save_load_state).pending_save == old(save_load_state).pending_save
                &&& final(tile_map).tiles@ == old(tile_map).tiles@
                &&& spawn_at.is_none()
            },
            NetworkCommand::SpawnPawn(p) => {
                &&& *final(save_load_state) == *old(save_load_state)
                &&& final(tile_map).tiles@ == old(tile_map).tiles@
                &&& spawn_at == Some(p)
            },
            NetworkCommand::SetTile(p, tile) => {
                &&& *final(save_load_state) == *old(save_load_state)
                &&& forall|a: int, b: int|
                    #[trigger] final(tile_map).tile_at(a, b) == if a == p.x && b == p.y
                        && old(tile_map).in_bounds(a, b) {
                        Some(tile)
                    } else {
                        old(tile_map).tile_at(a, b)
                    }
                &&& spawn_at.is_none()
            },
            _ => {
                &&& *final(save_load_state) == *old(save_load_state)
                &&& final(tile_map).tiles@ == old(tile_map).tiles@
                &&& spawn_at.is_none()
            },
        },
        final(tile_map).width == old(tile_map).width,
        final(tile_map).height == old(tile_map).height,
{
    match command {
        NetworkCommand::Subscribe => None,
        NetworkCommand::Unsubscribe => None,
        NetworkCommand::SaveGame(path) => {
            save_load_state.pending_save = Some(path);
            None
        },
        NetworkCommand::LoadGame(path) => {
            save_load_state.pending_load = Some(path);
            None
        },
        NetworkCommand::SpawnPawn(position) => Some(position),
        NetworkCommand::SetTile(position, tile) => {
            tile_map.set_tile(position.x, position.y, tile);
            None
        },
    }
}

} // verus!
