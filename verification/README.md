# colony_sim

A tile-based colony simulation server. Pawns gather resources, build,
seek entertainment and company, and plan paths over a grid; clients watch
and steer the game over a WebSocket connection.

## Layout

- `src/` — the verified library (Verus):
  - `components.rs`, `resources.rs`: positions, tiles, inventories, paths,
    the tile map (a grid stored column by column), tile locks and the task
    scheduler, each with its model and contracts.
  - `pathfinding.rs`: A* search with 8-way moves; it finds a path exactly
    when one exists, and the path it finds is a cheapest one.
  - `open_set.rs`: the search's priority queue (`priority_queue` crate),
    reached through trusted wrappers.
  - `systems/`: the per-tick decisions of the game's systems (movement and
    gathering, needs and requests, task assignment, construction,
    entertainment, company, client commands).
  - `networking.rs`: how a client connection reacts to what arrives on it.
  - `setup.rs`: laying out a new map and placing the first pawns.
- `app/` — the server around it: the ECS world and its systems, floating-point
  needs and scores, saving and loading, and the WebSocket server.
- `tests/` — tests of the library.
