use colony_sim::components::{Inventory, Path, Position, RequestTask, ResourceType, Task, TaskCategory, Tile, TileLock};
use colony_sim::resources::{NetworkCommand, SaveLoadState, TaskScheduler, TileLocks, TileMap};
use colony_sim::setup::{lay_out_map, spawn_positions};
use colony_sim::systems::network_system::apply_network_command;

#[test]
fn manhattan_distance_sums_axis_distances() {
    let a = Position::new(1, -2);
    let b = Position::new(-3, 4);
    assert_eq!(a.manhattan_to(&b), 10);
    assert_eq!(b.manhattan_to(&a), 10);
    assert_eq!(a.manhattan_to(&a), 0);
}

#[test]
fn tile_constructors() {
    assert_eq!(Tile::empty(), Tile::new(ResourceType::Nothing, true, 0));
    assert_eq!(Tile::wall(), Tile::new(ResourceType::Nothing, false, 0));
    assert_eq!(Tile::resource(ResourceType::Iron, 7), Tile::new(ResourceType::Iron, true, 7));
}

#[test]
fn inventory_take_undoes_add() {
    let mut inv = Inventory::empty();
    inv.add(ResourceType::Wood, 5);
    assert_eq!(inv.count(ResourceType::Wood), 5);
    assert_eq!(inv.take(ResourceType::Wood, 5), 5);
    assert_eq!(inv, Inventory::empty());
}

#[test]
fn inventory_take_is_capped_and_none_is_ignored() {
    let mut inv = Inventory::empty();
    inv.add(ResourceType::Iron, 3);
    inv.add(ResourceType::Nothing, 9);
    assert_eq!(inv.count(ResourceType::Nothing), 0);
    assert_eq!(inv.take(ResourceType::Iron, 10), 3);
    assert_eq!(inv.count(ResourceType::Iron), 0);
    assert_eq!(inv.take(ResourceType::Nothing, 1), 0);
}

#[test]
fn path_advances_until_complete() {
    let mut path = Path::new(vec![Position::new(0, 0), Position::new(1, 0)]);
    assert!(!path.is_empty());
    assert_eq!(path.current_target(), Some(&Position::new(0, 0)));
    path.advance();
    assert_eq!(path.current_target(), Some(&Position::new(1, 0)));
    path.advance();
    assert!(path.is_complete());
    assert_eq!(path.current_target(), None);
    path.advance();
    assert_eq!(path.current_index, 2);
    path.clear();
    assert!(path.is_empty());
    assert_eq!(path.current_index, 0);
}

#[test]
fn tile_lock_component() {
    let lock = TileLock::new(4, ResourceType::Food);
    assert!(lock.is_locked());
    assert!(lock.is_locked_by(4));
    assert!(!lock.is_locked_by(5));
}

#[test]
fn request_constructors() {
    let r = RequestTask::new(ResourceType::Wood);
    assert_eq!(r.category, TaskCategory::GatherResource(ResourceType::Wood));
    assert_eq!(RequestTask::entertain().category, TaskCategory::Entertainment);
    assert_eq!(RequestTask::socialize().category, TaskCategory::Socialize);
}

#[test]
fn map_reads_what_was_written() {
    let mut map = TileMap::new(4, 3);
    assert_eq!(map.tiles.len(), 12);
    assert_eq!(map.get_tile(3, 2), Some(&Tile::empty()));
    assert_eq!(map.get_tile(4, 0), None);
    assert_eq!(map.get_tile(0, -1), None);
    map.set_tile(2, 1, Tile::resource(ResourceType::Iron, 4));
    assert_eq!(map.get_tile(2, 1), Some(&Tile::resource(ResourceType::Iron, 4)));
    assert_eq!(map.get_resource_type(2, 1), ResourceType::Iron);
    assert_eq!(map.get_resource_type(9, 9), ResourceType::Nothing);
    map.set_tile(9, 9, Tile::wall());
    assert!(map.is_passable(1, 1));
    assert!(!map.is_passable(-1, 1));
}

#[test]
fn negative_size_map_is_empty() {
    let map = TileMap::new(-3, 5);
    assert_eq!(map.tiles.len(), 0);
    assert_eq!(map.get_tile(0, 0), None);
}

#[test]
fn get_tile_mut_writes_one_cell() {
    let mut map = TileMap::new(3, 3);
    if let Some(t) = map.get_tile_mut(1, 2) {
        t.passable = false;
    }
    assert!(!map.is_passable(1, 2));
    assert!(map.is_passable(2, 1));
    assert!(map.get_tile_mut(3, 0).is_none());
}

#[test]
fn gathering_empties_tile() {
    let mut map = TileMap::new(3, 3);
    map.set_tile(1, 1, Tile::resource(ResourceType::Food, 3));
    assert_eq!(map.gather_resource(1, 1, 2), 2);
    assert_eq!(map.get_tile(1, 1).unwrap().resource_amount, 1);
    assert_eq!(map.gather_resource(1, 1, 5), 1);
    let t = map.get_tile(1, 1).unwrap();
    assert_eq!(t.resource_amount, 0);
    assert_eq!(t.resource_type, ResourceType::Nothing);
    assert_eq!(map.gather_resource(7, 7, 5), 0);
}

#[test]
fn nearest_resource_by_manhattan_distance() {
    let mut map = TileMap::new(10, 10);
    map.set_tile(8, 8, Tile::resource(ResourceType::Wood, 5));
    map.set_tile(2, 3, Tile::resource(ResourceType::Wood, 5));
    map.set_tile(1, 1, Tile::resource(ResourceType::Wood, 0));
    map.set_tile(0, 1, Tile::resource(ResourceType::Iron, 5));
    let from = Position::new(0, 0);
    assert_eq!(map.find_nearest_resource(&from, ResourceType::Wood), Some(Position::new(2, 3)));
    assert_eq!(map.find_nearest_resource(&from, ResourceType::Iron), Some(Position::new(0, 1)));
    assert_eq!(map.find_nearest_resource(&from, ResourceType::Food), None);
}

#[test]
fn neighbors_in_direction_order() {
    let mut map = TileMap::new(3, 3);
    map.set_tile(2, 1, Tile::wall());
    let n = map.get_neighbors(&Position::new(1, 1));
    assert_eq!(
        n,
        vec![
            Position::new(1, 0),
            Position::new(1, 2),
            Position::new(0, 1),
            Position::new(2, 0),
            Position::new(2, 2),
            Position::new(0, 2),
            Position::new(0, 0),
        ]
    );
    let corner = map.get_neighbors(&Position::new(0, 0));
    assert_eq!(corner, vec![Position::new(1, 0), Position::new(0, 1), Position::new(1, 1)]);
}

#[test]
fn locks_are_exclusive() {
    let mut locks = TileLocks::new();
    assert!(!locks.is_locked(1, 1));
    assert!(locks.try_lock(1, 1, 10, ResourceType::Iron));
    assert!(locks.is_locked(1, 1));
    assert!(locks.is_locked_by(1, 1, 10));
    assert!(!locks.try_lock(1, 1, 11, ResourceType::Iron));
    assert!(locks.is_locked_by(1, 1, 10));
    assert!(locks.try_lock(1, 1, 10, ResourceType::Wood));
    assert!(!locks.is_locked_by(1, 1, 11));
}

#[test]
fn unlock_entity_releases_only_its_locks() {
    let mut locks = TileLocks::new();
    assert!(locks.try_lock(0, 0, 1, ResourceType::Iron));
    assert!(locks.try_lock(0, 1, 2, ResourceType::Iron));
    assert!(locks.try_lock(0, 2, 1, ResourceType::Wood));
    locks.unlock_entity(1);
    assert!(!locks.is_locked(0, 0));
    assert!(!locks.is_locked(0, 2));
    assert!(locks.is_locked_by(0, 1, 2));
}

#[test]
fn scheduler_requests_and_assignments() {
    let mut s = TaskScheduler::new();
    s.request_task(3, Position::new(1, 2), TaskCategory::Socialize);
    assert_eq!(s.pending_requests.len(), 1);
    assert!(!s.has_assignment(3));
    s.assign(3, Position::new(4, 4), TaskCategory::BuildStructure);
    assert!(s.has_assignment(3));
    assert_eq!(s.get_assignment(3), Some((Position::new(4, 4), TaskCategory::BuildStructure)));
    s.complete_task(3);
    assert_eq!(s.get_assignment(3), None);
}

#[test]
fn network_commands_apply() {
    let mut map = TileMap::new(3, 3);
    let mut state = SaveLoadState::new();
    assert_eq!(apply_network_command(NetworkCommand::SaveGame("a.json".to_string()), &mut map, &mut state), None);
    assert_eq!(state.pending_save.as_deref(), Some("a.json"));
    assert_eq!(apply_network_command(NetworkCommand::LoadGame("b.json".to_string()), &mut map, &mut state), None);
    assert_eq!(state.pending_load.as_deref(), Some("b.json"));
    assert_eq!(
        apply_network_command(NetworkCommand::SpawnPawn(Position::new(1, 1)), &mut map, &mut state),
        Some(Position::new(1, 1))
    );
    apply_network_command(NetworkCommand::SetTile(Position::new(2, 2), Tile::wall()), &mut map, &mut state);
    assert!(!map.is_passable(2, 2));
    assert_eq!(apply_network_command(NetworkCommand::Subscribe, &mut map, &mut state), None);
}

#[test]
fn task_is_plain_data() {
    let t = Task::Gather(Position::new(1, 1), ResourceType::Food);
    assert_ne!(t, Task::Idle);
}

#[test]
fn map_from_saved_tiles() {
    let tiles = vec![Tile::empty(), Tile::wall(), Tile::resource(ResourceType::Wood, 3), Tile::empty(), Tile::empty(), Tile::empty()];
    let map = TileMap::from_tiles(2, 3, tiles.clone()).unwrap();
    assert!(!map.is_passable(0, 1));
    assert_eq!(map.get_resource_type(0, 2), ResourceType::Wood);
    assert!(TileMap::from_tiles(3, 3, tiles.clone()).is_none());
    assert!(TileMap::from_tiles(0, 3, Vec::new()).is_some());
    assert!(TileMap::from_tiles(-2, 3, tiles).is_none());
}

#[test]
fn small_map_layout() {
    let mut map = TileMap::new(4, 5);
    // Inner cells, column by column: (1,1) (1,2) (1,3) (2,1) (2,2) (2,3).
    let rolled = vec![
        Some(Tile::resource(ResourceType::Food, 30)),
        None,
        Some(Tile::wall()),
        None,
        Some(Tile::resource(ResourceType::Iron, 21)),
        None,
    ];
    lay_out_map(&mut map, &rolled);
    for x in 0..4 {
        assert!(!map.is_passable(x, 0) && !map.is_passable(x, 4));
    }
    for y in 0..5 {
        assert!(!map.is_passable(0, y) && !map.is_passable(3, y));
    }
    assert_eq!(map.get_resource_type(1, 1), ResourceType::Food);
    assert_eq!(*map.get_tile(1, 2).unwrap(), Tile::empty());
    assert!(!map.is_passable(1, 3));
    assert_eq!(map.get_resource_type(2, 2), ResourceType::Iron);
    assert_eq!(map.get_tile(2, 2).unwrap().resource_amount, 21);
}

#[test]
fn large_map_keeps_a_clear_centre() {
    let mut map = TileMap::new(60, 60);
    let rolled = vec![Some(Tile::wall()); 58 * 58];
    lay_out_map(&mut map, &rolled);
    assert!(!map.is_passable(44, 50));
    assert!(map.is_passable(45, 45));
    assert!(map.is_passable(54, 54));
    assert!(!map.is_passable(55, 54));
    assert!(!map.is_passable(0, 0));
}

#[test]
fn pawns_start_near_the_centre() {
    let ps = spawn_positions(100, 100, 25);
    assert_eq!(ps.len(), 25);
    for p in &ps {
        assert!((45..55).contains(&p.x) && (45..55).contains(&p.y));
    }
    assert!(spawn_positions(10, 10, 0).is_empty());
}

#[test]
fn release_undoes_lock() {
    let mut locks = TileLocks::new();
    assert!(locks.try_lock(1, 1, 4, ResourceType::Wood));
    let before: Vec<(i32, i32, bool)> =
        [(1, 1), (2, 2)].iter().map(|&(x, y)| (x, y, locks.is_locked(x, y))).collect();
    assert!(locks.try_lock(2, 2, 9, ResourceType::Iron));
    assert!(locks.is_locked_by(2, 2, 9));
    locks.unlock_entity(9);
    let after: Vec<(i32, i32, bool)> =
        [(1, 1), (2, 2)].iter().map(|&(x, y)| (x, y, locks.is_locked(x, y))).collect();
    assert_eq!(before, after);
    assert!(locks.is_locked_by(1, 1, 4));
}

#[test]
fn complete_undoes_assign() {
    let mut sched = TaskScheduler::new();
    sched.assign(1, Position::new(2, 2), TaskCategory::BuildStructure);
    sched.assign(2, Position::new(5, 5), TaskCategory::Socialize);
    sched.complete_task(2);
    assert!(!sched.has_assignment(2));
    assert_eq!(sched.get_assignment(1), Some((Position::new(2, 2), TaskCategory::BuildStructure)));
    assert_eq!(sched.assignments.len(), 1);
}
