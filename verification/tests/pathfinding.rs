use bevy_ecs::entity::Entity;
use colony_sim::components::{Position, ResourceType, Tile};
use colony_sim::pathfinding::{find_path, find_path_with_locks};
use colony_sim::resources::{TileLocks, TileMap};

#[test]
fn test_simple_path() {
    let map = TileMap::new(10, 10);
    let start = Position::new(0, 0);
    let goal = Position::new(3, 0);

    let path = find_path(&map, &start, &goal);
    assert!(path.is_some());
    let path = path.unwrap();
    assert_eq!(path[0], start);
    assert_eq!(path[path.len() - 1], goal);
}

#[test]
fn test_path_with_obstacle() {
    let mut map = TileMap::new(10, 10);
    map.set_tile(1, 0, Tile::wall());

    let start = Position::new(0, 0);
    let goal = Position::new(3, 0);

    let path = find_path(&map, &start, &goal);
    assert!(path.is_some());
    let path = path.unwrap();
    assert_eq!(path[0], start);
    assert_eq!(path[path.len() - 1], goal);
    for pos in &path {
        assert_ne!(*pos, Position::new(1, 0));
    }
}

#[test]
fn test_no_path() {
    let mut map = TileMap::new(5, 5);
    for x in 0..5 {
        map.set_tile(x, 2, Tile::wall());
    }

    let start = Position::new(0, 0);
    let goal = Position::new(4, 4);

    let path = find_path(&map, &start, &goal);
    assert!(path.is_none());
}

#[test]
fn test_same_start_goal() {
    let map = TileMap::new(10, 10);
    let start = Position::new(5, 5);

    let path = find_path(&map, &start, &start);
    assert!(path.is_some());
    let path = path.unwrap();
    assert_eq!(path.len(), 1);
    assert_eq!(path[0], start);
}

#[test]
fn test_diagonal_path() {
    let map = TileMap::new(10, 10);
    let start = Position::new(0, 0);
    let goal = Position::new(2, 2);

    let path = find_path(&map, &start, &goal);
    assert!(path.is_some());
    let path = path.unwrap();
    assert!(path.len() >= 3);
    assert_eq!(path[0], start);
    assert_eq!(path[path.len() - 1], goal);
}

#[test]
fn test_path_with_locks() {
    let map = TileMap::new(10, 10);
    let start = Position::new(0, 0);
    let goal = Position::new(3, 0);

    let mut locks = TileLocks::new();
    locks.try_lock(1, 0, Entity::PLACEHOLDER.to_bits(), ResourceType::Food);

    let path = find_path_with_locks(&map, &start, &goal, Some(&locks));
    assert!(path.is_some());
    let path = path.unwrap();
    for pos in &path {
        assert_ne!(*pos, Position::new(1, 0));
    }
}

#[test]
fn test_path_goal_can_be_locked() {
    let map = TileMap::new(10, 10);
    let start = Position::new(0, 0);
    let goal = Position::new(3, 0);

    let mut locks = TileLocks::new();
    locks.try_lock(3, 0, Entity::PLACEHOLDER.to_bits(), ResourceType::Food);

    let path = find_path_with_locks(&map, &start, &goal, Some(&locks));
    assert!(path.is_some());
    let path = path.unwrap();
    assert_eq!(path[path.len() - 1], goal);
}

fn is_adjacent_step(a: &Position, b: &Position) -> bool {
    let dx = (a.x - b.x).abs();
    let dy = (a.y - b.y).abs();
    dx <= 1 && dy <= 1 && (dx, dy) != (0, 0)
}

fn step_cost(a: &Position, b: &Position) -> i32 {
    if (a.x - b.x).abs() == 1 && (a.y - b.y).abs() == 1 {
        14
    } else {
        10
    }
}

#[test]
fn path_is_a_walk_over_passable_cells() {
    let mut map = TileMap::new(8, 8);
    for y in 0..7 {
        map.set_tile(4, y, Tile::wall());
    }
    let start = Position::new(0, 0);
    let goal = Position::new(7, 0);
    let path = find_path(&map, &start, &goal).unwrap();
    assert_eq!(path[0], start);
    assert_eq!(*path.last().unwrap(), goal);
    for w in path.windows(2) {
        assert!(is_adjacent_step(&w[0], &w[1]));
        assert!(map.is_passable(w[1].x, w[1].y));
    }
    assert!(path.iter().any(|p| *p == Position::new(4, 7)));
}

#[test]
fn straight_path_has_octile_cost() {
    let map = TileMap::new(10, 10);
    let start = Position::new(0, 0);
    let goal = Position::new(3, 0);
    let path = find_path(&map, &start, &goal).unwrap();
    assert_eq!(path.len(), 4);
    let cost: i32 = path.windows(2).map(|w| step_cost(&w[0], &w[1])).sum();
    assert_eq!(cost, 30);
}

#[test]
fn diagonal_path_uses_diagonal_steps() {
    let map = TileMap::new(10, 10);
    let path = find_path(&map, &Position::new(0, 0), &Position::new(2, 2)).unwrap();
    assert_eq!(path, vec![Position::new(0, 0), Position::new(1, 1), Position::new(2, 2)]);
}

#[test]
fn wall_goal_has_no_path() {
    let mut map = TileMap::new(5, 5);
    map.set_tile(3, 3, Tile::wall());
    assert!(find_path(&map, &Position::new(0, 0), &Position::new(3, 3)).is_none());
}

#[test]
fn goal_outside_map_has_no_path() {
    let map = TileMap::new(5, 5);
    assert!(find_path(&map, &Position::new(0, 0), &Position::new(5, 0)).is_none());
}

#[test]
fn start_outside_map_can_step_in() {
    let map = TileMap::new(5, 5);
    let start = Position::new(-1, 0);
    let path = find_path(&map, &start, &Position::new(2, 0)).unwrap();
    assert_eq!(path[0], start);
    assert_eq!(path, vec![start, Position::new(0, 0), Position::new(1, 0), Position::new(2, 0)]);
}

#[test]
fn locked_corridor_blocks_path() {
    let mut map = TileMap::new(3, 3);
    map.set_tile(1, 0, Tile::wall());
    map.set_tile(1, 2, Tile::wall());
    let mut locks = TileLocks::new();
    assert!(locks.try_lock(1, 1, 7, ResourceType::Wood));
    let start = Position::new(0, 1);
    let goal = Position::new(2, 1);
    assert!(find_path_with_locks(&map, &start, &goal, Some(&locks)).is_none());
    assert!(find_path(&map, &start, &goal).is_some());
}

#[test]
fn path_around_wall_is_shortest() {
    let mut map = TileMap::new(8, 8);
    for y in 0..7 {
        map.set_tile(4, y, Tile::wall());
    }
    let path = find_path(&map, &Position::new(0, 0), &Position::new(7, 0)).unwrap();
    let cost: i32 = path.windows(2).map(|w| step_cost(&w[0], &w[1])).sum();
    // Through the gap at (4, 7): 4 diagonal and 3 straight steps in, then 3
    // diagonal and 4 straight steps out.
    assert_eq!(cost, 86 + 82);
    // Never below the straight-line estimate of 7 straight steps.
    assert!(cost >= 70);
}
