//! Planning a path for a pawn that needs one.

use vstd::prelude::*;

use crate::components::{Position, ResourceType, Task};
use crate::pathfinding::{find_path, is_shortest_path, reachable, search_fits};
use crate::resources::TileMap;

verus! {

/// The outcome of planning: follow `waypoints` to `target`, or give up.
#[derive(Debug)]
pub enum PathPlan {
    Follow { target: Position, waypoints: Vec<Position> },
    GiveUp,
}

/// Whether searches from `pos` to any cell of the map stay within `i32`.
pub open spec fn searches_fit(map: &TileMap, pos: Position) -> bool {
    forall|g: Position|
        #![trigger map.passable_at(g.x as int, g.y as int)]
        g != pos && map.passable_at(g.x as int, g.y as int) ==> search_fits(map, pos, g)
}

/// `q` is a cell holding `rt` nearest to `pos`.
pub open spec fn is_nearest(map: &TileMap, pos: Position, rt: ResourceType, q: Position) -> bool {
    &&& map.in_bounds(q.x as int, q.y as int)
    &&& map.has_resource_at(q.x as int, q.y as int, rt)
    &&& forall|x: int, y: int|
        map.in_bounds(x, y) && #[trigger] map.has_resource_at(x, y, rt) ==> pos.manhattan(q)
            <= pos.manhattan(Position { x: x as i32, y: y as i32 })
}

/// The plan follows a shortest path from `pos` to `p`, or gives up because
/// there is none.
pub open spec fn follows_or_unreachable(map: &TileMap, pos: Position, p: Position, plan: PathPlan) -> bool {
    match plan {
        PathPlan::Follow { target, waypoints } => target == p && is_shortest_path(
            map,
            None,
            pos,
            p,
            waypoints@,
        ),
        PathPlan::GiveUp => !reachable(map, None, pos, p),
    }
}

/// Chooses where a pawn at `position` with `task` should go and plans a
/// path there: a pawn looking for a resource heads for a nearest cell
/// holding it, a moving or gathering pawn for its target. It gives up when
/// there is no target or no path to it.
pub fn plan_path(tile_map: &TileMap, position: &Position, task: &Task) -> (plan: PathPlan)
    requires
        tile_map.wf(),
        searches_fit(tile_map, *position),
        *task matches Task::FindResource(rt) ==> tile_map.distances_fit(*position, rt),
    ensures
        match *task {
            Task::MoveTo(p) => follows_or_unreachable(tile_map, *position, p, plan),
            Task::Gather(p, _) => follows_or_unreachable(tile_map, *position, p, plan),
            Task::FindResource(rt) => match plan {
                PathPlan::Follow { target, waypoints } => is_nearest(
                    tile_map,
                    *position,
                    rt,
                    target,
                ) && is_shortest_path(tile_map, None, *position, target, waypoints@),
                PathPlan::GiveUp => (forall|x: int, y: int|
                    tile_map.in_bounds(x, y) ==> !#[trigger] tile_map.has_resource_at(x, y, rt))
                    || (exists|q: Position|
                    #[trigger] is_nearest(tile_map, *position, rt, q) && !reachable(
                        tile_map,
                        None,
                        *position,
                        q,
                    )),
            },
            _ => plan is GiveUp,
        },
{
    let target = match task {
        Task::FindResource(resource_type) => tile_map.find_nearest_resource(position, *resource_type),
        Task::MoveTo(target_pos) => Some(*target_pos),
        Task::Gather(target_pos, _) => Some(*target_pos),
        _ => None,
    };
    if let Some(target_pos) = target {
        if let Some(waypoints) = find_path(tile_map, position, &target_pos) {
            return PathPlan::Follow { target: target_pos, waypoints };
        }
        proof {
            if let Task::FindResource(rt) = *task {
                assert(is_nearest(tile_map, *position, rt, target_pos));
            }
        }
    }
    PathPlan::GiveUp
}

} // verus!
