//! One tick of a pawn's movement and gathering, and the choice of the target
//! a pawn's path is planned to.

use vstd::prelude::*;

use crate::components::{AssignedTask, Inventory, Path, Position, ResourceType, Task};
use crate::pathfinding::{find_path_with_locks, is_shortest_path, reachable};
use crate::systems::pathfinding_system::searches_fit;
use crate::resources::{
    TileMap,
    TileLocks,
    TaskScheduler,
    after_gather,
    without_holder,
};
use crate::systems::task_scheduler_system::abandon_task;

verus! {

/// What a tick of movement reports to observers. Stamina and hunger values
/// are read by the caller after it has applied the outcome's effects.
#[derive(Clone, Copy, Debug, PartialEq, Eq, Structural)]
pub enum MovementEvent {
    PawnMoved(Position),
    TaskChanged(Task),
    InventoryChanged(Inventory),
    ResourceChanged(Position, ResourceType, u32),
    StaminaChanged,
    HungerChanged,
}

/// Effects of a tick that the caller carries out on state this crate does
/// not hold, and the events to report, in order.
#[derive(Debug)]
pub struct MovementOutcome {
    /// The pawn paid the stamina cost of a move.
    pub consumed_move: bool,
    /// The pawn paid the stamina cost of gathering.
    pub consumed_gather: bool,
    /// The pawn ate one unit of food.
    pub ate: bool,
    /// The pawn's assigned task and path are to be dropped.
    pub drop_components: bool,
    /// The pawn needs a new path.
    pub needs_pathfinding: bool,
    pub events: Vec<MovementEvent>,
}

pub open spec fn same_path(a: Path, b: Path) -> bool {
    a.waypoints@ == b.waypoints@ && a.current_index == b.current_index
}

pub open spec fn same_map(a: TileMap, b: TileMap) -> bool {
    a.width == b.width && a.height == b.height && a.tiles@ == b.tiles@
}

pub open spec fn same_schedule(a: TaskScheduler, b: TaskScheduler) -> bool {
    a.assignments@ == b.assignments@ && a.pending_requests@ == b.pending_requests@
}

/// The pawn `entity` gave up its work: its locks and assignment are gone,
/// its path is empty and it is idle.
pub open spec fn abandoned(
    old_locks: TileLocks,
    new_locks: TileLocks,
    old_sched: TaskScheduler,
    new_sched: TaskScheduler,
    new_path: Path,
    new_task: Task,
    entity: u64,
) -> bool {
    &&& new_locks@ == without_holder(old_locks@, entity)
    &&& new_sched.assignments@ == old_sched.assignments@.remove(entity)
    &&& new_sched.pending_requests@ == old_sched.pending_requests@
    &&& new_path.waypoints@.len() == 0
    &&& new_path.current_index == 0
    &&& new_task == Task::Idle
}

/// Whether the pawn may keep gathering at `g`: the cell is locked by it, or
/// by nobody.
pub open spec fn may_gather_at(locks: TileLocks, g: Position, entity: u64) -> bool {
    locks.locked_by_spec(g.x, g.y, entity) || !locks.locked_spec(g.x, g.y)
}

/// The resource a pawn that arrived at `pos` turns to gather: that of its
/// assignment, or else the one on the map.
pub open spec fn arrival_resource(
    assigned_task: Option<AssignedTask>,
    map: TileMap,
    pos: Position,
) -> ResourceType {
    match assigned_task {
        Some(a) => a.resource_type,
        None => map.resource_at(pos.x as int, pos.y as int),
    }
}

/// A pawn may go on gathering at `g` exactly when no other pawn holds the
/// cell's lock; an arriving pawn gathers its assignment's resource, or
/// without an assignment whatever the map holds where it stands.
pub proof fn lemma_gathering_rules(
    locks: TileLocks,
    g: Position,
    entity: u64,
    assigned_task: Option<AssignedTask>,
    map: TileMap,
    pos: Position,
)
    ensures
        may_gather_at(locks, g, entity) <==> !(locks@.contains_key((g.x, g.y)) && locks@[(g.x,
            g.y)].0 != entity),
        assigned_task matches Some(a) ==> arrival_resource(assigned_task, map, pos)
            == a.resource_type,
        assigned_task is None ==> arrival_resource(assigned_task, map, pos) == match map.tile_at(
            pos.x as int,
            pos.y as int,
        ) {
            Some(t) => t.resource_type,
            None => ResourceType::Nothing,
        },
{
}

/// One tick of a pawn's movement or gathering.
///
/// A pawn moving along a finished path checks whether it arrived (at its
/// assignment's target or at the move's target): then it starts gathering
/// the resource there, or gives up when there is none. A pawn on an
/// unfinished path steps to the next waypoint when it has the stamina to.
/// A gathering pawn next to its cell gives up when the cell is locked by
/// someone else or holds no more of the resource; otherwise, with stamina to
/// spare, it gathers one unit (eating it at once if it is food) and gives up
/// once the cell runs out. A gathering pawn away from its cell heads back to
/// it. `can_move` and `can_gather` tell whether the pawn's stamina allows a
/// move and a gathering action.
pub fn movement_step(
    entity: u64,
    position: &mut Position,
    path: &mut Path,
    task: &mut Task,
    inventory: &mut Inventory,
    assigned_task: Option<AssignedTask>,
    can_move: bool,
    can_gather: bool,
    tile_map: &mut TileMap,
    tile_locks: &mut TileLocks,
    task_scheduler: &mut TaskScheduler,
) -> (out: MovementOutcome)
    requires
        old(tile_map).wf(),
        old(tile_locks).wf(),
        *old(task) matches Task::Gather(g, rt) ==> old(position).manhattan(g) <= i32::MAX
            && old(inventory).amount_of(rt) < u32::MAX,
    ensures
        final(tile_map).wf(),
        final(tile_locks).wf(),
        !out.consumed_move || !out.consumed_gather,
        match *old(task) {
            Task::MoveTo(t) => {
                let pos = *old(position);
                &&& *final(inventory) == *old(inventory)
                &&& same_map(*final(tile_map), *old(tile_map))
                &&& !out.consumed_gather && !out.ate && !out.needs_pathfinding
                &&& if old(path).current_index >= old(path).waypoints@.len() {
                    let arrived = (assigned_task matches Some(a) && a.target_position == pos)
                        || pos == t;
                    let rt = arrival_resource(assigned_task, *old(tile_map), pos);
                    &&& *final(position) == pos
                    &&& !out.consumed_move
                    &&& if !arrived {
                        &&& *final(task) == *old(task)
                        &&& same_path(*final(path), *old(path))
                        &&& final(tile_locks)@ == old(tile_locks)@
                        &&& same_schedule(*final(task_scheduler), *old(task_scheduler))
                        &&& !out.drop_components
                        &&& out.events@.len() == 0
                    } else if rt != ResourceType::Nothing {
                        &&& *final(task) == Task::Gather(pos, rt)
                        &&& same_path(*final(path), *old(path))
                        &&& final(tile_locks)@ == old(tile_locks)@
                        &&& same_schedule(*final(task_scheduler), *old(task_scheduler))
                        &&& !out.drop_components
                        &&& out.events@ == seq![MovementEvent::TaskChanged(Task::Gather(pos, rt))]
                    } else {
                        &&& abandoned(
                            *old(tile_locks),
                            *final(tile_locks),
                            *old(task_scheduler),
                            *final(task_scheduler),
                            *final(path),
                            *final(task),
                            entity,
                        )
                        &&& out.drop_components
                        &&& out.events@ == seq![MovementEvent::TaskChanged(Task::Idle)]
                    }
                } else {
                    let target = old(path).waypoints@[old(path).current_index as int];
                    &&& *final(task) == *old(task)
                    &&& final(tile_locks)@ == old(tile_locks)@
                    &&& same_schedule(*final(task_scheduler), *old(task_scheduler))
                    &&& !out.drop_components
                    &&& final(path).waypoints@ == old(path).waypoints@
                    &&& if can_move {
                        &&& final(path).current_index == old(path).current_index + 1
                        &&& if target != pos {
                            &&& *final(position) == target
                            &&& out.consumed_move
                            &&& out.events@ == seq![
                                MovementEvent::PawnMoved(target),
                                MovementEvent::StaminaChanged,
                            ]
                        } else {
                            &&& *final(position) == pos
                            &&& !out.consumed_move
                            &&& out.events@.len() == 0
                        }
                    } else {
                        &&& final(path).current_index == old(path).current_index
                        &&& *final(position) == pos
                        &&& !out.consumed_move
                        &&& out.events@.len() == 0
                    }
                }
            },
            Task::Gather(g, rt) => {
                let pos = *old(position);
                let inv = *old(inventory);
                &&& *final(position) == pos
                &&& !out.consumed_move
                &&& if pos.manhattan(g) > 1 {
                    &&& *final(task) == Task::MoveTo(g)
                    &&& out.needs_pathfinding
                    &&& out.events@ == seq![MovementEvent::TaskChanged(Task::MoveTo(g))]
                    &&& *final(inventory) == inv
                    &&& same_map(*final(tile_map), *old(tile_map))
                    &&& same_path(*final(path), *old(path))
                    &&& final(tile_locks)@ == old(tile_locks)@
                    &&& same_schedule(*final(task_scheduler), *old(task_scheduler))
                    &&& !out.drop_components && !out.consumed_gather && !out.ate
                } else if !may_gather_at(*old(tile_locks), g, entity) || !old(
                    tile_map,
                ).has_resource_at(g.x as int, g.y as int, rt) {
                    &&& abandoned(
                        *old(tile_locks),
                        *final(tile_locks),
                        *old(task_scheduler),
                        *final(task_scheduler),
                        *final(path),
                        *final(task),
                        entity,
                    )
                    &&& out.drop_components
                    &&& out.events@ == seq![MovementEvent::TaskChanged(Task::Idle)]
                    &&& *final(inventory) == inv
                    &&& same_map(*final(tile_map), *old(tile_map))
                    &&& !out.consumed_gather && !out.ate && !out.needs_pathfinding
                } else if !can_gather {
                    &&& *final(task) == *old(task)
                    &&& out.events@.len() == 0
                    &&& *final(inventory) == inv
                    &&& same_map(*final(tile_map), *old(tile_map))
                    &&& same_path(*final(path), *old(path))
                    &&& final(tile_locks)@ == old(tile_locks)@
                    &&& same_schedule(*final(task_scheduler), *old(task_scheduler))
                    &&& !out.drop_components && !out.consumed_gather && !out.ate
                    &&& !out.needs_pathfinding
                } else {
                    let tile = old(tile_map).tile_at(g.x as int, g.y as int).unwrap();
                    let left = after_gather(tile, 1);
                    let inv1 = inv.with_amount(rt, (inv.amount_of(rt) + 1) as u32);
                    let head = seq![
                        MovementEvent::InventoryChanged(inv1),
                        MovementEvent::ResourceChanged(g, left.resource_type, left.resource_amount),
                        MovementEvent::StaminaChanged,
                    ];
                    let fed = if rt == ResourceType::Food {
                        head + seq![MovementEvent::HungerChanged, MovementEvent::InventoryChanged(inv)]
                    } else {
                        head
                    };
                    &&& out.consumed_gather
                    &&& !out.needs_pathfinding
                    &&& final(tile_map).width == old(tile_map).width
                    &&& final(tile_map).height == old(tile_map).height
                    &&& final(tile_map).tiles@ == old(tile_map).tiles@.update(
                        old(tile_map).index_of(g.x as int, g.y as int),
                        left,
                    )
                    &&& out.ate == (rt == ResourceType::Food)
                    &&& *final(inventory) == if rt == ResourceType::Food {
                        inv
                    } else {
                        inv1
                    }
                    &&& if left.resource_amount == 0 {
                        &&& abandoned(
                            *old(tile_locks),
                            *final(tile_locks),
                            *old(task_scheduler),
                            *final(task_scheduler),
                            *final(path),
                            *final(task),
                            entity,
                        )
                        &&& out.drop_components
                        &&& out.events@ == fed + seq![MovementEvent::TaskChanged(Task::Idle)]
                    } else {
                        &&& *final(task) == *old(task)
                        &&& same_path(*final(path), *old(path))
                        &&& final(tile_locks)@ == old(tile_locks)@
                        &&& same_schedule(*final(task_scheduler), *old(task_scheduler))
                        &&& !out.drop_components
                        &&& out.events@ == fed
                    }
                }
            },
            _ => {
                &&& *final(position) == *old(position)
                &&& *final(task) == *old(task)
                &&& *final(inventory) == *old(inventory)
                &&& same_path(*final(path), *old(path))
                &&& same_map(*final(tile_map), *old(tile_map))
                &&& final(tile_locks)@ == old(tile_locks)@
                &&& same_schedule(*final(task_scheduler), *old(task_scheduler))
                &&& !out.consumed_move && !out.consumed_gather && !out.ate
                &&& !out.drop_components && !out.needs_pathfinding
                &&& out.events@.len() == 0
            },
        },
{
    let mut out = MovementOutcome {
        consumed_move: false,
        consumed_gather: false,
        ate: false,
        drop_components: false,
        needs_pathfinding: false,
        events: Vec::new(),
    };
    match *task {
        Task::MoveTo(target_pos) => {
            if path.is_complete() {
                if let Some(current_target) = path.current_target() {
                    *position = *current_target;
                }
                let is_at_target = match assigned_task {
                    Some(a) => a.target_position == *position,
                    None => false,
                };
                if is_at_target || *position == target_pos {
                    let resource_type = match assigned_task {
                        Some(a) => a.resource_type,
                        None => tile_map.get_resource_type(position.x, position.y),
                    };
                    if resource_type != ResourceType::Nothing {
                        *task = Task::Gather(*position, resource_type);
                        out.events.push(MovementEvent::TaskChanged(*task));
                    } else {
                        abandon_task(tile_locks, task_scheduler, entity, path, task);
                        out.drop_components = true;
                        out.events.push(MovementEvent::TaskChanged(*task));
                    }
                }
                return out;
            }
            if can_move {
                if let Some(target) = path.current_target() {
                    let target = *target;
                    if *position != target {
                        out.consumed_move = true;
                        *position = target;
                        out.events.push(MovementEvent::PawnMoved(*position));
                        out.events.push(MovementEvent::StaminaChanged);
                    }
                    path.advance();
                }
            }
        },
        Task::Gather(gather_pos, resource_type) => {
            if position.manhattan_to(&gather_pos) <= 1 {
                let still_locked = tile_locks.is_locked_by(gather_pos.x, gather_pos.y, entity)
                    || !tile_locks.is_locked(gather_pos.x, gather_pos.y);
                if !still_locked {
                    abandon_task(tile_locks, task_scheduler, entity, path, task);
                    out.drop_components = true;
                    out.events.push(MovementEvent::TaskChanged(*task));
                    return out;
                }
                let tile_exists = match tile_map.get_tile(gather_pos.x, gather_pos.y) {
                    Some(t) => t.resource_type == resource_type && t.resource_amount > 0,
                    None => false,
                };
                if !tile_exists {
                    abandon_task(tile_locks, task_scheduler, entity, path, task);
                    out.drop_components = true;
                    out.events.push(MovementEvent::TaskChanged(*task));
                    return out;
                }
                if can_gather {
                    out.consumed_gather = true;
                    let ghost tile = old(tile_map).tile_at(gather_pos.x as int, gather_pos.y as int).unwrap();
                    let ghost left = after_gather(tile, 1);
                    let ghost inv = *old(inventory);
                    let ghost inv1 = inv.with_amount(resource_type, (inv.amount_of(resource_type) + 1) as u32);
                    let ghost head = seq![
                        MovementEvent::InventoryChanged(inv1),
                        MovementEvent::ResourceChanged(gather_pos, left.resource_type, left.resource_amount),
                        MovementEvent::StaminaChanged,
                    ];
                    let ghost fed = if resource_type == ResourceType::Food {
                        head + seq![MovementEvent::HungerChanged, MovementEvent::InventoryChanged(inv)]
                    } else {
                        head
                    };
                    proof {
                        old(tile_map).lemma_index(gather_pos.x as int, gather_pos.y as int);
                    }
                    let gathered = tile_map.gather_resource(gather_pos.x, gather_pos.y, 1);
                    if gathered > 0 {
                        inventory.add(resource_type, gathered);
                        out.events.push(MovementEvent::InventoryChanged(*inventory));
                        if let Some(tile) = tile_map.get_tile(gather_pos.x, gather_pos.y) {
                            out.events.push(
                                MovementEvent::ResourceChanged(
                                    gather_pos,
                                    tile.resource_type,
                                    tile.resource_amount,
                                ),
                            );
                        }
                        out.events.push(MovementEvent::StaminaChanged);
                        if resource_type == ResourceType::Food {
                            let food_eaten = inventory.take(ResourceType::Food, 1);
                            if food_eaten > 0 {
                                out.ate = true;
                                out.events.push(MovementEvent::HungerChanged);
                                out.events.push(MovementEvent::InventoryChanged(*inventory));
                            }
                        }
                        let tile_depleted = match tile_map.get_tile(gather_pos.x, gather_pos.y) {
                            Some(t) => t.resource_amount == 0,
                            None => true,
                        };
                        assert(out.events@ =~= fed);
                        assert(tile_depleted == (left.resource_amount == 0));
                        if tile_depleted {
                            abandon_task(tile_locks, task_scheduler, entity, path, task);
                            assert(abandoned(
                                *old(tile_locks),
                                *tile_locks,
                                *old(task_scheduler),
                                *task_scheduler,
                                *path,
                                *task,
                                entity,
                            ));
                            out.drop_components = true;
                            out.events.push(MovementEvent::TaskChanged(*task));
                        }
                    } else {
                        abandon_task(tile_locks, task_scheduler, entity, path, task);
                        out.drop_components = true;
                        out.events.push(MovementEvent::TaskChanged(*task));
                    }
                }
            } else {
                *task = Task::MoveTo(gather_pos);
                out.needs_pathfinding = true;
                out.events.push(MovementEvent::TaskChanged(*task));
            }
        },
        _ => {},
    }
    out
}


/// The outcome of planning a path around locked cells.
#[derive(Debug)]
pub enum LockedPathPlan {
    /// Follow these waypoints.
    Follow(Vec<Position>),
    /// The target cannot be reached.
    Unreachable,
    /// The pawn has nowhere to go.
    NoTarget,
}

/// Where a pawn that needs a path is headed: its assignment's target, or
/// else the target of its move or gathering task.
pub open spec fn path_target(task: Task, assigned_task: Option<AssignedTask>) -> Option<Position> {
    match assigned_task {
        Some(a) => Some(a.target_position),
        None => match task {
            Task::MoveTo(p) => Some(p),
            Task::Gather(p, _) => Some(p),
            _ => None,
        },
    }
}

/// A pawn with an assignment heads for the assignment's target whatever its
/// task; without one, a moving or gathering pawn heads for its task's target
/// and any other pawn has none.
pub proof fn lemma_path_target(task: Task, assigned_task: Option<AssignedTask>)
    ensures
        assigned_task matches Some(a) ==> path_target(task, assigned_task) == Some(a.target_position),
        assigned_task is None ==> (task matches Task::MoveTo(p) ==> path_target(task, assigned_task)
            == Some(p)),
        assigned_task is None ==> (task matches Task::Gather(p, _) ==> path_target(
            task,
            assigned_task,
        ) == Some(p)),
        assigned_task is None && !(task is MoveTo) && !(task is Gather) ==> path_target(
            task,
            assigned_task,
        ).is_none(),
{
}

/// Plans a path for a pawn at `position` to its target (see `path_target`),
/// avoiding cells locked by anyone unless the cell is the target.
pub fn plan_locked_path(
    tile_map: &TileMap,
    tile_locks: &TileLocks,
    position: &Position,
    task: &Task,
    assigned_task: Option<AssignedTask>,
) -> (plan: LockedPathPlan)
    requires
        tile_map.wf(),
        tile_locks.wf(),
        searches_fit(tile_map, *position),
    ensures
        match path_target(*task, assigned_task) {
            None => plan is NoTarget,
            Some(t) => match plan {
                LockedPathPlan::Follow(w) => is_shortest_path(
                    tile_map,
                    Some(tile_locks),
                    *position,
                    t,
                    w@,
                ),
                LockedPathPlan::Unreachable => !reachable(tile_map, Some(tile_locks), *position, t),
                LockedPathPlan::NoTarget => false,
            },
        },
        assigned_task matches Some(a) ==> match plan {
            LockedPathPlan::Follow(w) => is_shortest_path(
                tile_map,
                Some(tile_locks),
                *position,
                a.target_position,
                w@,
            ),
            LockedPathPlan::Unreachable => !reachable(
                tile_map,
                Some(tile_locks),
                *position,
                a.target_position,
            ),
            LockedPathPlan::NoTarget => false,
        },
{
    let target = match assigned_task {
        Some(assigned) => Some(assigned.target_position),
        None => match task {
            Task::MoveTo(target_pos) => Some(*target_pos),
            Task::Gather(target_pos, _) => Some(*target_pos),
            _ => None,
        },
    };
    match target {
        Some(target_pos) => {
            match find_path_with_locks(tile_map, position, &target_pos, Some(tile_locks)) {
                Some(waypoints) => LockedPathPlan::Follow(waypoints),
                None => LockedPathPlan::Unreachable,
            }
        },
        None => LockedPathPlan::NoTarget,
    }
}

} // verus!
