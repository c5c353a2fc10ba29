use colony_sim::components::{
    AssignedTask, BuildingType, Inventory, Path, Position, RequestTask, ResourceType, SkillType, Task,
    TaskCategory, Tile,
};
use colony_sim::networking::{on_incoming, ClientMessage, Incoming, Reaction};
use colony_sim::resources::{NetworkCommand, TaskScheduler, TileLocks, TileMap};
use colony_sim::systems::building_system::{building_step, find_building_at, BuildStep, PlacedBuilding};
use colony_sim::systems::entertainment_system::{
    entertainment_step, find_facility_at, has_partner, social_step, FacilitySite, SocialStep, VisitStep,
};
use colony_sim::systems::movement_system::{movement_step, plan_locked_path, LockedPathPlan, MovementEvent};
use colony_sim::systems::needs_system::{apply_assignment, needs_social_draw, request_work, AssignmentUpdate};
use colony_sim::systems::pathfinding_system::{plan_path, PathPlan};
use colony_sim::systems::task_scheduler_system::{
    assign_slots, candidate_pairs, category_matches, cleanup_stale_locks, collect_build_tasks,
    collect_entertainment_tasks, collect_gather_tasks, collect_social_tasks, release_lock_for_entity,
    requeue_unassigned, take_pending, BuildingSite, TaskSlot,
};

#[test]
fn slot_kinds() {
    let p = Position::new(2, 3);
    let g = TaskSlot::gather(p, ResourceType::Wood);
    assert_eq!(g.skill_required, SkillType::Mining);
    assert_eq!(g.priority_tenths, 10);
    assert_eq!(TaskSlot::gather(p, ResourceType::Food).skill_required, SkillType::Farming);
    assert_eq!(TaskSlot::build(p, BuildingType::EntertainmentPark).priority_tenths, 15);
    assert_eq!(TaskSlot::build(p, BuildingType::Mine).priority_tenths, 13);
    assert_eq!(TaskSlot::entertain(p).priority_tenths, 20);
    assert_eq!(TaskSlot::socialize(p).priority_tenths, 18);
    assert!(category_matches(
        &TaskCategory::GatherResource(ResourceType::Iron),
        &TaskCategory::GatherResource(ResourceType::Iron)
    ));
    assert!(!category_matches(
        &TaskCategory::GatherResource(ResourceType::Iron),
        &TaskCategory::GatherResource(ResourceType::Wood)
    ));
    assert!(!category_matches(&TaskCategory::Socialize, &TaskCategory::Entertainment));
}

#[test]
fn gather_slots_skip_locked_and_empty_cells() {
    let mut map = TileMap::new(4, 4);
    map.set_tile(1, 1, Tile::resource(ResourceType::Iron, 5));
    map.set_tile(2, 2, Tile::resource(ResourceType::Food, 5));
    map.set_tile(3, 3, Tile::resource(ResourceType::Wood, 0));
    let mut locks = TileLocks::new();
    locks.try_lock(2, 2, 9, ResourceType::Food);
    let mut slots = Vec::new();
    collect_gather_tasks(&map, &locks, &mut slots);
    assert_eq!(slots, vec![TaskSlot::gather(Position::new(1, 1), ResourceType::Iron)]);
}

#[test]
fn building_entertainment_and_social_slots() {
    let sites = vec![
        BuildingSite { position: Position::new(0, 0), building_type: BuildingType::House, is_complete: false, has_facility: false },
        BuildingSite { position: Position::new(1, 0), building_type: BuildingType::EntertainmentPark, is_complete: true, has_facility: true },
        BuildingSite { position: Position::new(2, 0), building_type: BuildingType::EntertainmentPark, is_complete: false, has_facility: true },
    ];
    let mut slots = Vec::new();
    collect_build_tasks(&sites, &mut slots);
    collect_entertainment_tasks(&sites, &mut slots);
    collect_social_tasks(&vec![Position::new(5, 5)], &mut slots);
    assert_eq!(
        slots,
        vec![
            TaskSlot::build(Position::new(0, 0), BuildingType::House),
            TaskSlot::build(Position::new(2, 0), BuildingType::EntertainmentPark),
            TaskSlot::entertain(Position::new(1, 0)),
            TaskSlot::socialize(Position::new(5, 5)),
        ]
    );
}

#[test]
fn greedy_assignment_gives_each_pawn_and_slot_once() {
    let slots = vec![
        TaskSlot::gather(Position::new(0, 0), ResourceType::Iron),
        TaskSlot::gather(Position::new(1, 0), ResourceType::Iron),
        TaskSlot::socialize(Position::new(5, 5)),
    ];
    let pending = vec![
        (1u64, Position::new(0, 1), TaskCategory::GatherResource(ResourceType::Iron)),
        (2u64, Position::new(0, 2), TaskCategory::GatherResource(ResourceType::Iron)),
        (3u64, Position::new(0, 3), TaskCategory::Socialize),
        (4u64, Position::new(0, 4), TaskCategory::Socialize),
    ];
    let known = vec![1, 2, 3];
    let pairs = candidate_pairs(&pending, &known, &slots);
    assert_eq!(pairs, vec![(1, 0), (1, 1), (2, 0), (2, 1), (3, 2)]);
    let ranked = vec![(1, 0), (2, 0), (1, 1), (2, 1), (3, 2)];
    let mut locks = TileLocks::new();
    let mut sched = TaskScheduler::new();
    let picks = assign_slots(&ranked, &slots, &mut locks, &mut sched);
    assert_eq!(picks, vec![(1, 0), (2, 1), (3, 2)]);
    assert!(locks.is_locked_by(0, 0, 1));
    assert!(locks.is_locked_by(1, 0, 2));
    assert_eq!(sched.get_assignment(3), Some((Position::new(5, 5), TaskCategory::Socialize)));
    requeue_unassigned(&pending, &picks, &mut sched);
    assert_eq!(sched.pending_requests, vec![pending[3]]);
    let taken = take_pending(&mut sched);
    assert_eq!(taken, vec![pending[3]]);
    assert!(sched.pending_requests.is_empty());
}

#[test]
fn greedy_assignment_takes_the_first_free_pairing() {
    let slots = vec![TaskSlot::socialize(Position::new(1, 1)), TaskSlot::socialize(Position::new(2, 2))];
    let mut locks = TileLocks::new();
    let mut sched = TaskScheduler::new();
    // Pawn 10 is paired with slot 0 first, so pawn 20 cannot have it and
    // pawn 10's second pairing is skipped.
    let picks = assign_slots(&vec![(10, 0), (10, 1), (20, 0)], &slots, &mut locks, &mut sched);
    assert_eq!(picks, vec![(10, 0)]);
    assert!(!sched.has_assignment(20));
}

#[test]
fn greedy_assignment_respects_foreign_locks() {
    let slots = vec![TaskSlot::gather(Position::new(0, 0), ResourceType::Iron)];
    let mut locks = TileLocks::new();
    locks.try_lock(0, 0, 99, ResourceType::Iron);
    let mut sched = TaskScheduler::new();
    let picks = assign_slots(&vec![(1, 0)], &slots, &mut locks, &mut sched);
    assert!(picks.is_empty());
    assert!(!sched.has_assignment(1));
}

#[test]
fn cleanup_drops_stale_locks() {
    let mut map = TileMap::new(3, 3);
    map.set_tile(0, 0, Tile::resource(ResourceType::Iron, 2));
    map.set_tile(1, 0, Tile::resource(ResourceType::Iron, 2));
    let mut locks = TileLocks::new();
    locks.try_lock(0, 0, 1, ResourceType::Iron);
    locks.try_lock(1, 0, 2, ResourceType::Iron);
    locks.try_lock(2, 0, 3, ResourceType::Iron);
    let mut sched = TaskScheduler::new();
    sched.assign(1, Position::new(0, 0), TaskCategory::GatherResource(ResourceType::Iron));
    sched.assign(2, Position::new(1, 0), TaskCategory::GatherResource(ResourceType::Iron));
    sched.assign(3, Position::new(2, 0), TaskCategory::GatherResource(ResourceType::Iron));
    cleanup_stale_locks(&mut locks, &mut sched, &map, &vec![1, 3]);
    assert!(locks.is_locked_by(0, 0, 1));
    assert!(!locks.is_locked(1, 0));
    assert!(!locks.is_locked(2, 0));
    assert!(sched.has_assignment(1));
    assert!(!sched.has_assignment(2));
    assert!(!sched.has_assignment(3));
}

#[test]
fn release_frees_locks_and_assignment() {
    let mut locks = TileLocks::new();
    locks.try_lock(0, 0, 1, ResourceType::Iron);
    let mut sched = TaskScheduler::new();
    sched.assign(1, Position::new(0, 0), TaskCategory::GatherResource(ResourceType::Iron));
    release_lock_for_entity(&mut locks, &mut sched, 1);
    assert!(!locks.is_locked(0, 0));
    assert!(!sched.has_assignment(1));
}

fn world() -> (TileMap, TileLocks, TaskScheduler) {
    (TileMap::new(6, 6), TileLocks::new(), TaskScheduler::new())
}

#[test]
fn pawn_steps_along_path() {
    let (mut map, mut locks, mut sched) = world();
    let mut pos = Position::new(0, 0);
    let mut path = Path::new(vec![Position::new(0, 0), Position::new(1, 0), Position::new(2, 0)]);
    let mut task = Task::MoveTo(Position::new(2, 0));
    let mut inv = Inventory::empty();
    let out = movement_step(1, &mut pos, &mut path, &mut task, &mut inv, None, true, true, &mut map, &mut locks, &mut sched);
    assert!(!out.consumed_move);
    assert_eq!(path.current_index, 1);
    let out = movement_step(1, &mut pos, &mut path, &mut task, &mut inv, None, true, true, &mut map, &mut locks, &mut sched);
    assert!(out.consumed_move);
    assert_eq!(pos, Position::new(1, 0));
    assert_eq!(out.events, vec![MovementEvent::PawnMoved(Position::new(1, 0)), MovementEvent::StaminaChanged]);
    let tired = movement_step(1, &mut pos, &mut path, &mut task, &mut inv, None, false, false, &mut map, &mut locks, &mut sched);
    assert!(tired.events.is_empty());
    assert_eq!(path.current_index, 2);
    movement_step(1, &mut pos, &mut path, &mut task, &mut inv, None, true, true, &mut map, &mut locks, &mut sched);
    assert_eq!(pos, Position::new(2, 0));
    let done = movement_step(1, &mut pos, &mut path, &mut task, &mut inv, None, true, true, &mut map, &mut locks, &mut sched);
    assert_eq!(task, Task::Idle);
    assert!(done.drop_components);
    assert_eq!(done.events, vec![MovementEvent::TaskChanged(Task::Idle)]);
}

#[test]
fn arriving_pawn_gathers_then_eats_and_gives_up_when_empty() {
    let (mut map, mut locks, mut sched) = world();
    map.set_tile(1, 0, Tile::resource(ResourceType::Food, 1));
    locks.try_lock(1, 0, 1, ResourceType::Food);
    sched.assign(1, Position::new(1, 0), TaskCategory::GatherResource(ResourceType::Food));
    let mut pos = Position::new(1, 0);
    let mut path = Path::new(vec![Position::new(1, 0)]);
    path.advance();
    let mut task = Task::MoveTo(Position::new(1, 0));
    let mut inv = Inventory::empty();
    let assigned = Some(AssignedTask::new(Position::new(1, 0), ResourceType::Food));
    let out = movement_step(1, &mut pos, &mut path, &mut task, &mut inv, assigned, true, true, &mut map, &mut locks, &mut sched);
    assert_eq!(task, Task::Gather(Position::new(1, 0), ResourceType::Food));
    assert_eq!(out.events, vec![MovementEvent::TaskChanged(task)]);
    let out = movement_step(1, &mut pos, &mut path, &mut task, &mut inv, assigned, true, true, &mut map, &mut locks, &mut sched);
    assert!(out.consumed_gather);
    assert!(out.ate);
    assert!(out.drop_components);
    assert_eq!(inv, Inventory::empty());
    assert_eq!(task, Task::Idle);
    assert!(!locks.is_locked(1, 0));
    assert!(!sched.has_assignment(1));
    assert_eq!(map.get_tile(1, 0).unwrap().resource_type, ResourceType::Nothing);
    let mut fed = Inventory::empty();
    fed.food = 1;
    assert_eq!(
        out.events,
        vec![
            MovementEvent::InventoryChanged(fed),
            MovementEvent::ResourceChanged(Position::new(1, 0), ResourceType::Nothing, 0),
            MovementEvent::StaminaChanged,
            MovementEvent::HungerChanged,
            MovementEvent::InventoryChanged(Inventory::empty()),
            MovementEvent::TaskChanged(Task::Idle),
        ]
    );
}

#[test]
fn gathering_wood_fills_inventory() {
    let (mut map, mut locks, mut sched) = world();
    map.set_tile(2, 2, Tile::resource(ResourceType::Wood, 3));
    let mut pos = Position::new(2, 3);
    let mut path = Path::new(vec![]);
    let mut task = Task::Gather(Position::new(2, 2), ResourceType::Wood);
    let mut inv = Inventory::empty();
    let out = movement_step(5, &mut pos, &mut path, &mut task, &mut inv, None, true, true, &mut map, &mut locks, &mut sched);
    assert!(out.consumed_gather);
    assert!(!out.ate);
    assert_eq!(inv.count(ResourceType::Wood), 1);
    assert_eq!(map.get_tile(2, 2).unwrap().resource_amount, 2);
    assert_eq!(task, Task::Gather(Position::new(2, 2), ResourceType::Wood));
}

#[test]
fn gathering_pawn_away_from_cell_heads_back() {
    let (mut map, mut locks, mut sched) = world();
    let mut pos = Position::new(0, 0);
    let mut path = Path::new(vec![]);
    let mut task = Task::Gather(Position::new(3, 3), ResourceType::Iron);
    let mut inv = Inventory::empty();
    let out = movement_step(5, &mut pos, &mut path, &mut task, &mut inv, None, true, true, &mut map, &mut locks, &mut sched);
    assert!(out.needs_pathfinding);
    assert_eq!(task, Task::MoveTo(Position::new(3, 3)));
}

#[test]
fn gathering_locked_by_other_gives_up() {
    let (mut map, mut locks, mut sched) = world();
    map.set_tile(2, 2, Tile::resource(ResourceType::Iron, 3));
    locks.try_lock(2, 2, 77, ResourceType::Iron);
    let mut pos = Position::new(2, 2);
    let mut path = Path::new(vec![Position::new(2, 2)]);
    let mut task = Task::Gather(Position::new(2, 2), ResourceType::Iron);
    let mut inv = Inventory::empty();
    let out = movement_step(5, &mut pos, &mut path, &mut task, &mut inv, None, true, true, &mut map, &mut locks, &mut sched);
    assert_eq!(task, Task::Idle);
    assert!(out.drop_components);
    assert!(path.is_empty());
    assert!(locks.is_locked_by(2, 2, 77));
}

#[test]
fn planning_paths() {
    let mut map = TileMap::new(6, 6);
    map.set_tile(4, 4, Tile::resource(ResourceType::Iron, 2));
    match plan_path(&map, &Position::new(0, 0), &Task::FindResource(ResourceType::Iron)) {
        PathPlan::Follow { target, waypoints } => {
            assert_eq!(target, Position::new(4, 4));
            assert_eq!(waypoints.len(), 5);
        }
        PathPlan::GiveUp => panic!("expected a path"),
    }
    assert!(matches!(plan_path(&map, &Position::new(0, 0), &Task::Idle), PathPlan::GiveUp));
    assert!(matches!(plan_path(&map, &Position::new(0, 0), &Task::FindResource(ResourceType::Food)), PathPlan::GiveUp));
    let locks = TileLocks::new();
    let assigned = Some(AssignedTask::new(Position::new(2, 0), ResourceType::Iron));
    match plan_locked_path(&map, &locks, &Position::new(0, 0), &Task::Idle, assigned) {
        LockedPathPlan::Follow(w) => assert_eq!(w.len(), 3),
        _ => panic!("expected a path"),
    }
    assert!(matches!(plan_locked_path(&map, &locks, &Position::new(0, 0), &Task::Idle, None), LockedPathPlan::NoTarget));
    map.set_tile(5, 5, Tile::wall());
    assert!(matches!(
        plan_locked_path(&map, &locks, &Position::new(0, 0), &Task::MoveTo(Position::new(5, 5)), None),
        LockedPathPlan::Unreachable
    ));
}

#[test]
fn needs_pick_the_request() {
    let mut sched = TaskScheduler::new();
    let p = Position::new(1, 1);
    let r = request_work(&mut sched, 1, p, Task::Idle, false, true, true, true, true).unwrap();
    assert_eq!(r.request, RequestTask::entertain());
    let r = request_work(&mut sched, 2, p, Task::FindFood, false, false, true, true, true).unwrap();
    assert_eq!(r.request, RequestTask::gather(ResourceType::Food));
    assert_eq!(r.announced, Task::FindFood);
    let r = request_work(&mut sched, 3, p, Task::Idle, false, false, false, true, true).unwrap();
    assert_eq!(r.request, RequestTask::socialize());
    assert!(request_work(&mut sched, 4, p, Task::Idle, false, false, false, false, true).is_none());
    assert!(request_work(&mut sched, 5, p, Task::MoveTo(p), false, true, true, true, true).is_none());
    assert!(request_work(&mut sched, 6, p, Task::Idle, true, true, true, true, true).is_none());
    assert_eq!(sched.pending_requests.len(), 3);
}

#[test]
fn assignment_becomes_task() {
    let mut sched = TaskScheduler::new();
    sched.assign(1, Position::new(3, 3), TaskCategory::BuildStructure);
    let mut task = Task::Idle;
    let u = apply_assignment(&sched, 1, RequestTask::new(ResourceType::Iron), &mut task);
    assert_eq!(u, AssignmentUpdate::Assigned(AssignedTask::new(Position::new(3, 3), ResourceType::Nothing)));
    assert_eq!(task, Task::Build(Position::new(3, 3)));
    let mut t2 = Task::FindFood;
    assert_eq!(apply_assignment(&sched, 2, RequestTask::entertain(), &mut t2), AssignmentUpdate::Waiting);
    assert_eq!(t2, Task::FindFood);
    assert_eq!(apply_assignment(&sched, 2, RequestTask::gather(ResourceType::Food), &mut t2), AssignmentUpdate::Dropped);
    assert_eq!(t2, Task::Idle);
}

#[test]
fn finding_buildings_facilities_and_company() {
    let b = vec![
        PlacedBuilding { entity: 1, position: Position::new(0, 0), is_complete: false },
        PlacedBuilding { entity: 2, position: Position::new(1, 1), is_complete: true },
        PlacedBuilding { entity: 3, position: Position::new(1, 1), is_complete: false },
    ];
    assert_eq!(find_building_at(&b, &Position::new(1, 1)).map(|s| s.entity), Some(2));
    assert_eq!(find_building_at(&b, &Position::new(2, 2)), None);
    let f = vec![
        FacilitySite { entity: 5, position: Position::new(1, 1), is_complete: false },
        FacilitySite { entity: 6, position: Position::new(1, 1), is_complete: true },
    ];
    assert_eq!(find_facility_at(&f, &Position::new(1, 1)), Some(6));
    let pawns = vec![(1u64, Position::new(0, 0)), (2u64, Position::new(1, 1)), (3u64, Position::new(9, 9))];
    assert!(has_partner(&pawns, 1, &Position::new(0, 0)));
    assert!(!has_partner(&pawns, 3, &Position::new(9, 9)));
}

#[test]
fn building_steps() {
    let unfinished = PlacedBuilding { entity: 7, position: Position::new(4, 4), is_complete: false };
    let finished = PlacedBuilding { entity: 8, position: Position::new(6, 6), is_complete: true };
    let b = vec![unfinished, finished];
    let here = Position::new(4, 5);
    assert_eq!(building_step(&Task::Idle, &here, &b), BuildStep::NotBuilding);
    assert_eq!(building_step(&Task::Entertain(Position::new(4, 4)), &here, &b), BuildStep::NotBuilding);
    assert_eq!(building_step(&Task::Build(Position::new(4, 4)), &Position::new(5, 5), &b), BuildStep::NotThere);
    assert_eq!(building_step(&Task::Build(Position::new(4, 4)), &here, &b), BuildStep::Work(unfinished));
    assert_eq!(building_step(&Task::Build(Position::new(4, 4)), &Position::new(4, 4), &b), BuildStep::Work(unfinished));
    assert_eq!(building_step(&Task::Build(Position::new(6, 6)), &Position::new(6, 7), &b), BuildStep::AlreadyComplete);
    assert_eq!(building_step(&Task::Build(Position::new(1, 1)), &Position::new(1, 2), &b), BuildStep::NoBuilding);
}

#[test]
fn entertainment_steps() {
    let f = vec![
        FacilitySite { entity: 5, position: Position::new(3, 3), is_complete: false },
        FacilitySite { entity: 6, position: Position::new(8, 8), is_complete: true },
    ];
    assert_eq!(entertainment_step(&Task::Idle, &Position::new(0, 0), &f), VisitStep::NotVisiting);
    assert_eq!(
        entertainment_step(&Task::Entertain(Position::new(8, 8)), &Position::new(5, 8), &f),
        VisitStep::NotThere
    );
    assert_eq!(
        entertainment_step(&Task::Entertain(Position::new(8, 8)), &Position::new(7, 9), &f),
        VisitStep::Enjoy(6)
    );
    assert_eq!(
        entertainment_step(&Task::Entertain(Position::new(3, 3)), &Position::new(3, 3), &f),
        VisitStep::NoFacility
    );
}

#[test]
fn social_steps() {
    let pawns = vec![(1u64, Position::new(0, 0)), (2u64, Position::new(1, 1)), (3u64, Position::new(9, 9))];
    let meet = Task::Socialize(Position::new(1, 0));
    assert_eq!(social_step(&Task::Idle, &Position::new(0, 0), 1, &pawns), SocialStep::NotSocializing);
    assert_eq!(social_step(&meet, &Position::new(0, 0), 1, &pawns), SocialStep::Chat);
    assert_eq!(social_step(&meet, &Position::new(9, 9), 3, &pawns), SocialStep::NotThere);
    assert_eq!(
        social_step(&Task::Socialize(Position::new(9, 8)), &Position::new(9, 9), 3, &pawns),
        SocialStep::Alone
    );
}

#[test]
fn connection_reactions() {
    let (s, r) = on_incoming(false, Incoming::Message(ClientMessage::Subscribe));
    assert!(s && matches!(r, Reaction::Subscribed));
    let (s, r) = on_incoming(true, Incoming::Message(ClientMessage::Ping));
    assert!(s && matches!(r, Reaction::Ignore));
    let (s, r) = on_incoming(true, Incoming::Message(ClientMessage::Command(NetworkCommand::SaveGame("a.json".to_string()))));
    assert!(s);
    assert!(matches!(r, Reaction::Forward(NetworkCommand::SaveGame(ref p)) if p == "a.json"));
    let (s, r) = on_incoming(true, Incoming::Message(ClientMessage::Unsubscribe));
    assert!(!s && matches!(r, Reaction::Unsubscribed));
    let (s, r) = on_incoming(false, Incoming::Undecodable);
    assert!(!s && matches!(r, Reaction::ReportInvalid));
    let (s, r) = on_incoming(true, Incoming::Binary);
    assert!(s && matches!(r, Reaction::RejectBinary));
    let (s, r) = on_incoming(true, Incoming::Other);
    assert!(s && matches!(r, Reaction::Ignore));
    for end in [Incoming::Close, Incoming::Failed, Incoming::Ended] {
        let (s, r) = on_incoming(true, end);
        assert!(!s && matches!(r, Reaction::Disconnect));
    }
}

#[test]
fn social_draw_only_for_merely_unhappy_free_pawns() {
    let mut sched = TaskScheduler::new();
    sched.assign(9, Position::new(0, 0), TaskCategory::Socialize);
    assert!(needs_social_draw(&sched, 1, Task::Idle, false, false, false, true));
    assert!(needs_social_draw(&sched, 1, Task::FindFood, false, false, false, true));
    assert!(!needs_social_draw(&sched, 1, Task::Idle, false, false, false, false));
    assert!(!needs_social_draw(&sched, 1, Task::Idle, false, false, true, true));
    assert!(!needs_social_draw(&sched, 1, Task::Idle, false, true, false, true));
    assert!(!needs_social_draw(&sched, 1, Task::Idle, true, false, false, true));
    assert!(!needs_social_draw(&sched, 9, Task::Idle, false, false, false, true));
    assert!(!needs_social_draw(&sched, 1, Task::Build(Position::new(1, 1)), false, false, false, true));
}
