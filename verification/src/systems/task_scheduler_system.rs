//! Handing out work: task slots, matching requests to slots, and releasing
//! the locks and assignments of pawns.

use vstd::prelude::*;

use crate::components::{
    BuildingType,
    Path,
    Position,
    ResourceType,
    SkillType,
    Task,
    TaskCategory,
};
use crate::resources::{
    TileMap,
    TileLocks,
    TaskScheduler,
    LockEntry,
    without_holder,
    lock_map,
    unique_cells,
    entry_cell,
    entry_holder,
    lemma_lock_map,
};

verus! {

/// Frees every tile lock held by `entity` and forgets its assignment.
pub fn release_lock_for_entity(
    tile_locks: &mut TileLocks,
    task_scheduler: &mut TaskScheduler,
    entity: u64,
)
    requires
        old(tile_locks).wf(),
    ensures
        final(tile_locks).wf(),
        final(tile_locks)@ == without_holder(old(tile_locks)@, entity),
        final(task_scheduler).assignments@ == old(task_scheduler).assignments@.remove(entity),
        final(task_scheduler).pending_requests@ == old(task_scheduler).pending_requests@,
{
    tile_locks.unlock_entity(entity);
    task_scheduler.complete_task(entity);
}

/// A pawn gives up its work: its locks and assignment are released, its
/// path is cleared and it goes idle.
pub fn abandon_task(
    tile_locks: &mut TileLocks,
    task_scheduler: &mut TaskScheduler,
    entity: u64,
    path: &mut Path,
    task: &mut Task,
)
    requires
        old(tile_locks).wf(),
    ensures
        final(tile_locks).wf(),
        final(tile_locks)@ == without_holder(old(tile_locks)@, entity),
        final(task_scheduler).assignments@ == old(task_scheduler).assignments@.remove(entity),
        final(task_scheduler).pending_requests@ == old(task_scheduler).pending_requests@,
        final(path).waypoints@.len() == 0,
        final(path).current_index == 0,
        *final(task) == Task::Idle,
{
    release_lock_for_entity(tile_locks, task_scheduler, entity);
    path.clear();
    *task = Task::Idle;
}


/// A piece of work on offer: where, what kind, which skill it calls for, and
/// how urgent it is, in tenths.
#[derive(Clone, Copy, Debug, PartialEq, Eq, Structural)]
pub struct TaskSlot {
    pub position: Position,
    pub category: TaskCategory,
    pub skill_required: SkillType,
    pub priority_tenths: u32,
}

/// The skill that gathering `resource_type` trains.
pub open spec fn gather_skill(resource_type: ResourceType) -> SkillType {
    match resource_type {
        ResourceType::Iron => SkillType::Mining,
        ResourceType::Wood => SkillType::Mining,
        ResourceType::Food => SkillType::Farming,
        ResourceType::Nothing => SkillType::Farming,
    }
}

/// Urgency, in tenths, of constructing a building of `building_type`.
pub open spec fn build_priority(building_type: BuildingType) -> u32 {
    match building_type {
        BuildingType::EntertainmentPark => 15,
        BuildingType::House => 12,
        BuildingType::Farm => 10,
        BuildingType::Mine => 13,
    }
}

pub open spec fn gather_slot(position: Position, resource_type: ResourceType) -> TaskSlot {
    TaskSlot {
        position,
        category: TaskCategory::GatherResource(resource_type),
        skill_required: gather_skill(resource_type),
        priority_tenths: 10,
    }
}

pub open spec fn build_slot(position: Position, building_type: BuildingType) -> TaskSlot {
    TaskSlot {
        position,
        category: TaskCategory::BuildStructure,
        skill_required: SkillType::Building,
        priority_tenths: build_priority(building_type),
    }
}

pub open spec fn entertain_slot(position: Position) -> TaskSlot {
    TaskSlot {
        position,
        category: TaskCategory::Entertainment,
        skill_required: SkillType::Building,
        priority_tenths: 20,
    }
}

pub open spec fn socialize_slot(position: Position) -> TaskSlot {
    TaskSlot {
        position,
        category: TaskCategory::Socialize,
        skill_required: SkillType::Building,
        priority_tenths: 18,
    }
}

impl TaskSlot {
    /// Gathering `resource_type` at `position`.
    pub fn gather(position: Position, resource_type: ResourceType) -> (s: TaskSlot)
        ensures
            s == gather_slot(position, resource_type),
    {
        let skill = match resource_type {
            ResourceType::Iron => SkillType::Mining,
            ResourceType::Wood => SkillType::Mining,
            ResourceType::Food => SkillType::Farming,
            ResourceType::Nothing => SkillType::Farming,
        };
        TaskSlot {
            position,
            category: TaskCategory::GatherResource(resource_type),
            skill_required: skill,
            priority_tenths: 10,
        }
    }

    /// Constructing a building of `building_type` at `position`.
    pub fn build(position: Position, building_type: BuildingType) -> (s: TaskSlot)
        ensures
            s == build_slot(position, building_type),
    {
        let priority: u32 = match building_type {
            BuildingType::EntertainmentPark => 15,
            BuildingType::House => 12,
            BuildingType::Farm => 10,
            BuildingType::Mine => 13,
        };
        TaskSlot {
            position,
            category: TaskCategory::BuildStructure,
            skill_required: SkillType::Building,
            priority_tenths: priority,
        }
    }

    /// Enjoying the entertainment facility at `position`.
    pub fn entertain(position: Position) -> (s: TaskSlot)
        ensures
            s == entertain_slot(position),
    {
        TaskSlot {
            position,
            category: TaskCategory::Entertainment,
            skill_required: SkillType::Building,
            priority_tenths: 20,
        }
    }

    /// Keeping company with the pawn at `position`.
    pub fn socialize(position: Position) -> (s: TaskSlot)
        ensures
            s == socialize_slot(position),
    {
        TaskSlot {
            position,
            category: TaskCategory::Socialize,
            skill_required: SkillType::Building,
            priority_tenths: 18,
        }
    }
}

/// Whether a slot of `slot_category` answers a request for
/// `request_category`: the same kind of work, and for gathering the same
/// resource.
pub fn category_matches(slot_category: &TaskCategory, request_category: &TaskCategory) -> (b: bool)
    ensures
        b == (*slot_category == *request_category),
{
    match (slot_category, request_category) {
        (TaskCategory::GatherResource(a), TaskCategory::GatherResource(b)) => *a == *b,
        (TaskCategory::BuildStructure, TaskCategory::BuildStructure) => true,
        (TaskCategory::Entertainment, TaskCategory::Entertainment) => true,
        (TaskCategory::Socialize, TaskCategory::Socialize) => true,
        _ => false,
    }
}

/// A cell offers gathering work: it holds some resource and nobody holds
/// its lock.
pub open spec fn gatherable(map: &TileMap, locks: &TileLocks, x: int, y: int) -> bool {
    &&& map.in_bounds(x, y)
    &&& map.tiles@[map.index_of(x, y)].resource_type != ResourceType::Nothing
    &&& map.tiles@[map.index_of(x, y)].resource_amount > 0
    &&& !locks.locked_spec(x as i32, y as i32)
}

/// Cell `a` comes before cell `b` in column order.
pub open spec fn cell_before(a: Position, b: Position) -> bool {
    a.x < b.x || (a.x == b.x && a.y < b.y)
}

/// Adds a gathering slot for every cell that holds a resource and is not
/// locked, once each; the slots already in `slots` stay in front.
pub fn collect_gather_tasks(tile_map: &TileMap, tile_locks: &TileLocks, slots: &mut Vec<TaskSlot>)
    requires
        tile_map.wf(),
        tile_locks.wf(),
    ensures
        final(slots)@.len() >= old(slots)@.len(),
        final(slots)@.subrange(0, old(slots)@.len() as int) == old(slots)@,
        forall|i: int|
            #![trigger final(slots)@[i]]
            old(slots)@.len() <= i < final(slots)@.len() ==> {
                let p = final(slots)@[i].position;
                &&& gatherable(tile_map, tile_locks, p.x as int, p.y as int)
                &&& final(slots)@[i] == gather_slot(
                    p,
                    tile_map.tiles@[tile_map.index_of(p.x as int, p.y as int)].resource_type,
                )
            },
        forall|i: int, j: int|
            old(slots)@.len() <= i < j < final(slots)@.len() ==> #[trigger] final(slots)@[i].position
                != #[trigger] final(slots)@[j].position,
        forall|x: int, y: int|
            #[trigger] gatherable(tile_map, tile_locks, x, y) ==> exists|i: int|
                old(slots)@.len() <= i < final(slots)@.len() && final(slots)@[i].position == (
                Position { x: x as i32, y: y as i32 }),
{
    let ghost base = old(slots)@.len();
    if tile_map.width <= 0 || tile_map.height <= 0 {
        proof {
            assert(slots@.subrange(0, base as int) =~= slots@);
        }
        return;
    }
    let mut x: i32 = 0;
    while x < tile_map.width
        invariant
            tile_map.wf(),
            tile_locks.wf(),
            0 < tile_map.height,
            0 <= x <= tile_map.width,
            slots@.len() >= base,
            slots@.subrange(0, base as int) == old(slots)@,
            forall|i: int|
                #![trigger slots@[i]]
                base <= i < slots@.len() ==> {
                    let p = slots@[i].position;
                    &&& gatherable(tile_map, tile_locks, p.x as int, p.y as int)
                    &&& slots@[i] == gather_slot(
                        p,
                        tile_map.tiles@[tile_map.index_of(p.x as int, p.y as int)].resource_type,
                    )
                    &&& p.x < x
                },
            forall|i: int, j: int|
                base <= i < j < slots@.len() ==> cell_before(
                    #[trigger] slots@[i].position,
                    #[trigger] slots@[j].position,
                ),
            forall|a: int, b: int|
                0 <= a < x && #[trigger] gatherable(tile_map, tile_locks, a, b) ==> exists|i: int|
                    base <= i < slots@.len() && slots@[i].position == (Position {
                        x: a as i32,
                        y: b as i32,
                    }),
        decreases tile_map.width - x,
    {
        let mut y: i32 = 0;
        while y < tile_map.height
            invariant
                tile_map.wf(),
                tile_locks.wf(),
                0 < tile_map.height,
                0 <= x < tile_map.width,
                0 <= y <= tile_map.height,
                slots@.len() >= base,
                slots@.subrange(0, base as int) == old(slots)@,
                forall|i: int|
                    #![trigger slots@[i]]
                    base <= i < slots@.len() ==> {
                        let p = slots@[i].position;
                        &&& gatherable(tile_map, tile_locks, p.x as int, p.y as int)
                        &&& slots@[i] == gather_slot(
                            p,
                            tile_map.tiles@[tile_map.index_of(p.x as int, p.y as int)].resource_type,
                        )
                        &&& cell_before(p, Position { x, y })
                    },
                forall|i: int, j: int|
                    base <= i < j < slots@.len() ==> cell_before(
                        #[trigger] slots@[i].position,
                        #[trigger] slots@[j].position,
                    ),
                forall|a: int, b: int|
                    (0 <= a < x || (a == x && b < y)) && #[trigger] gatherable(
                        tile_map,
                        tile_locks,
                        a,
                        b,
                    ) ==> exists|i: int|
                        base <= i < slots@.len() && slots@[i].position == (Position {
                            x: a as i32,
                            y: b as i32,
                        }),
            decreases tile_map.height - y,
        {
            let tile = tile_map.get_tile(x, y).unwrap();
            proof {
                tile_map.lemma_index(x as int, y as int);
            }
            if tile.resource_type != ResourceType::Nothing && tile.resource_amount > 0 {
                if !tile_locks.is_locked(x, y) {
                    let ghost old_slots = slots@;
                    slots.push(TaskSlot::gather(Position::new(x, y), tile.resource_type));
                    proof {
                        assert(slots@.subrange(0, base as int) =~= old_slots.subrange(0, base as int));
                        assert forall|i: int|
                            #![trigger slots@[i]]
                            base <= i < slots@.len() implies {
                                let p = slots@[i].position;
                                &&& gatherable(tile_map, tile_locks, p.x as int, p.y as int)
                                &&& slots@[i] == gather_slot(
                                    p,
                                    tile_map.tiles@[tile_map.index_of(p.x as int, p.y as int)].resource_type,
                                )
                                &&& cell_before(p, Position { x, y: (y + 1) as i32 })
                            } by {
                            if i < old_slots.len() {
                                assert(slots@[i] == old_slots[i]);
                            }
                        }
                        assert forall|i: int, j: int|
                            base <= i < j < slots@.len() implies cell_before(
                                #[trigger] slots@[i].position,
                                #[trigger] slots@[j].position,
                            ) by {
                            assert(slots@[i] == old_slots[i]);
                            if j < old_slots.len() {
                                assert(slots@[j] == old_slots[j]);
                            }
                        }
                        assert forall|a: int, b: int|
                            (0 <= a < x || (a == x && b < y + 1)) && #[trigger] gatherable(
                                tile_map,
                                tile_locks,
                                a,
                                b,
                            ) implies exists|i: int|
                                base <= i < slots@.len() && slots@[i].position == (Position {
                                    x: a as i32,
                                    y: b as i32,
                                }) by {
                            if a == x && b == y {
                                assert(slots@[old_slots.len() as int].position == Position {
                                    x: a as i32,
                                    y: b as i32,
                                });
                            } else {
                                let i = choose|i: int|
                                    base <= i < old_slots.len() && old_slots[i].position == (
                                    Position { x: a as i32, y: b as i32 });
                                assert(slots@[i] == old_slots[i]);
                            }
                        }
                    }
                }
            }
            y = y + 1;
        }
        x = x + 1;
    }
    proof {
        assert forall|i: int, j: int|
            base <= i < j < slots@.len() implies #[trigger] slots@[i].position
                != #[trigger] slots@[j].position by {
            assert(cell_before(slots@[i].position, slots@[j].position));
        }
        assert forall|x: int, y: int|
            #[trigger] gatherable(tile_map, tile_locks, x, y) implies exists|i: int|
                base <= i < slots@.len() && slots@[i].position == (Position {
                    x: x as i32,
                    y: y as i32,
                }) by {
            assert(0 <= x < tile_map.width);
        }
    }
}


/// A building as the scheduler sees it.
#[derive(Clone, Copy, Debug, PartialEq, Eq, Structural)]
pub struct BuildingSite {
    pub position: Position,
    pub building_type: BuildingType,
    pub is_complete: bool,
    /// The building offers entertainment.
    pub has_facility: bool,
}

/// Construction slots of the unfinished buildings, in order.
pub open spec fn build_slots(bs: Seq<BuildingSite>) -> Seq<TaskSlot>
    decreases bs.len(),
{
    if bs.len() == 0 {
        Seq::empty()
    } else {
        let b = bs.last();
        build_slots(bs.drop_last()) + if !b.is_complete {
            seq![build_slot(b.position, b.building_type)]
        } else {
            Seq::empty()
        }
    }
}

/// Entertainment slots of the finished buildings that offer entertainment,
/// in order.
pub open spec fn entertainment_slots(bs: Seq<BuildingSite>) -> Seq<TaskSlot>
    decreases bs.len(),
{
    if bs.len() == 0 {
        Seq::empty()
    } else {
        let b = bs.last();
        entertainment_slots(bs.drop_last()) + if b.is_complete && b.has_facility {
            seq![entertain_slot(b.position)]
        } else {
            Seq::empty()
        }
    }
}

/// Construction slots come from unfinished buildings only, one for each,
/// and entertainment slots from finished buildings offering entertainment
/// only, one for each: every slot is the slot of such a building, and every
/// such building's slot is offered.
pub proof fn lemma_building_slots(bs: Seq<BuildingSite>)
    ensures
        build_slots(bs).len() <= bs.len(),
        forall|k: int|
            0 <= k < build_slots(bs).len() ==> exists|i: int|
                0 <= i < bs.len() && !bs[i].is_complete && #[trigger] build_slots(bs)[k]
                    == build_slot(bs[i].position, bs[i].building_type),
        forall|i: int|
            0 <= i < bs.len() && !(#[trigger] bs[i]).is_complete ==> build_slots(bs).contains(
                build_slot(bs[i].position, bs[i].building_type),
            ),
        forall|k: int|
            0 <= k < entertainment_slots(bs).len() ==> exists|i: int|
                0 <= i < bs.len() && bs[i].is_complete && bs[i].has_facility
                    && #[trigger] entertainment_slots(bs)[k] == entertain_slot(bs[i].position),
        forall|i: int|
            0 <= i < bs.len() && (#[trigger] bs[i]).is_complete && bs[i].has_facility
                ==> entertainment_slots(bs).contains(entertain_slot(bs[i].position)),
    decreases bs.len(),
{
    if bs.len() > 0 {
        let rest = bs.drop_last();
        let b = bs.last();
        lemma_building_slots(rest);
        let pb = build_slots(rest);
        let cb = build_slots(bs);
        let pe = entertainment_slots(rest);
        let ce = entertainment_slots(bs);
        assert forall|k: int| 0 <= k < cb.len() implies exists|i: int|
            0 <= i < bs.len() && !bs[i].is_complete && #[trigger] cb[k] == build_slot(
                bs[i].position,
                bs[i].building_type,
            ) by {
            if k < pb.len() {
                assert(cb[k] == pb[k]);
                let i = choose|i: int|
                    0 <= i < rest.len() && !rest[i].is_complete && #[trigger] pb[k] == build_slot(
                        rest[i].position,
                        rest[i].building_type,
                    );
                assert(bs[i] == rest[i]);
            } else {
                assert(bs[bs.len() - 1] == b);
            }
        }
        assert forall|i: int| 0 <= i < bs.len() && !(#[trigger] bs[i]).is_complete implies cb.contains(
            build_slot(bs[i].position, bs[i].building_type),
        ) by {
            if i < rest.len() {
                assert(rest[i] == bs[i]);
                let k = choose|k: int|
                    0 <= k < pb.len() && pb[k] == build_slot(rest[i].position, rest[i].building_type);
                assert(cb[k] == pb[k]);
            } else {
                assert(cb[pb.len() as int] == build_slot(b.position, b.building_type));
            }
        }
        assert forall|k: int| 0 <= k < ce.len() implies exists|i: int|
            0 <= i < bs.len() && bs[i].is_complete && bs[i].has_facility && #[trigger] ce[k]
                == entertain_slot(bs[i].position) by {
            if k < pe.len() {
                assert(ce[k] == pe[k]);
                let i = choose|i: int|
                    0 <= i < rest.len() && rest[i].is_complete && rest[i].has_facility
                        && #[trigger] pe[k] == entertain_slot(rest[i].position);
                assert(bs[i] == rest[i]);
            } else {
                assert(bs[bs.len() - 1] == b);
            }
        }
        assert forall|i: int|
            0 <= i < bs.len() && (#[trigger] bs[i]).is_complete && bs[i].has_facility implies ce.contains(
            entertain_slot(bs[i].position),
        ) by {
            if i < rest.len() {
                assert(rest[i] == bs[i]);
                let k = choose|k: int| 0 <= k < pe.len() && pe[k] == entertain_slot(rest[i].position);
                assert(ce[k] == pe[k]);
            } else {
                assert(ce[pe.len() as int] == entertain_slot(b.position));
            }
        }
    }
}

/// Appends a construction slot for every unfinished building.
pub fn collect_build_tasks(buildings: &Vec<BuildingSite>, slots: &mut Vec<TaskSlot>)
    ensures
        final(slots)@ == old(slots)@ + build_slots(buildings@),
{
    let ghost base = slots@;
    let mut i: usize = 0;
    while i < buildings.len()
        invariant
            0 <= i <= buildings@.len(),
            slots@ == base + build_slots(buildings@.take(i as int)),
        decreases buildings@.len() - i,
    {
        let b = buildings[i];
        proof {
            assert(buildings@.take(i + 1).drop_last() =~= buildings@.take(i as int));
        }
        if !b.is_complete {
            slots.push(TaskSlot::build(b.position, b.building_type));
        }
        i = i + 1;
        proof {
            assert(slots@ =~= base + build_slots(buildings@.take(i as int)));
        }
    }
    proof {
        assert(buildings@.take(i as int) =~= buildings@);
    }
}

/// Appends an entertainment slot for every finished building that offers
/// entertainment.
pub fn collect_entertainment_tasks(buildings: &Vec<BuildingSite>, slots: &mut Vec<TaskSlot>)
    ensures
        final(slots)@ == old(slots)@ + entertainment_slots(buildings@),
{
    let ghost base = slots@;
    let mut i: usize = 0;
    while i < buildings.len()
        invariant
            0 <= i <= buildings@.len(),
            slots@ == base + entertainment_slots(buildings@.take(i as int)),
        decreases buildings@.len() - i,
    {
        let b = buildings[i];
        proof {
            assert(buildings@.take(i + 1).drop_last() =~= buildings@.take(i as int));
        }
        if b.is_complete {
            if b.has_facility {
                slots.push(TaskSlot::entertain(b.position));
            }
        }
        i = i + 1;
        proof {
            assert(slots@ =~= base + entertainment_slots(buildings@.take(i as int)));
        }
    }
    proof {
        assert(buildings@.take(i as int) =~= buildings@);
    }
}

/// Appends a slot for keeping company with each pawn, in order.
pub fn collect_social_tasks(pawn_positions: &Vec<Position>, slots: &mut Vec<TaskSlot>)
    ensures
        final(slots)@ == old(slots)@ + pawn_positions@.map_values(|p: Position| socialize_slot(p)),
{
    let ghost base = slots@;
    let mut i: usize = 0;
    while i < pawn_positions.len()
        invariant
            0 <= i <= pawn_positions@.len(),
            slots@ == base + pawn_positions@.take(i as int).map_values(|p: Position| socialize_slot(p)),
        decreases pawn_positions@.len() - i,
    {
        slots.push(TaskSlot::socialize(pawn_positions[i]));
        i = i + 1;
        proof {
            assert(slots@ =~= base + pawn_positions@.take(i as int).map_values(|p: Position| socialize_slot(p)));
        }
    }
    proof {
        assert(pawn_positions@.take(i as int) =~= pawn_positions@);
    }
}

/// The pairs `(entity, i)` for the slots `i < n` whose kind of work is
/// `category`, in slot order.
pub open spec fn matching_slots(entity: u64, category: TaskCategory, slots: Seq<TaskSlot>, n: int) -> Seq<(u64, usize)>
    decreases n,
{
    if n <= 0 {
        Seq::empty()
    } else {
        matching_slots(entity, category, slots, n - 1) + if slots[n - 1].category == category {
            seq![(entity, (n - 1) as usize)]
        } else {
            Seq::empty()
        }
    }
}

/// For each request in order whose pawn is known, the slots that answer it.
pub open spec fn candidate_seq(
    pending: Seq<(u64, Position, TaskCategory)>,
    known: Seq<u64>,
    slots: Seq<TaskSlot>,
) -> Seq<(u64, usize)>
    decreases pending.len(),
{
    if pending.len() == 0 {
        Seq::empty()
    } else {
        let r = pending.last();
        candidate_seq(pending.drop_last(), known, slots) + if known.contains(r.0) {
            matching_slots(r.0, r.2, slots, slots.len() as int)
        } else {
            Seq::empty()
        }
    }
}

/// The pairs for the first `n` slots are exactly the pairs of `entity` with
/// those of the first `n` slots whose kind of work is `category`.
proof fn lemma_matching_slots(entity: u64, category: TaskCategory, slots: Seq<TaskSlot>, n: int)
    requires
        0 <= n <= slots.len(),
        slots.len() <= usize::MAX,
    ensures
        forall|k: int|
            0 <= k < matching_slots(entity, category, slots, n).len() ==> {
                let (e, i) = #[trigger] matching_slots(entity, category, slots, n)[k];
                &&& e == entity
                &&& i < n
                &&& slots[i as int].category == category
            },
        forall|i: int|
            0 <= i < n && #[trigger] slots[i].category == category ==> matching_slots(
                entity,
                category,
                slots,
                n,
            ).contains((entity, i as usize)),
    decreases n,
{
    if n > 0 {
        lemma_matching_slots(entity, category, slots, n - 1);
        let prev = matching_slots(entity, category, slots, n - 1);
        let cur = matching_slots(entity, category, slots, n);
        assert forall|k: int| 0 <= k < cur.len() implies {
            let (e, i) = #[trigger] cur[k];
            &&& e == entity
            &&& i < n
            &&& slots[i as int].category == category
        } by {
            if k < prev.len() {
                assert(cur[k] == prev[k]);
            }
        }
        assert forall|i: int| 0 <= i < n && #[trigger] slots[i].category == category implies cur.contains(
            (entity, i as usize),
        ) by {
            if i < n - 1 {
                let k = choose|k: int| 0 <= k < prev.len() && prev[k] == (entity, i as usize);
                assert(cur[k] == prev[k]);
            } else {
                assert(cur[prev.len() as int] == (entity, i as usize));
            }
        }
    }
}

/// Requests are paired only with slots of exactly their kind of work, and
/// with every such slot: each pairing `(e, i)` offered comes from a request
/// of the known pawn `e` for the work `slots[i]` offers (so a request to
/// gather one resource is never paired with a slot gathering another), and
/// each request of a known pawn is paired with each slot offering its work.
pub proof fn lemma_candidates_match_requests(
    pending: Seq<(u64, Position, TaskCategory)>,
    known: Seq<u64>,
    slots: Seq<TaskSlot>,
)
    requires
        slots.len() <= usize::MAX,
    ensures
        forall|k: int|
            0 <= k < candidate_seq(pending, known, slots).len() ==> {
                let (e, i) = #[trigger] candidate_seq(pending, known, slots)[k];
                &&& i < slots.len()
                &&& known.contains(e)
                &&& exists|j: int|
                    0 <= j < pending.len() && pending[j].0 == e && #[trigger] pending[j].2
                        == slots[i as int].category
            },
        forall|j: int, i: int|
            0 <= j < pending.len() && known.contains(pending[j].0) && 0 <= i < slots.len()
                && #[trigger] slots[i].category == #[trigger] pending[j].2 ==> candidate_seq(
                pending,
                known,
                slots,
            ).contains((pending[j].0, i as usize)),
    decreases pending.len(),
{
    if pending.len() > 0 {
        let rest = pending.drop_last();
        let r = pending.last();
        lemma_candidates_match_requests(rest, known, slots);
        lemma_matching_slots(r.0, r.2, slots, slots.len() as int);
        let prev = candidate_seq(rest, known, slots);
        let tail = if known.contains(r.0) {
            matching_slots(r.0, r.2, slots, slots.len() as int)
        } else {
            Seq::empty()
        };
        let cs = candidate_seq(pending, known, slots);
        assert(cs == prev + tail);
        assert forall|k: int| 0 <= k < cs.len() implies {
            let (e, i) = #[trigger] cs[k];
            &&& i < slots.len()
            &&& known.contains(e)
            &&& exists|j: int|
                0 <= j < pending.len() && pending[j].0 == e && #[trigger] pending[j].2
                    == slots[i as int].category
        } by {
            if k < prev.len() {
                assert(cs[k] == prev[k]);
                let (e, i) = prev[k];
                let j = choose|j: int|
                    0 <= j < rest.len() && rest[j].0 == e && #[trigger] rest[j].2
                        == slots[i as int].category;
                assert(pending[j] == rest[j]);
            } else {
                assert(cs[k] == tail[k - prev.len()]);
                assert(pending[pending.len() - 1] == r);
            }
        }
        assert forall|j: int, i: int|
            0 <= j < pending.len() && known.contains(pending[j].0) && 0 <= i < slots.len()
                && #[trigger] slots[i].category == #[trigger] pending[j].2 implies cs.contains(
            (pending[j].0, i as usize),
        ) by {
            if j < rest.len() {
                assert(rest[j] == pending[j]);
                assert(slots[i].category == rest[j].2);
                let k = choose|k: int| 0 <= k < prev.len() && prev[k] == (rest[j].0, i as usize);
                assert(cs[k] == prev[k]);
            } else {
                assert(pending[j] == r);
                let k = choose|k: int| 0 <= k < tail.len() && tail[k] == (r.0, i as usize);
                assert(cs[prev.len() + k] == tail[k]);
            }
        }
    }
}

fn contains_entity(v: &Vec<u64>, e: u64) -> (b: bool)
    ensures
        b == v@.contains(e),
{
    let mut i: usize = 0;
    while i < v.len()
        invariant
            0 <= i <= v@.len(),
            forall|j: int| 0 <= j < i ==> v@[j] != e,
        decreases v@.len() - i,
    {
        if v[i] == e {
            proof {
                assert(v@[i as int] == e);
            }
            return true;
        }
        i = i + 1;
    }
    false
}

/// Every pairing of a request, from a pawn in `known_pawns`, with a slot
/// offering its kind of work: requests in order, and for each the slots in
/// order.
pub fn candidate_pairs(
    pending: &Vec<(u64, Position, TaskCategory)>,
    known_pawns: &Vec<u64>,
    slots: &Vec<TaskSlot>,
) -> (pairs: Vec<(u64, usize)>)
    ensures
        pairs@ == candidate_seq(pending@, known_pawns@, slots@),
{
    let mut pairs: Vec<(u64, usize)> = Vec::new();
    let mut i: usize = 0;
    while i < pending.len()
        invariant
            0 <= i <= pending@.len(),
            pairs@ == candidate_seq(pending@.take(i as int), known_pawns@, slots@),
        decreases pending@.len() - i,
    {
        let (entity, _pos, category) = pending[i];
        proof {
            assert(pending@.take(i + 1).drop_last() =~= pending@.take(i as int));
        }
        let ghost before = pairs@;
        if contains_entity(known_pawns, entity) {
            let mut k: usize = 0;
            while k < slots.len()
                invariant
                    0 <= k <= slots@.len(),
                    pairs@ == before + matching_slots(entity, category, slots@, k as int),
                decreases slots@.len() - k,
            {
                if category_matches(&slots[k].category, &category) {
                    pairs.push((entity, k));
                }
                k = k + 1;
                proof {
                    assert(pairs@ =~= before + matching_slots(entity, category, slots@, k as int));
                }
            }
        }
        i = i + 1;
        proof {
            assert(pairs@ =~= candidate_seq(pending@.take(i as int), known_pawns@, slots@));
        }
    }
    proof {
        assert(pending@.take(i as int) =~= pending@);
    }
    pairs
}


/// Some pick went to pawn `e`.
pub open spec fn picked_pawn(picks: Seq<(u64, usize)>, e: u64) -> bool {
    exists|k: int| 0 <= k < picks.len() && #[trigger] picks[k].0 == e
}

/// Some pick took slot `s`.
pub open spec fn picked_slot(picks: Seq<(u64, usize)>, s: usize) -> bool {
    exists|k: int| 0 <= k < picks.len() && #[trigger] picks[k].1 == s
}

/// The greedy matching's bookkeeping after looking at the first `n` ranked
/// candidates.
pub open spec fn greedy_ok(
    ranked: Seq<(u64, usize)>,
    n: int,
    slots: Seq<TaskSlot>,
    picks: Seq<(u64, usize)>,
    old_locks: Map<(i32, i32), (u64, ResourceType)>,
    locks: Map<(i32, i32), (u64, ResourceType)>,
    old_assignments: Map<u64, (Position, TaskCategory)>,
    assignments: Map<u64, (Position, TaskCategory)>,
) -> bool {
    &&& forall|j: int|
        0 <= j < picks.len() ==> exists|m: int| 0 <= m < n && ranked[m] == #[trigger] picks[j]
    &&& forall|a: int, b: int|
        0 <= a < b < picks.len() ==> #[trigger] picks[a].0 != #[trigger] picks[b].0 && picks[a].1
            != picks[b].1
    &&& forall|j: int|
        #![trigger picks[j]]
        0 <= j < picks.len() ==> {
            let (e, s) = picks[j];
            let slot = slots[s as int];
            &&& s < slots.len()
            &&& assignments.contains_key(e)
            &&& assignments[e] == (slot.position, slot.category)
            &&& (slot.category is GatherResource ==> locks.contains_key(
                (slot.position.x, slot.position.y),
            ) && locks[(slot.position.x, slot.position.y)].0 == e)
        }
    &&& forall|e: u64|
        !#[trigger] picked_pawn(picks, e) ==> assignments.contains_key(e)
            == old_assignments.contains_key(e) && (assignments.contains_key(e) ==> assignments[e]
            == old_assignments[e])
    &&& forall|c: (i32, i32)|
        #[trigger] old_locks.contains_key(c) ==> locks.contains_key(c) && locks[c] == old_locks[c]
    &&& forall|c: (i32, i32)|
        #[trigger] locks.contains_key(c) && !old_locks.contains_key(c) ==> exists|j: int|
            0 <= j < picks.len() && (slots[picks[j].1 as int].position.x, slots[picks[j].1 as int].position.y) == c
                && locks[c].0 == picks[j].0 && slots[picks[j].1 as int].category is GatherResource
    &&& forall|m: int|
        #![trigger ranked[m]]
        0 <= m < n && !picks.contains(ranked[m]) ==> {
            let (e, s) = ranked[m];
            let slot = slots[s as int];
            ||| picked_pawn(picks, e)
            ||| picked_slot(picks, s)
            ||| (slot.category is GatherResource && locks.contains_key(
                (slot.position.x, slot.position.y),
            ) && locks[(slot.position.x, slot.position.y)].0 != e)
        }
}

/// Where the greedy hand-out stands: the pairings taken, in order, the tile
/// locks and the assignments.
pub type HandOut = (
    Seq<(u64, usize)>,
    Map<(i32, i32), (u64, ResourceType)>,
    Map<u64, (Position, TaskCategory)>,
);

/// The greedy hand-out looks at the pairing of pawn `cand.0` with slot
/// `cand.1`: it is skipped when the pawn or the slot is taken already, or
/// when the slot is gathering work on a cell another pawn holds the lock
/// of; otherwise it is taken, the pawn gets the cell's lock (for gathering
/// work on a free cell) and the assignment.
pub open spec fn greedy_step(h: HandOut, cand: (u64, usize), slots: Seq<TaskSlot>) -> HandOut {
    let (picks, locks, assignments) = h;
    let (e, s) = cand;
    let slot = slots[s as int];
    let c = (slot.position.x, slot.position.y);
    if picked_pawn(picks, e) || picked_slot(picks, s) {
        h
    } else {
        match slot.category {
            TaskCategory::GatherResource(rt) => if locks.contains_key(c) && locks[c].0 != e {
                h
            } else {
                (
                    picks.push(cand),
                    if locks.contains_key(c) {
                        locks
                    } else {
                        locks.insert(c, (e, rt))
                    },
                    assignments.insert(e, (slot.position, slot.category)),
                )
            },
            _ => (picks.push(cand), locks, assignments.insert(e, (slot.position, slot.category))),
        }
    }
}

/// The greedy hand-out along `ranked`, from the locks and assignments it
/// starts with.
pub open spec fn greedy_run(
    ranked: Seq<(u64, usize)>,
    slots: Seq<TaskSlot>,
    locks: Map<(i32, i32), (u64, ResourceType)>,
    assignments: Map<u64, (Position, TaskCategory)>,
) -> HandOut
    decreases ranked.len(),
{
    if ranked.len() == 0 {
        (Seq::empty(), locks, assignments)
    } else {
        greedy_step(greedy_run(ranked.drop_last(), slots, locks, assignments), ranked.last(), slots)
    }
}

/// Hands out slots greedily along `ranked`, the candidate pairings of a pawn
/// with a slot from best to worst: a pairing is taken when neither its pawn
/// nor its slot is taken yet and, for gathering work, the pawn gets the
/// cell's lock. Taken pairings are recorded with the scheduler and returned
/// in the order they were taken.
pub fn assign_slots(
    ranked: &Vec<(u64, usize)>,
    slots: &Vec<TaskSlot>,
    tile_locks: &mut TileLocks,
    task_scheduler: &mut TaskScheduler,
) -> (picks: Vec<(u64, usize)>)
    requires
        old(tile_locks).wf(),
        forall|k: int| 0 <= k < ranked@.len() ==> (#[trigger] ranked@[k]).1 < slots@.len(),
    ensures
        final(tile_locks).wf(),
        final(task_scheduler).pending_requests@ == old(task_scheduler).pending_requests@,
        ({
            let h = greedy_run(
                ranked@,
                slots@,
                old(tile_locks)@,
                old(task_scheduler).assignments@,
            );
            &&& picks@ == h.0
            &&& final(tile_locks)@ == h.1
            &&& final(task_scheduler).assignments@ == h.2
        }),
        greedy_ok(
            ranked@,
            ranked@.len() as int,
            slots@,
            picks@,
            old(tile_locks)@,
            final(tile_locks)@,
            old(task_scheduler).assignments@,
            final(task_scheduler).assignments@,
        ),
{
    let mut picks: Vec<(u64, usize)> = Vec::new();
    let mut pawns: Vec<u64> = Vec::new();
    let mut taken: Vec<bool> = Vec::new();
    let mut t: usize = 0;
    while t < slots.len()
        invariant
            0 <= t <= slots@.len(),
            taken@.len() == t,
            forall|s: int| 0 <= s < t ==> !#[trigger] taken@[s],
        decreases slots@.len() - t,
    {
        taken.push(false);
        t = t + 1;
    }
    let n_slots = slots.len();
    let mut k: usize = 0;
    proof {
        assert(ranked@.take(0) =~= Seq::<(u64, usize)>::empty());
    }
    while k < ranked.len()
        invariant
            n_slots == slots@.len(),
            tile_locks.wf(),
            forall|q: int| 0 <= q < ranked@.len() ==> (#[trigger] ranked@[q]).1 < slots@.len(),
            0 <= k <= ranked@.len(),
            taken@.len() == slots@.len(),
            forall|s: int| 0 <= s < slots@.len() ==> #[trigger] taken@[s] == picked_slot(picks@, s as usize),
            pawns@.len() == picks@.len(),
            forall|j: int| 0 <= j < picks@.len() ==> #[trigger] pawns@[j] == picks@[j].0,
            task_scheduler.pending_requests@ == old(task_scheduler).pending_requests@,
            ({
                let h = greedy_run(
                    ranked@.take(k as int),
                    slots@,
                    old(tile_locks)@,
                    old(task_scheduler).assignments@,
                );
                &&& picks@ == h.0
                &&& tile_locks@ == h.1
                &&& task_scheduler.assignments@ == h.2
            }),
            greedy_ok(
                ranked@,
                k as int,
                slots@,
                picks@,
                old(tile_locks)@,
                tile_locks@,
                old(task_scheduler).assignments@,
                task_scheduler.assignments@,
            ),
        decreases ranked@.len() - k,
    {
        let (entity, slot_idx) = ranked[k];
        let ghost m = k as int;
        let ghost old_picks = picks@;
        let ghost locks_before = tile_locks@;
        let ghost assign_before = task_scheduler.assignments@;
        let pawn_taken = contains_entity(&pawns, entity);
        proof {
            assert(ranked@.take(m + 1).drop_last() =~= ranked@.take(m));
            assert(ranked@.take(m + 1).last() == ranked@[m]);
            if pawn_taken {
                let j = choose|j: int| 0 <= j < pawns@.len() && pawns@[j] == entity;
                assert(picks@[j].0 == entity);
            } else {
                assert forall|j: int| 0 <= j < picks@.len() implies #[trigger] picks@[j].0 != entity by {
                    assert(pawns@[j] == picks@[j].0);
                }
            }
        }
        k = k + 1;
        if pawn_taken || taken[slot_idx] {
            proof {
                assert forall|q: int|
                    #![trigger ranked@[q]]
                    0 <= q < k && !picks@.contains(ranked@[q]) implies {
                        let (e, s) = ranked@[q];
                        let slot = slots@[s as int];
                        ||| picked_pawn(picks@, e)
                        ||| picked_slot(picks@, s)
                        ||| (slot.category is GatherResource && tile_locks@.contains_key(
                            (slot.position.x, slot.position.y),
                        ) && tile_locks@[(slot.position.x, slot.position.y)].0 != e)
                    } by {
                    if q == m {
                        if pawn_taken {
                        } else {
                            assert(taken@[slot_idx as int]);
                        }
                    }
                }
                assert forall|j: int| 0 <= j < picks@.len() implies exists|q: int|
                    0 <= q < k && ranked@[q] == #[trigger] picks@[j] by {
                    let q = choose|q: int| 0 <= q < m && ranked@[q] == picks@[j];
                }
            }
            continue;
        }
        let slot = slots[slot_idx];
        let granted = match slot.category {
            TaskCategory::GatherResource(resource_type) => tile_locks.try_lock(
                slot.position.x,
                slot.position.y,
                entity,
                resource_type,
            ),
            _ => true,
        };
        if granted {
            task_scheduler.assign(entity, slot.position, slot.category);
            picks.push((entity, slot_idx));
            pawns.push(entity);
            taken.set(slot_idx, true);
            proof {
                let p2 = picks@;
                assert(p2[old_picks.len() as int] == (entity, slot_idx));
                assert forall|j: int| 0 <= j < old_picks.len() implies #[trigger] p2[j] == old_picks[j] by {
                }
                assert forall|e: u64| picked_pawn(p2, e) == (picked_pawn(old_picks, e) || e == entity) by {
                    if picked_pawn(p2, e) && e != entity {
                        let j = choose|j: int| 0 <= j < p2.len() && #[trigger] p2[j].0 == e;
                        assert(p2[j] == old_picks[j]);
                    }
                    if e == entity {
                        assert(p2[old_picks.len() as int].0 == e);
                    }
                    if picked_pawn(old_picks, e) {
                        let j = choose|j: int| 0 <= j < old_picks.len() && #[trigger] old_picks[j].0 == e;
                        assert(p2[j].0 == e);
                    }
                }
                assert forall|s: usize| picked_slot(p2, s) == (picked_slot(old_picks, s) || s == slot_idx) by {
                    if picked_slot(p2, s) && s != slot_idx {
                        let j = choose|j: int| 0 <= j < p2.len() && #[trigger] p2[j].1 == s;
                        assert(p2[j] == old_picks[j]);
                    }
                    if s == slot_idx {
                        assert(p2[old_picks.len() as int].1 == s);
                    }
                    if picked_slot(old_picks, s) {
                        let j = choose|j: int| 0 <= j < old_picks.len() && #[trigger] old_picks[j].1 == s;
                        assert(p2[j].1 == s);
                    }
                }
                assert forall|s: int| 0 <= s < slots@.len() implies #[trigger] taken@[s] == picked_slot(p2, s as usize) by {
                    if s != slot_idx as int {
                        assert(s as usize != slot_idx);
                    }
                }
                assert forall|j: int| 0 <= j < p2.len() implies #[trigger] pawns@[j] == p2[j].0 by {
                }
                assert(!picked_slot(old_picks, slot_idx));
                assert(!picked_pawn(old_picks, entity));
                assert forall|a: int, b: int|
                    0 <= a < b < p2.len() implies #[trigger] p2[a].0 != #[trigger] p2[b].0 && p2[a].1
                        != p2[b].1 by {
                    if b == old_picks.len() {
                        assert(p2[a] == old_picks[a]);
                    } else {
                        assert(p2[a] == old_picks[a]);
                        assert(p2[b] == old_picks[b]);
                    }
                }
                assert forall|j: int|
                    #![trigger p2[j]]
                    0 <= j < p2.len() implies {
                        let (e, s) = p2[j];
                        let sl = slots@[s as int];
                        &&& s < slots@.len()
                        &&& task_scheduler.assignments@.contains_key(e)
                        &&& task_scheduler.assignments@[e] == (sl.position, sl.category)
                        &&& (sl.category is GatherResource ==> tile_locks@.contains_key(
                            (sl.position.x, sl.position.y),
                        ) && tile_locks@[(sl.position.x, sl.position.y)].0 == e)
                    } by {
                    if j < old_picks.len() {
                        assert(p2[j] == old_picks[j]);
                        assert(old_picks[j].0 != entity);
                    }
                }
                assert forall|c: (i32, i32)|
                    #[trigger] tile_locks@.contains_key(c) && !old(tile_locks)@.contains_key(c) implies exists|j: int|
                        0 <= j < p2.len() && (slots@[p2[j].1 as int].position.x, slots@[p2[j].1 as int].position.y) == c
                            && tile_locks@[c].0 == p2[j].0 && slots@[p2[j].1 as int].category is GatherResource by {
                    if locks_before.contains_key(c) {
                        let j = choose|j: int|
                            0 <= j < old_picks.len() && (slots@[old_picks[j].1 as int].position.x, slots@[old_picks[j].1 as int].position.y) == c
                                && locks_before[c].0 == old_picks[j].0 && slots@[old_picks[j].1 as int].category is GatherResource;
                        assert(p2[j] == old_picks[j]);
                    } else {
                        assert(p2[old_picks.len() as int] == (entity, slot_idx));
                    }
                }
                assert forall|q: int|
                    #![trigger ranked@[q]]
                    0 <= q < k && !p2.contains(ranked@[q]) implies {
                        let (e, s) = ranked@[q];
                        let sl = slots@[s as int];
                        ||| picked_pawn(p2, e)
                        ||| picked_slot(p2, s)
                        ||| (sl.category is GatherResource && tile_locks@.contains_key(
                            (sl.position.x, sl.position.y),
                        ) && tile_locks@[(sl.position.x, sl.position.y)].0 != e)
                    } by {
                    if q == m {
                        assert(p2[old_picks.len() as int] == ranked@[q]);
                    } else if !old_picks.contains(ranked@[q]) {
                    } else {
                        let j = choose|j: int| 0 <= j < old_picks.len() && old_picks[j] == ranked@[q];
                        assert(p2[j] == ranked@[q]);
                    }
                }
                assert forall|j: int| 0 <= j < p2.len() implies exists|q: int|
                    0 <= q < k && ranked@[q] == #[trigger] p2[j] by {
                    if j < old_picks.len() {
                        assert(p2[j] == old_picks[j]);
                        let q = choose|q: int| 0 <= q < m && ranked@[q] == old_picks[j];
                    } else {
                        assert(ranked@[m] == p2[j]);
                    }
                }
            }
        } else {
            proof {
                assert forall|q: int|
                    #![trigger ranked@[q]]
                    0 <= q < k && !picks@.contains(ranked@[q]) implies {
                        let (e, s) = ranked@[q];
                        let sl = slots@[s as int];
                        ||| picked_pawn(picks@, e)
                        ||| picked_slot(picks@, s)
                        ||| (sl.category is GatherResource && tile_locks@.contains_key(
                            (sl.position.x, sl.position.y),
                        ) && tile_locks@[(sl.position.x, sl.position.y)].0 != e)
                    } by {
                }
                assert forall|j: int| 0 <= j < picks@.len() implies exists|q: int|
                    0 <= q < k && ranked@[q] == #[trigger] picks@[j] by {
                    let q = choose|q: int| 0 <= q < m && ranked@[q] == picks@[j];
                }
            }
        }
    }
    proof {
        assert(ranked@.take(ranked@.len() as int) =~= ranked@);
    }
    picks
}


/// Takes every pending request out of the scheduler, in order.
pub fn take_pending(task_scheduler: &mut TaskScheduler) -> (pending: Vec<(u64, Position, TaskCategory)>)
    ensures
        pending@ == old(task_scheduler).pending_requests@,
        final(task_scheduler).pending_requests@.len() == 0,
        final(task_scheduler).assignments@ == old(task_scheduler).assignments@,
{
    let mut pending: Vec<(u64, Position, TaskCategory)> = Vec::new();
    std::mem::swap(&mut pending, &mut task_scheduler.pending_requests);
    pending
}

/// The requests of `pending`, in order, whose pawn got no pick.
pub open spec fn unassigned_requests(
    pending: Seq<(u64, Position, TaskCategory)>,
    picks: Seq<(u64, usize)>,
) -> Seq<(u64, Position, TaskCategory)>
    decreases pending.len(),
{
    if pending.len() == 0 {
        Seq::empty()
    } else {
        unassigned_requests(pending.drop_last(), picks) + if !picked_pawn(picks, pending.last().0) {
            seq![pending.last()]
        } else {
            Seq::empty()
        }
    }
}

/// Queues again, in order, the requests whose pawn got no work.
pub fn requeue_unassigned(
    pending: &Vec<(u64, Position, TaskCategory)>,
    picks: &Vec<(u64, usize)>,
    task_scheduler: &mut TaskScheduler,
)
    ensures
        final(task_scheduler).pending_requests@ == old(task_scheduler).pending_requests@
            + unassigned_requests(pending@, picks@),
        final(task_scheduler).assignments@ == old(task_scheduler).assignments@,
{
    let mut pawns: Vec<u64> = Vec::new();
    let mut j: usize = 0;
    while j < picks.len()
        invariant
            0 <= j <= picks@.len(),
            pawns@.len() == j,
            forall|t: int| 0 <= t < j ==> #[trigger] pawns@[t] == picks@[t].0,
        decreases picks@.len() - j,
    {
        pawns.push(picks[j].0);
        j = j + 1;
    }
    let ghost base = task_scheduler.pending_requests@;
    let mut i: usize = 0;
    while i < pending.len()
        invariant
            0 <= i <= pending@.len(),
            pawns@.len() == picks@.len(),
            forall|t: int| 0 <= t < picks@.len() ==> #[trigger] pawns@[t] == picks@[t].0,
            task_scheduler.pending_requests@ == base + unassigned_requests(pending@.take(i as int), picks@),
            task_scheduler.assignments@ == old(task_scheduler).assignments@,
        decreases pending@.len() - i,
    {
        let request = pending[i];
        proof {
            assert(pending@.take(i + 1).drop_last() =~= pending@.take(i as int));
        }
        let assigned = contains_entity(&pawns, request.0);
        proof {
            if assigned {
                let t = choose|t: int| 0 <= t < pawns@.len() && pawns@[t] == request.0;
                assert(picks@[t].0 == request.0);
            } else {
                assert forall|t: int| 0 <= t < picks@.len() implies #[trigger] picks@[t].0 != request.0 by {
                    assert(pawns@[t] == picks@[t].0);
                }
            }
        }
        if !assigned {
            task_scheduler.request_task(request.0, request.1, request.2);
        }
        i = i + 1;
        proof {
            assert(task_scheduler.pending_requests@ =~= base + unassigned_requests(
                pending@.take(i as int),
                picks@,
            ));
        }
    }
    proof {
        assert(pending@.take(i as int) =~= pending@);
    }
}

/// A lock stays when its holder is still around and its cell still holds
/// the resource it was taken for.
pub open spec fn lock_kept(
    map: &TileMap,
    active: Seq<u64>,
    c: (i32, i32),
    h: (u64, ResourceType),
) -> bool {
    active.contains(h.0) && map.has_resource_at(c.0 as int, c.1 as int, h.1)
}

/// The locks of `m` that stay.
pub open spec fn kept_locks(
    m: Map<(i32, i32), (u64, ResourceType)>,
    map: &TileMap,
    active: Seq<u64>,
) -> Map<(i32, i32), (u64, ResourceType)> {
    Map::new(|c: (i32, i32)| m.contains_key(c) && lock_kept(map, active, c, m[c]), |c: (i32, i32)| m[c])
}

/// The holders of the locks of `m` that go.
pub open spec fn stale_holders(
    m: Map<(i32, i32), (u64, ResourceType)>,
    map: &TileMap,
    active: Seq<u64>,
) -> Set<u64> {
    Set::new(
        |e: u64|
            exists|c: (i32, i32)|
                #[trigger] m.contains_key(c) && m[c].0 == e && !lock_kept(map, active, c, m[c]),
    )
}

/// The assignments of `a` except those of the pawns in `gone`.
pub open spec fn without_pawns(
    a: Map<u64, (Position, TaskCategory)>,
    gone: Set<u64>,
) -> Map<u64, (Position, TaskCategory)> {
    Map::new(|e: u64| a.contains_key(e) && !gone.contains(e), |e: u64| a[e])
}

/// Drops every lock whose holder is no longer among `active` pawns or whose
/// cell no longer holds the resource it was taken for, and forgets the
/// assignments of the holders of dropped locks.
pub fn cleanup_stale_locks(
    tile_locks: &mut TileLocks,
    task_scheduler: &mut TaskScheduler,
    tile_map: &TileMap,
    active: &Vec<u64>,
)
    requires
        old(tile_locks).wf(),
        tile_map.wf(),
    ensures
        final(tile_locks).wf(),
        final(tile_locks)@ == kept_locks(old(tile_locks)@, tile_map, active@),
        final(task_scheduler).assignments@ == without_pawns(
            old(task_scheduler).assignments@,
            stale_holders(old(tile_locks)@, tile_map, active@),
        ),
        final(task_scheduler).pending_requests@ == old(task_scheduler).pending_requests@,
{
    let ghost s = tile_locks.locks@;
    let ghost a0 = task_scheduler.assignments@;
    let mut kept: Vec<LockEntry> = Vec::new();
    let mut i: usize = 0;
    proof {
        lemma_lock_map(s);
        assert(s.take(0) =~= Seq::<LockEntry>::empty());
        assert(kept_locks(lock_map(s.take(0)), tile_map, active@) =~= lock_map(kept@));
        assert(without_pawns(a0, stale_holders(lock_map(s.take(0)), tile_map, active@)) =~= a0);
    }
    while i < tile_locks.locks.len()
        invariant
            s == tile_locks.locks@,
            unique_cells(s),
            tile_map.wf(),
            0 <= i <= s.len(),
            unique_cells(kept@),
            lock_map(kept@) == kept_locks(lock_map(s.take(i as int)), tile_map, active@),
            task_scheduler.assignments@ == without_pawns(
                a0,
                stale_holders(lock_map(s.take(i as int)), tile_map, active@),
            ),
            task_scheduler.pending_requests@ == old(task_scheduler).pending_requests@,
        decreases s.len() - i,
    {
        let e = tile_locks.locks[i];
        let ghost prefix = s.take(i as int);
        let ghost next = s.take(i + 1);
        proof {
            assert(next.drop_last() =~= prefix);
            assert(next.last() == e);
            assert(unique_cells(prefix));
            lemma_lock_map(prefix);
            lemma_lock_map(kept@);
            if lock_map(prefix).contains_key(entry_cell(e)) {
                let m = choose|m: int| 0 <= m < prefix.len() && entry_cell(prefix[m]) == entry_cell(e);
                assert(s[m] == prefix[m]);
            }
            assert(!lock_map(prefix).contains_key(entry_cell(e)));
            assert(lock_map(next) == lock_map(prefix).insert(entry_cell(e), entry_holder(e)));
        }
        let holder_active = contains_entity(active, e.entity);
        let tile_ok = match tile_map.get_tile(e.x, e.y) {
            Some(t) => t.resource_type == e.resource_type && t.resource_amount > 0,
            None => false,
        };
        let keep = holder_active && tile_ok;
        proof {
            assert(keep == lock_kept(tile_map, active@, entry_cell(e), entry_holder(e)));
        }
        if keep {
            proof {
                assert(kept@.push(e).drop_last() =~= kept@);
            }
            kept.push(e);
            proof {
                assert forall|a: int, b: int|
                    0 <= a < kept@.len() && 0 <= b < kept@.len() && a != b implies entry_cell(
                    #[trigger] kept@[a],
                ) != entry_cell(#[trigger] kept@[b]) by {
                    if a < kept@.len() - 1 && b < kept@.len() - 1 {
                    } else if a < kept@.len() - 1 {
                        assert(lock_map(kept@.drop_last()).contains_key(entry_cell(kept@[a])));
                    } else {
                        assert(lock_map(kept@.drop_last()).contains_key(entry_cell(kept@[b])));
                    }
                }
            }
        } else {
            task_scheduler.complete_task(e.entity);
        }
        proof {
            assert(lock_map(kept@) =~= kept_locks(lock_map(next), tile_map, active@));
            let st_prev = stale_holders(lock_map(prefix), tile_map, active@);
            let st_next = stale_holders(lock_map(next), tile_map, active@);
            assert forall|x: u64| st_next.contains(x) == (st_prev.contains(x) || (!keep && x == e.entity)) by {
                if st_next.contains(x) {
                    let c = choose|c: (i32, i32)|
                        #[trigger] lock_map(next).contains_key(c) && lock_map(next)[c].0 == x
                            && !lock_kept(tile_map, active@, c, lock_map(next)[c]);
                    if c != entry_cell(e) {
                        assert(lock_map(prefix).contains_key(c));
                    }
                }
                if st_prev.contains(x) {
                    let c = choose|c: (i32, i32)|
                        #[trigger] lock_map(prefix).contains_key(c) && lock_map(prefix)[c].0 == x
                            && !lock_kept(tile_map, active@, c, lock_map(prefix)[c]);
                    assert(c != entry_cell(e));
                    assert(lock_map(next).contains_key(c));
                }
                if !keep && x == e.entity {
                    assert(lock_map(next).contains_key(entry_cell(e)));
                }
            }
            assert(task_scheduler.assignments@ =~= without_pawns(a0, st_next));
        }
        i = i + 1;
    }
    proof {
        assert(s.take(s.len() as int) =~= s);
    }
    tile_locks.locks = kept;
}

} // verus!
