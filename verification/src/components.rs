//! Plain data carried by pawns and tiles.

use vstd::prelude::*;

verus! {

/// Absolute value over the integers.
pub open spec fn abs_int(v: int) -> int {
    if v < 0 {
        -v
    } else {
        v
    }
}

/// Smaller of two integers.
pub open spec fn min_int(a: int, b: int) -> int {
    if a <= b {
        a
    } else {
        b
    }
}

/// A grid coordinate.
#[derive(Clone, Copy, Debug, PartialEq, Eq, Hash, Structural)]
pub struct Position {
    pub x: i32,
    pub y: i32,
}

impl Position {
    /// Manhattan distance between two positions, over the integers.
    pub open spec fn manhattan(self, other: Position) -> int {
        abs_int(self.x - other.x) + abs_int(self.y - other.y)
    }

    pub fn new(x: i32, y: i32) -> (p: Position)
        ensures
            p.x == x,
            p.y == y,
    {
        Position { x, y }
    }

    /// Manhattan distance to `other`; the sum must fit in an `i32`, as the
    /// `i32` arithmetic that computes it would overflow otherwise.
    pub fn manhattan_to(&self, other: &Position) -> (d: i32)
        requires
            self.manhattan(*other) <= i32::MAX,
        ensures
            d == self.manhattan(*other),
    {
        let dx: i32 = self.x - other.x;
        let dy: i32 = self.y - other.y;
        let adx: i32 = if dx < 0 { -dx } else { dx };
        let ady: i32 = if dy < 0 { -dy } else { dy };
        adx + ady
    }
}

/// Kind of resource a tile holds.
#[derive(Clone, Copy, Debug, PartialEq, Eq, Hash, Structural)]
pub enum ResourceType {
    Iron,
    Wood,
    Food,
    Nothing,
}

/// One cell of the map.
#[derive(Clone, Copy, Debug, PartialEq, Eq, Structural)]
pub struct Tile {
    pub resource_type: ResourceType,
    pub passable: bool,
    pub resource_amount: u32,
}

impl Tile {
    pub fn new(resource_type: ResourceType, passable: bool, resource_amount: u32) -> (t: Tile)
        ensures
            t.resource_type == resource_type,
            t.passable == passable,
            t.resource_amount == resource_amount,
    {
        Tile { resource_type, passable, resource_amount }
    }

    /// A passable tile with nothing on it.
    pub open spec fn empty_spec() -> Tile {
        Tile { resource_type: ResourceType::Nothing, passable: true, resource_amount: 0 }
    }

    /// A passable tile with nothing on it.
    pub fn empty() -> (t: Tile)
        ensures
            t == Tile::empty_spec(),
    {
        Self::new(ResourceType::Nothing, true, 0)
    }

    /// A passable tile holding `amount` of `resource_type`.
    pub fn resource(resource_type: ResourceType, amount: u32) -> (t: Tile)
        ensures
            t == (Tile { resource_type, passable: true, resource_amount: amount }),
    {
        Self::new(resource_type, true, amount)
    }

    /// An impassable tile with nothing on it.
    pub open spec fn wall_spec() -> Tile {
        Tile { resource_type: ResourceType::Nothing, passable: false, resource_amount: 0 }
    }

    /// An impassable tile.
    pub fn wall() -> (t: Tile)
        ensures
            t == Tile::wall_spec(),
    {
        Self::new(ResourceType::Nothing, false, 0)
    }
}

/// What a pawn is currently doing.
#[derive(Clone, Copy, Debug, PartialEq, Eq, Structural)]
pub enum Task {
    Idle,
    FindFood,
    FindResource(ResourceType),
    MoveTo(Position),
    Gather(Position, ResourceType),
    ReturnToBase,
    Build(Position),
    Entertain(Position),
    Socialize(Position),
}

/// Kind of work a pawn asks the scheduler for.
#[derive(Clone, Copy, Debug, PartialEq, Eq, Structural)]
pub enum TaskCategory {
    GatherResource(ResourceType),
    BuildStructure,
    Entertainment,
    Socialize,
}

/// Skill that a piece of work trains and is scored by.
#[derive(Clone, Copy, Debug, PartialEq, Eq, Hash, Structural)]
pub enum SkillType {
    Mining,
    Farming,
    Building,
}

/// Kind of building that pawns can construct.
#[derive(Clone, Copy, Debug, PartialEq, Eq, Hash, Structural)]
pub enum BuildingType {
    House,
    Farm,
    Mine,
    EntertainmentPark,
}

/// Waypoints a pawn follows, with the index of the next one.
#[derive(Clone, Debug)]
pub struct Path {
    pub waypoints: Vec<Position>,
    pub current_index: usize,
}

impl Path {
    pub fn new(waypoints: Vec<Position>) -> (p: Path)
        ensures
            p.waypoints@ == waypoints@,
            p.current_index == 0,
    {
        Path { waypoints, current_index: 0 }
    }

    pub fn is_empty(&self) -> (b: bool)
        ensures
            b == (self.waypoints@.len() == 0),
    {
        self.waypoints.len() == 0
    }

    /// The waypoint at the current index, if there is one.
    pub fn current_target(&self) -> (t: Option<&Position>)
        ensures
            self.current_index < self.waypoints@.len() ==> t == Some(
                &self.waypoints@[self.current_index as int],
            ),
            self.current_index >= self.waypoints@.len() ==> t.is_none(),
    {
        if self.current_index < self.waypoints.len() {
            Some(&self.waypoints[self.current_index])
        } else {
            None
        }
    }

    /// Moves to the next waypoint; does nothing once the path is complete.
    pub fn advance(&mut self)
        ensures
            final(self).waypoints@ == old(self).waypoints@,
            final(self).current_index == if old(self).current_index < old(self).waypoints@.len() {
                old(self).current_index + 1
            } else {
                old(self).current_index as int
            },
    {
        if self.current_index < self.waypoints.len() {
            self.current_index = self.current_index + 1;
        }
    }

    pub fn is_complete(&self) -> (b: bool)
        ensures
            b == (self.current_index >= self.waypoints@.len()),
    {
        self.current_index >= self.waypoints.len()
    }

    pub fn clear(&mut self)
        ensures
            final(self).waypoints@.len() == 0,
            final(self).current_index == 0,
    {
        self.waypoints.clear();
        self.current_index = 0;
    }
}

/// Resources a pawn carries.
#[derive(Clone, Copy, Debug, PartialEq, Eq, Structural)]
pub struct Inventory {
    pub iron: u32,
    pub wood: u32,
    pub food: u32,
}

impl Inventory {
    /// How much of `resource_type` the inventory holds (always 0 for `Nothing`).
    pub open spec fn amount_of(self, resource_type: ResourceType) -> int {
        match resource_type {
            ResourceType::Iron => self.iron as int,
            ResourceType::Wood => self.wood as int,
            ResourceType::Food => self.food as int,
            ResourceType::Nothing => 0,
        }
    }

    /// The inventory with the count of `resource_type` replaced by `n`
    /// (unchanged for `Nothing`).
    pub open spec fn with_amount(self, resource_type: ResourceType, n: u32) -> Inventory {
        match resource_type {
            ResourceType::Iron => Inventory { iron: n, ..self },
            ResourceType::Wood => Inventory { wood: n, ..self },
            ResourceType::Food => Inventory { food: n, ..self },
            ResourceType::Nothing => self,
        }
    }

    /// An empty inventory.
    pub fn empty() -> (inv: Inventory)
        ensures
            inv == (Inventory { iron: 0, wood: 0, food: 0 }),
    {
        Inventory { iron: 0, wood: 0, food: 0 }
    }

    /// Adds `amount` of `resource_type`; `Nothing` is ignored. The new count
    /// must fit in a `u32`, as the addition would overflow otherwise.
    pub fn add(&mut self, resource_type: ResourceType, amount: u32)
        requires
            old(self).amount_of(resource_type) + amount <= u32::MAX,
        ensures
            resource_type != ResourceType::Nothing ==> *final(self) == old(self).with_amount(
                resource_type,
                (old(self).amount_of(resource_type) + amount) as u32,
            ),
            resource_type == ResourceType::Nothing ==> *final(self) == *old(self),
    {
        match resource_type {
            ResourceType::Iron => self.iron = self.iron + amount,
            ResourceType::Wood => self.wood = self.wood + amount,
            ResourceType::Food => self.food = self.food + amount,
            ResourceType::Nothing => {},
        }
    }

    /// Takes up to `amount` of `resource_type` and returns how much was taken.
    pub fn take(&mut self, resource_type: ResourceType, amount: u32) -> (taken: u32)
        ensures
            taken == min_int(old(self).amount_of(resource_type), amount as int),
            resource_type != ResourceType::Nothing ==> *final(self) == old(self).with_amount(
                resource_type,
                (old(self).amount_of(resource_type) - taken) as u32,
            ),
            resource_type == ResourceType::Nothing ==> *final(self) == *old(self),
    {
        let taken: u32 = match resource_type {
            ResourceType::Iron => if self.iron <= amount { self.iron } else { amount },
            ResourceType::Wood => if self.wood <= amount { self.wood } else { amount },
            ResourceType::Food => if self.food <= amount { self.food } else { amount },
            ResourceType::Nothing => 0,
        };
        match resource_type {
            ResourceType::Iron => self.iron = self.iron - taken,
            ResourceType::Wood => self.wood = self.wood - taken,
            ResourceType::Food => self.food = self.food - taken,
            ResourceType::Nothing => {},
        }
        taken
    }

    pub fn count(&self, resource_type: ResourceType) -> (c: u32)
        ensures
            c == self.amount_of(resource_type),
    {
        match resource_type {
            ResourceType::Iron => self.iron,
            ResourceType::Wood => self.wood,
            ResourceType::Food => self.food,
            ResourceType::Nothing => 0,
        }
    }
}

/// Adding `amount` and then taking `amount` of the same resource gives back
/// exactly `amount` and restores the inventory.
pub proof fn lemma_take_undoes_add(inv: Inventory, resource_type: ResourceType, amount: u32)
    requires
        resource_type != ResourceType::Nothing,
        inv.amount_of(resource_type) + amount <= u32::MAX,
    ensures
        ({
            let added = inv.with_amount(
                resource_type,
                (inv.amount_of(resource_type) + amount) as u32,
            );
            &&& min_int(added.amount_of(resource_type), amount as int) == amount
            &&& added.with_amount(
                resource_type,
                (added.amount_of(resource_type) - amount) as u32,
            ) == inv
        }),
{
}

/// Marker for a map tile that is exclusively held by one pawn.
#[derive(Clone, Copy, Debug, PartialEq, Eq, Structural)]
pub struct TileLock {
    pub locked_by: Option<u64>,
    pub resource_type: ResourceType,
}

impl TileLock {
    pub fn new(locked_by: u64, resource_type: ResourceType) -> (l: TileLock)
        ensures
            l.locked_by == Some(locked_by),
            l.resource_type == resource_type,
    {
        TileLock { locked_by: Some(locked_by), resource_type }
    }

    pub fn is_locked(&self) -> (b: bool)
        ensures
            b == self.locked_by.is_some(),
    {
        self.locked_by.is_some()
    }

    pub fn is_locked_by(&self, entity: u64) -> (b: bool)
        ensures
            b == (self.locked_by == Some(entity)),
    {
        match self.locked_by {
            Some(e) => e == entity,
            None => false,
        }
    }
}

/// A pawn's pending request for work.
#[derive(Clone, Copy, Debug, PartialEq, Eq, Structural)]
pub struct RequestTask {
    pub resource_type: ResourceType,
    pub category: TaskCategory,
}

impl RequestTask {
    /// A request to gather `resource_type`.
    pub fn new(resource_type: ResourceType) -> (r: RequestTask)
        ensures
            r.resource_type == resource_type,
            r.category == TaskCategory::GatherResource(resource_type),
    {
        RequestTask { resource_type, category: TaskCategory::GatherResource(resource_type) }
    }

    pub fn gather(resource_type: ResourceType) -> (r: RequestTask)
        ensures
            r == RequestTask::new_spec(resource_type),
    {
        Self::new(resource_type)
    }

    pub open spec fn new_spec(resource_type: ResourceType) -> RequestTask {
        RequestTask { resource_type, category: TaskCategory::GatherResource(resource_type) }
    }

    pub fn entertain() -> (r: RequestTask)
        ensures
            r == (RequestTask {
                resource_type: ResourceType::Nothing,
                category: TaskCategory::Entertainment,
            }),
    {
        RequestTask { resource_type: ResourceType::Nothing, category: TaskCategory::Entertainment }
    }

    pub fn socialize() -> (r: RequestTask)
        ensures
            r == (RequestTask {
                resource_type: ResourceType::Nothing,
                category: TaskCategory::Socialize,
            }),
    {
        RequestTask { resource_type: ResourceType::Nothing, category: TaskCategory::Socialize }
    }
}

/// The target a pawn was assigned by the scheduler.
#[derive(Clone, Copy, Debug, PartialEq, Eq, Structural)]
pub struct AssignedTask {
    pub target_position: Position,
    pub resource_type: ResourceType,
}

impl AssignedTask {
    pub fn new(target_position: Position, resource_type: ResourceType) -> (a: AssignedTask)
        ensures
            a.target_position == target_position,
            a.resource_type == resource_type,
    {
        AssignedTask { target_position, resource_type }
    }
}

} // verus!
