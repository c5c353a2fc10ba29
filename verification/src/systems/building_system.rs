//! Construction: which building a pawn works on, and what it does there.

use vstd::prelude::*;

use crate::components::{Position, Task};

verus! {

/// A building as pawns see it: who it is, where, and whether it is finished.
#[derive(Clone, Copy, Debug, PartialEq, Eq, Structural)]
pub struct PlacedBuilding {
    pub entity: u64,
    pub position: Position,
    pub is_complete: bool,
}

/// The first building of `bs` standing at `pos`.
pub open spec fn first_building_at(bs: Seq<PlacedBuilding>, pos: Position) -> Option<PlacedBuilding>
    decreases bs.len(),
{
    if bs.len() == 0 {
        None
    } else if bs[0].position == pos {
        Some(bs[0])
    } else {
        first_building_at(bs.drop_first(), pos)
    }
}

/// The building found at `pos` is one of the list standing there, and no
/// building earlier in the list stands there; none is found exactly when no
/// building of the list stands at `pos`.
pub proof fn lemma_first_building_at(bs: Seq<PlacedBuilding>, pos: Position)
    ensures
        first_building_at(bs, pos) matches Some(b) ==> exists|i: int|
            0 <= i < bs.len() && bs[i] == b && b.position == pos && forall|j: int|
                0 <= j < i ==> (#[trigger] bs[j]).position != pos,
        first_building_at(bs, pos) is None <==> forall|j: int|
            0 <= j < bs.len() ==> (#[trigger] bs[j]).position != pos,
    decreases bs.len(),
{
    if bs.len() > 0 {
        let rest = bs.drop_first();
        lemma_first_building_at(rest, pos);
        if bs[0].position != pos {
            if let Some(b) = first_building_at(rest, pos) {
                let i = choose|i: int|
                    0 <= i < rest.len() && rest[i] == b && b.position == pos && forall|j: int|
                        0 <= j < i ==> (#[trigger] rest[j]).position != pos;
                assert(bs[i + 1] == b);
                assert forall|j: int| 0 <= j < i + 1 implies (#[trigger] bs[j]).position != pos by {
                    if j > 0 {
                        assert(bs[j] == rest[j - 1]);
                    }
                }
            }
            assert((forall|j: int| 0 <= j < rest.len() ==> (#[trigger] rest[j]).position != pos)
                == (forall|j: int| 0 <= j < bs.len() ==> (#[trigger] bs[j]).position != pos)) by {
                if forall|j: int| 0 <= j < rest.len() ==> (#[trigger] rest[j]).position != pos {
                    assert forall|j: int| 0 <= j < bs.len() implies (#[trigger] bs[j]).position != pos by {
                        if j > 0 {
                            assert(bs[j] == rest[j - 1]);
                        }
                    }
                }
                if forall|j: int| 0 <= j < bs.len() ==> (#[trigger] bs[j]).position != pos {
                    assert forall|j: int| 0 <= j < rest.len() implies (#[trigger] rest[j]).position != pos by {
                        assert(rest[j] == bs[j + 1]);
                    }
                }
            }
        } else {
            assert(bs[0].position == pos);
        }
    }
}

/// The first building, in the order given, standing at `pos`.
pub fn find_building_at(buildings: &Vec<PlacedBuilding>, pos: &Position) -> (r: Option<PlacedBuilding>)
    ensures
        r == first_building_at(buildings@, *pos),
{
    let mut i: usize = 0;
    proof {
        assert(buildings@.skip(0) =~= buildings@);
    }
    while i < buildings.len()
        invariant
            0 <= i <= buildings@.len(),
            first_building_at(buildings@, *pos) == first_building_at(buildings@.skip(i as int), *pos),
        decreases buildings@.len() - i,
    {
        let b = buildings[i];
        proof {
            assert(buildings@.skip(i as int)[0] == b);
            assert(buildings@.skip(i as int).drop_first() =~= buildings@.skip(i + 1));
        }
        if b.position == *pos {
            return Some(b);
        }
        i = i + 1;
    }
    proof {
        assert(buildings@.skip(i as int).len() == 0);
    }
    None
}

/// What a pawn does about construction this tick.
#[derive(Clone, Copy, Debug, PartialEq, Eq, Structural)]
pub enum BuildStep {
    /// The pawn has no construction task.
    NotBuilding,
    /// The pawn is more than one cell away from its site.
    NotThere,
    /// No building stands at the site: the pawn gives its work up.
    NoBuilding,
    /// The building there is finished: the pawn gives its work up.
    AlreadyComplete,
    /// The pawn works on this unfinished building.
    Work(PlacedBuilding),
}

/// Decides what a pawn with `task` at `pawn_pos` does about construction: a
/// pawn building at a site within Manhattan distance 1 works on the first
/// building standing there, or gives up when there is none or it is
/// finished.
pub fn building_step(task: &Task, pawn_pos: &Position, buildings: &Vec<PlacedBuilding>) -> (s: BuildStep)
    requires
        *task matches Task::Build(t) ==> pawn_pos.manhattan(t) <= i32::MAX,
    ensures
        match *task {
            Task::Build(t) => if pawn_pos.manhattan(t) > 1 {
                s == BuildStep::NotThere
            } else {
                match first_building_at(buildings@, t) {
                    None => s == BuildStep::NoBuilding,
                    Some(b) => if b.is_complete {
                        s == BuildStep::AlreadyComplete
                    } else {
                        s == BuildStep::Work(b)
                    },
                }
            },
            _ => s == BuildStep::NotBuilding,
        },
{
    let target = match task {
        Task::Build(pos) => *pos,
        _ => {
            return BuildStep::NotBuilding;
        },
    };
    if pawn_pos.manhattan_to(&target) > 1 {
        return BuildStep::NotThere;
    }
    match find_building_at(buildings, &target) {
        None => BuildStep::NoBuilding,
        Some(b) => if b.is_complete {
            BuildStep::AlreadyComplete
        } else {
            BuildStep::Work(b)
        },
    }
}

} // verus!
