//! Entertainment and company: where pawns find them, and what they do there.

use vstd::prelude::*;

use crate::components::{Position, Task, abs_int};

verus! {

/// A facility as pawns see it: who it is, where, and whether it is built.
#[derive(Clone, Copy, Debug, PartialEq, Eq, Structural)]
pub struct FacilitySite {
    pub entity: u64,
    pub position: Position,
    pub is_complete: bool,
}

/// The first finished facility of `fs` standing at `pos`.
pub open spec fn first_facility_at(fs: Seq<FacilitySite>, pos: Position) -> Option<FacilitySite>
    decreases fs.len(),
{
    if fs.len() == 0 {
        None
    } else if fs[0].position == pos && fs[0].is_complete {
        Some(fs[0])
    } else {
        first_facility_at(fs.drop_first(), pos)
    }
}

/// The facility found at `pos` is a finished one of the list standing
/// there, and no finished facility earlier in the list stands there; none
/// is found exactly when no finished facility of the list stands at `pos`.
pub proof fn lemma_first_facility_at(fs: Seq<FacilitySite>, pos: Position)
    ensures
        first_facility_at(fs, pos) matches Some(f) ==> exists|i: int|
            0 <= i < fs.len() && fs[i] == f && f.position == pos && f.is_complete && forall|j: int|
                0 <= j < i ==> !((#[trigger] fs[j]).position == pos && fs[j].is_complete),
        first_facility_at(fs, pos) is None <==> forall|j: int|
            0 <= j < fs.len() ==> !((#[trigger] fs[j]).position == pos && fs[j].is_complete),
    decreases fs.len(),
{
    if fs.len() > 0 {
        let rest = fs.drop_first();
        lemma_first_facility_at(rest, pos);
        if !(fs[0].position == pos && fs[0].is_complete) {
            if let Some(f) = first_facility_at(rest, pos) {
                let i = choose|i: int|
                    0 <= i < rest.len() && rest[i] == f && f.position == pos && f.is_complete
                        && forall|j: int|
                        0 <= j < i ==> !((#[trigger] rest[j]).position == pos && rest[j].is_complete);
                assert(fs[i + 1] == f);
                assert forall|j: int| 0 <= j < i + 1 implies !((#[trigger] fs[j]).position == pos
                    && fs[j].is_complete) by {
                    if j > 0 {
                        assert(fs[j] == rest[j - 1]);
                    }
                }
            }
            if forall|j: int| 0 <= j < rest.len() ==> !((#[trigger] rest[j]).position == pos
                && rest[j].is_complete) {
                assert forall|j: int| 0 <= j < fs.len() implies !((#[trigger] fs[j]).position == pos
                    && fs[j].is_complete) by {
                    if j > 0 {
                        assert(fs[j] == rest[j - 1]);
                    }
                }
            }
            if forall|j: int| 0 <= j < fs.len() ==> !((#[trigger] fs[j]).position == pos
                && fs[j].is_complete) {
                assert forall|j: int| 0 <= j < rest.len() implies !((#[trigger] rest[j]).position
                    == pos && rest[j].is_complete) by {
                    assert(rest[j] == fs[j + 1]);
                }
            }
        } else {
            assert(fs[0].position == pos && fs[0].is_complete);
        }
    }
}

/// The first finished facility, in the order given, standing at `pos`.
pub fn find_facility_at(facilities: &Vec<FacilitySite>, pos: &Position) -> (r: Option<u64>)
    ensures
        r == match first_facility_at(facilities@, *pos) {
            Some(f) => Some(f.entity),
            None => None,
        },
{
    let mut i: usize = 0;
    proof {
        assert(facilities@.skip(0) =~= facilities@);
    }
    while i < facilities.len()
        invariant
            0 <= i <= facilities@.len(),
            first_facility_at(facilities@, *pos) == first_facility_at(facilities@.skip(i as int), *pos),
        decreases facilities@.len() - i,
    {
        let f = facilities[i];
        proof {
            assert(facilities@.skip(i as int)[0] == f);
            assert(facilities@.skip(i as int).drop_first() =~= facilities@.skip(i + 1));
        }
        if f.position == *pos && f.is_complete {
            return Some(f.entity);
        }
        i = i + 1;
    }
    proof {
        assert(facilities@.skip(i as int).len() == 0);
    }
    None
}

/// Some pawn of `pawns` other than `me` stands within Manhattan distance 2
/// of `pos`.
pub open spec fn partner_near(pawns: Seq<(u64, Position)>, me: u64, pos: Position) -> bool {
    exists|j: int|
        0 <= j < pawns.len() && (#[trigger] pawns[j]).0 != me && pawns[j].1.manhattan(pos) <= 2
}

/// Company is any pawn other than `me` within Manhattan distance 2 of
/// `pos`, the very cell included: each such pawn counts as company, my own
/// entry never does, and there is company only when some such pawn exists.
pub proof fn lemma_partner_near(pawns: Seq<(u64, Position)>, me: u64, pos: Position)
    ensures
        forall|j: int|
            0 <= j < pawns.len() && (#[trigger] pawns[j]).0 != me && abs_int(pawns[j].1.x - pos.x)
                + abs_int(pawns[j].1.y - pos.y) <= 2 ==> partner_near(pawns, me, pos),
        forall|j: int|
            0 <= j < pawns.len() && (#[trigger] pawns[j]).0 != me && pawns[j].1 == pos
                ==> partner_near(pawns, me, pos),
        partner_near(pawns, me, pos) ==> exists|j: int|
            0 <= j < pawns.len() && (#[trigger] pawns[j]).0 != me && abs_int(pawns[j].1.x - pos.x)
                + abs_int(pawns[j].1.y - pos.y) <= 2,
        partner_near(pawns, me, pos) == partner_near(pawns.filter(|p: (u64, Position)| p.0 != me), me, pos),
{
    let others = pawns.filter(|p: (u64, Position)| p.0 != me);
    assert forall|j: int|
        0 <= j < pawns.len() && (#[trigger] pawns[j]).0 != me && pawns[j].1 == pos
            implies partner_near(pawns, me, pos) by {
        assert(pawns[j].1.manhattan(pos) == 0);
    }
    if partner_near(pawns, me, pos) {
        let j = choose|j: int|
            0 <= j < pawns.len() && (#[trigger] pawns[j]).0 != me && pawns[j].1.manhattan(pos) <= 2;
        pawns.lemma_filter_contains_rev(|p: (u64, Position)| p.0 != me, pawns[j]);
        assert(others.contains(pawns[j]));
        let k = choose|k: int| 0 <= k < others.len() && others[k] == pawns[j];
        assert(others[k].0 != me && others[k].1.manhattan(pos) <= 2);
    }
    if partner_near(others, me, pos) {
        let k = choose|k: int|
            0 <= k < others.len() && (#[trigger] others[k]).0 != me && others[k].1.manhattan(pos) <= 2;
        pawns.lemma_filter_pred(|p: (u64, Position)| p.0 != me, k);
        assert(others.contains(others[k]));
        pawns.lemma_filter_contains_rev(|p: (u64, Position)| p.0 != me, others[k]);
        let j = choose|j: int| 0 <= j < pawns.len() && pawns[j] == others[k];
        assert(pawns[j].0 != me && pawns[j].1.manhattan(pos) <= 2);
    }
}

/// Whether some other pawn stands within Manhattan distance 2 of `pos`.
pub fn has_partner(pawns: &Vec<(u64, Position)>, me: u64, pos: &Position) -> (b: bool)
    requires
        forall|j: int| 0 <= j < pawns@.len() ==> (#[trigger] pawns@[j]).1.manhattan(*pos) <= i32::MAX,
    ensures
        b == partner_near(pawns@, me, *pos),
{
    let mut i: usize = 0;
    while i < pawns.len()
        invariant
            0 <= i <= pawns@.len(),
            forall|j: int| 0 <= j < pawns@.len() ==> (#[trigger] pawns@[j]).1.manhattan(*pos) <= i32::MAX,
            forall|j: int| 0 <= j < i ==> !((#[trigger] pawns@[j]).0 != me && pawns@[j].1.manhattan(*pos) <= 2),
        decreases pawns@.len() - i,
    {
        let (other, other_pos) = pawns[i];
        if other != me && other_pos.manhattan_to(pos) <= 2 {
            proof {
                assert(pawns@[i as int].0 != me && pawns@[i as int].1.manhattan(*pos) <= 2);
            }
            return true;
        }
        i = i + 1;
    }
    false
}

/// What a pawn does about entertainment this tick.
#[derive(Clone, Copy, Debug, PartialEq, Eq, Structural)]
pub enum VisitStep {
    /// The pawn is not out for entertainment.
    NotVisiting,
    /// The pawn is more than two cells away from the facility.
    NotThere,
    /// No finished facility stands there: the pawn gives its outing up.
    NoFacility,
    /// The pawn enjoys this facility.
    Enjoy(u64),
}

/// Decides what a pawn with `task` at `pawn_pos` does about entertainment:
/// a pawn within Manhattan distance 2 of its facility enjoys the first
/// finished facility there, or gives up when there is none.
pub fn entertainment_step(task: &Task, pawn_pos: &Position, facilities: &Vec<FacilitySite>) -> (s:
    VisitStep)
    requires
        *task matches Task::Entertain(t) ==> pawn_pos.manhattan(t) <= i32::MAX,
    ensures
        match *task {
            Task::Entertain(t) => if pawn_pos.manhattan(t) > 2 {
                s == VisitStep::NotThere
            } else {
                match first_facility_at(facilities@, t) {
                    None => s == VisitStep::NoFacility,
                    Some(f) => s == VisitStep::Enjoy(f.entity),
                }
            },
            _ => s == VisitStep::NotVisiting,
        },
{
    let target = match task {
        Task::Entertain(pos) => *pos,
        _ => {
            return VisitStep::NotVisiting;
        },
    };
    if pawn_pos.manhattan_to(&target) > 2 {
        return VisitStep::NotThere;
    }
    match find_facility_at(facilities, &target) {
        None => VisitStep::NoFacility,
        Some(e) => VisitStep::Enjoy(e),
    }
}

/// What a pawn does about company this tick.
#[derive(Clone, Copy, Debug, PartialEq, Eq, Structural)]
pub enum SocialStep {
    /// The pawn is not out for company.
    NotSocializing,
    /// The pawn is more than two cells away from the meeting place.
    NotThere,
    /// Nobody else is close by: the pawn waits.
    Alone,
    /// Another pawn is close by: the pawn enjoys its company.
    Chat,
}

/// Decides what the pawn `me`, with `task` at `pawn_pos`, does about company:
/// within Manhattan distance 2 of its meeting place it chats when another
/// pawn of `pawns` stands within distance 2 of it, and waits otherwise.
pub fn social_step(task: &Task, pawn_pos: &Position, me: u64, pawns: &Vec<(u64, Position)>) -> (s:
    SocialStep)
    requires
        *task matches Task::Socialize(t) ==> pawn_pos.manhattan(t) <= i32::MAX,
        *task matches Task::Socialize(t) && pawn_pos.manhattan(t) <= 2 ==> forall|j: int|
            0 <= j < pawns@.len() ==> (#[trigger] pawns@[j]).1.manhattan(*pawn_pos) <= i32::MAX,
    ensures
        match *task {
            Task::Socialize(t) => if pawn_pos.manhattan(t) > 2 {
                s == SocialStep::NotThere
            } else if partner_near(pawns@, me, *pawn_pos) {
                s == SocialStep::Chat
            } else {
                s == SocialStep::Alone
            },
            _ => s == SocialStep::NotSocializing,
        },
{
    let target = match task {
        Task::Socialize(pos) => *pos,
        _ => {
            return SocialStep::NotSocializing;
        },
    };
    if pawn_pos.manhattan_to(&target) > 2 {
        return SocialStep::NotThere;
    }
    if has_partner(pawns, me, pawn_pos) {
        SocialStep::Chat
    } else {
        SocialStep::Alone
    }
}

} // verus!
