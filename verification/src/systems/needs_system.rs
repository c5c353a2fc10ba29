//! What a pawn asks for when its needs call for it, and how an assignment
//! from the scheduler becomes its task.

use vstd::prelude::*;

use crate::components::{AssignedTask, Position, RequestTask, ResourceType, Task, TaskCategory};
use crate::resources::TaskScheduler;

verus! {

/// A request a pawn files, with the task it announces while it waits.
#[derive(Clone, Copy, Debug, PartialEq, Eq, Structural)]
pub struct WorkRequest {
    pub request: RequestTask,
    pub announced: Task,
}

/// The kind of work a free pawn asks for: entertainment when it refuses to
/// work, food when hungry, and when merely unhappy company or entertainment
/// as `prefers_social` says; nothing otherwise.
pub open spec fn wanted_category(
    refuses_to_work: bool,
    hungry: bool,
    unhappy: bool,
    prefers_social: bool,
) -> Option<TaskCategory> {
    if refuses_to_work {
        Some(TaskCategory::Entertainment)
    } else if hungry {
        Some(TaskCategory::GatherResource(ResourceType::Food))
    } else if unhappy {
        if prefers_social {
            Some(TaskCategory::Socialize)
        } else {
            Some(TaskCategory::Entertainment)
        }
    } else {
        None
    }
}

/// The task a pawn announces while its request for `category` waits.
pub open spec fn announced_task(category: TaskCategory) -> Task {
    match category {
        TaskCategory::Entertainment => Task::Entertain(Position { x: 0, y: 0 }),
        TaskCategory::Socialize => Task::Socialize(Position { x: 0, y: 0 }),
        _ => Task::FindFood,
    }
}

/// The resource behind an assignment of `category`.
pub open spec fn category_resource(category: TaskCategory) -> ResourceType {
    match category {
        TaskCategory::GatherResource(rt) => rt,
        _ => ResourceType::Nothing,
    }
}

/// The task that carries out an assignment of `category` at `target`.
pub open spec fn assigned_work(category: TaskCategory, target: Position) -> Task {
    match category {
        TaskCategory::GatherResource(_) => Task::MoveTo(target),
        TaskCategory::BuildStructure => Task::Build(target),
        TaskCategory::Entertainment => Task::Entertain(target),
        TaskCategory::Socialize => Task::Socialize(target),
    }
}

/// A pawn that is idle or looking for food, has no request pending and no
/// assignment, files a request for the work its needs call for (see
/// `wanted_category`) with the scheduler. `hungry` covers starving too;
/// `prefers_social` is the caller's coin flip between company and
/// entertainment.
pub fn request_work(
    task_scheduler: &mut TaskScheduler,
    entity: u64,
    position: Position,
    task: Task,
    has_request: bool,
    refuses_to_work: bool,
    hungry: bool,
    unhappy: bool,
    prefers_social: bool,
) -> (r: Option<WorkRequest>)
    ensures
        final(task_scheduler).assignments@ == old(task_scheduler).assignments@,
        ({
            let free = (task == Task::Idle || task == Task::FindFood) && !has_request
                && !old(task_scheduler).assignments@.contains_key(entity);
            let wanted = wanted_category(refuses_to_work, hungry, unhappy, prefers_social);
            if free && wanted.is_some() {
                let c = wanted.unwrap();
                &&& final(task_scheduler).pending_requests@ == old(task_scheduler).pending_requests@.push(
                    (entity, position, c),
                )
                &&& r == Some(
                    WorkRequest {
                        request: RequestTask {
                            resource_type: category_resource(c),
                            category: c,
                        },
                        announced: announced_task(c),
                    },
                )
            } else {
                &&& final(task_scheduler).pending_requests@ == old(task_scheduler).pending_requests@
                &&& r.is_none()
            }
        }),
{
    let needs_task = match task {
        Task::Idle | Task::FindFood => true,
        _ => false,
    };
    if needs_task && !has_request && !task_scheduler.has_assignment(entity) {
        if refuses_to_work {
            task_scheduler.request_task(entity, position, TaskCategory::Entertainment);
            return Some(
                WorkRequest {
                    request: RequestTask::entertain(),
                    announced: Task::Entertain(Position::new(0, 0)),
                },
            );
        } else if hungry {
            task_scheduler.request_task(
                entity,
                position,
                TaskCategory::GatherResource(ResourceType::Food),
            );
            return Some(
                WorkRequest { request: RequestTask::gather(ResourceType::Food), announced: Task::FindFood },
            );
        } else if unhappy {
            if prefers_social {
                task_scheduler.request_task(entity, position, TaskCategory::Socialize);
                return Some(
                    WorkRequest {
                        request: RequestTask::socialize(),
                        announced: Task::Socialize(Position::new(0, 0)),
                    },
                );
            } else {
                task_scheduler.request_task(entity, position, TaskCategory::Entertainment);
                return Some(
                    WorkRequest {
                        request: RequestTask::entertain(),
                        announced: Task::Entertain(Position::new(0, 0)),
                    },
                );
            }
        }
    }
    None
}

/// Whether the request a pawn files hangs on the draw between company and
/// entertainment: the pawn is free (idle or looking for food, with no
/// request pending and no assignment), does not refuse work, is not hungry,
/// and is unhappy.
pub fn needs_social_draw(
    task_scheduler: &TaskScheduler,
    entity: u64,
    task: Task,
    has_request: bool,
    refuses_to_work: bool,
    hungry: bool,
    unhappy: bool,
) -> (b: bool)
    ensures
        b == ((task == Task::Idle || task == Task::FindFood) && !has_request
            && !task_scheduler.assignments@.contains_key(entity) && !refuses_to_work && !hungry
            && unhappy),
{
    let needs_task = match task {
        Task::Idle | Task::FindFood => true,
        _ => false,
    };
    needs_task && !has_request && !task_scheduler.has_assignment(entity) && !refuses_to_work && !hungry
        && unhappy
}

/// What a free pawn asks for, and what it announces meanwhile: a pawn that
/// refuses to work asks for entertainment; otherwise a hungry pawn asks for
/// food; otherwise an unhappy pawn asks for company when the draw prefers
/// company and for entertainment when it does not; a content pawn asks for
/// nothing. Only food requests name a resource.
pub proof fn lemma_wanted_work(refuses_to_work: bool, hungry: bool, unhappy: bool, prefers_social: bool)
    ensures
        refuses_to_work ==> wanted_category(refuses_to_work, hungry, unhappy, prefers_social)
            == Some(TaskCategory::Entertainment),
        !refuses_to_work && hungry ==> wanted_category(refuses_to_work, hungry, unhappy, prefers_social)
            == Some(TaskCategory::GatherResource(ResourceType::Food)),
        !refuses_to_work && !hungry && unhappy && prefers_social ==> wanted_category(
            refuses_to_work,
            hungry,
            unhappy,
            prefers_social,
        ) == Some(TaskCategory::Socialize),
        !refuses_to_work && !hungry && unhappy && !prefers_social ==> wanted_category(
            refuses_to_work,
            hungry,
            unhappy,
            prefers_social,
        ) == Some(TaskCategory::Entertainment),
        !refuses_to_work && !hungry && !unhappy ==> wanted_category(
            refuses_to_work,
            hungry,
            unhappy,
            prefers_social,
        ).is_none(),
        announced_task(TaskCategory::Entertainment) == Task::Entertain(Position { x: 0, y: 0 }),
        announced_task(TaskCategory::Socialize) == Task::Socialize(Position { x: 0, y: 0 }),
        announced_task(TaskCategory::GatherResource(ResourceType::Food)) == Task::FindFood,
        category_resource(TaskCategory::GatherResource(ResourceType::Food)) == ResourceType::Food,
        category_resource(TaskCategory::Entertainment) == ResourceType::Nothing,
        category_resource(TaskCategory::Socialize) == ResourceType::Nothing,
{
}

/// An assignment becomes a task of its own kind aimed at its target:
/// gathering work sends the pawn moving to the cell, construction to build
/// there, entertainment to enjoy it, company to meet there. The assignment a
/// pawn keeps names the resource only for gathering work.
pub proof fn lemma_assignment_kind(category: TaskCategory, target: Position)
    ensures
        category is GatherResource ==> assigned_work(category, target) == Task::MoveTo(target),
        category is BuildStructure ==> assigned_work(category, target) == Task::Build(target),
        category is Entertainment ==> assigned_work(category, target) == Task::Entertain(target),
        category is Socialize ==> assigned_work(category, target) == Task::Socialize(target),
        category matches TaskCategory::GatherResource(rt) ==> category_resource(category) == rt,
        !(category is GatherResource) ==> category_resource(category) == ResourceType::Nothing,
{
}

/// How a pawn's pending request stands after looking at the scheduler.
#[derive(Clone, Copy, Debug, PartialEq, Eq, Structural)]
pub enum AssignmentUpdate {
    /// The request was granted; the pawn now heads for this assignment.
    Assigned(AssignedTask),
    /// No work was found; the request is withdrawn and the pawn idles.
    Dropped,
    /// The pawn keeps waiting for entertainment.
    Waiting,
}

/// Turns the scheduler's assignment for `entity`, if any, into the pawn's
/// task. Without one, a request for entertainment keeps waiting and any
/// other request is dropped, leaving the pawn idle.
pub fn apply_assignment(
    task_scheduler: &TaskScheduler,
    entity: u64,
    request: RequestTask,
    task: &mut Task,
) -> (u: AssignmentUpdate)
    ensures
        task_scheduler.assignments@.contains_key(entity) ==> {
            let (target, category) = task_scheduler.assignments@[entity];
            &&& u == AssignmentUpdate::Assigned(
                AssignedTask { target_position: target, resource_type: category_resource(category) },
            )
            &&& *final(task) == assigned_work(category, target)
        },
        !task_scheduler.assignments@.contains_key(entity) ==> if request.category
            == TaskCategory::Entertainment {
            u == AssignmentUpdate::Waiting && *final(task) == *old(task)
        } else {
            u == AssignmentUpdate::Dropped && *final(task) == Task::Idle
        },
{
    if let Some((target_pos, category)) = task_scheduler.get_assignment(entity) {
        let resource_type = match category {
            TaskCategory::GatherResource(rt) => rt,
            _ => ResourceType::Nothing,
        };
        *task = match category {
            TaskCategory::GatherResource(_) => Task::MoveTo(target_pos),
            TaskCategory::BuildStructure => Task::Build(target_pos),
            TaskCategory::Entertainment => Task::Entertain(target_pos),
            TaskCategory::Socialize => Task::Socialize(target_pos),
        };
        AssignmentUpdate::Assigned(AssignedTask::new(target_pos, resource_type))
    } else if !task_scheduler.has_assignment(entity) {
        match request.category {
            TaskCategory::Entertainment => AssignmentUpdate::Waiting,
            _ => {
                *task = Task::Idle;
                AssignmentUpdate::Dropped
            },
        }
    } else {
        AssignmentUpdate::Waiting
    }
}

} // verus!
