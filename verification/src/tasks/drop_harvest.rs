//! The stateless harvest task: walk to the source and harvest it every
//! tick, dropping the yield.  It never completes on its own; it runs until
//! externally interrupted or the source disappears.

use vstd::prelude::*;

use crate::tasks::{StepAction, StepPlan, TaskResult};
use crate::world::{ActionOutcome, StepFacts};

verus! {

/// What one harvest step decides, given what the driver observed of the
/// source: a vanished source ends the task with an error; an adjacent agent
/// attempts the harvest; otherwise the agent moves toward the source.
pub open spec fn spec_run(source_id: u128, facts: StepFacts) -> StepPlan {
    if !facts.present {
        StepPlan::Done(TaskResult::Error)
    } else if facts.adjacent {
        StepPlan::Act(StepAction::Harvest(source_id))
    } else {
        StepPlan::Move(source_id)
    }
}

/// One step of a harvest task on the source `source_id`.
pub fn run(source_id: u128, facts: &StepFacts) -> (plan: StepPlan)
    ensures
        plan == spec_run(source_id, *facts),
{
    if !facts.present {
        StepPlan::Done(TaskResult::Error)
    } else if facts.adjacent {
        StepPlan::Act(StepAction::Harvest(source_id))
    } else {
        StepPlan::Move(source_id)
    }
}

/// How a harvest outcome is interpreted: success, and a source that merely
/// has nothing available right now, both leave the task in progress (the
/// source is depleted, not gone — retry next tick); any other failure ends
/// the task.
pub open spec fn spec_conclude(outcome: ActionOutcome) -> TaskResult {
    match outcome {
        ActionOutcome::Success => TaskResult::InProgress,
        ActionOutcome::NotEnough => TaskResult::InProgress,
        _ => TaskResult::Error,
    }
}

/// Interprets the outcome of the harvest action a step attempted.
pub fn conclude(outcome: ActionOutcome) -> (r: TaskResult)
    ensures
        r == spec_conclude(outcome),
{
    match outcome {
        ActionOutcome::Success => TaskResult::InProgress,
        ActionOutcome::NotEnough => TaskResult::InProgress,
        _ => TaskResult::Error,
    }
}

} // verus!
