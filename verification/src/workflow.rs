//! The activation workflow.
//!
//! Applying or switching a generation is a fixed march through states: build
//! (apply only), swap the current pointer, activate the link farm, reclaim
//! the old generation's orphans, confirm.  Each transition's effect is
//! committed to disk by the caller before the next event is fed in; any
//! failure ends the run in the terminal failed state, with no rollback.  The
//! transition function makes the one delicate ordering structural: reclaim is
//! reachable only after the pointer has been swapped and activation has run,
//! because the reclaimer's expected link values are computed through the
//! already-advanced pointer.

use vstd::prelude::*;

verus! {

/// Where an apply or switch run stands.
#[derive(Debug, PartialEq, Eq, Clone, Copy)]
pub enum WorkflowState {
    /// Nothing has happened yet.
    Idle,
    /// The external builder has populated the new generation directory.
    Built,
    /// The current pointer has been swapped to the new generation.
    CurrentSwapped,
    /// Desktop assets and the link farm have been activated.
    Activated,
    /// The old generation's orphaned links have been reclaimed (or there was
    /// no old generation to reclaim from).
    Reclaimed,
    /// The run completed and was confirmed to the user.
    Done,
    /// A step failed; the run is over.  Effects already committed stay.
    Failed,
}

/// What the caller reports after performing a step's outside work.
#[derive(Debug, PartialEq, Eq, Clone, Copy)]
pub enum WorkflowEvent {
    /// The external builder produced the generation directory (apply only).
    BuildFinished,
    /// The target generation was found to exist and the current pointer was
    /// swapped to it.  Entered from idle on a switch, which needs no build.
    PointerSwapped,
    /// Desktop assets and the link farm were activated.
    ActivationFinished,
    /// The reclaim pass over the old generation ran, or was skipped because
    /// no old generation existed.
    ReclaimFinished,
    /// The confirmation was reported.
    Confirmed,
    /// The step's outside work failed.
    StepFailed,
}

/// Whether this state is terminal: no event moves the workflow further.
pub open spec fn is_terminal(s: WorkflowState) -> bool {
    s == WorkflowState::Done || s == WorkflowState::Failed
}

/// The successor state: the fixed march on the expected event, the failed
/// state on a reported failure or on any event out of order, and no way out
/// of a terminal state.
pub open spec fn workflow_step_spec(s: WorkflowState, e: WorkflowEvent) -> WorkflowState {
    if is_terminal(s) {
        s
    } else {
        match (s, e) {
            (WorkflowState::Idle, WorkflowEvent::BuildFinished) => WorkflowState::Built,
            (WorkflowState::Idle, WorkflowEvent::PointerSwapped) => WorkflowState::CurrentSwapped,
            (WorkflowState::Built, WorkflowEvent::PointerSwapped) => WorkflowState::CurrentSwapped,
            (
                WorkflowState::CurrentSwapped,
                WorkflowEvent::ActivationFinished,
            ) => WorkflowState::Activated,
            (WorkflowState::Activated, WorkflowEvent::ReclaimFinished) => WorkflowState::Reclaimed,
            (WorkflowState::Reclaimed, WorkflowEvent::Confirmed) => WorkflowState::Done,
            _ => WorkflowState::Failed,
        }
    }
}

/// Feeds one event into the workflow and returns the next state.
pub fn workflow_step(s: &WorkflowState, e: &WorkflowEvent) -> (r: WorkflowState)
    ensures
        r == workflow_step_spec(*s, *e),
{
    match (s, e) {
        (WorkflowState::Done, _) => WorkflowState::Done,
        (WorkflowState::Failed, _) => WorkflowState::Failed,
        (WorkflowState::Idle, WorkflowEvent::BuildFinished) => WorkflowState::Built,
        (WorkflowState::Idle, WorkflowEvent::PointerSwapped) => WorkflowState::CurrentSwapped,
        (WorkflowState::Built, WorkflowEvent::PointerSwapped) => WorkflowState::CurrentSwapped,
        (
            WorkflowState::CurrentSwapped,
            WorkflowEvent::ActivationFinished,
        ) => WorkflowState::Activated,
        (WorkflowState::Activated, WorkflowEvent::ReclaimFinished) => WorkflowState::Reclaimed,
        (WorkflowState::Reclaimed, WorkflowEvent::Confirmed) => WorkflowState::Done,
        _ => WorkflowState::Failed,
    }
}

/// The workflow state after a run of events from `s`.
pub open spec fn workflow_run_spec(s: WorkflowState, es: Seq<WorkflowEvent>) -> WorkflowState
    decreases es.len(),
{
    if es.len() == 0 {
        s
    } else {
        workflow_run_spec(workflow_step_spec(s, es.first()), es.drop_first())
    }
}

/// Reclaim comes last but one: any run from idle that reaches the reclaimed
/// state has already swapped the pointer and finished activation, in that
/// order — the ordering the reclaimer's expected values depend on.
pub proof fn lemma_reclaim_needs_swap_and_activation(s: WorkflowState, es: Seq<WorkflowEvent>)
    requires
        s == WorkflowState::Idle || s == WorkflowState::Built,
        workflow_run_spec(s, es) == WorkflowState::Reclaimed,
    ensures
        exists|i: int, j: int|
            0 <= i < j < es.len() && (#[trigger] es[i]) == WorkflowEvent::PointerSwapped
                && (#[trigger] es[j]) == WorkflowEvent::ActivationFinished,
    decreases es.len(),
{
    assert(es.len() > 0);
    let s1 = workflow_step_spec(s, es.first());
    if s1 == WorkflowState::Reclaimed {
        assert(false);
    } else if s1 == WorkflowState::CurrentSwapped {
        assert(es.first() == WorkflowEvent::PointerSwapped);
        lemma_activation_before_reclaim(s1, es.drop_first());
        let j0 = choose|j: int|
            0 <= j < es.drop_first().len() && es.drop_first()[j]
                == WorkflowEvent::ActivationFinished;
        assert(es[j0 + 1] == WorkflowEvent::ActivationFinished);
        assert(0 < j0 + 1 < es.len() && es[0] == WorkflowEvent::PointerSwapped);
    } else {
        assert(s1 == WorkflowState::Built || is_terminal(s1));
        if is_terminal(s1) {
            lemma_terminal_stays(s1, es.drop_first());
            assert(false);
        }
        lemma_reclaim_needs_swap_and_activation(s1, es.drop_first());
        let (i0, j0) = choose|i: int, j: int|
            0 <= i < j < es.drop_first().len() && (#[trigger] es.drop_first()[i])
                == WorkflowEvent::PointerSwapped && (#[trigger] es.drop_first()[j])
                == WorkflowEvent::ActivationFinished;
        assert(es[i0 + 1] == WorkflowEvent::PointerSwapped);
        assert(es[j0 + 1] == WorkflowEvent::ActivationFinished);
    }
}

/// From the swapped state, reaching the reclaimed state passes through a
/// finished activation.
proof fn lemma_activation_before_reclaim(s: WorkflowState, es: Seq<WorkflowEvent>)
    requires
        s == WorkflowState::CurrentSwapped,
        workflow_run_spec(s, es) == WorkflowState::Reclaimed,
    ensures
        exists|j: int| 0 <= j < es.len() && #[trigger] es[j] == WorkflowEvent::ActivationFinished,
    decreases es.len(),
{
    assert(es.len() > 0);
    let s1 = workflow_step_spec(s, es.first());
    if s1 == WorkflowState::Activated {
        assert(es[0] == WorkflowEvent::ActivationFinished);
    } else {
        assert(is_terminal(s1));
        lemma_terminal_stays(s1, es.drop_first());
        assert(false);
    }
}

/// A terminal state absorbs every further event.
proof fn lemma_terminal_stays(s: WorkflowState, es: Seq<WorkflowEvent>)
    requires
        is_terminal(s),
    ensures
        workflow_run_spec(s, es) == s,
    decreases es.len(),
{
    if es.len() > 0 {
        lemma_terminal_stays(s, es.drop_first());
    }
}

} // verus!
