use brunch::workflow::workflow_step;
use brunch::workflow::WorkflowEvent;
use brunch::workflow::WorkflowState;

#[test]
fn apply_run_marches_to_done() {
    let s = WorkflowState::Idle;
    let s = workflow_step(&s, &WorkflowEvent::BuildFinished);
    assert_eq!(s, WorkflowState::Built);
    let s = workflow_step(&s, &WorkflowEvent::PointerSwapped);
    assert_eq!(s, WorkflowState::CurrentSwapped);
    let s = workflow_step(&s, &WorkflowEvent::ActivationFinished);
    assert_eq!(s, WorkflowState::Activated);
    let s = workflow_step(&s, &WorkflowEvent::ReclaimFinished);
    assert_eq!(s, WorkflowState::Reclaimed);
    let s = workflow_step(&s, &WorkflowEvent::Confirmed);
    assert_eq!(s, WorkflowState::Done);
}

#[test]
fn switch_run_skips_build() {
    let s = WorkflowState::Idle;
    let s = workflow_step(&s, &WorkflowEvent::PointerSwapped);
    assert_eq!(s, WorkflowState::CurrentSwapped);
}

#[test]
fn build_failure_aborts() {
    let s = workflow_step(&WorkflowState::Idle, &WorkflowEvent::StepFailed);
    assert_eq!(s, WorkflowState::Failed);
}

#[test]
fn reclaim_cannot_run_before_activation() {
    // Feeding the reclaim event while the pointer is freshly swapped is out
    // of order and fails the run: the reclaimer's expected values depend on
    // activation ordering.
    let s = workflow_step(&WorkflowState::CurrentSwapped, &WorkflowEvent::ReclaimFinished);
    assert_eq!(s, WorkflowState::Failed);
}

#[test]
fn terminal_states_absorb_events() {
    let s = workflow_step(&WorkflowState::Done, &WorkflowEvent::StepFailed);
    assert_eq!(s, WorkflowState::Done);
    let s = workflow_step(&WorkflowState::Failed, &WorkflowEvent::Confirmed);
    assert_eq!(s, WorkflowState::Failed);
}
