use arroyo_control::rescaling::{
    JobMessageKind, NextState, Rescaling, RescalingAction, RescalingEvent, RetryReason, ScalingMode,
    ScalingPhase, TaskSlot,
};
use std::collections::HashMap;

fn parallelism(pairs: &[(u32, usize)]) -> HashMap<u32, usize> {
    pairs.iter().cloned().collect()
}

#[test]
fn new_rescaling_is_preparing() {
    let r = Rescaling::new(ScalingMode::Dynamic);
    assert_eq!(r.mode, ScalingMode::Dynamic);
    assert_eq!(r.phase, ScalingPhase::Preparing);
    assert!(r.scaling_plan.is_none());
    assert!(r.redistribution_plans.is_empty());
    assert!(!r.checkpoint_started);
    assert!(!r.checkpoint_completed);
}

#[test]
fn traditional_rescaling_waits_for_final_checkpoint() {
    let mut r = Rescaling::new(ScalingMode::Traditional);
    assert_eq!(r.step(RescalingEvent::Begin), RescalingAction::StartCheckpoint { then_stop: true });
    assert_eq!(r.step(RescalingEvent::CheckpointStarted(Ok(true))), RescalingAction::PollCheckpoint);
    assert!(r.checkpoint_started);
    assert_eq!(
        r.step(RescalingEvent::CheckpointPolled { finished: Ok(true), job_finished: false }),
        RescalingAction::AwaitMessage
    );
    assert_eq!(r.step(RescalingEvent::Begin), RescalingAction::PollCheckpoint);
    assert_eq!(
        r.step(RescalingEvent::CheckpointPolled { finished: Ok(true), job_finished: true }),
        RescalingAction::Transition(NextState::Scheduling)
    );
}

#[test]
fn checkpoint_failures_are_retried() {
    let mut r = Rescaling::new(ScalingMode::Traditional);
    assert_eq!(
        r.step(RescalingEvent::CheckpointStarted(Err("down".to_string()))),
        RescalingAction::Retry(RetryReason::InitiateFinalCheckpoint)
    );
    assert_eq!(
        r.step(RescalingEvent::CheckpointPolled { finished: Err("down".to_string()), job_finished: false }),
        RescalingAction::Retry(RetryReason::MonitorFinalCheckpoint)
    );
    assert_eq!(RetryReason::InitiateFinalCheckpoint.message(), "failed to initiate final checkpoint");
    assert_eq!(RetryReason::ProcessMessage.message(), "failed while processing message");
}

#[test]
fn dynamic_rescaling_without_changes_returns_to_running() {
    let mut r = Rescaling::new(ScalingMode::Dynamic);
    assert_eq!(r.step(RescalingEvent::Begin), RescalingAction::SupplyParallelism);
    let action = r.step(RescalingEvent::Parallelism {
        job_id: "job".to_string(),
        epoch: 4,
        current: parallelism(&[(1, 2)]),
        target: parallelism(&[(1, 2)]),
    });
    assert_eq!(action, RescalingAction::Transition(NextState::Running));
    assert_eq!(r.phase, ScalingPhase::Preparing);
}

#[test]
fn dynamic_rescaling_runs_through_its_phases() {
    let mut r = Rescaling::new(ScalingMode::Dynamic);
    let action = r.step(RescalingEvent::Parallelism {
        job_id: "job".to_string(),
        epoch: 4,
        current: parallelism(&[(1, 2), (2, 3)]),
        target: parallelism(&[(1, 4), (2, 3)]),
    });
    assert_eq!(action, RescalingAction::AwaitMessage);
    assert_eq!(r.phase, ScalingPhase::Checkpointing);
    assert_eq!(r.scaling_plan.as_ref().unwrap().operations.len(), 1);

    assert_eq!(r.step(RescalingEvent::Begin), RescalingAction::StartCheckpoint { then_stop: false });
    assert_eq!(r.step(RescalingEvent::CheckpointStarted(Ok(true))), RescalingAction::PollCheckpoint);
    assert_eq!(
        r.step(RescalingEvent::CheckpointPolled { finished: Ok(false), job_finished: false }),
        RescalingAction::AwaitMessage
    );
    assert_eq!(r.phase, ScalingPhase::Checkpointing);
    assert_eq!(
        r.step(RescalingEvent::CheckpointPolled { finished: Ok(true), job_finished: false }),
        RescalingAction::AwaitMessage
    );
    assert_eq!(r.phase, ScalingPhase::StateRedistribution);
    assert!(r.checkpoint_completed);
    assert_eq!(r.redistribution_plans.len(), 1);
    let plan = &r.redistribution_plans[0];
    assert_eq!(plan.operator_id, "1");
    assert_eq!(plan.checkpoint_epoch, 4);
    assert_eq!(plan.original_parallelism, 2);
    assert_eq!(plan.new_parallelism, 4);
    assert!(plan.state_mapping.contains_key("default"));

    assert_eq!(r.step(RescalingEvent::Begin), RescalingAction::RedistributeState);
    assert_eq!(
        r.step(RescalingEvent::StateRedistributed(Err("io".to_string()))),
        RescalingAction::Retry(RetryReason::ExecuteStateRedistribution)
    );
    assert_eq!(r.step(RescalingEvent::StateRedistributed(Ok(()))), RescalingAction::AwaitMessage);
    assert_eq!(r.phase, ScalingPhase::TaskAdjustment);

    assert_eq!(r.step(RescalingEvent::Begin), RescalingAction::AdjustTasks);
    let mut model = parallelism(&[(1, 2), (2, 3)]);
    let current = vec![
        TaskSlot { operator_id: 1, subtask_idx: 0, worker_id: 10 },
        TaskSlot { operator_id: 1, subtask_idx: 1, worker_id: 11 },
        TaskSlot { operator_id: 2, subtask_idx: 0, worker_id: 12 },
        TaskSlot { operator_id: 2, subtask_idx: 1, worker_id: 12 },
        TaskSlot { operator_id: 2, subtask_idx: 2, worker_id: 13 },
    ];
    let mut slots = r.adjust_tasks(&mut model, &current, Some(99));
    assert_eq!(model, parallelism(&[(1, 4), (2, 3)]));
    slots.sort_by_key(|t| (t.operator_id, t.subtask_idx));
    assert_eq!(
        slots,
        vec![
            TaskSlot { operator_id: 1, subtask_idx: 0, worker_id: 10 },
            TaskSlot { operator_id: 1, subtask_idx: 1, worker_id: 11 },
            TaskSlot { operator_id: 1, subtask_idx: 2, worker_id: 99 },
            TaskSlot { operator_id: 1, subtask_idx: 3, worker_id: 99 },
            TaskSlot { operator_id: 2, subtask_idx: 0, worker_id: 12 },
            TaskSlot { operator_id: 2, subtask_idx: 1, worker_id: 12 },
            TaskSlot { operator_id: 2, subtask_idx: 2, worker_id: 13 },
        ]
    );
    assert_eq!(r.phase, ScalingPhase::Completed);
    assert_eq!(r.step(RescalingEvent::TasksAdjusted), RescalingAction::AwaitMessage);
    assert_eq!(r.step(RescalingEvent::Begin), RescalingAction::Transition(NextState::Scheduling));
}

#[test]
fn subtasks_without_a_worker_are_left_out() {
    let mut r = Rescaling::new(ScalingMode::Dynamic);
    r.step(RescalingEvent::Parallelism {
        job_id: "job".to_string(),
        epoch: 1,
        current: parallelism(&[(5, 1)]),
        target: parallelism(&[(5, 3)]),
    });
    let mut model = parallelism(&[(5, 1)]);
    let current = vec![TaskSlot { operator_id: 5, subtask_idx: 0, worker_id: 7 }];
    let slots = r.adjust_tasks(&mut model, &current, None);
    assert_eq!(model.get(&5), Some(&3));
    assert_eq!(slots, vec![TaskSlot { operator_id: 5, subtask_idx: 0, worker_id: 7 }]);
}

#[test]
fn messages_are_dispatched() {
    let mut r = Rescaling::new(ScalingMode::Dynamic);
    assert_eq!(
        r.step(RescalingEvent::MessageReceived(JobMessageKind::Running)),
        RescalingAction::HandleRunningMessage
    );
    assert_eq!(
        r.step(RescalingEvent::MessageReceived(JobMessageKind::ConfigUpdate)),
        RescalingAction::ApplyConfigUpdate
    );
    assert_eq!(r.step(RescalingEvent::MessageReceived(JobMessageKind::Other)), RescalingAction::Continue);
    assert_eq!(r.step(RescalingEvent::MessageHandled(Ok(()))), RescalingAction::Continue);
    assert_eq!(
        r.step(RescalingEvent::MessageHandled(Err("bad".to_string()))),
        RescalingAction::Retry(RetryReason::ProcessMessage)
    );
    assert!(r.accepts_event(&RescalingEvent::Begin));
    assert!(!r.accepts_event(&RescalingEvent::StateRedistributed(Ok(()))));
}

#[test]
fn create_scaling_plan_reports_when_nothing_changes() {
    let mut r = Rescaling::new(ScalingMode::Dynamic);
    let err = r
        .create_scaling_plan("job".to_string(), 1, &parallelism(&[(1, 1)]), &parallelism(&[(1, 1)]))
        .unwrap_err();
    assert_eq!(err, "No scaling operations needed");
    assert!(r.scaling_plan.is_none());
}

#[test]
fn an_event_not_awaited_changes_nothing() {
    let mut r = Rescaling::new(ScalingMode::Dynamic);
    assert!(!r.accepts_event(&RescalingEvent::StateRedistributed(Ok(()))));
    assert_eq!(r.step(RescalingEvent::StateRedistributed(Ok(()))), RescalingAction::AwaitMessage);
    assert_eq!(r.phase, ScalingPhase::Preparing);
    assert!(!r.checkpoint_started);
    assert_eq!(r.step(RescalingEvent::CheckpointStarted(Ok(true))), RescalingAction::AwaitMessage);
    assert!(!r.checkpoint_started);
    assert_eq!(r.step(RescalingEvent::Begin), RescalingAction::SupplyParallelism);
}
