use arroyo_control::scaling::{ScalingOperation, ScalingPlan, StateRedistributionPlan};
use std::collections::HashMap;

#[test]
fn test_scaling_plan_creation() {
    let job_id = "test-job".to_string();
    let epoch = 10;

    let mut old_parallelism = HashMap::new();
    old_parallelism.insert(1, 2);
    old_parallelism.insert(2, 4);
    old_parallelism.insert(3, 1);

    let mut new_parallelism = HashMap::new();
    new_parallelism.insert(1, 4);
    new_parallelism.insert(2, 2);
    new_parallelism.insert(3, 1);

    let plan = ScalingPlan::new(job_id.clone(), epoch, &old_parallelism, &new_parallelism);

    assert_eq!(plan.job_id, job_id);
    assert_eq!(plan.epoch, epoch);
    assert_eq!(plan.operations.len(), 2);

    let mut scale_out_count = 0;
    let mut scale_in_count = 0;

    for op in &plan.operations {
        match op {
            ScalingOperation::ScaleOut { operator_id, original_parallelism, new_parallelism } => {
                assert_eq!(*operator_id, "1");
                assert_eq!(*original_parallelism, 2);
                assert_eq!(*new_parallelism, 4);
                scale_out_count += 1;
            }
            ScalingOperation::ScaleIn { operator_id, original_parallelism, new_parallelism } => {
                assert_eq!(*operator_id, "2");
                assert_eq!(*original_parallelism, 4);
                assert_eq!(*new_parallelism, 2);
                scale_in_count += 1;
            }
        }
    }

    assert_eq!(scale_out_count, 1);
    assert_eq!(scale_in_count, 1);

    assert!(plan.has_operations());

    let affected_operators = plan.get_affected_operators();
    assert_eq!(affected_operators.len(), 2);
    assert!(affected_operators.contains("1"));
    assert!(affected_operators.contains("2"));
}

#[test]
fn test_empty_scaling_plan() {
    let job_id = "test-job".to_string();
    let epoch = 10;

    let mut old_parallelism = HashMap::new();
    old_parallelism.insert(1, 2);
    old_parallelism.insert(2, 4);

    let mut new_parallelism = HashMap::new();
    new_parallelism.insert(1, 2);
    new_parallelism.insert(2, 4);

    let plan = ScalingPlan::new(job_id.clone(), epoch, &old_parallelism, &new_parallelism);

    assert_eq!(plan.job_id, job_id);
    assert_eq!(plan.epoch, epoch);
    assert_eq!(plan.operations.len(), 0);

    assert!(!plan.has_operations());

    let affected_operators = plan.get_affected_operators();
    assert_eq!(affected_operators.len(), 0);
}

#[test]
fn test_state_redistribution_plan() {
    let job_id = "test-job".to_string();
    let checkpoint_epoch = 10;
    let operator_id = "test-operator".to_string();
    let original_parallelism = 2;
    let new_parallelism = 4;

    let mut plan = StateRedistributionPlan::new(
        job_id.clone(),
        checkpoint_epoch,
        operator_id.clone(),
        original_parallelism,
        new_parallelism,
    );

    assert_eq!(plan.job_id, job_id);
    assert_eq!(plan.checkpoint_epoch, checkpoint_epoch);
    assert_eq!(plan.operator_id, operator_id);
    assert_eq!(plan.original_parallelism, original_parallelism);
    assert_eq!(plan.new_parallelism, new_parallelism);
    assert!(plan.state_mapping.is_empty());

    let table_names = vec!["table1".to_string(), "table2".to_string()];
    plan.compute_state_mapping(&table_names).unwrap();

    assert_eq!(plan.state_mapping.len(), 2);
    assert!(plan.state_mapping.contains_key("table1"));
    assert!(plan.state_mapping.contains_key("table2"));

    let table1_mapping = plan.state_mapping.get("table1").unwrap();
    assert_eq!(table1_mapping.len(), 2);

    let subtask0_targets = table1_mapping.get(&0).unwrap();
    assert_eq!(subtask0_targets.len(), 2);
    assert_eq!(subtask0_targets[0], 0);
    assert_eq!(subtask0_targets[1], 1);

    let subtask1_targets = table1_mapping.get(&1).unwrap();
    assert_eq!(subtask1_targets.len(), 2);
    assert_eq!(subtask1_targets[0], 2);
    assert_eq!(subtask1_targets[1], 3);
}

#[test]
fn test_scale_in_mapping() {
    let job_id = "test-job".to_string();
    let checkpoint_epoch = 10;
    let operator_id = "test-operator".to_string();
    let original_parallelism = 4;
    let new_parallelism = 2;

    let mut plan = StateRedistributionPlan::new(
        job_id.clone(),
        checkpoint_epoch,
        operator_id.clone(),
        original_parallelism,
        new_parallelism,
    );

    let table_names = vec!["table1".to_string()];
    plan.compute_state_mapping(&table_names).unwrap();

    let table1_mapping = plan.state_mapping.get("table1").unwrap();
    assert_eq!(table1_mapping.len(), 4);

    assert_eq!(*table1_mapping.get(&0).unwrap(), vec![0]);
    assert_eq!(*table1_mapping.get(&1).unwrap(), vec![0]);
    assert_eq!(*table1_mapping.get(&2).unwrap(), vec![1]);
    assert_eq!(*table1_mapping.get(&3).unwrap(), vec![1]);
}

#[test]
fn scale_out_by_uneven_factor_covers_every_new_subtask_once_per_share() {
    let mut plan = StateRedistributionPlan::new("job".to_string(), 3, "7".to_string(), 3, 10);
    let names = vec!["t".to_string()];
    plan.compute_state_mapping(&names).unwrap();
    let m = plan.state_mapping.get("t").unwrap();
    assert_eq!(*m.get(&0).unwrap(), vec![0, 1, 2, 3]);
    assert_eq!(*m.get(&1).unwrap(), vec![3, 4, 5, 6]);
    assert_eq!(*m.get(&2).unwrap(), vec![6, 7, 8, 9]);
}

#[test]
fn scale_in_by_three_to_two() {
    let mut plan = StateRedistributionPlan::new("job".to_string(), 3, "7".to_string(), 3, 2);
    let names = vec!["t".to_string()];
    plan.compute_state_mapping(&names).unwrap();
    let m = plan.state_mapping.get("t").unwrap();
    assert_eq!(*m.get(&0).unwrap(), vec![0]);
    assert_eq!(*m.get(&1).unwrap(), vec![0]);
    assert_eq!(*m.get(&2).unwrap(), vec![1]);
}

#[test]
fn state_path_joins_the_parts() {
    let plan = StateRedistributionPlan::new("job-1".to_string(), 12, "op".to_string(), 2, 4);
    assert_eq!(plan.state_path("default", 3), "job-1/12/op/default/3");
}

#[test]
fn new_operator_without_old_parallelism_is_not_planned() {
    let mut old_parallelism = HashMap::new();
    old_parallelism.insert(1, 2);
    let mut new_parallelism = HashMap::new();
    new_parallelism.insert(1, 2);
    new_parallelism.insert(42, 8);
    let plan = ScalingPlan::new("j".to_string(), 1, &old_parallelism, &new_parallelism);
    assert!(!plan.has_operations());
}
