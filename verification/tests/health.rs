use arroyo_control::health::{
    evaluate_topic_health, user_topic_names, PartitionMetadata, TopicHealthChecker, TopicHealthStatus,
    TopicMetadata, TopicPartitionStatus,
};

fn partition(id: i32, leader: i32, replicas: Vec<i32>, isr: Vec<i32>) -> PartitionMetadata {
    PartitionMetadata { id, leader, replicas, isr }
}

fn topic(name: &str, partitions: Vec<PartitionMetadata>) -> TopicMetadata {
    TopicMetadata { name: name.to_string(), partitions }
}

fn healthy_topic(name: &str) -> TopicMetadata {
    topic(
        name,
        vec![
            partition(0, 1, vec![1, 2], vec![1, 2]),
            partition(1, 2, vec![2, 3], vec![2, 3]),
            partition(2, 3, vec![3, 1], vec![3, 1]),
        ],
    )
}

#[test]
fn a_topic_with_all_replicas_in_sync_is_healthy() {
    let h = evaluate_topic_health("orders", &vec![healthy_topic("orders")], 100).unwrap();
    assert_eq!(h.topic_name, "orders");
    assert_eq!(h.status, TopicHealthStatus::Healthy);
    assert_eq!(h.partition_count, 3);
    assert_eq!(h.partitions.len(), 3);
    assert!(h.issues.is_empty());
    assert_eq!(h.checked_at, 100);
    assert_eq!(h.partitions[1].leader_id, 2);
    assert_eq!(h.partitions[1].replica_count, 2);
    assert_eq!(h.partitions[1].isr_count, 2);
}

#[test]
fn replicas_out_of_sync_degrade_a_topic() {
    let t = topic("orders", vec![partition(0, 1, vec![1, 2, 3], vec![1]), partition(1, 2, vec![2], vec![2])]);
    let h = evaluate_topic_health("orders", &vec![t], 5).unwrap();
    assert_eq!(h.status, TopicHealthStatus::Degraded);
    assert_eq!(h.partitions[0].status, TopicPartitionStatus::Degraded);
    assert_eq!(h.partitions[1].status, TopicPartitionStatus::Healthy);
    assert_eq!(h.issues, vec!["Partition 0 has 1 out of 3 replicas in sync".to_string()]);
    assert_eq!(h.partitions[0].issues, h.issues);
}

#[test]
fn a_partition_without_leader_makes_a_topic_unhealthy() {
    let t = topic(
        "orders",
        vec![partition(0, 1, vec![1, 2], vec![1]), partition(7, -1, vec![1, 2], vec![]), partition(8, 2, vec![2], vec![2])],
    );
    let h = evaluate_topic_health("orders", &vec![t], 5).unwrap();
    assert_eq!(h.status, TopicHealthStatus::Unhealthy);
    // a leaderless partition that is also out of sync counts as degraded
    assert_eq!(h.partitions[1].status, TopicPartitionStatus::Degraded);
    assert_eq!(
        h.issues,
        vec![
            "Partition 0 has 1 out of 2 replicas in sync".to_string(),
            "Partition 7 has no leader".to_string(),
            "Partition 7 has 0 out of 2 replicas in sync".to_string(),
        ]
    );
    let only_leaderless = topic("x", vec![partition(3, -1, vec![1], vec![1])]);
    let h = evaluate_topic_health("x", &vec![only_leaderless], 5).unwrap();
    assert_eq!(h.partitions[0].status, TopicPartitionStatus::Unhealthy);
    assert_eq!(h.status, TopicHealthStatus::Unhealthy);
}

#[test]
fn metadata_for_another_topic_is_an_error() {
    assert_eq!(evaluate_topic_health("a", &vec![], 1).unwrap_err(), "Topic not found in metadata");
    assert_eq!(
        evaluate_topic_health("a", &vec![healthy_topic("b")], 1).unwrap_err(),
        "Topic 'a' does not exist"
    );
}

#[test]
fn internal_topics_are_left_out() {
    let all = vec![healthy_topic("__consumer_offsets"), healthy_topic("orders"), healthy_topic("_x"), healthy_topic("__")];
    assert_eq!(user_topic_names(&all), vec!["orders".to_string(), "_x".to_string()]);
}

#[test]
fn kept_judgements_are_served_until_refreshed() {
    let mut checker = TopicHealthChecker::new("localhost:9092", Some(3600));
    let first = checker.check_topic_health("orders", false, 1_000, &Ok(vec![healthy_topic("orders")])).unwrap();
    assert_eq!(first.status, TopicHealthStatus::Healthy);
    // within the time to keep it, the kept judgement is served
    let broken = topic("orders", vec![partition(0, -1, vec![1], vec![1])]);
    let second = checker.check_topic_health("orders", false, 1_100, &Ok(vec![broken.clone()])).unwrap();
    assert_eq!(second.status, TopicHealthStatus::Healthy);
    assert_eq!(second.checked_at, first.checked_at);
    assert_eq!(first.checked_at, 1_000);
    // a forced refresh judges anew
    let third = checker.check_topic_health("orders", true, 1_200, &Ok(vec![broken.clone()])).unwrap();
    assert_eq!(third.status, TopicHealthStatus::Unhealthy);
    checker.clear_cache();
    let e = checker.check_topic_health("orders", false, 1_300, &Err("Failed to fetch metadata: down".to_string()));
    assert_eq!(e.unwrap_err(), "Failed to fetch metadata: down");
}

#[test]
fn a_zero_time_to_keep_always_judges_anew() {
    let mut checker = TopicHealthChecker::new("localhost:9092", None);
    checker.set_cache_ttl(0);
    checker.check_topic_health("orders", false, 1_000, &Ok(vec![healthy_topic("orders")])).unwrap();
    let broken = topic("orders", vec![partition(0, -1, vec![1], vec![1])]);
    let h = checker.check_topic_health("orders", false, 1_000, &Ok(vec![broken])).unwrap();
    assert_eq!(h.status, TopicHealthStatus::Unhealthy);
}

#[test]
fn failed_checks_become_unhealthy_reports() {
    let mut checker = TopicHealthChecker::new("localhost:9092", Some(10));
    let names = vec!["orders".to_string(), "missing".to_string(), "down".to_string()];
    let fetched = vec![
        Ok(vec![healthy_topic("orders")]),
        Ok(vec![]),
        Err("Failed to fetch metadata: broker down".to_string()),
    ];
    let r = checker.check_topics_health(&names, true, 500, &fetched);
    assert_eq!(r.len(), 3);
    assert_eq!(r[0].status, TopicHealthStatus::Healthy);
    assert_eq!(r[1].topic_name, "missing");
    assert_eq!(r[1].status, TopicHealthStatus::Unhealthy);
    assert_eq!(r[1].partition_count, 0);
    assert_eq!(r[1].issues, vec!["Failed to check health: Topic not found in metadata".to_string()]);
    assert_eq!(r[2].issues, vec!["Failed to check health: Failed to fetch metadata: broker down".to_string()]);
}

#[test]
fn cached_reports_carry_the_name_asked_for() {
    let mut checker = TopicHealthChecker::new("localhost:9092", Some(600));
    checker.check_topic_health("orders", false, 1_000, &Ok(vec![healthy_topic("orders")])).unwrap();
    let names = vec!["orders".to_string(), "nonexistent_topic".to_string()];
    let fetched = vec![Err("unused".to_string()), Ok(vec![])];
    let r = checker.check_topics_health(&names, false, 1_010, &fetched);
    assert_eq!(r[0].topic_name, "orders");
    assert_eq!(r[0].status, TopicHealthStatus::Healthy);
    assert_eq!(r[1].topic_name, "nonexistent_topic");
    assert_eq!(r[1].status, TopicHealthStatus::Unhealthy);
    assert!(!r[1].issues.is_empty());
}

#[test]
fn a_judgement_older_than_the_time_to_keep_it_is_refreshed() {
    let mut checker = TopicHealthChecker::new("localhost:9092", Some(60));
    checker.check_topic_health("orders", false, 1_000, &Ok(vec![healthy_topic("orders")])).unwrap();
    assert!(checker.uses_cache("orders", false, 1_059));
    assert!(!checker.uses_cache("orders", false, 1_060));
    assert!(!checker.uses_cache("orders", true, 1_001));
    let broken = topic("orders", vec![partition(0, -1, vec![1], vec![1])]);
    let stale = checker.check_topic_health("orders", false, 1_060, &Ok(vec![broken])).unwrap();
    assert_eq!(stale.status, TopicHealthStatus::Unhealthy);
    assert_eq!(stale.checked_at, 1_060);
    let failed = checker.check_topics_health(&vec!["orders".to_string()], false, 1_200, &vec![Err("down".to_string())]);
    assert_eq!(failed[0].status, TopicHealthStatus::Unhealthy);
    assert_eq!(failed[0].issues, vec!["Failed to check health: down".to_string()]);
}
