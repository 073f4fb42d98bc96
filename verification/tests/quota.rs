use arroyo_control::quota::{QuotaScope, QuotaType, TopicLimitConfig, TopicQuotaManager};
use arroyo_control::topic_ddl::TopicConfig;

fn limit(name: &str, partitions: i32, replicas: i16) -> TopicLimitConfig {
    TopicLimitConfig {
        topic_name: name.to_string(),
        max_partitions: Some(partitions),
        max_replication_factor: Some(replicas),
        max_retention_ms: Some(86400000),
        max_retention_bytes: Some(1073741824),
        max_message_bytes: Some(1048576),
        max_producer_bytes_per_sec: Some(1048576),
        max_consumer_bytes_per_sec: Some(1048576),
        max_request_rate: Some(100),
        description: Some("Test topic limit".to_string()),
    }
}

fn topic(name: &str, partitions: i32, replicas: i16, retention_ms: i64, retention_bytes: i64, message_bytes: i32) -> TopicConfig {
    TopicConfig {
        name: name.to_string(),
        partitions,
        replication_factor: replicas,
        retention_ms: Some(retention_ms),
        retention_bytes: Some(retention_bytes),
        cleanup_policy: "delete".to_string(),
        max_message_bytes: Some(message_bytes),
        description: Some("Test topic".to_string()),
    }
}

#[test]
fn test_topic_limit_create_delete() {
    let mut quota_manager = TopicQuotaManager::new("localhost:9092", Some(10));
    let limit_config = limit("test-topic", 10, 3);
    let created_limit = quota_manager
        .create_topic_limit(&limit_config)
        .expect("Failed to create topic limit");
    assert_eq!(created_limit.topic_name, "test-topic");
    assert_eq!(created_limit.max_partitions, Some(10));
    assert_eq!(created_limit.max_replication_factor, Some(3));

    let limits = quota_manager.get_topic_limits();
    assert_eq!(limits.len(), 1);

    quota_manager
        .delete_topic_limit("test-topic")
        .expect("Failed to delete topic limit");
    let limits = quota_manager.get_topic_limits();
    assert_eq!(limits.len(), 0);
}

#[test]
fn test_validate_topic_config() {
    let mut quota_manager = TopicQuotaManager::new("localhost:9092", Some(10));
    quota_manager
        .create_topic_limit(&limit("test-topic", 5, 2))
        .expect("Failed to create topic limit");

    let valid_config = topic("test-topic", 3, 2, 43200000, 536870912, 524288);
    assert!(quota_manager.validate_topic_config(&valid_config).is_ok());

    let invalid_config = topic("test-topic", 10, 3, 172800000, 2147483648, 2097152);
    assert!(quota_manager.validate_topic_config(&invalid_config).is_err());

    quota_manager
        .delete_topic_limit("test-topic")
        .expect("Failed to delete topic limit");
}

#[test]
fn create_twice_is_refused() {
    let mut m = TopicQuotaManager::new("localhost:9092", None);
    m.create_topic_limit(&limit("a", 5, 2)).unwrap();
    let e = m.create_topic_limit(&limit("a", 6, 2)).unwrap_err();
    assert_eq!(e, "Topic limit already exists: a");
    assert_eq!(m.get_topic_limit("a").unwrap().max_partitions, Some(5));
}

#[test]
fn update_and_delete_need_an_existing_limit() {
    let mut m = TopicQuotaManager::new("localhost:9092", None);
    assert_eq!(m.update_topic_limit(&limit("b", 5, 2)).unwrap_err(), "Topic limit does not exist: b");
    assert_eq!(m.delete_topic_limit("b").unwrap_err(), "Topic limit does not exist: b");
    m.create_topic_limit(&limit("b", 5, 2)).unwrap();
    let updated = m.update_topic_limit(&limit("b", 8, 2)).unwrap();
    assert_eq!(updated.max_partitions, Some(8));
    assert_eq!(m.get_topic_limit("b").unwrap().max_partitions, Some(8));
    assert_eq!(m.get_topic_limits().len(), 1);
    assert!(m.get_topic_limit("c").is_none());
}

#[test]
fn violation_messages_name_the_first_setting_over_its_limit() {
    let m = TopicQuotaManager::new("localhost:9092", None);
    let l = limit("t", 5, 2);
    assert_eq!(
        m.check_topic_limit(&topic("t", 10, 3, 1, 1, 1), &l).unwrap_err(),
        "Topic partition count exceeds limit: 10 > 5"
    );
    assert_eq!(
        m.check_topic_limit(&topic("t", 5, 3, 1, 1, 1), &l).unwrap_err(),
        "Topic replication factor exceeds limit: 3 > 2"
    );
    assert_eq!(
        m.check_topic_limit(&topic("t", 5, 2, 172800000, 1, 1), &l).unwrap_err(),
        "Topic retention time exceeds limit: 172800000 > 86400000"
    );
    assert_eq!(
        m.check_topic_limit(&topic("t", 5, 2, 1, 2147483648, 1), &l).unwrap_err(),
        "Topic retention size exceeds limit: 2147483648 > 1073741824"
    );
    assert_eq!(
        m.check_topic_limit(&topic("t", 5, 2, 1, 1, 2097152), &l).unwrap_err(),
        "Topic message size exceeds limit: 2097152 > 1048576"
    );
    assert!(m.check_topic_limit(&topic("t", 5, 2, 86400000, 1073741824, 1048576), &l).is_ok());
}

#[test]
fn the_global_limit_applies_to_every_topic_and_comes_first() {
    let mut m = TopicQuotaManager::new("localhost:9092", None);
    m.create_topic_limit(&limit("*", 4, 3)).unwrap();
    m.create_topic_limit(&limit("t", 8, 1)).unwrap();
    assert_eq!(
        m.validate_topic_config(&topic("other", 6, 1, 1, 1, 1)).unwrap_err(),
        "Topic partition count exceeds limit: 6 > 4"
    );
    assert_eq!(
        m.validate_topic_config(&topic("t", 3, 2, 1, 1, 1)).unwrap_err(),
        "Topic replication factor exceeds limit: 2 > 1"
    );
    assert!(m.validate_topic_config(&topic("other", 3, 3, 1, 1, 1)).is_ok());
}

#[test]
fn quota_keys() {
    let m = TopicQuotaManager::new("localhost:9092", None);
    assert_eq!(
        m.build_quota_key(&QuotaType::Producer, &QuotaScope::Topic, &Some("test-topic".to_string())),
        "producer:topic:test-topic"
    );
    assert_eq!(m.build_quota_key(&QuotaType::Request, &QuotaScope::UserClientId, &None), "request:user_client_id:*");
    assert_eq!(m.build_quota_key(&QuotaType::Consumer, &QuotaScope::ClientId, &None), "consumer:client_id:*");
}
