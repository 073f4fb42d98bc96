use arroyo_control::permission::{PermissionLevel, TopicPermissionManager, UserRole};
use arroyo_control::quota::{TopicLimitConfig, TopicQuotaManager};
use arroyo_control::topic_admin::{
    TopicAdmin, created_topic_info, topic_configs_of, topic_ddl_step, topic_info_from_metadata, topic_listed, updated_topic_info,
    TopicDdlAction, TopicDdlEvent, TopicInfo,
};
use arroyo_control::topic_ddl::{TopicConfig, TopicDdlStatement};

fn config(name: &str) -> TopicConfig {
    TopicConfig {
        name: name.to_string(),
        partitions: 3,
        replication_factor: 2,
        retention_ms: Some(1000),
        retention_bytes: None,
        cleanup_policy: "compact".to_string(),
        max_message_bytes: Some(512),
        description: Some("orders".to_string()),
    }
}

fn reply(a: TopicDdlAction) -> Result<String, String> {
    match a {
        TopicDdlAction::Reply(r) => r,
        other => panic!("expected a reply, got {:?}", other),
    }
}

#[test]
fn records_of_topics() {
    let c = config("orders");
    let created = created_topic_info(&c, 100);
    assert_eq!(created.name, "orders");
    assert_eq!(created.partitions, 3);
    assert_eq!(created.cleanup_policy, "compact");
    assert_eq!((created.created_at, created.updated_at), (100, 100));

    let mut changed = config("orders");
    changed.partitions = 9;
    changed.retention_ms = None;
    let updated = updated_topic_info(&changed, &created, 200);
    assert_eq!(updated.partitions, 3);
    assert_eq!(updated.retention_ms, None);
    assert_eq!((updated.created_at, updated.updated_at), (100, 200));

    let read = topic_info_from_metadata("orders", 3, Some(2), 10_000);
    assert_eq!(
        read,
        TopicInfo {
            name: "orders".to_string(),
            partitions: 3,
            replication_factor: 2,
            retention_ms: Some(86400000),
            retention_bytes: None,
            cleanup_policy: "delete".to_string(),
            max_message_bytes: None,
            description: None,
            created_at: 6400,
            updated_at: 10_000,
        }
    );
    assert_eq!(topic_info_from_metadata("empty", 0, None, 3600).replication_factor, 1);

    let configs = topic_configs_of(&vec![created.clone(), read.clone()]);
    assert_eq!(configs[0], c);
    assert_eq!(configs[1].cleanup_policy, "delete");
}

#[test]
fn listing_leaves_out_internal_and_unreadable_topics() {
    assert!(topic_listed("orders", None));
    assert!(!topic_listed("__consumer_offsets", None));
    assert!(topic_listed("_x", Some(PermissionLevel::Read)));
    assert!(topic_listed("orders", Some(PermissionLevel::Admin)));
}

#[test]
fn creating_a_topic() {
    let stmt = TopicDdlStatement::CreateTopic { name: "orders".to_string(), if_not_exists: false, config: config("orders") };
    match topic_ddl_step(&stmt, &TopicDdlEvent::Started) {
        TopicDdlAction::CheckExists(n) => assert_eq!(n, "orders"),
        other => panic!("{:?}", other),
    }
    match topic_ddl_step(&stmt, &TopicDdlEvent::Exists(false)) {
        TopicDdlAction::Create(c) => assert_eq!(c, config("orders")),
        other => panic!("{:?}", other),
    }
    assert_eq!(reply(topic_ddl_step(&stmt, &TopicDdlEvent::Exists(true))), Err("Topic 'orders' already exists".to_string()));
    let info = created_topic_info(&config("orders"), 1);
    assert_eq!(
        reply(topic_ddl_step(&stmt, &TopicDdlEvent::Created(info))),
        Ok("Topic 'orders' created successfully with 3 partitions and replication factor 2".to_string())
    );
    assert_eq!(reply(topic_ddl_step(&stmt, &TopicDdlEvent::Failed("boom".to_string()))), Err("boom".to_string()));
    let lenient = TopicDdlStatement::CreateTopic { name: "orders".to_string(), if_not_exists: true, config: config("orders") };
    assert_eq!(reply(topic_ddl_step(&lenient, &TopicDdlEvent::Exists(true))), Ok("Topic 'orders' already exists".to_string()));
}

#[test]
fn altering_and_dropping_topics() {
    let alter = TopicDdlStatement::AlterTopic { name: "orders".to_string(), config: config("orders") };
    assert_eq!(reply(topic_ddl_step(&alter, &TopicDdlEvent::Exists(false))), Err("Topic 'orders' does not exist".to_string()));
    assert!(matches!(topic_ddl_step(&alter, &TopicDdlEvent::Exists(true)), TopicDdlAction::Update(_)));
    let info = created_topic_info(&config("orders"), 1);
    assert_eq!(reply(topic_ddl_step(&alter, &TopicDdlEvent::Updated(info))), Ok("Topic 'orders' altered successfully".to_string()));

    let drop = TopicDdlStatement::DropTopic { name: "orders".to_string(), if_exists: false };
    assert_eq!(reply(topic_ddl_step(&drop, &TopicDdlEvent::Exists(false))), Err("Topic 'orders' does not exist".to_string()));
    assert!(matches!(topic_ddl_step(&drop, &TopicDdlEvent::Exists(true)), TopicDdlAction::Delete(_)));
    assert_eq!(reply(topic_ddl_step(&drop, &TopicDdlEvent::Deleted)), Ok("Topic 'orders' dropped successfully".to_string()));
    let lenient = TopicDdlStatement::DropTopic { name: "orders".to_string(), if_exists: true };
    assert_eq!(reply(topic_ddl_step(&lenient, &TopicDdlEvent::Exists(false))), Ok("Topic 'orders' does not exist".to_string()));
}

#[test]
fn showing_topics() {
    let show = TopicDdlStatement::ShowTopics;
    assert!(matches!(topic_ddl_step(&show, &TopicDdlEvent::Started), TopicDdlAction::List));
    assert_eq!(reply(topic_ddl_step(&show, &TopicDdlEvent::Listed(vec![]))), Ok("No topics found".to_string()));
    let a = created_topic_info(&config("a"), 1);
    let mut b = created_topic_info(&config("b"), 1);
    b.partitions = 1;
    b.replication_factor = 1;
    assert_eq!(
        reply(topic_ddl_step(&show, &TopicDdlEvent::Listed(vec![a, b]))),
        Ok("Topics:\n- a (partitions: 3, replication: 2)\n- b (partitions: 1, replication: 1)\n".to_string())
    );
}

fn limit_of_two_partitions() -> TopicLimitConfig {
    TopicLimitConfig {
        topic_name: "*".to_string(),
        max_partitions: Some(2),
        max_replication_factor: None,
        max_retention_ms: None,
        max_retention_bytes: None,
        max_message_bytes: None,
        max_producer_bytes_per_sec: None,
        max_consumer_bytes_per_sec: None,
        max_request_rate: None,
        description: None,
    }
}

fn managed_admin() -> TopicAdmin {
    let mut permissions = TopicPermissionManager::new();
    permissions.set_user_role("root", UserRole::Admin);
    permissions.set_user_role("reader", UserRole::User);
    let mut quotas = TopicQuotaManager::new("localhost:9092", None);
    quotas.create_topic_limit(&limit_of_two_partitions()).unwrap();
    TopicAdmin::new("localhost:9092").with_permission_manager(permissions).with_quota_manager(quotas)
}

#[test]
fn creating_a_topic_checks_existence_then_permission_then_limits() {
    let admin = managed_admin();
    assert_eq!(admin.create_topic_check(&config("orders"), Some("root"), true), Err("Topic 'orders' already exists".to_string()));
    assert_eq!(
        admin.create_topic_check(&config("orders"), Some("reader"), false),
        Err("User reader does not have Admin permission on topic orders".to_string())
    );
    assert_eq!(
        admin.create_topic_check(&config("orders"), Some("root"), false),
        Err("Topic partition count exceeds limit: 3 > 2".to_string())
    );
    let mut small = config("orders");
    small.partitions = 2;
    assert_eq!(admin.create_topic_check(&small, Some("root"), false), Ok(()));
    assert_eq!(admin.create_topic_check(&small, None, false), Ok(()));
}

#[test]
fn updating_and_deleting_need_an_existing_topic() {
    let admin = managed_admin();
    assert_eq!(admin.update_topic_check(&config("orders"), Some("root"), false), Err("Topic 'orders' does not exist".to_string()));
    assert_eq!(admin.delete_topic_check("orders", Some("root"), false), Err("Topic 'orders' does not exist".to_string()));
    assert_eq!(admin.delete_topic_check("orders", Some("root"), true), Ok(()));
    assert_eq!(
        admin.delete_topic_check("orders", Some("reader"), true),
        Err("User reader does not have Admin permission on topic orders".to_string())
    );
    assert_eq!(
        admin.update_topic_check(&config("orders"), None, true),
        Err("Topic partition count exceeds limit: 3 > 2".to_string())
    );
}

#[test]
fn without_managers_every_change_of_an_existing_topic_passes() {
    let admin = TopicAdmin::new("localhost:9092");
    assert_eq!(admin.update_topic_check(&config("orders"), Some("anyone"), true), Ok(()));
    assert_eq!(admin.check_permission("orders", "anyone", PermissionLevel::Admin), Ok(()));
}

#[test]
fn test_topic_permission_integration() {
    let mut permissions = TopicPermissionManager::new();
    permissions.set_user_role("admin_user", UserRole::Admin);
    permissions.set_topic_permission("test-permission", "write_user", PermissionLevel::Write).unwrap();
    permissions.set_topic_permission("test-permission", "read_user", PermissionLevel::Read).unwrap();
    let admin = TopicAdmin::new("localhost:9092").with_permission_manager(permissions);
    let mut config = config("test-permission");
    config.partitions = 3;
    config.replication_factor = 1;
    assert!(admin.create_topic_check(&config, Some("admin_user"), false).is_ok());
    assert!(admin.update_topic_check(&config, Some("write_user"), true).is_ok());
    let refused = admin.update_topic_check(&config, Some("no_permission_user"), true);
    assert!(refused.unwrap_err().contains("does not have"));
    let refused = admin.delete_topic_check("test-permission", Some("read_user"), true);
    assert!(refused.unwrap_err().contains("does not have"));
    assert!(admin.delete_topic_check("test-permission", Some("admin_user"), true).is_ok());
}
