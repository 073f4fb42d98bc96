use arroyo_control::permission::{PermissionLevel, TopicPermission, TopicPermissionManager, UserRole};

#[test]
fn permission_test_permission_level_includes() {
    assert!(PermissionLevel::Admin.includes(&PermissionLevel::Read));
    assert!(PermissionLevel::Admin.includes(&PermissionLevel::Write));
    assert!(PermissionLevel::Admin.includes(&PermissionLevel::Admin));

    assert!(PermissionLevel::Write.includes(&PermissionLevel::Read));
    assert!(PermissionLevel::Write.includes(&PermissionLevel::Write));
    assert!(!PermissionLevel::Write.includes(&PermissionLevel::Admin));

    assert!(PermissionLevel::Read.includes(&PermissionLevel::Read));
    assert!(!PermissionLevel::Read.includes(&PermissionLevel::Write));
    assert!(!PermissionLevel::Read.includes(&PermissionLevel::Admin));
}

#[test]
fn permission_test_user_role_default_permission() {
    assert_eq!(UserRole::User.default_permission(), PermissionLevel::Read);
    assert_eq!(UserRole::Admin.default_permission(), PermissionLevel::Admin);
}

#[test]
fn permission_tests_test_permission_level_includes() {
    assert!(PermissionLevel::Admin.includes(&PermissionLevel::Read));
    assert!(PermissionLevel::Admin.includes(&PermissionLevel::Write));
    assert!(PermissionLevel::Admin.includes(&PermissionLevel::Admin));

    assert!(PermissionLevel::Write.includes(&PermissionLevel::Read));
    assert!(PermissionLevel::Write.includes(&PermissionLevel::Write));
    assert!(!PermissionLevel::Write.includes(&PermissionLevel::Admin));

    assert!(PermissionLevel::Read.includes(&PermissionLevel::Read));
    assert!(!PermissionLevel::Read.includes(&PermissionLevel::Write));
    assert!(!PermissionLevel::Read.includes(&PermissionLevel::Admin));
}

#[test]
fn permission_tests_test_user_role_default_permission() {
    assert_eq!(UserRole::User.default_permission(), PermissionLevel::Read);
    assert_eq!(UserRole::Admin.default_permission(), PermissionLevel::Admin);
}

#[test]
fn test_topic_permission_manager() {
    let mut manager = TopicPermissionManager::new();

    manager.set_user_role("user1", UserRole::User);
    manager.set_user_role("admin1", UserRole::Admin);

    manager.set_topic_permission("topic1", "user1", PermissionLevel::Write).unwrap();
    manager.set_topic_permission("topic2", "user1", PermissionLevel::Read).unwrap();

    assert!(manager.check_permission("topic1", "user1", PermissionLevel::Read).is_ok());
    assert!(manager.check_permission("topic1", "user1", PermissionLevel::Write).is_ok());
    assert!(manager.check_permission("topic1", "user1", PermissionLevel::Admin).is_err());

    assert!(manager.check_permission("topic2", "user1", PermissionLevel::Read).is_ok());
    assert!(manager.check_permission("topic2", "user1", PermissionLevel::Write).is_err());

    assert!(manager.check_permission("topic1", "admin1", PermissionLevel::Admin).is_ok());
    assert!(manager.check_permission("topic2", "admin1", PermissionLevel::Admin).is_ok());
    assert!(manager.check_permission("topic3", "admin1", PermissionLevel::Admin).is_ok());

    let user1_read_topics = manager.get_accessible_topics("user1", PermissionLevel::Read);
    assert!(user1_read_topics.contains(&"topic1".to_string()));
    assert!(user1_read_topics.contains(&"topic2".to_string()));

    let user1_write_topics = manager.get_accessible_topics("user1", PermissionLevel::Write);
    assert!(user1_write_topics.contains(&"topic1".to_string()));
    assert!(!user1_write_topics.contains(&"topic2".to_string()));
}

#[test]
fn test_permission_manager_basic() {
    let mut manager = TopicPermissionManager::new();

    manager.set_user_role("user1", UserRole::User);
    manager.set_user_role("admin1", UserRole::Admin);

    assert_eq!(manager.get_user_role("user1"), UserRole::User);
    assert_eq!(manager.get_user_role("admin1"), UserRole::Admin);
    assert_eq!(manager.get_user_role("unknown"), UserRole::User);
}

#[test]
fn test_topic_permission_setting() {
    let mut manager = TopicPermissionManager::new();

    manager.set_topic_permission("topic1", "user1", PermissionLevel::Write).unwrap();
    manager.set_topic_permission("topic2", "user1", PermissionLevel::Read).unwrap();
    manager.set_topic_permission("topic3", "user2", PermissionLevel::Admin).unwrap();

    assert_eq!(manager.get_topic_permission("topic1", "user1"), PermissionLevel::Write);
    assert_eq!(manager.get_topic_permission("topic2", "user1"), PermissionLevel::Read);
    assert_eq!(manager.get_topic_permission("topic3", "user2"), PermissionLevel::Admin);

    assert_eq!(manager.get_topic_permission("topic1", "user3"), PermissionLevel::Read);

    manager.set_user_role("user3", UserRole::Admin);
    assert_eq!(manager.get_topic_permission("topic1", "user3"), PermissionLevel::Admin);
}

#[test]
fn test_permission_check() {
    let mut manager = TopicPermissionManager::new();

    manager.set_user_role("admin1", UserRole::Admin);
    manager.set_topic_permission("topic1", "user1", PermissionLevel::Write).unwrap();
    manager.set_topic_permission("topic2", "user1", PermissionLevel::Read).unwrap();

    assert!(manager.check_permission("topic1", "user1", PermissionLevel::Read).is_ok());
    assert!(manager.check_permission("topic1", "user1", PermissionLevel::Write).is_ok());
    assert!(manager.check_permission("topic1", "user1", PermissionLevel::Admin).is_err());

    assert!(manager.check_permission("topic2", "user1", PermissionLevel::Read).is_ok());
    assert!(manager.check_permission("topic2", "user1", PermissionLevel::Write).is_err());

    assert!(manager.check_permission("topic1", "admin1", PermissionLevel::Admin).is_ok());
    assert!(manager.check_permission("topic2", "admin1", PermissionLevel::Admin).is_ok());
    assert!(manager.check_permission("topic3", "admin1", PermissionLevel::Admin).is_ok());
}

#[test]
fn test_accessible_topics() {
    let mut manager = TopicPermissionManager::new();

    manager.set_user_role("admin1", UserRole::Admin);
    manager.set_topic_permission("topic1", "user1", PermissionLevel::Write).unwrap();
    manager.set_topic_permission("topic2", "user1", PermissionLevel::Read).unwrap();
    manager.set_topic_permission("topic3", "user2", PermissionLevel::Admin).unwrap();

    let user1_read_topics = manager.get_accessible_topics("user1", PermissionLevel::Read);
    assert_eq!(user1_read_topics.len(), 2);
    assert!(user1_read_topics.contains(&"topic1".to_string()));
    assert!(user1_read_topics.contains(&"topic2".to_string()));

    let user1_write_topics = manager.get_accessible_topics("user1", PermissionLevel::Write);
    assert_eq!(user1_write_topics.len(), 1);
    assert!(user1_write_topics.contains(&"topic1".to_string()));

    let user2_admin_topics = manager.get_accessible_topics("user2", PermissionLevel::Admin);
    assert_eq!(user2_admin_topics.len(), 1);
    assert!(user2_admin_topics.contains(&"topic3".to_string()));

    let admin_topics = manager.get_accessible_topics("admin1", PermissionLevel::Admin);
    assert_eq!(admin_topics.len(), 3);
    assert!(admin_topics.contains(&"topic1".to_string()));
    assert!(admin_topics.contains(&"topic2".to_string()));
    assert!(admin_topics.contains(&"topic3".to_string()));
}

#[test]
fn refusal_message_names_user_level_and_topic() {
    let manager = TopicPermissionManager::new();
    let err = manager.check_permission("orders", "bob", PermissionLevel::Write).unwrap_err();
    assert_eq!(err, "User bob does not have Write permission on topic orders");
}

#[test]
fn setting_a_level_again_replaces_it() {
    let mut manager = TopicPermissionManager::new();
    manager.set_topic_permission("t", "u", PermissionLevel::Admin).unwrap();
    manager.set_topic_permission("t", "u", PermissionLevel::Read).unwrap();
    assert_eq!(manager.get_topic_permission("t", "u"), PermissionLevel::Read);
    let record = TopicPermission {
        topic_name: "t".to_string(),
        user_id: "u".to_string(),
        permission: PermissionLevel::Read,
    };
    assert_eq!(record.permission, manager.get_topic_permission("t", "u"));
}
