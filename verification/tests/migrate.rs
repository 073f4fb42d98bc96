use arroyo_control::migrate::{
    partition_progress_reports, target_topic_config, MigrationConfig, MigrationMode, MigrationStatus, PartitionProgress, ReplicationMode, TopicMigrator,
};

#[test]
fn test_migration_config() {
    let config = MigrationConfig::default();
    assert_eq!(config.migration_mode, MigrationMode::Full);
    assert_eq!(config.replication_mode, ReplicationMode::OneTime);
    assert_eq!(config.batch_size, 1000);
    assert_eq!(config.preserve_timestamps, true);
    assert_eq!(config.preserve_partitions, true);
    assert_eq!(config.max_retries, 3);
}

#[test]
fn test_migration_progress() {
    let config = MigrationConfig {
        source_topic: "test-source".to_string(),
        target_topic: "test-target".to_string(),
        source_server: "source-server".to_string(),
        target_server: "target-server".to_string(),
        ..MigrationConfig::default()
    };

    assert_eq!(config.source_topic, "test-source");
    assert_eq!(config.target_topic, "test-target");
}

fn config() -> MigrationConfig {
    MigrationConfig {
        source_topic: "a".to_string(),
        target_topic: "b".to_string(),
        ..MigrationConfig::default()
    }
}

#[test]
fn started_migration_runs_and_can_be_paused_and_resumed() {
    let mut migrator = TopicMigrator::new("source-server", "target-server");
    let id = migrator.start_migration(config());
    assert!(id.starts_with("migration-"));
    assert_eq!(id.len(), 46);
    let progress = migrator.get_migration_progress(&id).unwrap();
    assert_eq!(progress.status, MigrationStatus::Running);
    assert_eq!(progress.id, id);
    assert_eq!(progress.config.source_topic, "a");
    assert!(progress.end_time.is_none());

    migrator.pause_migration(&id).unwrap();
    assert_eq!(migrator.get_migration_progress(&id).unwrap().status, MigrationStatus::Paused);
    assert_eq!(
        migrator.pause_migration(&id).unwrap_err(),
        "Migration is not running, current status: Paused"
    );
    migrator.resume_migration(&id).unwrap();
    assert_eq!(migrator.get_migration_progress(&id).unwrap().status, MigrationStatus::Running);
    assert_eq!(
        migrator.resume_migration(&id).unwrap_err(),
        "Migration is not paused, current status: Running"
    );
}

#[test]
fn cancelled_migration_fails_and_stays_failed() {
    let mut migrator = TopicMigrator::with_admins("s".to_string(), "t".to_string());
    let id = migrator.start_migration(config());
    migrator.cancel_migration(&id).unwrap();
    let progress = migrator.get_migration_progress(&id).unwrap();
    assert_eq!(progress.status, MigrationStatus::Failed);
    assert_eq!(progress.error_message.as_deref(), Some("Migration cancelled by user"));
    assert!(progress.end_time.is_some());
    assert_eq!(
        migrator.cancel_migration(&id).unwrap_err(),
        "Migration cannot be cancelled, current status: Failed"
    );
    assert_eq!(
        migrator.resume_migration(&id).unwrap_err(),
        "Migration is not paused, current status: Failed"
    );
}

#[test]
fn unknown_migration_is_reported() {
    let mut migrator = TopicMigrator::new("s", "t");
    assert_eq!(migrator.pause_migration("nope").unwrap_err(), "Migration not found: nope");
    assert_eq!(migrator.resume_migration("nope").unwrap_err(), "Migration not found: nope");
    assert_eq!(migrator.cancel_migration("nope").unwrap_err(), "Migration not found: nope");
    assert!(migrator.get_migration_progress("nope").is_none());
}

#[test]
fn status_and_progress_updates() {
    let mut migrator = TopicMigrator::new("s", "t");
    let id = migrator.start_migration(config());
    migrator.update_migration_progress(&id, 0, 10, 5, 500);
    migrator.update_migration_progress(&id, 0, 20, 7, 700);
    let progress = migrator.get_migration_progress(&id).unwrap();
    assert_eq!(progress.processed_messages, 12);
    assert_eq!(progress.processed_bytes, 1200);
    assert!(progress.partition_progress.is_empty());

    migrator.update_migration_status(&id, MigrationStatus::Completed, Some("done".to_string()));
    let progress = migrator.get_migration_progress(&id).unwrap();
    assert_eq!(progress.status, MigrationStatus::Completed);
    assert_eq!(progress.error_message.as_deref(), Some("done"));
    assert!(progress.end_time.is_some());
    let _unused = PartitionProgress {
        partition_id: 0,
        start_offset: 0,
        current_offset: 0,
        end_offset: None,
        processed_messages: 0,
        processed_bytes: 0,
    };
}

#[test]
fn all_migrations_and_clone() {
    let mut migrator = TopicMigrator::new("s", "t");
    let a = migrator.start_migration(config());
    let b = migrator.start_migration(config());
    assert_ne!(a, b);
    let all = migrator.get_all_migrations();
    assert_eq!(all.len(), 2);
    let copy = migrator.clone();
    assert_eq!(copy.get_all_migrations().len(), 2);
    assert_eq!(copy.get_migration_progress(&a).unwrap().id, a);
}

#[test]
fn target_topic_copies_the_source_settings() {
    let source = arroyo_control::topic_admin::topic_info_from_metadata("orders", 6, Some(3), 7200);
    let c = target_topic_config("orders", "orders-copy", &source);
    assert_eq!(c.name, "orders-copy");
    assert_eq!(c.partitions, 6);
    assert_eq!(c.replication_factor, 3);
    assert_eq!(c.retention_ms, Some(86400000));
    assert_eq!(c.cleanup_policy, "delete");
    assert_eq!(c.description, Some("Migrated from orders".to_string()));
}

#[test]
fn progress_reports_by_batch() {
    assert_eq!(partition_progress_reports(400), vec![(400, 400, 40000), (800, 400, 40000)]);
    assert_eq!(partition_progress_reports(1000), vec![(1000, 1000, 100000)]);
    assert_eq!(partition_progress_reports(1001), vec![]);
    assert_eq!(partition_progress_reports(250).len(), 4);
}
