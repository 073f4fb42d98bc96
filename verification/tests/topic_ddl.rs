use arroyo_control::topic_ddl::{
    try_parse_topic_ddl, AlterOperation, SqlOption, SqlStatement, SqlValue, TopicDdlStatement,
};

fn opt(name: &str, value: SqlValue) -> SqlOption {
    SqlOption { name: name.to_string(), value }
}

fn num(n: &str) -> SqlValue {
    SqlValue::Number(n.to_string())
}

fn text(t: &str) -> SqlValue {
    SqlValue::SingleQuotedString(t.to_string())
}

#[test]
fn test_parse_create_topic() {
    // CREATE TOPIC IF NOT EXISTS my_topic WITH (partitions = 3, replication_factor = 2,
    //   retention_ms = 86400000, cleanup_policy = 'delete')
    let statement = SqlStatement::CreateTable {
        name: vec!["TOPIC".to_string(), "my_topic".to_string()],
        if_not_exists: true,
        with_options: Some(vec![
            opt("partitions", num("3")),
            opt("replication_factor", num("2")),
            opt("retention_ms", num("86400000")),
            opt("cleanup_policy", text("delete")),
        ]),
    };

    let result = try_parse_topic_ddl(&statement).unwrap();
    assert!(result.is_some());

    if let Some(TopicDdlStatement::CreateTopic { name, if_not_exists, config }) = result {
        assert_eq!(name, "my_topic");
        assert!(if_not_exists);
        assert_eq!(config.partitions, 3);
        assert_eq!(config.replication_factor, 2);
        assert_eq!(config.retention_ms, Some(86400000));
        assert_eq!(config.cleanup_policy, "delete");
    } else {
        panic!("Expected CreateTopic statement");
    }
}

#[test]
fn test_parse_alter_topic() {
    // ALTER TOPIC my_topic SET retention_ms = 172800000, cleanup_policy = 'compact'
    let statement = SqlStatement::AlterTable {
        name: vec!["TOPIC".to_string(), "my_topic".to_string()],
        operations: vec![
            AlterOperation::SetOption { name: "retention_ms".to_string(), value: num("172800000") },
            AlterOperation::SetOption { name: "cleanup_policy".to_string(), value: text("compact") },
        ],
    };

    let result = try_parse_topic_ddl(&statement).unwrap();
    assert!(result.is_some());

    if let Some(TopicDdlStatement::AlterTopic { name, config }) = result {
        assert_eq!(name, "my_topic");
        assert_eq!(config.retention_ms, Some(172800000));
        assert_eq!(config.cleanup_policy, "compact");
    } else {
        panic!("Expected AlterTopic statement");
    }
}

#[test]
fn test_parse_drop_topic() {
    // DROP TOPIC IF EXISTS my_topic
    let statement = SqlStatement::Drop {
        object_type: "TOPIC".to_string(),
        if_exists: true,
        names: vec!["my_topic".to_string()],
    };

    let result = try_parse_topic_ddl(&statement).unwrap();
    assert!(result.is_some());

    if let Some(TopicDdlStatement::DropTopic { name, if_exists }) = result {
        assert_eq!(name, "my_topic");
        assert!(if_exists);
    } else {
        panic!("Expected DropTopic statement");
    }
}

#[test]
fn test_parse_show_topics() {
    // SHOW TOPICS
    let statement = SqlStatement::ShowTables { object_type: Some("TOPICS".to_string()) };

    let result = try_parse_topic_ddl(&statement).unwrap();
    assert!(result.is_some());

    if let Some(TopicDdlStatement::ShowTopics) = result {
    } else {
        panic!("Expected ShowTopics statement");
    }
}

#[test]
fn test_parse_non_topic_ddl() {
    // SELECT * FROM my_table
    let statement = SqlStatement::Other;

    let result = try_parse_topic_ddl(&statement).unwrap();
    assert!(result.is_none());
}

#[test]
fn create_topic_defaults_and_fallbacks() {
    let statement = SqlStatement::CreateTable {
        name: vec!["topic".to_string(), "t".to_string()],
        if_not_exists: false,
        with_options: Some(vec![
            opt("PARTITIONS", num("x")),
            opt("retention_bytes", num("99999999999999999999")),
            opt("max_message_bytes", num("-5")),
            opt("description", text("orders")),
            opt("unknown", num("1")),
            opt("cleanup_policy", num("7")),
        ]),
    };
    match try_parse_topic_ddl(&statement).unwrap() {
        Some(TopicDdlStatement::CreateTopic { name, if_not_exists, config }) => {
            assert_eq!(name, "t");
            assert!(!if_not_exists);
            assert_eq!(config.name, "t");
            assert_eq!(config.partitions, 1);
            assert_eq!(config.replication_factor, 1);
            assert_eq!(config.retention_ms, None);
            assert_eq!(config.retention_bytes, Some(-1));
            assert_eq!(config.max_message_bytes, Some(-5));
            assert_eq!(config.cleanup_policy, "delete");
            assert_eq!(config.description.as_deref(), Some("orders"));
        }
        other => panic!("unexpected: {:?}", other),
    }
}

#[test]
fn alter_topic_ignores_sizing() {
    let statement = SqlStatement::AlterTable {
        name: vec!["TOPIC".to_string(), "t".to_string()],
        operations: vec![
            AlterOperation::SetOption { name: "partitions".to_string(), value: num("8") },
            AlterOperation::Other,
        ],
    };
    match try_parse_topic_ddl(&statement).unwrap() {
        Some(TopicDdlStatement::AlterTopic { config, .. }) => assert_eq!(config.partitions, 1),
        other => panic!("unexpected: {:?}", other),
    }
}

#[test]
fn topic_statements_without_a_name_are_errors() {
    let create = SqlStatement::CreateTable { name: vec!["TOPIC".to_string()], if_not_exists: false, with_options: None };
    assert_eq!(try_parse_topic_ddl(&create).unwrap_err(), "Missing topic name in CREATE TOPIC statement");
    let alter = SqlStatement::AlterTable { name: vec!["TOPIC".to_string()], operations: vec![] };
    assert_eq!(try_parse_topic_ddl(&alter).unwrap_err(), "Missing topic name in ALTER TOPIC statement");
    let drop = SqlStatement::Drop { object_type: "TOPIC".to_string(), if_exists: false, names: vec![] };
    assert_eq!(try_parse_topic_ddl(&drop).unwrap_err(), "Missing topic name in DROP TOPIC statement");
}

#[test]
fn table_statements_are_not_topic_statements() {
    let create = SqlStatement::CreateTable { name: vec!["orders".to_string()], if_not_exists: false, with_options: None };
    assert!(try_parse_topic_ddl(&create).unwrap().is_none());
    let drop = SqlStatement::Drop { object_type: "TABLE".to_string(), if_exists: false, names: vec!["x".to_string()] };
    assert!(try_parse_topic_ddl(&drop).unwrap().is_none());
    let show = SqlStatement::ShowTables { object_type: None };
    assert!(try_parse_topic_ddl(&show).unwrap().is_none());
}
