use arroyo_control::queue_dml::{
    consume_report, produce_messages, produced_report, try_parse_queue_dml, CteOption, CteOptionValue, LimitValue, QueryBody,
    QueueCte, QueueDmlStatement, QueueSqlStatement, QueueValue,
};

type Statement = QueueSqlStatement<String, String>;

fn names(v: &[&str]) -> Vec<String> {
    v.iter().map(|s| s.to_string()).collect()
}

fn cte(alias: &str, from: &str, columns: Option<&[&str]>, options: Vec<CteOption>) -> QueueCte {
    QueueCte { alias: alias.to_string(), from: Some(from.to_string()), columns: columns.map(names), options }
}

fn ident_option(name: &str, value: &str) -> CteOption {
    CteOption { name: name.to_string(), value: CteOptionValue::Identifier(value.to_string()) }
}

fn text_option(name: &str, value: &str) -> CteOption {
    CteOption { name: name.to_string(), value: CteOptionValue::SingleQuotedString(value.to_string()) }
}

fn rows(n: usize) -> Vec<Vec<String>> {
    (0..n).map(|i| vec![format!("{}", i + 1), format!("'item{}'", i + 1), format!("{}", (i + 1) * 100)]).collect()
}

fn produce(ctes: Vec<QueueCte>, n: usize) -> Statement {
    QueueSqlStatement::NestedQuery { with: Some(ctes), body: QueryBody::Values(rows(n)), selection: None, limit: None }
}

fn consume(ctes: Vec<QueueCte>, selection: Option<String>, limit: Option<LimitValue>) -> Statement {
    QueueSqlStatement::NestedQuery {
        with: Some(ctes),
        body: QueryBody::Query("SELECT * FROM table".to_string()),
        selection,
        limit,
    }
}

#[test]
fn test_parse_produce() {
    let statement = produce(
        vec![cte("produce", "my_topic", Some(&["id", "name", "value"]), vec![ident_option("key", "id")])],
        3,
    );
    let result = try_parse_queue_dml(statement).unwrap();
    assert!(result.is_some());
    if let Some(QueueDmlStatement::Produce { topic, columns, key_column_index, values, query }) = result {
        assert_eq!(topic, "my_topic");
        assert_eq!(columns, vec!["id", "name", "value"]);
        assert_eq!(key_column_index, Some(0));
        assert!(values.is_some());
        assert!(query.is_none());
        assert_eq!(values.unwrap().len(), 3);
    } else {
        panic!("Expected Produce statement");
    }
}

#[test]
fn test_parse_produce_without_key() {
    let statement = produce(vec![cte("PRODUCE", "my_topic", Some(&["id", "name", "value"]), vec![])], 2);
    let result = try_parse_queue_dml(statement).unwrap();
    assert!(result.is_some());
    if let Some(QueueDmlStatement::Produce { topic, columns, key_column_index, values, query }) = result {
        assert_eq!(topic, "my_topic");
        assert_eq!(columns, vec!["id", "name", "value"]);
        assert_eq!(key_column_index, None);
        assert!(values.is_some());
        assert!(query.is_none());
        assert_eq!(values.unwrap().len(), 2);
    } else {
        panic!("Expected Produce statement");
    }
}

#[test]
fn test_parse_produce_with_query() {
    let statement: Statement = QueueSqlStatement::NestedQuery {
        with: Some(vec![cte("PRODUCE", "my_topic", Some(&["id", "name", "value"]), vec![ident_option("key", "id")])]),
        body: QueryBody::Query("SELECT id, name, value FROM my_table WHERE value > 100".to_string()),
        selection: None,
        limit: None,
    };
    let result = try_parse_queue_dml(statement).unwrap();
    assert!(result.is_some());
    if let Some(QueueDmlStatement::Produce { topic, columns, key_column_index, values, query }) = result {
        assert_eq!(topic, "my_topic");
        assert_eq!(columns, vec!["id", "name", "value"]);
        assert_eq!(key_column_index, Some(0));
        assert!(values.is_none());
        assert!(query.is_some());
    } else {
        panic!("Expected Produce statement");
    }
}

#[test]
fn test_parse_consume() {
    let statement = consume(
        vec![cte("consume", "my_topic", None, vec![text_option("group_id", "my_group")])],
        Some("value > 100".to_string()),
        Some(LimitValue::Number("10".to_string())),
    );
    let result = try_parse_queue_dml(statement).unwrap();
    assert!(result.is_some());
    if let Some(QueueDmlStatement::Consume { topic, group_id, filter, limit }) = result {
        assert_eq!(topic, "my_topic");
        assert_eq!(group_id, Some("my_group".to_string()));
        assert!(filter.is_some());
        assert_eq!(limit, Some(10));
    } else {
        panic!("Expected Consume statement");
    }
}

#[test]
fn test_parse_consume_without_options() {
    let statement = consume(vec![cte("CONSUME", "my_topic", None, vec![])], None, None);
    let result = try_parse_queue_dml(statement).unwrap();
    assert!(result.is_some());
    if let Some(QueueDmlStatement::Consume { topic, group_id, filter, limit }) = result {
        assert_eq!(topic, "my_topic");
        assert_eq!(group_id, None);
        assert_eq!(filter, None);
        assert_eq!(limit, None);
    } else {
        panic!("Expected Consume statement");
    }
}

#[test]
fn test_parse_non_queue_dml() {
    let statement: Statement = QueueSqlStatement::Other;
    let result = try_parse_queue_dml(statement).unwrap();
    assert!(result.is_none());
}

#[test]
fn produce_needs_columns() {
    let statement = produce(vec![cte("produce", "my_topic", None, vec![])], 1);
    let result = try_parse_queue_dml(statement);
    assert_eq!(result.err(), Some("Missing columns in PRODUCE statement".to_string()));
}

#[test]
fn produce_key_must_be_a_listed_column() {
    let statement = produce(
        vec![cte("produce", "my_topic", Some(&["id", "name"]), vec![ident_option("KEY", "missing")])],
        1,
    );
    let result = try_parse_queue_dml(statement);
    assert_eq!(result.err(), Some("Key column 'missing' not found in column list".to_string()));
}

#[test]
fn produce_last_key_option_counts() {
    let statement = produce(
        vec![cte(
            "produce",
            "t",
            Some(&["id", "name", "value"]),
            vec![ident_option("key", "id"), text_option("key", "ignored"), ident_option("Key", "value")],
        )],
        1,
    );
    match try_parse_queue_dml(statement).unwrap() {
        Some(QueueDmlStatement::Produce { key_column_index, .. }) => assert_eq!(key_column_index, Some(2)),
        _ => panic!("Expected Produce statement"),
    }
}

#[test]
fn the_first_statement_expression_with_a_source_is_used() {
    let mut without_source = cte("produce", "unused", Some(&["a"]), vec![]);
    without_source.from = None;
    let statement = produce(
        vec![without_source, cte("other", "x", None, vec![]), cte("Produce", "second", Some(&["b"]), vec![])],
        1,
    );
    match try_parse_queue_dml(statement).unwrap() {
        Some(QueueDmlStatement::Produce { topic, columns, .. }) => {
            assert_eq!(topic, "second");
            assert_eq!(columns, vec!["b"]);
        }
        _ => panic!("Expected Produce statement"),
    }
}

#[test]
fn values_without_produce_is_not_a_queue_statement() {
    let statement = produce(vec![cte("consume", "my_topic", None, vec![])], 1);
    assert!(try_parse_queue_dml(statement).unwrap().is_none());
}

#[test]
fn consume_limit_that_is_not_a_number_is_dropped() {
    let statement = consume(
        vec![cte("consume", "t", None, vec![text_option("group_id", "a"), text_option("GROUP_ID", "b")])],
        None,
        Some(LimitValue::Number("ten".to_string())),
    );
    match try_parse_queue_dml(statement).unwrap() {
        Some(QueueDmlStatement::Consume { group_id, limit, .. }) => {
            assert_eq!(group_id, Some("b".to_string()));
            assert_eq!(limit, None);
        }
        _ => panic!("Expected Consume statement"),
    }
}

#[test]
fn consume_over_a_table() {
    let statement: Statement = QueueSqlStatement::NestedQuery {
        with: Some(vec![cte("consume", "t", None, vec![])]),
        body: QueryBody::Table,
        selection: None,
        limit: Some(LimitValue::Number("3".to_string())),
    };
    match try_parse_queue_dml(statement).unwrap() {
        Some(QueueDmlStatement::Consume { topic, limit, .. }) => {
            assert_eq!(topic, "t");
            assert_eq!(limit, Some(3));
        }
        _ => panic!("Expected Consume statement"),
    }
}

#[test]
fn a_query_body_with_produce_and_consume_is_a_produce() {
    let statement: Statement = QueueSqlStatement::NestedQuery {
        with: Some(vec![cte("consume", "c", None, vec![]), cte("produce", "p", Some(&["a"]), vec![])]),
        body: QueryBody::Query("SELECT a FROM t".to_string()),
        selection: None,
        limit: None,
    };
    match try_parse_queue_dml(statement).unwrap() {
        Some(QueueDmlStatement::Produce { topic, query, .. }) => {
            assert_eq!(topic, "p");
            assert_eq!(query, Some("SELECT a FROM t".to_string()));
        }
        _ => panic!("Expected Produce statement"),
    }
}

#[test]
fn a_table_body_is_no_produce() {
    let statement: Statement = QueueSqlStatement::NestedQuery {
        with: Some(vec![cte("produce", "t", Some(&["a"]), vec![])]),
        body: QueryBody::Table,
        selection: None,
        limit: None,
    };
    assert!(try_parse_queue_dml(statement).unwrap().is_none());
}

#[test]
fn an_other_body_is_neither_statement() {
    let statement: Statement = QueueSqlStatement::NestedQuery {
        with: Some(vec![cte("produce", "t", Some(&["a"]), vec![])]),
        body: QueryBody::Other,
        selection: None,
        limit: None,
    };
    assert!(try_parse_queue_dml(statement).unwrap().is_none());
}

fn text(s: &str) -> QueueValue {
    QueueValue::Text(s.to_string())
}

fn describe(v: &QueueValue) -> String {
    match v {
        QueueValue::Integer(i) => format!("{}", i),
        QueueValue::Number(n) => n.clone(),
        QueueValue::Text(t) => format!("'{}'", t),
        QueueValue::Bool(b) => format!("{}", b),
        QueueValue::Null => "null".to_string(),
    }
}

#[test]
fn produced_messages_are_keyed_by_the_key_column() {
    let columns = names(&["id", "name", "value"]);
    let rows = vec![
        vec![QueueValue::Integer(1), text("item1"), QueueValue::Number("1.5".to_string())],
        vec![QueueValue::Integer(2), text("item2"), QueueValue::Null],
    ];
    let (messages, outcome) = produce_messages(&columns, Some(0), &rows);
    assert_eq!(outcome, Ok(()));
    assert_eq!(messages.len(), 2);
    assert_eq!(messages[0].0.as_ref().map(describe), Some("1".to_string()));
    let pairs: Vec<(String, String)> = messages[0].1.iter().map(|(c, v)| (c.clone(), describe(v))).collect();
    assert_eq!(pairs, vec![("name".to_string(), "'item1'".to_string()), ("value".to_string(), "1.5".to_string())]);
    let pairs: Vec<(String, String)> = messages[1].1.iter().map(|(c, v)| (c.clone(), describe(v))).collect();
    assert_eq!(pairs, vec![("name".to_string(), "'item2'".to_string()), ("value".to_string(), "null".to_string())]);
}

#[test]
fn produced_messages_without_key_hold_every_column() {
    let columns = names(&["a", "b", "c"]);
    let rows = vec![vec![QueueValue::Bool(true), text("x")]];
    let (messages, outcome) = produce_messages(&columns, None, &rows);
    assert_eq!(outcome, Ok(()));
    assert!(messages[0].0.is_none());
    let pairs: Vec<(String, String)> = messages[0].1.iter().map(|(c, v)| (c.clone(), describe(v))).collect();
    assert_eq!(pairs, vec![("a".to_string(), "true".to_string()), ("b".to_string(), "'x'".to_string())]);
}

#[test]
fn a_row_without_the_key_column_is_refused() {
    let columns = names(&["a", "b", "c"]);
    let rows = vec![
        vec![QueueValue::Integer(1), QueueValue::Integer(2), QueueValue::Integer(3)],
        vec![QueueValue::Integer(4)],
        vec![QueueValue::Integer(5), QueueValue::Integer(6), QueueValue::Integer(7)],
    ];
    let (messages, outcome) = produce_messages(&columns, Some(2), &rows);
    assert_eq!(messages.len(), 1);
    assert_eq!(messages[0].0.as_ref().map(describe), Some("3".to_string()));
    assert_eq!(outcome, Err("Key column index out of bounds".to_string()));
}

#[test]
fn produced_report_names_the_count_and_topic() {
    assert_eq!(produced_report(2, "my_topic"), "Produced 2 messages to topic 'my_topic'");
}

#[test]
fn consumed_messages_are_shown_up_to_the_limit() {
    let messages: Vec<(Option<Vec<u8>>, Vec<u8>)> = vec![
        (Some(b"\"k1\"".to_vec()), b"{\"a\":1}".to_vec()),
        (None, vec![0xff, 0xfe]),
        (Some(vec![0x00, 0x01, 0x02]), b"[1, 2]".to_vec()),
    ];
    assert_eq!(
        consume_report("events", &messages, None),
        "Consumed 3 messages from topic 'events':\n1. Key: \"k1\", Value: {\"a\":1}\n2. Key: null, Value: <binary data of 2 bytes>\n3. Key: <binary key of 3 bytes>, Value: [1,2]\n"
    );
    assert_eq!(
        consume_report("events", &messages, Some(1)),
        "Consumed 1 messages from topic 'events':\n1. Key: \"k1\", Value: {\"a\":1}\n"
    );
    let many: Vec<(Option<Vec<u8>>, Vec<u8>)> = (0..12).map(|i| (None, format!("{}", i).into_bytes())).collect();
    assert!(consume_report("t", &many, None).starts_with("Consumed 10 messages from topic 't':\n"));
}
