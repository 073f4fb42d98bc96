use arroyo_control::alert::EmailNotifier;
use arroyo_control::operators::{
    make_operator, websocket_from_config, websocket_subscription_messages, source_offset_of, topic_connection, topic_from_config, TopicOperator, topic_from_options, topic_table_type, websocket_description, ConnectionType, TableOffset, TopicTable,
    TopicTableType, analysis_output_schema, comparison_result, completes_at_once, parse_condition, split_words, ComparisonOp, analysis_output_fields, OutputField, OutputFieldKind, AnomalyDetectionMethod, CepOperatorConfig, ConditionType, ForecastingMethod, MovingAverageType, Pattern,
    PatternCondition, PatternType, TimeSeriesAnalysisMethod, TrendAnalysisType,
};
use arroyo_control::operators::{TopicConnector, TwoPhaseCommitSinkOperator, WebsocketConnector};
use arroyo_control::strmap::StringMap;
use std::collections::HashMap;

#[test]
fn analysis_codes() {
    assert_eq!(TimeSeriesAnalysisMethod::from_code(0), Some(TimeSeriesAnalysisMethod::MovingAverage));
    assert_eq!(TimeSeriesAnalysisMethod::from_code(6), Some(TimeSeriesAnalysisMethod::CorrelationAnalysis));
    assert_eq!(TimeSeriesAnalysisMethod::from_code(7), None);
    assert_eq!(MovingAverageType::from_code(1), Some(MovingAverageType::Weighted));
    assert_eq!(MovingAverageType::from_code(-1), None);
    assert_eq!(TrendAnalysisType::from_code(2), Some(TrendAnalysisType::Exponential));
    assert_eq!(AnomalyDetectionMethod::from_code(1), Some(AnomalyDetectionMethod::InterquartileRange));
    assert_eq!(ForecastingMethod::from_code(3), Some(ForecastingMethod::ARIMA));
    assert_eq!(ForecastingMethod::from_code(5), None);
}

#[test]
fn patterns_nest() {
    let leaf = Pattern {
        name: "large_transaction".to_string(),
        pattern_type: PatternType::Singleton,
        condition: PatternCondition {
            condition_type: ConditionType::Simple,
            expression: "amount > 100".to_string(),
            parameters: HashMap::new(),
        },
        sub_patterns: vec![],
        time_constraint: None,
        repetition: Some((2, None)),
        greedy: true,
    };
    let outer = Pattern {
        name: "seq".to_string(),
        pattern_type: PatternType::Sequence,
        condition: PatternCondition { condition_type: ConditionType::Compound, expression: String::new(), parameters: HashMap::new() },
        sub_patterns: vec![leaf],
        time_constraint: Some(std::time::Duration::from_secs(60)),
        repetition: None,
        greedy: false,
    };
    assert_eq!(outer.sub_patterns[0].name, "large_transaction");
    let config = CepOperatorConfig {
        pattern_json: "{}".to_string(),
        time_field: "ts".to_string(),
        output_partial_matches: false,
        match_timeout_ms: 60000,
        allow_overlapping: true,
    };
    assert_eq!(config.clone(), config);
}

#[test]
fn email_notifier_is_built() {
    let n = EmailNotifier::new("smtp.example.com", 587, "user", "pw", "alerts@example.com");
    let debug = format!("{:?}", n);
    assert!(debug.contains("smtp.example.com"));
    assert!(debug.contains("587"));
}

fn names_and_kinds(fields: &[OutputField]) -> Vec<(String, OutputFieldKind)> {
    fields.iter().map(|f| (f.name.clone(), f.kind)).collect()
}

#[test]
fn analysis_adds_columns_by_method() {
    let none: Vec<String> = vec![];
    assert_eq!(
        names_and_kinds(&analysis_output_fields(0, "price", &none).unwrap()),
        vec![("price_ma".to_string(), OutputFieldKind::Float64)]
    );
    assert_eq!(
        names_and_kinds(&analysis_output_fields(2, "price", &none).unwrap()),
        vec![
            ("price_trend".to_string(), OutputFieldKind::Float64),
            ("trend_intercept".to_string(), OutputFieldKind::Float64),
            ("trend_slope".to_string(), OutputFieldKind::Float64),
        ]
    );
    assert_eq!(
        names_and_kinds(&analysis_output_fields(3, "price", &none).unwrap()),
        vec![("is_seasonal".to_string(), OutputFieldKind::Boolean), ("seasonality_period".to_string(), OutputFieldKind::UInt32)]
    );
    assert_eq!(
        names_and_kinds(&analysis_output_fields(5, "v", &none).unwrap()),
        vec![("v_forecast".to_string(), OutputFieldKind::Float64), ("forecast_time".to_string(), OutputFieldKind::TimestampNanos)]
    );
    let fields = vec!["a".to_string(), "b".to_string()];
    assert_eq!(
        names_and_kinds(&analysis_output_fields(6, "v", &fields).unwrap()),
        vec![("correlation_a".to_string(), OutputFieldKind::Float64), ("correlation_b".to_string(), OutputFieldKind::Float64)]
    );
    assert_eq!(analysis_output_fields(7, "v", &none).unwrap_err(), "Invalid time series analysis method: 7");
    assert_eq!(analysis_output_fields(-1, "v", &none).unwrap_err(), "Invalid time series analysis method: -1");
}

fn condition(t: ConditionType, e: &str) -> PatternCondition {
    PatternCondition { condition_type: t, expression: e.to_string(), parameters: HashMap::new() }
}

#[test]
fn words_of_a_condition() {
    assert_eq!(split_words("  amount >\t100 \n"), vec!["amount", ">", "100"]);
    assert_eq!(split_words(""), Vec::<String>::new());
    assert_eq!(split_words("a"), vec!["a"]);
}

#[test]
fn simple_conditions() {
    let c = parse_condition(&condition(ConditionType::Simple, "amount == 100")).unwrap();
    assert_eq!((c.field.as_str(), c.operator, c.value.as_str()), ("amount", ComparisonOp::Equal, "100"));
    let c = parse_condition(&condition(ConditionType::Simple, "amount ~ 100")).unwrap();
    assert_eq!(c.operator, ComparisonOp::Unsupported("~".to_string()));
    assert_eq!(
        parse_condition(&condition(ConditionType::Simple, "amount > 100 extra")).unwrap_err(),
        "Invalid simple condition format: amount > 100 extra"
    );
    assert_eq!(
        parse_condition(&condition(ConditionType::Regex, "a.*")).unwrap_err(),
        "Regex conditions not implemented yet"
    );
    assert_eq!(comparison_result(&ComparisonOp::Equal, true, Ok(0)), Ok(true));
    assert_eq!(comparison_result(&ComparisonOp::NotEqual, true, Ok(0)), Ok(false));
    assert_eq!(comparison_result(&ComparisonOp::Less, true, Ok(-1)), Ok(true));
    assert_eq!(comparison_result(&ComparisonOp::Less, true, Ok(0)), Ok(false));
    assert_eq!(comparison_result(&ComparisonOp::LessEqual, false, Ok(0)), Ok(true));
    assert_eq!(comparison_result(&ComparisonOp::Greater, false, Ok(1)), Ok(true));
    assert_eq!(comparison_result(&ComparisonOp::GreaterEqual, false, Ok(-1)), Ok(false));
    assert_eq!(
        comparison_result(&ComparisonOp::Greater, true, Err("Invalid number: x".to_string())),
        Err("Invalid number: x".to_string())
    );
    assert_eq!(
        comparison_result(&ComparisonOp::Unsupported("~".to_string()), false, Ok(0)).unwrap_err(),
        "Unsupported operator: ~"
    );
    assert!(completes_at_once(&PatternType::Singleton).is_ok());
    assert_eq!(completes_at_once(&PatternType::Sequence).unwrap_err(), "Sequence pattern not implemented yet");
}

#[test]
fn topic_tables_from_options() {
    assert_eq!(topic_table_type("source", None), Ok(TopicTableType::Source { offset: TableOffset::Latest }));
    assert_eq!(topic_table_type("source", Some("earliest")), Ok(TopicTableType::Source { offset: TableOffset::Earliest }));
    assert_eq!(topic_table_type("source", Some("latest")), Ok(TopicTableType::Source { offset: TableOffset::Latest }));
    assert_eq!(topic_table_type("source", Some("middle")), Err("invalid value for source.offset 'middle'".to_string()));
    assert_eq!(topic_table_type("sink", Some("middle")), Ok(TopicTableType::Sink));
    assert_eq!(topic_table_type("lookup", None), Err("type must be one of 'source' or 'sink".to_string()));
    let t = TopicTable { topic: "orders".to_string(), type_: TopicTableType::Sink };
    assert_eq!(topic_connection(&t), (ConnectionType::Sink, "TopicSink<orders>".to_string()));
    let t = TopicTable { topic: "orders".to_string(), type_: TopicTableType::Source { offset: TableOffset::Earliest } };
    assert_eq!(topic_connection(&t), (ConnectionType::Source, "TopicSource<orders>".to_string()));
    assert_eq!(websocket_description("ws://x"), "WebsocketSource<ws://x>");
    assert_eq!(source_offset_of(TableOffset::Earliest), arroyo_control::source::SourceOffset::Earliest);
}

#[test]
fn test_topic_source_config() {
    let connection = topic_from_options("test-connection", "test-topic", "source", Some("earliest"), true, true).unwrap();
    assert_eq!(connection.name, "test-connection");
    assert_eq!(connection.connection_type, ConnectionType::Source);
    assert_eq!(connection.description, "TopicSource<test-topic>");
}

#[test]
fn test_topic_sink_config() {
    let connection = topic_from_options("test-connection", "test-topic", "sink", None, true, true).unwrap();
    assert_eq!(connection.name, "test-connection");
    assert_eq!(connection.connection_type, ConnectionType::Sink);
    assert_eq!(connection.description, "TopicSink<test-topic>");
}

#[test]
fn topic_connections_need_a_schema_with_a_format() {
    assert_eq!(
        topic_from_options("c", "t", "source", None, false, true).err(),
        Some("no schema defined for Topic connection".to_string())
    );
    assert_eq!(
        topic_from_options("c", "t", "sink", None, true, false).err(),
        Some("'format' must be set for Topic connection".to_string())
    );
    assert_eq!(
        topic_from_options("c", "t", "both", None, true, true).err(),
        Some("type must be one of 'source' or 'sink".to_string())
    );
    assert_eq!(
        topic_from_options("c", "t", "source", Some("middle"), true, true).err(),
        Some("invalid value for source.offset 'middle'".to_string())
    );
    let table = TopicTable { topic: "orders".to_string(), type_: TopicTableType::Sink };
    let connection = topic_from_config("sink-conn", &table, true, true).unwrap();
    assert_eq!(connection.description, "TopicSink<orders>");
}

#[test]
fn test_topic_make_operator() {
    let table = TopicTable {
        topic: "test-topic".to_string(),
        type_: TopicTableType::Source { offset: TableOffset::Earliest },
    };
    let operator = make_operator(table, true);
    assert!(operator.is_ok());
}

#[test]
fn topic_operators_carry_their_settings() {
    let source = TopicTable { topic: "in".to_string(), type_: TopicTableType::Source { offset: TableOffset::Latest } };
    match make_operator(source, true).unwrap() {
        TopicOperator::Source { topic, offset_mode, batch_size, prefetch_count } => {
            assert_eq!(topic, "in");
            assert_eq!(offset_mode, arroyo_control::source::SourceOffset::Latest);
            assert_eq!((batch_size, prefetch_count), (100, 1000));
        }
        _ => panic!("expected a source"),
    }
    let sink = TopicTable { topic: "out".to_string(), type_: TopicTableType::Sink };
    match make_operator(sink, true).unwrap() {
        TopicOperator::Sink(s) => {
            assert_eq!(s.topic, "out");
            assert!(s.transactional);
            assert_eq!(s.partitioner.partition_count, 3);
            assert_eq!(s.buffer_size_limit, 1000);
        }
        _ => panic!("expected a sink"),
    }
    let no_format = TopicTable { topic: "x".to_string(), type_: TopicTableType::Sink };
    assert_eq!(make_operator(no_format, false).err().map(|e| e.to_string()), Some("format required for topic sink".to_string()));
}

fn options(pairs: &[(&str, &str)]) -> StringMap<String> {
    let mut m = StringMap::new();
    for (k, v) in pairs {
        m.insert(k.to_string(), v.to_string());
    }
    m
}

#[test]
fn websocket_messages_single_then_indexed() {
    let mut o = options(&[
        ("endpoint", "wss://example.com"),
        ("subscription_messages.1", "second"),
        ("subscription_messages.0", "first"),
        ("subscription_messages.3", "skipped"),
    ]);
    let messages = websocket_subscription_messages(&mut o).unwrap();
    assert_eq!(messages, vec!["first".to_string(), "second".to_string()]);
    assert!(o.contains_key("endpoint"));
    assert!(o.contains_key("subscription_messages.3"));
    assert!(!o.contains_key("subscription_messages.0"));
    assert_eq!(o.len(), 2);

    let mut o = options(&[("subscription_message", "hello")]);
    assert_eq!(websocket_subscription_messages(&mut o).unwrap(), vec!["hello".to_string()]);
    assert!(o.is_empty());

    let mut o = options(&[]);
    assert!(websocket_subscription_messages(&mut o).unwrap().is_empty());
}

#[test]
fn websocket_messages_refuse_both_forms() {
    let mut o = options(&[("subscription_message", "a"), ("subscription_messages.0", "b")]);
    assert_eq!(
        websocket_subscription_messages(&mut o).err(),
        Some("Cannot specify both 'subscription_message' and 'subscription_messages.0'".to_string())
    );
    assert!(!o.contains_key("subscription_message"));
    assert!(o.contains_key("subscription_messages.0"));
}

#[test]
fn websocket_connections_need_a_schema_with_a_format() {
    let c = websocket_from_config("ws", "wss://feed", true, true).unwrap();
    assert_eq!(c.description, "WebsocketSource<wss://feed>");
    assert_eq!(c.connection_type, ConnectionType::Source);
    assert_eq!(websocket_from_config("ws", "e", false, true).err(), Some("no schema defined for WebSocket connection".to_string()));
    assert_eq!(websocket_from_config("ws", "e", true, false).err(), Some("'format' must be set for WebSocket connection".to_string()));
}

#[test]
fn two_phase_commit_operator_keeps_its_transaction() {
    let mut op: TwoPhaseCommitSinkOperator<Vec<u8>, String> = TwoPhaseCommitSinkOperator::new(vec![1, 2]);
    assert_eq!(op.transaction_id(), None);
    assert_eq!(op.inner(), &vec![1, 2]);
    op.inner_mut().push(3);
    assert_eq!(op.inner(), &vec![1, 2, 3]);
    op.set_transaction_id("tx-7".to_string());
    assert_eq!(op.transaction_id(), Some("tx-7"));
}

#[test]
fn test_topic_connector_metadata() {
    let connector = TopicConnector {};
    let metadata = connector.metadata();
    assert_eq!(metadata.id, "topic");
    assert_eq!(metadata.name, "Topic");
    assert!(metadata.source);
    assert!(metadata.sink);
    assert!(!metadata.hidden);
}

#[test]
fn connector_metadata_and_table_types() {
    let ws = WebsocketConnector {}.metadata();
    assert_eq!(ws.id, "websocket");
    assert!(ws.source && !ws.sink && ws.testing);
    assert_eq!(WebsocketConnector {}.table_type(), ConnectionType::Source);
    let sink = TopicTable { topic: "t".to_string(), type_: TopicTableType::Sink };
    assert_eq!(TopicConnector {}.table_type(&sink), ConnectionType::Sink);
    assert_eq!(TopicConnector {}.metadata().description, "Read or write from Arroyo topics");
}

#[test]
fn analysis_output_schema_appends_to_the_input() {
    let input = vec!["id".to_string(), "ts".to_string(), "price".to_string()];
    let (names, ts, keys) = analysis_output_schema(&input, Some(1), &vec![0], 2, "price", &vec![]).unwrap();
    assert_eq!(names, vec!["id", "ts", "price", "price_trend", "trend_intercept", "trend_slope"]);
    assert_eq!(ts, Some(1));
    assert_eq!(keys, vec![0]);
    let corr = vec!["a".to_string(), "b".to_string()];
    let (names, ts, keys) = analysis_output_schema(&input, None, &vec![], 6, "price", &corr).unwrap();
    assert_eq!(names, vec!["id", "ts", "price", "correlation_a", "correlation_b"]);
    assert_eq!(ts, None);
    assert!(keys.is_empty());
    assert_eq!(
        analysis_output_schema(&input, Some(1), &vec![], 7, "price", &corr),
        Err("Invalid time series analysis method: 7".to_string())
    );
}
