use arroyo_control::cep::{cep_operator_with_config, first_match_row, CepOperator, EngineWatermark, EventRow, PatternMatchingEngine};
use arroyo_control::operators::{CepOperatorConfig, ConditionType, Pattern, PatternCondition, PatternType};
use std::collections::HashMap;

const SECOND: i64 = 1_000_000_000;

fn pattern(kind: PatternType, expression: &str) -> Pattern {
    Pattern {
        name: "large_transaction".to_string(),
        pattern_type: kind,
        condition: PatternCondition {
            condition_type: ConditionType::Simple,
            expression: expression.to_string(),
            parameters: HashMap::new(),
        },
        sub_patterns: vec![],
        time_constraint: None,
        repetition: None,
        greedy: true,
    }
}

fn row(tx: &str, user: &str, amount: &str, t: i64) -> EventRow {
    EventRow {
        field_names: vec!["transaction_id".to_string(), "user_id".to_string(), "amount".to_string(), "transaction_time".to_string()],
        field_texts: vec![
            format!("StringArray\n[\n  \"{}\",\n]", tx),
            format!("StringArray\n[\n  \"{}\",\n]", user),
            format!("PrimitiveArray<Float64>\n[\n  {},\n]", amount),
            format!("PrimitiveArray<Timestamp(Nanosecond, None)>\n[\n  {},\n]", t),
        ],
        field_numbers: vec![None, None, Some(amount.to_string()), Some(t.to_string())],
        timestamp_nanos: t,
    }
}

fn batch(start: i64) -> Vec<EventRow> {
    vec![
        row("tx1", "user1", "50.0", start),
        row("tx2", "user2", "150.0", start + 10 * SECOND),
        row("tx3", "user1", "200.0", start + 20 * SECOND),
    ]
}

#[test]
fn equality_matches_each_event_that_contains_the_value() {
    let mut engine = PatternMatchingEngine::new(pattern(PatternType::Singleton, "user_id = user1"), 3, 60_000, true);
    assert_eq!(engine.time_field_index(), 3);
    let matches = engine.process_batch(batch(1_000)).unwrap();
    assert_eq!(matches.len(), 2);
    assert_eq!(matches[0].pattern_name, "large_transaction");
    assert_eq!(matches[0].events.len(), 1);
    assert_eq!(matches[0].start_time, 1_000);
    assert_eq!(matches[0].end_time, 1_000);
    assert_eq!(matches[1].start_time, (1_000 + 20 * SECOND) as u128);
    assert_eq!(matches[1].events[0].field_texts[0], "StringArray\n[\n  \"tx3\",\n]");
    let again = engine.process_batch(vec![]).unwrap();
    assert!(again.is_empty());
}

#[test]
fn inequality_matches_the_other_events() {
    let mut engine = PatternMatchingEngine::new(pattern(PatternType::Singleton, "user_id != user1"), 3, 60_000, true);
    let matches = engine.process_batch(batch(0)).unwrap();
    assert_eq!(matches.len(), 1);
    assert_eq!(matches[0].start_time, (10 * SECOND) as u128);
}

#[test]
fn test_pattern_matching_engine() {
    let mut engine = PatternMatchingEngine::new(pattern(PatternType::Singleton, "amount > 100"), 3, 60_000, true);
    let now = 1_700_000_000 * SECOND;
    let matches = engine.process_batch(batch(now)).unwrap();
    assert_eq!(matches.len(), 2);
    assert_eq!(matches[0].pattern_name, "large_transaction");
    assert_eq!(matches[1].pattern_name, "large_transaction");
    assert_eq!(matches[0].events[0].field_texts[0], "StringArray\n[\n  \"tx2\",\n]");
    assert_eq!(matches[1].events[0].field_texts[0], "StringArray\n[\n  \"tx3\",\n]");
}

fn matched_count(expression: &str) -> usize {
    let mut engine = PatternMatchingEngine::new(pattern(PatternType::Singleton, expression), 3, 60_000, true);
    engine.process_batch(batch(0)).unwrap().len()
}

#[test]
fn orderings_compare_the_numbers() {
    assert_eq!(matched_count("amount >= 150"), 2);
    assert_eq!(matched_count("amount < 150.00"), 1);
    assert_eq!(matched_count("amount <= 150"), 2);
    assert_eq!(matched_count("amount > 200.0"), 0);
    assert_eq!(matched_count("amount > -1000"), 3);
    assert_eq!(matched_count("amount < 49.999"), 0);
}

#[test]
fn orderings_need_a_number_on_both_sides() {
    let mut engine = PatternMatchingEngine::new(pattern(PatternType::Singleton, "user_id > 3"), 3, 60_000, true);
    assert_eq!(engine.process_batch(batch(0)).err(), Some("Field is not numeric: user_id".to_string()));
    let mut engine = PatternMatchingEngine::new(pattern(PatternType::Singleton, "amount > ten"), 3, 60_000, true);
    assert_eq!(engine.process_batch(batch(0)).err(), Some("Invalid number: ten".to_string()));
}

#[test]
fn unknown_fields_and_operators_are_refused() {
    let mut engine = PatternMatchingEngine::new(pattern(PatternType::Singleton, "price = 3"), 3, 60_000, true);
    assert_eq!(engine.process_batch(batch(0)).err(), Some("Field not found: price".to_string()));
    let mut engine = PatternMatchingEngine::new(pattern(PatternType::Singleton, "amount ~ 3"), 3, 60_000, true);
    assert_eq!(engine.process_batch(batch(0)).err(), Some("Unsupported operator: ~".to_string()));
    let mut engine = PatternMatchingEngine::new(pattern(PatternType::Singleton, "amount"), 3, 60_000, true);
    assert_eq!(engine.process_batch(batch(0)).err(), Some("Invalid simple condition format: amount".to_string()));
}

#[test]
fn other_pattern_kinds_fail_on_their_first_match() {
    let mut engine = PatternMatchingEngine::new(pattern(PatternType::Sequence, "user_id = user2"), 3, 60_000, true);
    assert_eq!(engine.process_batch(batch(0)).err(), Some("Sequence pattern not implemented yet".to_string()));
    let mut engine = PatternMatchingEngine::new(pattern(PatternType::Repetition, "user_id = nobody"), 3, 60_000, true);
    assert!(engine.process_batch(batch(0)).unwrap().is_empty());
}

#[test]
fn a_negative_time_stops_the_batch_and_keeps_earlier_matches() {
    let mut engine = PatternMatchingEngine::new(pattern(PatternType::Singleton, "user_id = user1"), 3, 60_000, true);
    let rows = vec![row("tx1", "user1", "1.0", 5), row("tx2", "user1", "2.0", -5), row("tx3", "user1", "3.0", 7)];
    assert_eq!(engine.process_batch(rows).err(), Some("Negative timestamp encountered: -5".to_string()));
    let kept = engine.process_watermark(EngineWatermark::EventTime(100));
    assert_eq!(kept.len(), 1);
    assert_eq!(kept[0].start_time, 5);
    assert!(engine.process_watermark(EngineWatermark::Idle).is_empty());
}

fn config(time_field: &str) -> CepOperatorConfig {
    CepOperatorConfig {
        pattern_json: String::new(),
        time_field: time_field.to_string(),
        output_partial_matches: false,
        match_timeout_ms: 60_000,
        allow_overlapping: true,
    }
}

fn input_fields() -> Vec<String> {
    vec!["transaction_id".to_string(), "user_id".to_string(), "amount".to_string(), "transaction_time".to_string()]
}

#[test]
fn operator_finds_its_time_field_and_extends_the_output() {
    let op = CepOperator::new(&config("transaction_time"), pattern(PatternType::Singleton, "user_id = user1"), &input_fields())
        .unwrap();
    assert_eq!(op.time_field_index(), 3);
    assert_eq!(
        op.output_fields(),
        &vec![
            "transaction_id".to_string(),
            "user_id".to_string(),
            "amount".to_string(),
            "transaction_time".to_string(),
            "pattern_name".to_string(),
            "match_start_time".to_string(),
            "match_end_time".to_string(),
        ]
    );
    let missing = CepOperator::new(&config("ts"), pattern(PatternType::Singleton, "user_id = user1"), &input_fields());
    assert_eq!(missing.err().map(|_| ()), Some(()));
    let refused = cep_operator_with_config(&config("transaction_time"), pattern(PatternType::Singleton, "a = b"));
    match refused {
        Err(e) => assert_eq!(e, "Time field not found: transaction_time"),
        Ok(_) => panic!("expected a refusal"),
    }
}

#[test]
fn operator_emits_the_first_match_as_one_row() {
    let mut op = CepOperator::new(&config("transaction_time"), pattern(PatternType::Singleton, "user_id = user1"), &input_fields())
        .unwrap();
    let matches = op.process_batch(batch(1_000));
    assert_eq!(matches.len(), 2);
    let (event, name, start, end) = first_match_row(&matches).unwrap();
    assert_eq!(event.timestamp_nanos, 1_000);
    assert_eq!(name, "large_transaction");
    assert_eq!((start, end), (1_000, 1_000));
    assert!(first_match_row(&Vec::new()).is_none());
    let mut failing = CepOperator::new(&config("transaction_time"), pattern(PatternType::Singleton, "price > 1"), &input_fields())
        .unwrap();
    assert!(failing.process_batch(batch(0)).is_empty());
    assert!(op.handle_watermark(EngineWatermark::EventTime(5)).is_empty());
}
