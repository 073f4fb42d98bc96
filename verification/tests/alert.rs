use arroyo_control::alert::{
    acknowledged, alert_event_key, keeps_event, notifier_name, on_firing, operator_to_string,
    query_alert_events, query_alert_rules, raised_by_rule, resolves, silenced, AlertConditionOperator,
    AlertEventFacts, AlertNotificationType, AlertRuleFacts, AlertRuleType, AlertSeverity, AlertState,
    EmailNotifier, FiringAction, QueryAlertEventsRequest, QueryAlertRulesRequest,
};
use arroyo_control::strmap::StringMap;

fn labels(pairs: &[(&str, &str)]) -> StringMap<String> {
    let mut m = StringMap::new();
    for (k, v) in pairs {
        m.insert(k.to_string(), v.to_string());
    }
    m
}

fn rule(topic: Option<&str>, rule_type: AlertRuleType, severity: AlertSeverity, enabled: bool, l: &[(&str, &str)]) -> AlertRuleFacts {
    AlertRuleFacts { topic_name: topic.map(|t| t.to_string()), rule_type, severity, enabled, labels: labels(l) }
}

fn no_filter() -> QueryAlertRulesRequest {
    QueryAlertRulesRequest {
        topic_name: None,
        rule_type: None,
        severity: None,
        enabled: None,
        labels: None,
        limit: None,
        offset: None,
    }
}

fn rules() -> Vec<AlertRuleFacts> {
    vec![
        rule(Some("orders"), AlertRuleType::Threshold, AlertSeverity::Warning, true, &[("team", "a")]),
        rule(None, AlertRuleType::Anomaly, AlertSeverity::Critical, true, &[]),
        rule(Some("orders"), AlertRuleType::Anomaly, AlertSeverity::Critical, false, &[("team", "b")]),
        rule(Some("users"), AlertRuleType::Threshold, AlertSeverity::Warning, true, &[("team", "a"), ("env", "prod")]),
    ]
}

#[test]
fn rule_filters() {
    let rs = rules();
    let (all, total) = query_alert_rules(&rs, &no_filter());
    assert_eq!(all, vec![0, 1, 2, 3]);
    assert_eq!(total, 4);

    let q = QueryAlertRulesRequest { topic_name: Some("orders".to_string()), ..no_filter() };
    assert_eq!(query_alert_rules(&rs, &q), (vec![0, 2], 2));

    let q = QueryAlertRulesRequest { rule_type: Some(AlertRuleType::Threshold), enabled: Some(true), ..no_filter() };
    assert_eq!(query_alert_rules(&rs, &q), (vec![0, 3], 2));

    let q = QueryAlertRulesRequest { severity: Some(AlertSeverity::Critical), ..no_filter() };
    assert_eq!(query_alert_rules(&rs, &q), (vec![1, 2], 2));

    let q = QueryAlertRulesRequest { labels: Some(labels(&[("team", "a")])), ..no_filter() };
    assert_eq!(query_alert_rules(&rs, &q), (vec![0, 3], 2));

    let q = QueryAlertRulesRequest { labels: Some(labels(&[("team", "a"), ("env", "prod")])), ..no_filter() };
    assert_eq!(query_alert_rules(&rs, &q), (vec![3], 1));
}

#[test]
fn rule_pages() {
    let rs = rules();
    let q = QueryAlertRulesRequest { limit: Some(2), ..no_filter() };
    assert_eq!(query_alert_rules(&rs, &q), (vec![0, 1], 4));
    let q = QueryAlertRulesRequest { limit: Some(2), offset: Some(1), ..no_filter() };
    assert_eq!(query_alert_rules(&rs, &q), (vec![1, 2], 4));
    let q = QueryAlertRulesRequest { limit: Some(3), offset: Some(3), ..no_filter() };
    assert_eq!(query_alert_rules(&rs, &q), (vec![3], 4));
    let q = QueryAlertRulesRequest { limit: Some(3), offset: Some(4), ..no_filter() };
    assert_eq!(query_alert_rules(&rs, &q), (vec![], 4));
    // an offset without a limit is ignored
    let q = QueryAlertRulesRequest { offset: Some(3), ..no_filter() };
    assert_eq!(query_alert_rules(&rs, &q), (vec![0, 1, 2, 3], 4));
}

fn event(rule_id: &str, topic: Option<&str>, state: AlertState, started_at: u64) -> AlertEventFacts {
    AlertEventFacts {
        rule_id: rule_id.to_string(),
        topic_name: topic.map(|t| t.to_string()),
        severity: AlertSeverity::Warning,
        state,
        started_at,
        labels: labels(&[]),
    }
}

fn all_events() -> QueryAlertEventsRequest {
    QueryAlertEventsRequest {
        rule_id: None,
        topic_name: None,
        severity: None,
        state: None,
        start_time: None,
        end_time: None,
        labels: None,
        limit: None,
        offset: None,
    }
}

#[test]
fn event_filters_and_pages() {
    let es = vec![
        event("r1", Some("orders"), AlertState::Firing, 10),
        event("r2", Some("orders"), AlertState::Resolved, 20),
        event("r1", None, AlertState::Firing, 30),
        event("r1", Some("users"), AlertState::Acknowledged, 40),
    ];
    assert_eq!(query_alert_events(&es, &QueryAlertEventsRequest { rule_id: Some("r1".to_string()), ..all_events() }), vec![0, 2, 3]);
    assert_eq!(query_alert_events(&es, &QueryAlertEventsRequest { topic_name: Some("orders".to_string()), ..all_events() }), vec![0, 1]);
    assert_eq!(query_alert_events(&es, &QueryAlertEventsRequest { state: Some(AlertState::Firing), ..all_events() }), vec![0, 2]);
    assert_eq!(
        query_alert_events(&es, &QueryAlertEventsRequest { start_time: Some(20), end_time: Some(30), ..all_events() }),
        vec![1, 2]
    );
    assert_eq!(query_alert_events(&es, &QueryAlertEventsRequest { limit: Some(1), offset: Some(2), ..all_events() }), vec![2]);
    assert_eq!(query_alert_events(&es, &QueryAlertEventsRequest { labels: Some(labels(&[("x", "y")])), ..all_events() }), Vec::<usize>::new());
}

#[test]
fn event_states() {
    assert_eq!(on_firing(None), FiringAction::RaiseEvent);
    assert_eq!(on_firing(Some(AlertState::Resolved)), FiringAction::RaiseEvent);
    assert_eq!(on_firing(Some(AlertState::Pending)), FiringAction::StartFiring);
    assert_eq!(on_firing(Some(AlertState::Firing)), FiringAction::Nothing);
    assert_eq!(on_firing(Some(AlertState::Silenced)), FiringAction::Nothing);
    assert!(resolves(AlertState::Firing));
    assert!(!resolves(AlertState::Acknowledged));
    assert_eq!(acknowledged(AlertState::Firing), AlertState::Acknowledged);
    assert_eq!(acknowledged(AlertState::Resolved), AlertState::Resolved);
    assert_eq!(silenced(AlertState::Acknowledged), AlertState::Silenced);
    assert_eq!(silenced(AlertState::Firing), AlertState::Silenced);
    assert_eq!(silenced(AlertState::Pending), AlertState::Pending);
}

#[test]
fn event_retention() {
    assert!(keeps_event(AlertState::Firing, Some(0), 10_000, 3600));
    assert!(keeps_event(AlertState::Resolved, Some(6400), 10_000, 3600));
    assert!(!keeps_event(AlertState::Resolved, Some(6399), 10_000, 3600));
    assert!(keeps_event(AlertState::Resolved, None, 10_000, 3600));
    assert!(keeps_event(AlertState::Resolved, Some(0), 100, 3600));
}

#[test]
fn names_and_keys() {
    assert_eq!(operator_to_string(AlertConditionOperator::GreaterThanOrEqual), ">=");
    assert_eq!(operator_to_string(AlertConditionOperator::NotContains), "not contains");
    assert_eq!(notifier_name(AlertNotificationType::InApp), "in_app");
    assert_eq!(alert_event_key("rule-1", "orders"), "rule-1:orders");
    assert!(raised_by_rule("rule-1:orders", "rule-1"));
    assert!(!raised_by_rule("rule-10:orders", "rule-1"));
    assert!(!raised_by_rule("rule-1", "rule-1"));
}

#[test]
fn email_notifier() {
    let n = EmailNotifier::new("smtp.example.com", 25, "user", "secret", "alerts@example.com");
    let _ = format!("{:?}", n);
}
