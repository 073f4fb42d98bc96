//! Alerting on topics: how the state of an alert moves, which rules and
//! events a query selects, and the senders of notifications.

use vstd::prelude::*;
use crate::strmap::{str_eq, StringMap};
use crate::text::{append_chars, chars_of, string_from_chars};

verus! {

/// Sends alert notifications by mail through an SMTP server.
#[derive(Debug, Clone)]
pub struct EmailNotifier {
    smtp_server: String,
    smtp_port: u16,
    smtp_username: String,
    smtp_password: String,
    from_address: String,
}

impl EmailNotifier {
    pub closed spec fn server(&self) -> Seq<char> {
        self.smtp_server@
    }

    pub closed spec fn port(&self) -> u16 {
        self.smtp_port
    }

    pub closed spec fn username(&self) -> Seq<char> {
        self.smtp_username@
    }

    pub closed spec fn password(&self) -> Seq<char> {
        self.smtp_password@
    }

    pub closed spec fn sender(&self) -> Seq<char> {
        self.from_address@
    }

    /// A notifier for the given server, account and sender address.
    pub fn new(smtp_server: &str, smtp_port: u16, smtp_username: &str, smtp_password: &str, from_address: &str) -> (n: Self)
        ensures
            n.server() == smtp_server@,
            n.port() == smtp_port,
            n.username() == smtp_username@,
            n.password() == smtp_password@,
            n.sender() == from_address@,
    {
        EmailNotifier {
            smtp_server: smtp_server.to_owned(),
            smtp_port,
            smtp_username: smtp_username.to_owned(),
            smtp_password: smtp_password.to_owned(),
            from_address: from_address.to_owned(),
        }
    }
}

/// The kind of an alert rule.
#[derive(Debug, Clone, Copy, PartialEq, Eq, Structural)]
pub enum AlertRuleType {
    Threshold,
    Anomaly,
}

/// How serious an alert is.
#[derive(Debug, Clone, Copy, PartialEq, Eq, Structural)]
pub enum AlertSeverity {
    Warning,
    Critical,
}

/// Where an alert event stands.
#[derive(Debug, Clone, Copy, PartialEq, Eq, Structural)]
pub enum AlertState {
    Pending,
    Firing,
    Acknowledged,
    Silenced,
    Resolved,
}

/// How a condition compares a metric with its threshold.
#[derive(Debug, Clone, Copy, PartialEq, Eq, Structural)]
pub enum AlertConditionOperator {
    GreaterThan,
    GreaterThanOrEqual,
    LessThan,
    LessThanOrEqual,
    Equal,
    NotEqual,
    Contains,
    NotContains,
}

/// How a notification is delivered.
#[derive(Debug, Clone, Copy, PartialEq, Eq, Structural)]
pub enum AlertNotificationType {
    Email,
    Webhook,
    Slack,
    Sms,
    InApp,
}

/// The sign by which an operator is written in a message.
pub fn operator_to_string(operator: AlertConditionOperator) -> (s: &'static str)
    ensures
        s@ == operator_text(operator),
{
    let s = match operator {
        AlertConditionOperator::GreaterThan => ">",
        AlertConditionOperator::GreaterThanOrEqual => ">=",
        AlertConditionOperator::LessThan => "<",
        AlertConditionOperator::LessThanOrEqual => "<=",
        AlertConditionOperator::Equal => "==",
        AlertConditionOperator::NotEqual => "!=",
        AlertConditionOperator::Contains => "contains",
        AlertConditionOperator::NotContains => "not contains",
    };
    s
}

pub open spec fn operator_text(operator: AlertConditionOperator) -> Seq<char> {
    match operator {
        AlertConditionOperator::GreaterThan => ">"@,
        AlertConditionOperator::GreaterThanOrEqual => ">="@,
        AlertConditionOperator::LessThan => "<"@,
        AlertConditionOperator::LessThanOrEqual => "<="@,
        AlertConditionOperator::Equal => "=="@,
        AlertConditionOperator::NotEqual => "!="@,
        AlertConditionOperator::Contains => "contains"@,
        AlertConditionOperator::NotContains => "not contains"@,
    }
}

/// The name of the notifier that delivers a kind of notification.
pub fn notifier_name(t: AlertNotificationType) -> (s: &'static str)
    ensures
        s@ == match t {
            AlertNotificationType::Email => "email"@,
            AlertNotificationType::Webhook => "webhook"@,
            AlertNotificationType::Slack => "slack"@,
            AlertNotificationType::Sms => "sms"@,
            AlertNotificationType::InApp => "in_app"@,
        },
{
    match t {
        AlertNotificationType::Email => "email",
        AlertNotificationType::Webhook => "webhook",
        AlertNotificationType::Slack => "slack",
        AlertNotificationType::Sms => "sms",
        AlertNotificationType::InApp => "in_app",
    }
}

/// The key of the event that a rule raises for a topic: the rule's id and
/// the topic's name, joined by a colon.
pub fn alert_event_key(rule_id: &str, topic_name: &str) -> (k: String)
    ensures
        k@ == rule_id@ + ":"@ + topic_name@,
{
    let mut cs = chars_of(rule_id);
    append_chars(&mut cs, ":");
    append_chars(&mut cs, topic_name);
    string_from_chars(&cs)
}

/// Whether the event stored under `event_key` was raised by rule `rule_id`.
pub fn raised_by_rule(event_key: &str, rule_id: &str) -> (b: bool)
    ensures
        b == (rule_id@ + ":"@).is_prefix_of(event_key@),
{
    let mut prefix = chars_of(rule_id);
    append_chars(&mut prefix, ":");
    let key = chars_of(event_key);
    if prefix.len() > key.len() {
        return false;
    }
    let mut i: usize = 0;
    while i < prefix.len()
        invariant
            prefix@ == rule_id@ + ":"@,
            key@ == event_key@,
            prefix@.len() <= key@.len(),
            0 <= i <= prefix@.len(),
            forall|j: int| 0 <= j < i ==> prefix@[j] == key@[j],
        decreases prefix.len() - i,
    {
        if prefix[i] != key[i] {
            return false;
        }
        i = i + 1;
    }
    proof {
        assert(key@.subrange(0, prefix@.len() as int) =~= prefix@);
    }
    true
}

/// What a rule that fires does to the event it keeps for a topic.
#[derive(Debug, Clone, Copy, PartialEq, Eq, Structural)]
pub enum FiringAction {
    /// Raise a new, firing event (and notify).
    RaiseEvent,
    /// Turn the pending event into a firing one (and notify).
    StartFiring,
    /// Leave the event as it is.
    Nothing,
}

/// A rule fires: without an event, or with a resolved one, a new event is
/// raised; a pending event starts firing; any other is left alone.
pub fn on_firing(existing: Option<AlertState>) -> (a: FiringAction)
    ensures
        a == match existing {
            None => FiringAction::RaiseEvent,
            Some(AlertState::Resolved) => FiringAction::RaiseEvent,
            Some(AlertState::Pending) => FiringAction::StartFiring,
            Some(_) => FiringAction::Nothing,
        },
{
    match existing {
        None => FiringAction::RaiseEvent,
        Some(AlertState::Resolved) => FiringAction::RaiseEvent,
        Some(AlertState::Pending) => FiringAction::StartFiring,
        Some(_) => FiringAction::Nothing,
    }
}

/// A rule stops firing: only a firing event is resolved.
pub fn resolves(state: AlertState) -> (b: bool)
    ensures
        b == (state == AlertState::Firing),
{
    state == AlertState::Firing
}

/// The state after acknowledging: a firing event is acknowledged, any
/// other stays as it is.
pub fn acknowledged(state: AlertState) -> (s: AlertState)
    ensures
        s == (if state == AlertState::Firing { AlertState::Acknowledged } else { state }),
{
    if state == AlertState::Firing {
        AlertState::Acknowledged
    } else {
        state
    }
}

/// The state after silencing: a firing or acknowledged event is silenced,
/// any other stays as it is.
pub fn silenced(state: AlertState) -> (s: AlertState)
    ensures
        s == (if state == AlertState::Firing || state == AlertState::Acknowledged { AlertState::Silenced } else { state }),
{
    if state == AlertState::Firing || state == AlertState::Acknowledged {
        AlertState::Silenced
    } else {
        state
    }
}

/// Whether an event is still kept at `now`: any unresolved event, and a
/// resolved one that ended within the last `retention_period` seconds
/// (one without an end counts as ending now).
pub fn keeps_event(state: AlertState, ended_at: Option<u64>, now: u64, retention_period: u64) -> (b: bool)
    ensures
        b == (state != AlertState::Resolved || match ended_at {
            Some(t) => t >= (if now >= retention_period { now - retention_period } else { 0 }),
            None => true,
        }),
{
    let threshold = now.saturating_sub(retention_period);
    let ended = match ended_at {
        Some(t) => t,
        None => now,
    };
    state != AlertState::Resolved || ended >= threshold
}

/// Acknowledging, then silencing, an event leaves it as silencing alone
/// would; neither revives a resolved event, and each does nothing the
/// second time.
pub proof fn lemma_acknowledge_and_silence(state: AlertState)
    ensures
        ({
            let ack = if state == AlertState::Firing { AlertState::Acknowledged } else { state };
            let sil = |s: AlertState| if s == AlertState::Firing || s == AlertState::Acknowledged { AlertState::Silenced } else { s };
            &&& sil(ack) == sil(state)
            &&& (state == AlertState::Resolved ==> ack == AlertState::Resolved && sil(state) == AlertState::Resolved)
            &&& (if ack == AlertState::Firing { AlertState::Acknowledged } else { ack }) == ack
            &&& sil(sil(state)) == sil(state)
        }),
{
}

/// What a rule is, for a query: all of it but its conditions and
/// notifications.
#[derive(Debug)]
pub struct AlertRuleFacts {
    pub topic_name: Option<String>,
    pub rule_type: AlertRuleType,
    pub severity: AlertSeverity,
    pub enabled: bool,
    pub labels: StringMap<String>,
}

/// A query on rules: each filter that is given must hold; then a page of
/// `limit` rules from `offset`.
#[derive(Debug)]
pub struct QueryAlertRulesRequest {
    pub topic_name: Option<String>,
    pub rule_type: Option<AlertRuleType>,
    pub severity: Option<AlertSeverity>,
    pub enabled: Option<bool>,
    pub labels: Option<StringMap<String>>,
    pub limit: Option<u32>,
    pub offset: Option<u32>,
}

/// What an event is, for a query: all of it but its message and values.
#[derive(Debug)]
pub struct AlertEventFacts {
    pub rule_id: String,
    pub topic_name: Option<String>,
    pub severity: AlertSeverity,
    pub state: AlertState,
    pub started_at: u64,
    pub labels: StringMap<String>,
}

/// A query on events: each filter that is given must hold, the start time
/// within `start_time..=end_time`; then a page of `limit` events from
/// `offset`.
#[derive(Debug)]
pub struct QueryAlertEventsRequest {
    pub rule_id: Option<String>,
    pub topic_name: Option<String>,
    pub severity: Option<AlertSeverity>,
    pub state: Option<AlertState>,
    pub start_time: Option<u64>,
    pub end_time: Option<u64>,
    pub labels: Option<StringMap<String>>,
    pub limit: Option<u32>,
    pub offset: Option<u32>,
}

/// Every label asked for is there with the value asked for.
pub open spec fn labels_match(have: Map<Seq<char>, String>, want: Map<Seq<char>, String>) -> bool {
    forall|k: Seq<char>| #[trigger] want.contains_key(k) ==> have.contains_key(k) && have[k]@ == want[k]@
}

pub open spec fn topic_matches(have: Option<String>, want: Option<String>) -> bool {
    match want {
        Some(t) => have matches Some(h) && h@ == t@,
        None => true,
    }
}

pub open spec fn rule_selected(r: AlertRuleFacts, q: QueryAlertRulesRequest) -> bool {
    &&& topic_matches(r.topic_name, q.topic_name)
    &&& (q.rule_type matches Some(t) ==> r.rule_type == t)
    &&& (q.severity matches Some(v) ==> r.severity == v)
    &&& (q.enabled matches Some(e) ==> r.enabled == e)
    &&& (q.labels matches Some(l) ==> labels_match(r.labels.view(), l.view()))
}

pub open spec fn event_selected(e: AlertEventFacts, q: QueryAlertEventsRequest) -> bool {
    &&& (q.rule_id matches Some(id) ==> e.rule_id@ == id@)
    &&& topic_matches(e.topic_name, q.topic_name)
    &&& (q.severity matches Some(v) ==> e.severity == v)
    &&& (q.state matches Some(s) ==> e.state == s)
    &&& (q.start_time matches Some(t) ==> e.started_at >= t)
    &&& (q.end_time matches Some(t) ==> e.started_at <= t)
    &&& (q.labels matches Some(l) ==> labels_match(e.labels.view(), l.view()))
}

/// The positions, in order, of the items that `keep` selects.
pub open spec fn positions(keep: Seq<bool>) -> Seq<int>
    decreases keep.len(),
{
    if keep.len() == 0 {
        seq![]
    } else if keep.last() {
        positions(keep.drop_last()).push(keep.len() - 1)
    } else {
        positions(keep.drop_last())
    }
}

/// The part of `len` matches that a page takes: `limit` of them from
/// `offset`, the first `limit` without an offset, all without a limit, and
/// none when the offset is past the end.
pub open spec fn page_window(len: int, limit: Option<u32>, offset: Option<u32>) -> (int, int) {
    match limit {
        None => (0, len),
        Some(l) => match offset {
            None => (0, if (l as int) < len { l as int } else { len }),
            Some(o) => if (o as int) < len {
                (o as int, if o + l < len { o + l } else { len })
            } else {
                (0, 0)
            },
        },
    }
}

pub open spec fn page_fits(limit: Option<u32>, offset: Option<u32>) -> bool {
    match (limit, offset) {
        (Some(l), Some(o)) => o + l <= u32::MAX,
        _ => true,
    }
}

fn page_of(len: usize, limit: Option<u32>, offset: Option<u32>) -> (w: (usize, usize))
    requires
        page_fits(limit, offset),
    ensures
        w.0 as int == page_window(len as int, limit, offset).0,
        w.1 as int == page_window(len as int, limit, offset).1,
{
    match limit {
        None => (0, len),
        Some(l) => match offset {
            None => (0, if (l as usize) < len { l as usize } else { len }),
            Some(o) => {
                let start = o as usize;
                let end = (o + l) as usize;
                if start < len {
                    (start, if end < len { end } else { len })
                } else {
                    (0, 0)
                }
            },
        },
    }
}

fn labels_match_exec(have: &StringMap<String>, want: &StringMap<String>) -> (b: bool)
    requires
        have.wf(),
        want.wf(),
    ensures
        b == labels_match(have.view(), want.view()),
{
    let n = want.len();
    let mut i: usize = 0;
    while i < n
        invariant
            have.wf(),
            want.wf(),
            n == want.key_seq().len(),
            0 <= i <= n,
            forall|j: int| 0 <= j < i ==> {
                let k = #[trigger] want.key_seq()[j];
                have.view().contains_key(k) && have.view()[k]@ == want.view()[k]@
            },
        decreases n - i,
    {
        let (k, v) = want.entry_at(i);
        match have.get(k.as_str()) {
            Some(hv) => {
                if !str_eq(hv.as_str(), v.as_str()) {
                    return false;
                }
            },
            None => {
                return false;
            },
        }
        i = i + 1;
    }
    proof {
        assert forall|k: Seq<char>| #[trigger] want.view().contains_key(k) implies have.view().contains_key(k)
            && have.view()[k]@ == want.view()[k]@ by {
            want.lemma_key_seq_contains(k);
            let j = choose|j: int| 0 <= j < want.key_seq().len() && want.key_seq()[j] == k;
        }
    }
    true
}

fn topic_matches_exec(have: &Option<String>, want: &Option<String>) -> (b: bool)
    ensures
        b == topic_matches(*have, *want),
{
    match want {
        Some(t) => match have {
            Some(h) => str_eq(h.as_str(), t.as_str()),
            None => false,
        },
        None => true,
    }
}

/// Whether a query selects a rule.
pub fn rule_selected_by(rule: &AlertRuleFacts, request: &QueryAlertRulesRequest) -> (b: bool)
    requires
        rule.labels.wf(),
        request.labels matches Some(l) ==> l.wf(),
    ensures
        b == rule_selected(*rule, *request),
{
    if !topic_matches_exec(&rule.topic_name, &request.topic_name) {
        return false;
    }
    match request.rule_type {
        Some(t) => if rule.rule_type != t { return false; },
        None => {},
    }
    match request.severity {
        Some(v) => if rule.severity != v { return false; },
        None => {},
    }
    match request.enabled {
        Some(e) => if rule.enabled != e { return false; },
        None => {},
    }
    match &request.labels {
        Some(l) => labels_match_exec(&rule.labels, l),
        None => true,
    }
}

/// Whether a query selects an event.
pub fn event_selected_by(event: &AlertEventFacts, request: &QueryAlertEventsRequest) -> (b: bool)
    requires
        event.labels.wf(),
        request.labels matches Some(l) ==> l.wf(),
    ensures
        b == event_selected(*event, *request),
{
    match &request.rule_id {
        Some(id) => if !str_eq(event.rule_id.as_str(), id.as_str()) { return false; },
        None => {},
    }
    if !topic_matches_exec(&event.topic_name, &request.topic_name) {
        return false;
    }
    match request.severity {
        Some(v) => if event.severity != v { return false; },
        None => {},
    }
    match request.state {
        Some(s) => if event.state != s { return false; },
        None => {},
    }
    match request.start_time {
        Some(t) => if event.started_at < t { return false; },
        None => {},
    }
    match request.end_time {
        Some(t) => if event.started_at > t { return false; },
        None => {},
    }
    match &request.labels {
        Some(l) => labels_match_exec(&event.labels, l),
        None => true,
    }
}

/// The positions `lo..hi` of a list of positions.
fn take_page(found: &Vec<usize>, lo: usize, hi: usize) -> (r: Vec<usize>)
    requires
        lo <= hi <= found@.len(),
    ensures
        r@ == found@.subrange(lo as int, hi as int),
{
    let mut r: Vec<usize> = Vec::new();
    let mut i = lo;
    while i < hi
        invariant
            lo <= i <= hi,
            hi <= found@.len(),
            r@ == found@.subrange(lo as int, i as int),
        decreases hi - i,
    {
        r.push(found[i]);
        proof {
            assert(found@.subrange(lo as int, i + 1) =~= found@.subrange(lo as int, i as int).push(found@[i as int]));
        }
        i = i + 1;
    }
    r
}

/// The rules a query selects, as positions in `rules`, one page of them,
/// and how many it selects in all.
pub fn query_alert_rules(rules: &Vec<AlertRuleFacts>, request: &QueryAlertRulesRequest) -> (r: (Vec<usize>, u32))
    requires
        forall|i: int| 0 <= i < rules@.len() ==> (#[trigger] rules@[i]).labels.wf(),
        request.labels matches Some(l) ==> l.wf(),
        page_fits(request.limit, request.offset),
    ensures
        ({
            let found = positions(rules@.map_values(|x: AlertRuleFacts| rule_selected(x, *request)));
            let w = page_window(found.len() as int, request.limit, request.offset);
            &&& r.0@.map_values(|i: usize| i as int) == found.subrange(w.0, w.1)
            &&& r.1 == found.len() as u32
        }),
{
    let ghost keep = rules@.map_values(|x: AlertRuleFacts| rule_selected(x, *request));
    let mut found: Vec<usize> = Vec::new();
    let mut i: usize = 0;
    while i < rules.len()
        invariant
            0 <= i <= rules@.len(),
            keep == rules@.map_values(|x: AlertRuleFacts| rule_selected(x, *request)),
            forall|j: int| 0 <= j < rules@.len() ==> (#[trigger] rules@[j]).labels.wf(),
            request.labels matches Some(l) ==> l.wf(),
            found@.map_values(|k: usize| k as int) == positions(keep.subrange(0, i as int)),
        decreases rules.len() - i,
    {
        let selected = rule_selected_by(&rules[i], request);
        proof {
            assert(keep.subrange(0, i + 1).drop_last() =~= keep.subrange(0, i as int));
            assert(keep.subrange(0, i + 1).last() == selected);
        }
        if selected {
            let ghost prev = found@;
            found.push(i);
            proof {
                assert(found@.map_values(|k: usize| k as int) =~= prev.map_values(|k: usize| k as int).push(i as int));
            }
        }
        i = i + 1;
    }
    proof {
        assert(keep.subrange(0, rules@.len() as int) =~= keep);
    }
    let total = found.len() as u32;
    let (lo, hi) = page_of(found.len(), request.limit, request.offset);
    let page = take_page(&found, lo, hi);
    proof {
        assert(page@.map_values(|k: usize| k as int) =~= found@.map_values(|k: usize| k as int).subrange(lo as int, hi as int));
    }
    (page, total)
}

/// The events a query selects, as positions in `events`, one page of them.
pub fn query_alert_events(events: &Vec<AlertEventFacts>, request: &QueryAlertEventsRequest) -> (r: Vec<usize>)
    requires
        forall|i: int| 0 <= i < events@.len() ==> (#[trigger] events@[i]).labels.wf(),
        request.labels matches Some(l) ==> l.wf(),
        page_fits(request.limit, request.offset),
    ensures
        ({
            let found = positions(events@.map_values(|x: AlertEventFacts| event_selected(x, *request)));
            let w = page_window(found.len() as int, request.limit, request.offset);
            r@.map_values(|i: usize| i as int) == found.subrange(w.0, w.1)
        }),
{
    let ghost keep = events@.map_values(|x: AlertEventFacts| event_selected(x, *request));
    let mut found: Vec<usize> = Vec::new();
    let mut i: usize = 0;
    while i < events.len()
        invariant
            0 <= i <= events@.len(),
            keep == events@.map_values(|x: AlertEventFacts| event_selected(x, *request)),
            forall|j: int| 0 <= j < events@.len() ==> (#[trigger] events@[j]).labels.wf(),
            request.labels matches Some(l) ==> l.wf(),
            found@.map_values(|k: usize| k as int) == positions(keep.subrange(0, i as int)),
        decreases events.len() - i,
    {
        let selected = event_selected_by(&events[i], request);
        proof {
            assert(keep.subrange(0, i + 1).drop_last() =~= keep.subrange(0, i as int));
            assert(keep.subrange(0, i + 1).last() == selected);
        }
        if selected {
            let ghost prev = found@;
            found.push(i);
            proof {
                assert(found@.map_values(|k: usize| k as int) =~= prev.map_values(|k: usize| k as int).push(i as int));
            }
        }
        i = i + 1;
    }
    proof {
        assert(keep.subrange(0, events@.len() as int) =~= keep);
    }
    let (lo, hi) = page_of(found.len(), request.limit, request.offset);
    let page = take_page(&found, lo, hi);
    proof {
        assert(page@.map_values(|k: usize| k as int) =~= found@.map_values(|k: usize| k as int).subrange(lo as int, hi as int));
    }
    page
}

/// Two pages of the same size, the second starting where the first ends,
/// together take what one page twice that size takes.
pub proof fn lemma_consecutive_pages(len: int, offset: u32, limit: u32)
    requires
        0 <= len,
        offset + 2 * limit <= u32::MAX,
    ensures
        ({
            let a = page_window(len, Some(limit), Some(offset));
            let b = page_window(len, Some(limit), Some((offset + limit) as u32));
            let c = page_window(len, Some((2 * limit) as u32), Some(offset));
            &&& a.1 - a.0 + b.1 - b.0 == c.1 - c.0
            &&& (b.1 > b.0 ==> a.1 == b.0)
            &&& (a.1 > a.0 ==> a.0 == c.0)
            &&& (b.1 > b.0 ==> b.1 == c.1)
            &&& (b.1 <= b.0 ==> a.1 == c.1)
        }),
{
}

} // verus!
