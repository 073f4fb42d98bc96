//! The engine that matches complex-event patterns against a stream of
//! events: it opens a match for each event that meets the pattern's
//! condition, advances the open matches with every event, and drops those
//! that a watermark finds timed out.

use vstd::prelude::*;
use crate::clock::unix_now_nanos;
use crate::decimal::{compare_numbers, number_order};
use crate::operators::{
    comparison_result, completes_at_once, names_op, parse_condition, words, ComparisonOp, ConditionType, Pattern,
    PatternType,
};
use crate::prql::{occurs_in, text_contains};
use crate::queue_dml::{column_position, column_position_exec, lemma_column_position_found};
use crate::scaling::copy_string;
use crate::text::{append_chars, chars_of, i64_to_decimal, signed_decimal, string_from_chars, texts};

verus! {

/// An event as the engine reads it: the names of its fields, the text
/// that each field's column shows, each field's value as a decimal number
/// when the field is numeric, and its time in nanoseconds since the Unix
/// epoch.
#[derive(Debug)]
pub struct EventRow {
    pub field_names: Vec<String>,
    pub field_texts: Vec<String>,
    pub field_numbers: Vec<Option<String>>,
    pub timestamp_nanos: i64,
}

/// An open match: the events matched so far, when the first of them
/// happened and when the last did.
#[derive(Debug)]
pub struct MatchingState {
    pub matched_events: Vec<EventRow>,
    pub start_time: u128,
    pub last_event_time: u128,
}

/// A completed match of a pattern.
#[derive(Debug)]
pub struct PatternMatch {
    pub pattern_name: String,
    pub events: Vec<EventRow>,
    pub start_time: u128,
    pub end_time: u128,
}

/// What advancing an open match with an event gives.
#[derive(Debug)]
pub enum StateAdvanceResult {
    Advanced(MatchingState),
    Completed(PatternMatch),
    NoMatch(MatchingState),
}

/// A watermark: a point in event time, or idleness, which counts as the
/// present moment.
#[derive(Debug, Clone, Copy, PartialEq, Eq, Structural)]
pub enum EngineWatermark {
    EventTime(u128),
    Idle,
}

/// An open match as plain values: its events, its start and its last
/// event's time.
pub type StateView = (Seq<EventRow>, u128, u128);

/// A completed match as plain values: the pattern's name, the events, the
/// start and the end.
pub type MatchView = (Seq<char>, Seq<EventRow>, u128, u128);

pub open spec fn state_view(s: MatchingState) -> StateView {
    (s.matched_events@, s.start_time, s.last_event_time)
}

pub open spec fn match_view(m: PatternMatch) -> MatchView {
    (m.pattern_name@, m.events@, m.start_time, m.end_time)
}

pub open spec fn match_views(ms: Seq<PatternMatch>) -> Seq<MatchView> {
    ms.map_values(|m: PatternMatch| match_view(m))
}

/// The number of the field at position `i` of an event, if it has one.
pub open spec fn number_at(row: EventRow, i: int) -> Option<Seq<char>> {
    if 0 <= i < row.field_numbers@.len() {
        match row.field_numbers@[i] {
            Some(n) => Some(n@),
            None => None,
        }
    } else {
        None
    }
}

/// How a field's number compares with a value: -1, 0 or 1; refused when
/// the field has no number.
pub open spec fn field_order(number: Option<Seq<char>>, field: Seq<char>, value: Seq<char>) -> Result<int, Seq<char>> {
    match number {
        None => Err("Field is not numeric: "@ + field),
        Some(n) => number_order(n, value),
    }
}

/// What comparing with the operator `w` gives: equality from whether the
/// field's text contains the value, an ordering from how the field's
/// number compares with it.
pub open spec fn comparison_outcome(w: Seq<char>, contains: bool, order: Result<int, Seq<char>>) -> Result<bool, Seq<char>> {
    if w == "="@ || w == "=="@ {
        Ok(contains)
    } else if w == "!="@ {
        Ok(!contains)
    } else if w == ">"@ {
        match order { Ok(o) => Ok(o > 0), Err(e) => Err(e) }
    } else if w == ">="@ {
        match order { Ok(o) => Ok(o >= 0), Err(e) => Err(e) }
    } else if w == "<"@ {
        match order { Ok(o) => Ok(o < 0), Err(e) => Err(e) }
    } else if w == "<="@ {
        match order { Ok(o) => Ok(o <= 0), Err(e) => Err(e) }
    } else {
        Err("Unsupported operator: "@ + w)
    }
}

/// What an operator's comparison gives, by the operator that its word
/// names.
proof fn lemma_comparison(w: Seq<char>, op: ComparisonOp, contains: bool, order: Result<int, Seq<char>>)
    requires
        names_op(w, op),
    ensures
        comparison_outcome(w, contains, order) == match op {
            ComparisonOp::Equal => Ok::<bool, Seq<char>>(contains),
            ComparisonOp::NotEqual => Ok::<bool, Seq<char>>(!contains),
            ComparisonOp::Greater => match order { Ok(o) => Ok::<bool, Seq<char>>(o > 0), Err(e) => Err(e) },
            ComparisonOp::GreaterEqual => match order { Ok(o) => Ok::<bool, Seq<char>>(o >= 0), Err(e) => Err(e) },
            ComparisonOp::Less => match order { Ok(o) => Ok::<bool, Seq<char>>(o < 0), Err(e) => Err(e) },
            ComparisonOp::LessEqual => match order { Ok(o) => Ok::<bool, Seq<char>>(o <= 0), Err(e) => Err(e) },
            ComparisonOp::Unsupported(a) => Err::<bool, Seq<char>>("Unsupported operator: "@ + a@),
        },
{
    reveal_strlit("=");
    reveal_strlit("==");
    reveal_strlit("!=");
    reveal_strlit(">");
    reveal_strlit(">=");
    reveal_strlit("<");
    reveal_strlit("<=");
    assert("="@.len() == 1 && "=="@.len() == 2 && "!="@.len() == 2 && ">"@.len() == 1);
    assert(">="@.len() == 2 && "<"@.len() == 1 && "<="@.len() == 2);
    assert("="@[0] == '=' && "=="@[0] == '=' && "!="@[0] == '!' && ">"@[0] == '>');
    assert(">="@[0] == '>' && "<"@[0] == '<' && "<="@[0] == '<');
    assert("=="@[1] == '=' && "!="@[1] == '=' && ">="@[1] == '=' && "<="@[1] == '=');
}

/// Whether an event meets a condition: a simple condition `field operator
/// value` looks up the field by name, the first of that name; equality
/// tests whether its column's text contains the value, an ordering
/// compares its number with the value; the other kinds of condition are
/// refused.
pub open spec fn condition_on(kind: ConditionType, expression: Seq<char>, row: EventRow) -> Result<bool, Seq<char>> {
    match kind {
        ConditionType::Simple => {
            let ws = words(expression);
            if ws.len() != 3 {
                Err("Invalid simple condition format: "@ + expression)
            } else {
                match column_position(texts(row.field_names@), ws[0]) {
                    None => Err("Field not found: "@ + ws[0]),
                    Some(i) => comparison_outcome(
                        ws[1],
                        occurs_in(row.field_texts@[i]@, ws[2]),
                        field_order(number_at(row, i), ws[0], ws[2]),
                    ),
                }
            }
        },
        ConditionType::Compound => Err("Compound conditions not implemented yet"@),
        ConditionType::Regex => Err("Regex conditions not implemented yet"@),
        ConditionType::SqlExpression => Err("SQL expression conditions not implemented yet"@),
        ConditionType::CustomFunction => Err("Custom function conditions not implemented yet"@),
    }
}

/// Why an open match of a pattern of this kind cannot advance; single
/// events complete at once.
pub open spec fn advance_error(t: PatternType) -> Seq<char> {
    match t {
        PatternType::Singleton => Seq::empty(),
        PatternType::Sequence => "Sequence pattern not implemented yet"@,
        PatternType::Followed => "Followed pattern not implemented yet"@,
        PatternType::Negation => "Negation pattern not implemented yet"@,
        PatternType::Repetition => "Repetition pattern not implemented yet"@,
        PatternType::TimeConstrained => "Time constrained pattern not implemented yet"@,
    }
}

/// The matches that open matches complete into at `time`.
pub open spec fn completed_at(states: Seq<StateView>, name: Seq<char>, time: u128) -> Seq<MatchView> {
    states.map_values(|s: StateView| (name, s.0, s.1, time))
}

/// The engine's pattern as plain values: name, kind, condition kind and
/// condition text.
pub type PatternView = (Seq<char>, PatternType, ConditionType, Seq<char>);

/// One event at `time`, given the open matches and the completed ones:
/// the event opens a match when it meets the condition; then every open
/// match advances, a single-event match completing and any other failing,
/// which closes all open matches.
pub open spec fn event_step(p: PatternView, active: Seq<StateView>, done: Seq<MatchView>, row: EventRow, time: u128) -> (
    Result<(), Seq<char>>,
    Seq<StateView>,
    Seq<MatchView>,
) {
    match condition_on(p.2, p.3, row) {
        Err(e) => (Err(e), active, done),
        Ok(holds) => {
            let open = if holds { active.push((seq![row], time, time)) } else { active };
            if open.len() == 0 {
                (Ok(()), open, done)
            } else if p.1 is Singleton {
                (Ok(()), Seq::empty(), done + completed_at(open, p.0, time))
            } else {
                (Err(advance_error(p.1)), Seq::empty(), done)
            }
        },
    }
}

/// The events of a batch, in order, until the first that fails: an event
/// with a negative time fails, as does one that the step refuses.
pub open spec fn rows_step(p: PatternView, active: Seq<StateView>, done: Seq<MatchView>, rows: Seq<EventRow>) -> (
    Result<(), Seq<char>>,
    Seq<StateView>,
    Seq<MatchView>,
)
    decreases rows.len(),
{
    if rows.len() == 0 {
        (Ok(()), active, done)
    } else {
        let before = rows_step(p, active, done, rows.drop_last());
        if before.0 is Err {
            before
        } else {
            let row = rows.last();
            if row.timestamp_nanos < 0 {
                (Err("Negative timestamp encountered: "@ + signed_decimal(row.timestamp_nanos as int)), before.1, before.2)
            } else {
                event_step(p, before.1, before.2, row, row.timestamp_nanos as u128)
            }
        }
    }
}

/// The open matches that a watermark at `time` keeps: those whose last
/// event is later than `time`, and those whose last event is less than
/// `timeout` before it.
pub open spec fn unexpired(states: Seq<StateView>, time: u128, timeout: u128) -> Seq<StateView>
    decreases states.len(),
{
    if states.len() == 0 {
        Seq::empty()
    } else {
        let s = states.last();
        let rest = unexpired(states.drop_last(), time, timeout);
        if time < s.2 || time - s.2 < timeout {
            rest.push(s)
        } else {
            rest
        }
    }
}

/// How the number of the field at position `i` compares with `value`.
fn number_order_at(event: &EventRow, i: usize, field: &str, value: &str) -> (r: Result<i8, String>)
    ensures
        match field_order(number_at(*event, i as int), field@, value@) {
            Ok(o) => r == Ok::<i8, String>(o as i8),
            Err(e) => r matches Err(x) && x@ == e,
        },
{
    if i < event.field_numbers.len() {
        match &event.field_numbers[i] {
            Some(n) => return compare_numbers(n.as_str(), value),
            None => {},
        }
    }
    let mut cs = chars_of("Field is not numeric: ");
    append_chars(&mut cs, field);
    Err(string_from_chars(&cs))
}

/// Matches a pattern against events.
pub struct PatternMatchingEngine {
    pattern: Pattern,
    active_states: Vec<MatchingState>,
    completed_matches: Vec<PatternMatch>,
    time_field_index: usize,
    match_timeout_nanos: u128,
    allow_overlapping: bool,
    last_watermark: Option<u128>,
}

impl PatternMatchingEngine {
    /// The pattern as plain values.
    pub closed spec fn pattern_view(&self) -> PatternView {
        (self.pattern.name@, self.pattern.pattern_type, self.pattern.condition.condition_type, self.pattern.condition.expression@)
    }

    /// The open matches.
    pub closed spec fn active(&self) -> Seq<StateView> {
        self.active_states@.map_values(|s: MatchingState| state_view(s))
    }

    /// The completed matches not handed out yet.
    pub closed spec fn completed(&self) -> Seq<MatchView> {
        match_views(self.completed_matches@)
    }

    /// How long an open match may wait for its next event, in nanoseconds.
    pub closed spec fn timeout(&self) -> u128 {
        self.match_timeout_nanos
    }

    /// The last watermark, in nanoseconds since the Unix epoch.
    pub closed spec fn watermark(&self) -> Option<u128> {
        self.last_watermark
    }

    /// The position of the field that holds the events' times.
    pub closed spec fn time_field(&self) -> usize {
        self.time_field_index
    }

    /// An engine with no open and no completed match; the timeout is given
    /// in milliseconds.
    pub fn new(pattern: Pattern, time_field_index: usize, match_timeout_ms: u64, allow_overlapping: bool) -> (e: Self)
        ensures
            e.pattern_view() == (pattern.name@, pattern.pattern_type, pattern.condition.condition_type,
                pattern.condition.expression@),
            e.active() == Seq::<StateView>::empty(),
            e.completed() == Seq::<MatchView>::empty(),
            e.timeout() == match_timeout_ms as u128 * 1_000_000,
            e.watermark() is None,
            e.time_field() == time_field_index,
    {
        let e = PatternMatchingEngine {
            pattern,
            active_states: Vec::new(),
            completed_matches: Vec::new(),
            time_field_index,
            match_timeout_nanos: match_timeout_ms as u128 * 1_000_000,
            allow_overlapping,
            last_watermark: None,
        };
        proof {
            assert(e.active() =~= Seq::<StateView>::empty());
            assert(e.completed() =~= Seq::<MatchView>::empty());
        }
        e
    }

    /// The position of the field that holds the events' times.
    pub fn time_field_index(&self) -> (i: usize)
        ensures
            i == self.time_field(),
    {
        self.time_field_index
    }

    /// Whether an event meets the pattern's condition.
    pub fn evaluate_condition(&self, event: &EventRow) -> (r: Result<bool, String>)
        requires
            event.field_texts@.len() == event.field_names@.len(),
        ensures
            match condition_on(self.pattern_view().2, self.pattern_view().3, *event) {
                Ok(b) => r == Ok::<bool, String>(b),
                Err(e) => r matches Err(x) && x@ == e,
            },
    {
        let c = match parse_condition(&self.pattern.condition) {
            Ok(c) => c,
            Err(e) => return Err(e),
        };
        proof {
            assert(words(self.pattern.condition.expression@).len() == 3);
        }
        let i = match column_position_exec(&event.field_names, c.field.as_str()) {
            Some(i) => i,
            None => {
                let mut cs = chars_of("Field not found: ");
                append_chars(&mut cs, c.field.as_str());
                return Err(string_from_chars(&cs));
            },
        };
        proof {
            lemma_column_position_found(texts(event.field_names@), c.field@);
        }
        let cs = chars_of(event.field_texts[i].as_str());
        let contains = text_contains(&cs, c.value.as_str());
        let ordering = match c.operator {
            ComparisonOp::Greater | ComparisonOp::GreaterEqual | ComparisonOp::Less | ComparisonOp::LessEqual => {
                number_order_at(event, i, c.field.as_str(), c.value.as_str())
            },
            _ => Ok(0),
        };
        proof {
            let ws = words(self.pattern.condition.expression@);
            lemma_comparison(ws[1], c.operator, contains, field_order(number_at(*event, i as int), ws[0], ws[2]));
            assert(event.field_names@.len() == event.field_names.len());
        }
        comparison_result(&c.operator, contains, ordering)
    }

    /// Advances an open match with an event at `time`: a single-event
    /// match completes; any other kind fails.
    fn advance_state(&self, state: MatchingState, time: u128) -> (r: Result<StateAdvanceResult, String>)
        ensures
            self.pattern_view().1 is Singleton ==> (r matches Ok(StateAdvanceResult::Completed(m))
                && match_view(m) == (self.pattern_view().0, state.matched_events@, state.start_time, time)),
            !(self.pattern_view().1 is Singleton) ==> (r matches Err(e) && e@ == advance_error(self.pattern_view().1)),
    {
        match completes_at_once(&self.pattern.pattern_type) {
            Ok(()) => Ok(StateAdvanceResult::Completed(PatternMatch {
                pattern_name: copy_string(&self.pattern.name),
                events: state.matched_events,
                start_time: state.start_time,
                end_time: time,
            })),
            Err(e) => Err(e),
        }
    }

    /// Handles one event at `time`.
    #[verifier::loop_isolation(false)]
    fn process_event(&mut self, event: EventRow, time: u128) -> (r: Result<(), String>)
        requires
            event.field_texts@.len() == event.field_names@.len(),
        ensures
            final(self).pattern_view() == old(self).pattern_view(),
            final(self).timeout() == old(self).timeout(),
            final(self).watermark() == old(self).watermark(),
            final(self).time_field() == old(self).time_field(),
            ({
                let s = event_step(old(self).pattern_view(), old(self).active(), old(self).completed(), event, time);
                &&& (s.0 is Ok <==> r is Ok)
                &&& (s.0 matches Err(e) ==> (r matches Err(x) && x@ == e))
                &&& final(self).active() == s.1
                &&& final(self).completed() == s.2
            }),
    {
        let ghost p = self.pattern_view();
        let ghost before = self.active();
        let holds = match self.evaluate_condition(&event) {
            Ok(h) => h,
            Err(e) => return Err(e),
        };
        let ghost ev = event;
        let ghost open = if holds { before.push((seq![ev], time, time)) } else { before };
        if holds {
            let mut events: Vec<EventRow> = Vec::new();
            events.push(event);
            self.active_states.push(MatchingState { matched_events: events, start_time: time, last_event_time: time });
            proof {
                assert(self.active() =~= open);
            }
        }
        let mut states: Vec<MatchingState> = Vec::new();
        std::mem::swap(&mut states, &mut self.active_states);
        let ghost all = states@;
        proof {
            assert(all.map_values(|s: MatchingState| state_view(s)) =~= open);
        }
        let ghost done_before = self.completed();
        let mut new_states: Vec<MatchingState> = Vec::new();
        let mut completed: Vec<PatternMatch> = Vec::new();
        let n = states.len();
        let mut k: usize = 0;
        while states.len() > 0
            invariant
                k + states@.len() == n,
                n == all.len(),
                states@ == all.subrange(k as int, all.len() as int),
                all.map_values(|s: MatchingState| state_view(s)) == open,
                open.len() == all.len(),
                p == self.pattern_view(),
                p == old(self).pattern_view(),
                k > 0 ==> p.1 is Singleton,
                self.active_states@.len() == 0,
                new_states@.len() == 0,
                match_views(completed@) == completed_at(open.subrange(0, k as int), p.0, time),
                self.completed() == done_before,
                done_before == old(self).completed(),
                before == old(self).active(),
                open == (if holds { before.push((seq![ev], time, time)) } else { before }),
                condition_on(p.2, p.3, ev) == Ok::<bool, Seq<char>>(holds),
                self.timeout() == old(self).timeout(),
                self.watermark() == old(self).watermark(),
                self.time_field() == old(self).time_field(),
            decreases states.len(),
        {
            let st = states.remove(0);
            proof {
                assert(st == all[k as int]);
                assert(states@ =~= all.subrange(k + 1, all.len() as int));
                assert(open[k as int] == state_view(all[k as int]));
            }
            match self.advance_state(st, time) {
                Ok(StateAdvanceResult::Completed(m)) => {
                    let ghost prev = completed@;
                    completed.push(m);
                    proof {
                        let sub = open.subrange(0, k as int);
                        let sub1 = open.subrange(0, k + 1);
                        assert(match_view(m) == (p.0, open[k as int].0, open[k as int].1, time));
                        assert(completed@ =~= prev.push(m));
                        assert(match_views(prev).len() == prev.len());
                        assert(prev.len() == k);
                        assert forall|j: int| 0 <= j < k + 1 implies match_views(completed@)[j] == #[trigger] completed_at(
                            sub1,
                            p.0,
                            time,
                        )[j] by {
                            if j < k {
                                assert(completed@[j] == prev[j]);
                                assert(match_views(prev)[j] == completed_at(sub, p.0, time)[j]);
                                assert(sub1[j] == sub[j]);
                            } else {
                                assert(sub1[j] == open[k as int]);
                            }
                        }
                        assert(match_views(completed@) =~= completed_at(sub1, p.0, time));
                    }
                },
                Ok(StateAdvanceResult::Advanced(next)) => {
                    new_states.push(next);
                },
                Ok(StateAdvanceResult::NoMatch(kept)) => {
                    self.active_states.push(kept);
                },
                Err(e) => {
                    proof {
                        assert(self.active() =~= Seq::<StateView>::empty());
                    }
                    return Err(e);
                },
            }
            k = k + 1;
        }
        self.active_states.append(&mut new_states);
        let ghost prev_done = self.completed_matches@;
        self.completed_matches.append(&mut completed);
        proof {
            assert(open.subrange(0, k as int) =~= open);
            assert(self.active() =~= Seq::<StateView>::empty());
            assert(self.completed() =~= done_before + completed_at(open, p.0, time));
        }
        Ok(())
    }

    /// Handles the events of a batch in order, and hands out the matches
    /// completed so far; the first event that fails stops the batch, and
    /// the matches completed before it stay for a later call.
    #[verifier::loop_isolation(false)]
    pub fn process_batch(&mut self, rows: Vec<EventRow>) -> (r: Result<Vec<PatternMatch>, String>)
        requires
            forall|i: int| 0 <= i < rows@.len() ==> (#[trigger] rows@[i]).field_texts@.len() == rows@[i].field_names@.len(),
        ensures
            final(self).pattern_view() == old(self).pattern_view(),
            final(self).timeout() == old(self).timeout(),
            final(self).watermark() == old(self).watermark(),
            final(self).time_field() == old(self).time_field(),
            ({
                let s = rows_step(old(self).pattern_view(), old(self).active(), old(self).completed(), rows@);
                &&& final(self).active() == s.1
                &&& match s.0 {
                    Ok(()) => r matches Ok(ms) && match_views(ms@) == s.2
                        && final(self).completed() == Seq::<MatchView>::empty(),
                    Err(e) => r matches Err(x) && x@ == e && final(self).completed() == s.2,
                }
            }),
    {
        let ghost all = rows@;
        let ghost (p, a0, d0) = (self.pattern_view(), self.active(), self.completed());
        let mut rest = rows;
        let n = rest.len();
        let mut k: usize = 0;
        while rest.len() > 0
            invariant
                k + rest@.len() == n,
                n == all.len(),
                rest@ == all.subrange(k as int, all.len() as int),
                forall|i: int| 0 <= i < all.len() ==> (#[trigger] all[i]).field_texts@.len() == all[i].field_names@.len(),
                rows_step(p, a0, d0, all.subrange(0, k as int)).0 is Ok,
                self.active() == rows_step(p, a0, d0, all.subrange(0, k as int)).1,
                self.completed() == rows_step(p, a0, d0, all.subrange(0, k as int)).2,
                self.pattern_view() == p,
                p == old(self).pattern_view(),
                a0 == old(self).active(),
                d0 == old(self).completed(),
                self.timeout() == old(self).timeout(),
                self.watermark() == old(self).watermark(),
                self.time_field() == old(self).time_field(),
            decreases rest.len(),
        {
            let row = rest.remove(0);
            proof {
                assert(row == all[k as int]);
                assert(rest@ =~= all.subrange(k + 1, all.len() as int));
                assert(all.subrange(0, k + 1).drop_last() =~= all.subrange(0, k as int));
                assert(all.subrange(0, k + 1).last() == all[k as int]);
            }
            let ghost pre = all.subrange(0, k + 1);
            let ts = row.timestamp_nanos;
            if ts < 0 {
                let mut cs = chars_of("Negative timestamp encountered: ");
                let digits = i64_to_decimal(ts);
                append_chars(&mut cs, digits.as_str());
                proof {
                    assert(rows_step(p, a0, d0, pre).0 is Err);
                    lemma_rows_step_stops(p, a0, d0, all, k as int + 1);
                }
                return Err(string_from_chars(&cs));
            }
            match self.process_event(row, ts as u128) {
                Ok(()) => {},
                Err(e) => {
                    proof {
                        assert(rows_step(p, a0, d0, pre).0 is Err);
                        lemma_rows_step_stops(p, a0, d0, all, k as int + 1);
                    }
                    return Err(e);
                },
            }
            k = k + 1;
        }
        proof {
            assert(all.subrange(0, k as int) =~= all);
        }
        let mut matches: Vec<PatternMatch> = Vec::new();
        std::mem::swap(&mut matches, &mut self.completed_matches);
        proof {
            assert(self.completed() =~= Seq::<MatchView>::empty());
        }
        Ok(matches)
    }

    /// Drops the open matches that a watermark at `time` finds timed out.
    fn clean_timed_out_states(&mut self, time: u128)
        ensures
            final(self).active() == unexpired(old(self).active(), time, old(self).timeout()),
            final(self).completed() == old(self).completed(),
            final(self).pattern_view() == old(self).pattern_view(),
            final(self).timeout() == old(self).timeout(),
            final(self).watermark() == old(self).watermark(),
            final(self).time_field() == old(self).time_field(),
    {
        let ghost before = self.active();
        let mut states: Vec<MatchingState> = Vec::new();
        std::mem::swap(&mut states, &mut self.active_states);
        let ghost all = states@;
        let n = states.len();
        let mut k: usize = 0;
        while states.len() > 0
            invariant
                k + states@.len() == n,
                n == all.len(),
                states@ == all.subrange(k as int, all.len() as int),
                all.map_values(|s: MatchingState| state_view(s)) == before,
                self.active() == unexpired(before.subrange(0, k as int), time, self.timeout()),
                self.completed() == old(self).completed(),
                self.pattern_view() == old(self).pattern_view(),
                self.timeout() == old(self).timeout(),
                self.watermark() == old(self).watermark(),
                self.time_field() == old(self).time_field(),
            decreases states.len(),
        {
            let st = states.remove(0);
            proof {
                assert(st == all[k as int]);
                assert(states@ =~= all.subrange(k + 1, all.len() as int));
                assert(before[k as int] == state_view(all[k as int]));
                assert(before.subrange(0, k + 1).drop_last() =~= before.subrange(0, k as int));
                assert(before.subrange(0, k + 1).last() == before[k as int]);
            }
            let keep = time < st.last_event_time || time - st.last_event_time < self.match_timeout_nanos;
            if keep {
                let ghost prev = self.active_states@;
                self.active_states.push(st);
                proof {
                    assert(self.active() =~= unexpired(before.subrange(0, k + 1), time, self.timeout()));
                }
            }
            k = k + 1;
        }
        proof {
            assert(before.subrange(0, k as int) =~= before);
        }
    }

    /// Takes a watermark: it becomes the last one, the open matches it
    /// finds timed out are dropped, and the matches completed so far are
    /// handed out.
    pub fn process_watermark(&mut self, watermark: EngineWatermark) -> (r: Vec<PatternMatch>)
        ensures
            final(self).watermark() is Some,
            watermark matches EngineWatermark::EventTime(t) ==> final(self).watermark() == Some(t),
            final(self).active() == unexpired(old(self).active(), final(self).watermark()->0, old(self).timeout()),
            match_views(r@) == old(self).completed(),
            final(self).completed() == Seq::<MatchView>::empty(),
            final(self).pattern_view() == old(self).pattern_view(),
            final(self).timeout() == old(self).timeout(),
            final(self).time_field() == old(self).time_field(),
    {
        let time = match watermark {
            EngineWatermark::EventTime(t) => t,
            EngineWatermark::Idle => unix_now_nanos(),
        };
        self.last_watermark = Some(time);
        self.clean_timed_out_states(time);
        let mut matches: Vec<PatternMatch> = Vec::new();
        std::mem::swap(&mut matches, &mut self.completed_matches);
        proof {
            assert(self.completed() =~= Seq::<MatchView>::empty());
        }
        matches
    }
}

/// Once a batch fails, the events after the failing one change nothing.
proof fn lemma_rows_step_stops(p: PatternView, a: Seq<StateView>, d: Seq<MatchView>, rows: Seq<EventRow>, k: int)
    requires
        0 <= k <= rows.len(),
        rows_step(p, a, d, rows.subrange(0, k)).0 is Err,
    ensures
        rows_step(p, a, d, rows) == rows_step(p, a, d, rows.subrange(0, k)),
    decreases rows.len() - k,
{
    if k < rows.len() {
        assert(rows.subrange(0, k + 1).drop_last() =~= rows.subrange(0, k));
        lemma_rows_step_stops(p, a, d, rows, k + 1);
    } else {
        assert(rows.subrange(0, k) =~= rows);
    }
}

/// The matches that a single-event pattern gives for events: one for each
/// event that meets the condition, in order, starting and ending at the
/// event's time.
pub open spec fn single_event_matches(p: PatternView, rows: Seq<EventRow>) -> Seq<MatchView>
    decreases rows.len(),
{
    if rows.len() == 0 {
        Seq::empty()
    } else {
        let rest = single_event_matches(p, rows.drop_last());
        let row = rows.last();
        let t = row.timestamp_nanos as u128;
        if condition_on(p.2, p.3, row) == Ok::<bool, Seq<char>>(true) {
            rest.push((p.0, seq![row], t, t))
        } else {
            rest
        }
    }
}

/// Starting with no open match, no match stays open after a batch,
/// whatever the pattern and however the batch ends.
pub proof fn lemma_no_match_stays_open(p: PatternView, done: Seq<MatchView>, rows: Seq<EventRow>)
    ensures
        rows_step(p, Seq::empty(), done, rows).1 == Seq::<StateView>::empty(),
    decreases rows.len(),
{
    if rows.len() > 0 {
        lemma_no_match_stays_open(p, done, rows.drop_last());
    }
}

/// A single-event pattern, given events whose times are not negative and
/// whose condition can be judged, completes one match for each event that
/// meets the condition, in order, each starting and ending at its event's
/// time, and leaves none open.
pub proof fn lemma_single_event_matches(p: PatternView, done: Seq<MatchView>, rows: Seq<EventRow>)
    requires
        p.1 is Singleton,
        forall|i: int| 0 <= i < rows.len() ==> (#[trigger] rows[i]).timestamp_nanos >= 0,
        forall|i: int| 0 <= i < rows.len() ==> condition_on(p.2, p.3, #[trigger] rows[i]) is Ok,
    ensures
        rows_step(p, Seq::empty(), done, rows) == (Ok::<(), Seq<char>>(()), Seq::<StateView>::empty(), done
            + single_event_matches(p, rows)),
    decreases rows.len(),
{
    if rows.len() == 0 {
        assert(done + Seq::<MatchView>::empty() =~= done);
    } else {
        let d = rows.drop_last();
        assert forall|i: int| 0 <= i < d.len() implies (#[trigger] d[i]).timestamp_nanos >= 0 by {
            assert(d[i] == rows[i]);
        }
        assert forall|i: int| 0 <= i < d.len() implies condition_on(p.2, p.3, #[trigger] d[i]) is Ok by {
            assert(d[i] == rows[i]);
        }
        lemma_single_event_matches(p, done, d);
        let row = rows.last();
        assert(row == rows[rows.len() - 1]);
        let t = row.timestamp_nanos as u128;
        let before = done + single_event_matches(p, d);
        if condition_on(p.2, p.3, row) == Ok::<bool, Seq<char>>(true) {
            let open = Seq::<StateView>::empty().push((seq![row], t, t));
            assert(completed_at(open, p.0, t) =~= seq![(p.0, seq![row], t, t)]);
            assert(before + seq![(p.0, seq![row], t, t)] =~= done + single_event_matches(p, rows));
        } else {
            assert(before =~= done + single_event_matches(p, rows));
        }
    }
}

/// A complex-event operator: a matching engine over events whose time is
/// in the field `time_field`, at `time_field_index` among the input
/// fields; its output rows carry the input fields and then
/// `pattern_name`, `match_start_time` and `match_end_time`.
pub struct CepOperator {
    engine: PatternMatchingEngine,
    time_field: String,
    time_field_index: usize,
    output_fields: Vec<String>,
    output_partial_matches: bool,
}

/// The fields of an operator's output rows, after the input fields.
pub open spec fn match_fields() -> Seq<Seq<char>> {
    seq!["pattern_name"@, "match_start_time"@, "match_end_time"@]
}

/// A time in nanoseconds as a timestamp column holds it: capped at the
/// largest `i64`.
pub open spec fn capped_nanos(t: u128) -> i64 {
    if t <= i64::MAX as u128 { t as i64 } else { i64::MAX }
}

impl CepOperator {
    pub closed spec fn engine_view(&self) -> PatternMatchingEngine {
        self.engine
    }

    pub closed spec fn time_field_position(&self) -> usize {
        self.time_field_index
    }

    pub closed spec fn output_field_names(&self) -> Seq<Seq<char>> {
        texts(self.output_fields@)
    }

    /// An operator for a configuration and its pattern over input rows with
    /// `input_fields`: the time field is the first input field of that
    /// name, and an operator whose time field is not an input field is
    /// refused.
    pub fn new(config: &crate::operators::CepOperatorConfig, pattern: Pattern, input_fields: &Vec<String>) -> (r: Result<Self, String>)
        ensures
            match column_position(texts(input_fields@), config.time_field@) {
                None => r matches Err(e) && e@ == "Time field not found: "@ + config.time_field@,
                Some(i) => r matches Ok(op) && op.time_field_position() == i && op.output_field_names() == texts(
                    input_fields@,
                ) + match_fields() && op.engine_view().pattern_view() == (pattern.name@, pattern.pattern_type,
                    pattern.condition.condition_type, pattern.condition.expression@) && op.engine_view().active()
                    == Seq::<StateView>::empty() && op.engine_view().completed() == Seq::<MatchView>::empty()
                    && op.engine_view().timeout() == config.match_timeout_ms as u128 * 1_000_000
                    && op.engine_view().watermark() is None && op.engine_view().time_field() == i,
            },
    {
        let i = match column_position_exec(input_fields, config.time_field.as_str()) {
            Some(i) => i,
            None => {
                let mut cs = chars_of("Time field not found: ");
                append_chars(&mut cs, config.time_field.as_str());
                return Err(string_from_chars(&cs));
            },
        };
        proof {
            lemma_column_position_found(texts(input_fields@), config.time_field@);
        }
        let engine = PatternMatchingEngine::new(pattern, i, config.match_timeout_ms, config.allow_overlapping);
        let mut output_fields: Vec<String> = Vec::new();
        let mut k: usize = 0;
        while k < input_fields.len()
            invariant
                0 <= k <= input_fields@.len(),
                texts(output_fields@) == texts(input_fields@).subrange(0, k as int),
            decreases input_fields.len() - k,
        {
            let ghost prev = output_fields@;
            output_fields.push(copy_string(&input_fields[k]));
            proof {
                assert(texts(output_fields@) =~= texts(prev).push(input_fields@[k as int]@));
                assert(texts(input_fields@).subrange(0, k + 1) =~= texts(input_fields@).subrange(0, k as int).push(
                    input_fields@[k as int]@,
                ));
            }
            k = k + 1;
        }
        let ghost base = output_fields@;
        output_fields.push(string_from_chars(&chars_of("pattern_name")));
        output_fields.push(string_from_chars(&chars_of("match_start_time")));
        output_fields.push(string_from_chars(&chars_of("match_end_time")));
        proof {
            assert(texts(input_fields@).subrange(0, input_fields@.len() as int) =~= texts(input_fields@));
            assert(texts(output_fields@) =~= texts(base) + match_fields());
        }
        Ok(CepOperator {
            engine,
            time_field: copy_string(&config.time_field),
            time_field_index: i,
            output_fields,
            output_partial_matches: config.output_partial_matches,
        })
    }

    /// The fields of the output rows.
    pub fn output_fields(&self) -> (r: &Vec<String>)
        ensures
            texts(r@) == self.output_field_names(),
    {
        &self.output_fields
    }

    /// The position of the time field among the input fields.
    pub fn time_field_index(&self) -> (i: usize)
        ensures
            i == self.time_field_position(),
    {
        self.time_field_index
    }

    /// Runs a batch of events through the engine: the matches it completes,
    /// or none when the batch fails.
    pub fn process_batch(&mut self, rows: Vec<EventRow>) -> (r: Vec<PatternMatch>)
        requires
            forall|i: int| 0 <= i < rows@.len() ==> (#[trigger] rows@[i]).field_texts@.len() == rows@[i].field_names@.len(),
        ensures
            ({
                let e0 = old(self).engine_view();
                let s = rows_step(e0.pattern_view(), e0.active(), e0.completed(), rows@);
                &&& final(self).engine_view().active() == s.1
                &&& final(self).engine_view().pattern_view() == e0.pattern_view()
                &&& final(self).engine_view().timeout() == e0.timeout()
                &&& final(self).engine_view().watermark() == e0.watermark()
                &&& match s.0 {
                    Ok(()) => match_views(r@) == s.2 && final(self).engine_view().completed() == Seq::<MatchView>::empty(),
                    Err(_) => r@.len() == 0 && final(self).engine_view().completed() == s.2,
                }
            }),
            final(self).time_field_position() == old(self).time_field_position(),
            final(self).output_field_names() == old(self).output_field_names(),
    {
        match self.engine.process_batch(rows) {
            Ok(matches) => matches,
            Err(_) => Vec::new(),
        }
    }

    /// Takes a watermark through the engine and gives the matches completed
    /// so far; the watermark then passes on.
    pub fn handle_watermark(&mut self, watermark: EngineWatermark) -> (r: Vec<PatternMatch>)
        ensures
            match_views(r@) == old(self).engine_view().completed(),
            final(self).engine_view().completed() == Seq::<MatchView>::empty(),
            final(self).engine_view().active() == unexpired(old(self).engine_view().active(),
                final(self).engine_view().watermark()->0, old(self).engine_view().timeout()),
            watermark matches EngineWatermark::EventTime(t) ==> final(self).engine_view().watermark() == Some(t),
            final(self).engine_view().pattern_view() == old(self).engine_view().pattern_view(),
            final(self).time_field_position() == old(self).time_field_position(),
            final(self).output_field_names() == old(self).output_field_names(),
    {
        self.engine.process_watermark(watermark)
    }
}

/// An operator built from its configuration alone, with no input fields:
/// its time field is never among them, so it is refused.
pub fn cep_operator_with_config(config: &crate::operators::CepOperatorConfig, pattern: Pattern) -> (r: Result<CepOperator, String>)
    ensures
        r matches Err(e) && e@ == "Time field not found: "@ + config.time_field@,
{
    let none: Vec<String> = Vec::new();
    proof {
        assert(texts(none@) =~= Seq::<Seq<char>>::empty());
    }
    CepOperator::new(config, pattern, &none)
}

/// What the one output row for some matches holds: the first event of the
/// first match, the pattern's name, and the match's start and end in
/// nanoseconds, capped at the largest `i64`; no row for no match.
pub fn first_match_row(matches: &Vec<PatternMatch>) -> (r: Option<(&EventRow, &String, i64, i64)>)
    requires
        matches@.len() > 0 ==> matches@[0].events@.len() > 0,
    ensures
        matches@.len() == 0 ==> r is None,
        matches@.len() > 0 ==> (r matches Some(row) && *row.0 == matches@[0].events@[0] && *row.1 == matches@[0].pattern_name
            && row.2 == capped_nanos(matches@[0].start_time) && row.3 == capped_nanos(matches@[0].end_time)),
{
    if matches.len() == 0 {
        return None;
    }
    let first = &matches[0];
    let start = if first.start_time <= i64::MAX as u128 { first.start_time as i64 } else { i64::MAX };
    let end = if first.end_time <= i64::MAX as u128 { first.end_time as i64 } else { i64::MAX };
    Some((&first.events[0], &first.pattern_name, start, end))
}

} // verus!
