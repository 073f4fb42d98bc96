//! Configuration types of the stream operators and connectors: complex
//! event patterns, time-series analysis methods, two-phase commit.

use std::collections::HashMap;
use std::time::Duration;
use vstd::prelude::*;
use crate::charclass::{is_white_space, white_space};
use crate::strmap::StringMap;
use crate::text::{append_chars, chars_of, decimal, i64_to_decimal, signed_decimal, string_from_chars, texts};

verus! {

/// How a pattern matches events.
#[derive(Debug, Clone, PartialEq, Eq)]
pub enum PatternType {
    Singleton,
    Sequence,
    Followed,
    Negation,
    Repetition,
    TimeConstrained,
}

/// How a pattern's condition is written.
#[derive(Debug, Clone, PartialEq, Eq)]
pub enum ConditionType {
    Simple,
    Compound,
    Regex,
    SqlExpression,
    CustomFunction,
}

/// The condition an event must meet.
#[derive(Debug, Clone)]
pub struct PatternCondition {
    pub condition_type: ConditionType,
    pub expression: String,
    pub parameters: HashMap<String, String>,
}

/// A pattern of events, possibly made of sub-patterns.
#[derive(Debug)]
pub struct Pattern {
    pub name: String,
    pub pattern_type: PatternType,
    pub condition: PatternCondition,
    pub sub_patterns: Vec<Pattern>,
    pub time_constraint: Option<Duration>,
    /// The least and, if bounded, the most repetitions.
    pub repetition: Option<(usize, Option<usize>)>,
    pub greedy: bool,
}

/// The settings of a complex-event-processing operator.
#[derive(Debug, Clone, PartialEq, Eq)]
pub struct CepOperatorConfig {
    pub pattern_json: String,
    pub time_field: String,
    pub output_partial_matches: bool,
    pub match_timeout_ms: u64,
    pub allow_overlapping: bool,
}

/// Builds complex-event-processing operators from their settings.
#[derive(Debug, Clone, Copy)]
pub struct CepOperatorConstructor;

/// What a time-series operator computes.
#[derive(Debug, Clone, PartialEq, Eq, Structural)]
pub enum TimeSeriesAnalysisMethod {
    MovingAverage,
    ExponentialMovingAverage,
    TrendAnalysis,
    SeasonalityDetection,
    AnomalyDetection,
    Forecasting,
    CorrelationAnalysis,
}

/// How a moving average weighs its window.
#[derive(Debug, Clone, PartialEq, Eq, Structural)]
pub enum MovingAverageType {
    Simple,
    Weighted,
    Exponential,
}

/// The curve a trend is fitted with.
#[derive(Debug, Clone, PartialEq, Eq, Structural)]
pub enum TrendAnalysisType {
    Linear,
    Polynomial,
    Exponential,
}

/// How anomalies are told apart.
#[derive(Debug, Clone, PartialEq, Eq, Structural)]
pub enum AnomalyDetectionMethod {
    StandardDeviation,
    InterquartileRange,
    DensityBased,
}

/// How values are forecast.
#[derive(Debug, Clone, PartialEq, Eq, Structural)]
pub enum ForecastingMethod {
    AutoRegressive,
    MovingAverage,
    ARMA,
    ARIMA,
    ExponentialSmoothing,
}

impl TimeSeriesAnalysisMethod {
    /// The method with a wire code: 0 moving average, 1 exponential moving
    /// average, 2 trend analysis, 3 seasonality detection, 4 anomaly
    /// detection, 5 forecasting, 6 correlation analysis; no other code.
    pub fn from_code(value: i32) -> (r: Option<Self>)
        ensures
            r == match value {
                0 => Some(TimeSeriesAnalysisMethod::MovingAverage),
                1 => Some(TimeSeriesAnalysisMethod::ExponentialMovingAverage),
                2 => Some(TimeSeriesAnalysisMethod::TrendAnalysis),
                3 => Some(TimeSeriesAnalysisMethod::SeasonalityDetection),
                4 => Some(TimeSeriesAnalysisMethod::AnomalyDetection),
                5 => Some(TimeSeriesAnalysisMethod::Forecasting),
                6 => Some(TimeSeriesAnalysisMethod::CorrelationAnalysis),
                _ => None::<TimeSeriesAnalysisMethod>,
            },
    {
        match value {
            0 => Some(Self::MovingAverage),
            1 => Some(Self::ExponentialMovingAverage),
            2 => Some(Self::TrendAnalysis),
            3 => Some(Self::SeasonalityDetection),
            4 => Some(Self::AnomalyDetection),
            5 => Some(Self::Forecasting),
            6 => Some(Self::CorrelationAnalysis),
            _ => None,
        }
    }
}

impl MovingAverageType {
    /// 0 simple, 1 weighted, 2 exponential; no other code.
    pub fn from_code(value: i32) -> (r: Option<Self>)
        ensures
            r == match value {
                0 => Some(MovingAverageType::Simple),
                1 => Some(MovingAverageType::Weighted),
                2 => Some(MovingAverageType::Exponential),
                _ => None::<MovingAverageType>,
            },
    {
        match value {
            0 => Some(Self::Simple),
            1 => Some(Self::Weighted),
            2 => Some(Self::Exponential),
            _ => None,
        }
    }
}

impl TrendAnalysisType {
    /// 0 linear, 1 polynomial, 2 exponential; no other code.
    pub fn from_code(value: i32) -> (r: Option<Self>)
        ensures
            r == match value {
                0 => Some(TrendAnalysisType::Linear),
                1 => Some(TrendAnalysisType::Polynomial),
                2 => Some(TrendAnalysisType::Exponential),
                _ => None::<TrendAnalysisType>,
            },
    {
        match value {
            0 => Some(Self::Linear),
            1 => Some(Self::Polynomial),
            2 => Some(Self::Exponential),
            _ => None,
        }
    }
}

impl AnomalyDetectionMethod {
    /// 0 standard deviation, 1 interquartile range, 2 density based; no
    /// other code.
    pub fn from_code(value: i32) -> (r: Option<Self>)
        ensures
            r == match value {
                0 => Some(AnomalyDetectionMethod::StandardDeviation),
                1 => Some(AnomalyDetectionMethod::InterquartileRange),
                2 => Some(AnomalyDetectionMethod::DensityBased),
                _ => None::<AnomalyDetectionMethod>,
            },
    {
        match value {
            0 => Some(Self::StandardDeviation),
            1 => Some(Self::InterquartileRange),
            2 => Some(Self::DensityBased),
            _ => None,
        }
    }
}

impl ForecastingMethod {
    /// 0 auto-regressive, 1 moving average, 2 ARMA, 3 ARIMA, 4 exponential
    /// smoothing; no other code.
    pub fn from_code(value: i32) -> (r: Option<Self>)
        ensures
            r == match value {
                0 => Some(ForecastingMethod::AutoRegressive),
                1 => Some(ForecastingMethod::MovingAverage),
                2 => Some(ForecastingMethod::ARMA),
                3 => Some(ForecastingMethod::ARIMA),
                4 => Some(ForecastingMethod::ExponentialSmoothing),
                _ => None::<ForecastingMethod>,
            },
    {
        match value {
            0 => Some(Self::AutoRegressive),
            1 => Some(Self::MovingAverage),
            2 => Some(Self::ARMA),
            3 => Some(Self::ARIMA),
            4 => Some(Self::ExponentialSmoothing),
            _ => None,
        }
    }
}

/// Builds time-series analysis operators from their settings.
#[derive(Debug, Clone, Copy)]
pub struct TimeSeriesAnalysisOperatorConstructor;

/// Which subtasks commit in a two-phase commit.
#[derive(Debug, Clone, Copy)]
pub enum CommitStrategy {
    /// Every subtask commits what it wrote.
    PerSubtask,
    /// Subtask 0 of the operator commits for all of them.
    PerOperator,
}

/// A sink that commits in two phases, wrapped as an operator: the sink
/// `S`, the data it has pre-committed (`P`) and the current transaction.
#[derive(Debug)]
pub struct TwoPhaseCommitSinkOperator<S, P> {
    sink: S,
    pre_commits: Vec<P>,
    transaction_id: Option<String>,
}

impl<S, P> TwoPhaseCommitSinkOperator<S, P> {
    pub closed spec fn sink(&self) -> S {
        self.sink
    }

    pub closed spec fn pre_commit_seq(&self) -> Seq<P> {
        self.pre_commits@
    }

    pub closed spec fn transaction(&self) -> Option<Seq<char>> {
        match self.transaction_id {
            Some(t) => Some(t@),
            None => None,
        }
    }

    /// The operator around `sink`, with nothing pre-committed and no
    /// transaction.
    pub fn new(sink: S) -> (o: Self)
        ensures
            o.sink() == sink,
            o.pre_commit_seq() == Seq::<P>::empty(),
            o.transaction() is None,
    {
        TwoPhaseCommitSinkOperator { sink, pre_commits: Vec::new(), transaction_id: None }
    }

    /// The wrapped sink.
    pub fn inner(&self) -> (s: &S)
        ensures
            *s == self.sink(),
    {
        &self.sink
    }

    /// The wrapped sink, to change it.
    pub fn inner_mut(&mut self) -> (s: &mut S)
        ensures
            *s == old(self).sink(),
            final(self).sink() == *final(s),
            final(self).pre_commit_seq() == old(self).pre_commit_seq(),
            final(self).transaction() == old(self).transaction(),
    {
        &mut self.sink
    }

    /// Makes `transaction_id` the current transaction.
    pub fn set_transaction_id(&mut self, transaction_id: String)
        ensures
            final(self).transaction() == Some(transaction_id@),
            final(self).sink() == old(self).sink(),
            final(self).pre_commit_seq() == old(self).pre_commit_seq(),
    {
        self.transaction_id = Some(transaction_id);
    }

    /// The current transaction, if any.
    pub fn transaction_id(&self) -> (t: Option<&str>)
        ensures
            match self.transaction() {
                Some(x) => t matches Some(y) && y@ == x,
                None => t is None,
            },
    {
        match &self.transaction_id {
            Some(t) => Some(t.as_str()),
            None => None,
        }
    }
}

/// The topic connector.
#[derive(Debug, Clone, Copy)]
pub struct TopicConnector {}

/// What a connector says of itself: its id, name and description, and
/// whether it is enabled, reads, writes, can be tested, is hidden and
/// takes custom schemas.
#[derive(Debug, Clone, PartialEq, Eq)]
pub struct ConnectorMetadata {
    pub id: String,
    pub name: String,
    pub description: String,
    pub enabled: bool,
    pub source: bool,
    pub sink: bool,
    pub testing: bool,
    pub hidden: bool,
    pub custom_schemas: bool,
}

impl TopicConnector {
    /// The topic connector reads and writes, is enabled and shown, cannot
    /// be tested and takes custom schemas.
    pub fn metadata(&self) -> (m: ConnectorMetadata)
        ensures
            m.id@ == "topic"@,
            m.name@ == "Topic"@,
            m.description@ == "Read or write from Arroyo topics"@,
            m.enabled && m.source && m.sink && !m.testing && !m.hidden && m.custom_schemas,
    {
        ConnectorMetadata {
            id: string_from_chars(&chars_of("topic")),
            name: string_from_chars(&chars_of("Topic")),
            description: string_from_chars(&chars_of("Read or write from Arroyo topics")),
            enabled: true,
            source: true,
            sink: true,
            testing: false,
            hidden: false,
            custom_schemas: true,
        }
    }

    /// Whether a topic table's connection reads or writes.
    pub fn table_type(&self, table: &TopicTable) -> (t: ConnectionType)
        ensures
            t == match table.type_ {
                TopicTableType::Source { .. } => ConnectionType::Source,
                TopicTableType::Sink => ConnectionType::Sink,
            },
    {
        match table.type_ {
            TopicTableType::Source { .. } => ConnectionType::Source,
            TopicTableType::Sink => ConnectionType::Sink,
        }
    }
}

/// The websocket connector.
#[derive(Debug, Clone, Copy)]
pub struct WebsocketConnector {}

impl WebsocketConnector {
    /// The websocket connector only reads; it is enabled, shown, can be
    /// tested and takes custom schemas.
    pub fn metadata(&self) -> (m: ConnectorMetadata)
        ensures
            m.id@ == "websocket"@,
            m.name@ == "Websocket"@,
            m.description@ == "Connect to a Websocket server"@,
            m.enabled && m.source && !m.sink && m.testing && !m.hidden && m.custom_schemas,
    {
        ConnectorMetadata {
            id: string_from_chars(&chars_of("websocket")),
            name: string_from_chars(&chars_of("Websocket")),
            description: string_from_chars(&chars_of("Connect to a Websocket server")),
            enabled: true,
            source: true,
            sink: false,
            testing: true,
            hidden: false,
            custom_schemas: true,
        }
    }

    /// A websocket table's connection reads.
    pub fn table_type(&self) -> (t: ConnectionType)
        ensures
            t == ConnectionType::Source,
    {
        ConnectionType::Source
    }
}

/// The checkpointed state of a websocket source: it keeps none.
#[derive(Debug, Clone, Copy)]
pub struct WebsocketSourceState {}

/// The type of a column that an analysis adds to its input.
#[derive(Debug, Clone, Copy, PartialEq, Eq, Structural)]
pub enum OutputFieldKind {
    Float64,
    Boolean,
    UInt32,
    /// A timestamp in nanoseconds, without a time zone.
    TimestampNanos,
}

/// A nullable column that an analysis adds to its input.
#[derive(Debug, Clone)]
pub struct OutputField {
    pub name: String,
    pub kind: OutputFieldKind,
}

pub open spec fn output_fields_view(v: Seq<OutputField>) -> Seq<(Seq<char>, OutputFieldKind)> {
    v.map_values(|f: OutputField| (f.name@, f.kind))
}

/// The columns that the analysis with code `method` adds after the input's
/// own: the value's moving average; the trend with its intercept and
/// slope; whether there is a season and its period; whether a value is an
/// anomaly and its score; the forecast and its time; one correlation per
/// field compared. No method has another code.
pub open spec fn added_fields(method: i32, value_field: Seq<char>, correlation_fields: Seq<Seq<char>>) -> Option<
    Seq<(Seq<char>, OutputFieldKind)>,
> {
    match method {
        0 | 1 => Some(seq![(value_field + "_ma"@, OutputFieldKind::Float64)]),
        2 => Some(
            seq![
                (value_field + "_trend"@, OutputFieldKind::Float64),
                ("trend_intercept"@, OutputFieldKind::Float64),
                ("trend_slope"@, OutputFieldKind::Float64),
            ],
        ),
        3 => Some(seq![("is_seasonal"@, OutputFieldKind::Boolean), ("seasonality_period"@, OutputFieldKind::UInt32)]),
        4 => Some(seq![("is_anomaly"@, OutputFieldKind::Boolean), ("anomaly_score"@, OutputFieldKind::Float64)]),
        5 => Some(seq![(value_field + "_forecast"@, OutputFieldKind::Float64), ("forecast_time"@, OutputFieldKind::TimestampNanos)]),
        6 => Some(correlation_fields.map_values(|f: Seq<char>| ("correlation_"@ + f, OutputFieldKind::Float64))),
        _ => None,
    }
}

fn suffixed(prefix: &str, suffix: &str) -> (s: String)
    ensures
        s@ == prefix@ + suffix@,
{
    let mut cs = chars_of(prefix);
    append_chars(&mut cs, suffix);
    string_from_chars(&cs)
}

fn field(name: String, kind: OutputFieldKind) -> (f: OutputField)
    ensures
        f.name@ == name@,
        f.kind == kind,
{
    OutputField { name, kind }
}

/// The columns that a time-series analysis adds to its input, by the
/// analysis's code; an unknown code is refused.
pub fn analysis_output_fields(method: i32, value_field: &str, correlation_fields: &Vec<String>) -> (r: Result<Vec<OutputField>, String>)
    ensures
        match added_fields(method, value_field@, correlation_fields@.map_values(|f: String| f@)) {
            Some(fs) => r matches Ok(v) && output_fields_view(v@) == fs,
            None => r matches Err(e) && e@ == "Invalid time series analysis method: "@ + signed_decimal(method as int),
        },
{
    let mut v: Vec<OutputField> = Vec::new();
    match TimeSeriesAnalysisMethod::from_code(method) {
        Some(TimeSeriesAnalysisMethod::MovingAverage) | Some(TimeSeriesAnalysisMethod::ExponentialMovingAverage) => {
            v.push(field(suffixed(value_field, "_ma"), OutputFieldKind::Float64));
        },
        Some(TimeSeriesAnalysisMethod::TrendAnalysis) => {
            v.push(field(suffixed(value_field, "_trend"), OutputFieldKind::Float64));
            v.push(field(string_from_chars(&chars_of("trend_intercept")), OutputFieldKind::Float64));
            v.push(field(string_from_chars(&chars_of("trend_slope")), OutputFieldKind::Float64));
        },
        Some(TimeSeriesAnalysisMethod::SeasonalityDetection) => {
            v.push(field(string_from_chars(&chars_of("is_seasonal")), OutputFieldKind::Boolean));
            v.push(field(string_from_chars(&chars_of("seasonality_period")), OutputFieldKind::UInt32));
        },
        Some(TimeSeriesAnalysisMethod::AnomalyDetection) => {
            v.push(field(string_from_chars(&chars_of("is_anomaly")), OutputFieldKind::Boolean));
            v.push(field(string_from_chars(&chars_of("anomaly_score")), OutputFieldKind::Float64));
        },
        Some(TimeSeriesAnalysisMethod::Forecasting) => {
            v.push(field(suffixed(value_field, "_forecast"), OutputFieldKind::Float64));
            v.push(field(string_from_chars(&chars_of("forecast_time")), OutputFieldKind::TimestampNanos));
        },
        Some(TimeSeriesAnalysisMethod::CorrelationAnalysis) => {
            let mut i: usize = 0;
            while i < correlation_fields.len()
                invariant
                    0 <= i <= correlation_fields@.len(),
                    output_fields_view(v@) == correlation_fields@.subrange(0, i as int).map_values(
                        |f: String| ("correlation_"@ + f@, OutputFieldKind::Float64),
                    ),
                decreases correlation_fields.len() - i,
            {
                let ghost prev = v@;
                v.push(field(suffixed("correlation_", correlation_fields[i].as_str()), OutputFieldKind::Float64));
                proof {
                    assert(output_fields_view(v@) =~= output_fields_view(prev).push(
                        ("correlation_"@ + correlation_fields@[i as int]@, OutputFieldKind::Float64),
                    ));
                    assert(correlation_fields@.subrange(0, i + 1).map_values(
                        |f: String| ("correlation_"@ + f@, OutputFieldKind::Float64),
                    ) =~= correlation_fields@.subrange(0, i as int).map_values(
                        |f: String| ("correlation_"@ + f@, OutputFieldKind::Float64),
                    ).push(("correlation_"@ + correlation_fields@[i as int]@, OutputFieldKind::Float64)));
                }
                i = i + 1;
            }
            proof {
                assert(correlation_fields@.subrange(0, correlation_fields@.len() as int) =~= correlation_fields@);
                assert(output_fields_view(v@) =~= correlation_fields@.map_values(|f: String| f@).map_values(
                    |f: Seq<char>| ("correlation_"@ + f, OutputFieldKind::Float64),
                ));
            }
        },
        None => {
            let mut cs = chars_of("Invalid time series analysis method: ");
            append_chars(&mut cs, i64_to_decimal(method as i64).as_str());
            return Err(string_from_chars(&cs));
        },
    }
    proof {
        assert(output_fields_view(v@) =~= added_fields(method, value_field@, correlation_fields@.map_values(|f: String| f@))->0);
    }
    Ok(v)
}

/// The output schema of a time-series analysis: the input's fields
/// followed by the columns the analysis adds (by name), with the time
/// column's position and the key columns' positions as the input has
/// them; an unknown analysis code is refused.
pub fn analysis_output_schema(
    input_fields: &Vec<String>,
    timestamp_index: Option<usize>,
    key_indices: &Vec<usize>,
    method: i32,
    value_field: &str,
    correlation_fields: &Vec<String>,
) -> (r: Result<(Vec<String>, Option<usize>, Vec<usize>), String>)
    ensures
        match added_fields(method, value_field@, correlation_fields@.map_values(|f: String| f@)) {
            Some(fs) => r matches Ok((names, ts, keys))
                && names@.map_values(|n: String| n@) == input_fields@.map_values(|n: String| n@) + fs.map_values(
                    |f: (Seq<char>, OutputFieldKind)| f.0,
                )
                && ts == timestamp_index
                && keys@ == key_indices@,
            None => r matches Err(e) && e@ == "Invalid time series analysis method: "@ + signed_decimal(method as int),
        },
{
    let added = match analysis_output_fields(method, value_field, correlation_fields) {
        Ok(v) => v,
        Err(e) => return Err(e),
    };
    let ghost fs = output_fields_view(added@);
    let mut names: Vec<String> = Vec::new();
    let mut i: usize = 0;
    while i < input_fields.len()
        invariant
            0 <= i <= input_fields@.len(),
            names@.map_values(|n: String| n@) == input_fields@.subrange(0, i as int).map_values(|n: String| n@),
        decreases input_fields.len() - i,
    {
        let ghost prev = names@;
        names.push(copy_text(&input_fields[i]));
        proof {
            assert(names@.map_values(|n: String| n@) =~= prev.map_values(|n: String| n@).push(input_fields@[i as int]@));
            assert(input_fields@.subrange(0, i + 1).map_values(|n: String| n@)
                =~= input_fields@.subrange(0, i as int).map_values(|n: String| n@).push(input_fields@[i as int]@));
        }
        i = i + 1;
    }
    proof {
        assert(input_fields@.subrange(0, input_fields@.len() as int) =~= input_fields@);
    }
    let ghost base = names@.map_values(|n: String| n@);
    let mut j: usize = 0;
    while j < added.len()
        invariant
            0 <= j <= added@.len(),
            fs == output_fields_view(added@),
            names@.map_values(|n: String| n@) == base + fs.subrange(0, j as int).map_values(
                |f: (Seq<char>, OutputFieldKind)| f.0,
            ),
        decreases added.len() - j,
    {
        let ghost prev = names@;
        names.push(copy_text(&added[j].name));
        proof {
            assert(fs[j as int].0 == added@[j as int].name@);
            assert(names@.map_values(|n: String| n@) =~= prev.map_values(|n: String| n@).push(added@[j as int].name@));
            assert(fs.subrange(0, j + 1).map_values(|f: (Seq<char>, OutputFieldKind)| f.0)
                =~= fs.subrange(0, j as int).map_values(|f: (Seq<char>, OutputFieldKind)| f.0).push(fs[j as int].0));
        }
        j = j + 1;
    }
    proof {
        assert(fs.subrange(0, added@.len() as int) =~= fs);
    }
    let mut keys: Vec<usize> = Vec::new();
    let mut k: usize = 0;
    while k < key_indices.len()
        invariant
            0 <= k <= key_indices@.len(),
            keys@ == key_indices@.subrange(0, k as int),
        decreases key_indices.len() - k,
    {
        keys.push(key_indices[k]);
        proof {
            assert(keys@ =~= key_indices@.subrange(0, k + 1));
        }
        k = k + 1;
    }
    proof {
        assert(keys@ =~= key_indices@);
    }
    Ok((names, timestamp_index, keys))
}

/// Reading a text left to right: the words finished so far, and the word
/// being read, a word being a longest run of characters that are not
/// white space.
pub open spec fn word_scan(s: Seq<char>) -> (Seq<Seq<char>>, Seq<char>)
    decreases s.len(),
{
    if s.len() == 0 {
        (seq![], seq![])
    } else {
        let (done, cur) = word_scan(s.drop_last());
        if white_space(s.last()) {
            if cur.len() > 0 { (done.push(cur), seq![]) } else { (done, cur) }
        } else {
            (done, cur.push(s.last()))
        }
    }
}

/// The words of a text, in order.
pub open spec fn words(s: Seq<char>) -> Seq<Seq<char>> {
    let (done, cur) = word_scan(s);
    if cur.len() > 0 { done.push(cur) } else { done }
}

/// The words of a text, split at white space.
pub fn split_words(s: &str) -> (r: Vec<String>)
    ensures
        r@.map_values(|w: String| w@) == words(s@),
{
    let cs = chars_of(s);
    let mut done: Vec<String> = Vec::new();
    let mut cur: Vec<char> = Vec::new();
    let mut i: usize = 0;
    while i < cs.len()
        invariant
            0 <= i <= cs@.len(),
            cs@ == s@,
            (done@.map_values(|w: String| w@), cur@) == word_scan(s@.subrange(0, i as int)),
        decreases cs.len() - i,
    {
        let c = cs[i];
        proof {
            assert(s@.subrange(0, i + 1).drop_last() =~= s@.subrange(0, i as int));
            assert(s@.subrange(0, i + 1).last() == c);
        }
        if is_white_space(c) {
            if cur.len() > 0 {
                let ghost prev = done@.map_values(|w: String| w@);
                done.push(string_from_chars(&cur));
                cur = Vec::new();
                proof {
                    assert(done@.map_values(|w: String| w@) =~= prev.push(word_scan(s@.subrange(0, i as int)).1));
                    assert(cur@ =~= Seq::<char>::empty());
                }
            }
        } else {
            cur.push(c);
        }
        i = i + 1;
    }
    proof {
        assert(s@.subrange(0, cs@.len() as int) =~= s@);
    }
    if cur.len() > 0 {
        let ghost prev = done@.map_values(|w: String| w@);
        done.push(string_from_chars(&cur));
        proof {
            assert(done@.map_values(|w: String| w@) =~= prev.push(cur@));
        }
    }
    done
}

/// How a simple condition compares a field with its value.
#[derive(Debug, Clone, PartialEq, Eq)]
pub enum ComparisonOp {
    Equal,
    NotEqual,
    Greater,
    GreaterEqual,
    Less,
    LessEqual,
    /// An operator the engine does not know.
    Unsupported(String),
}

/// A simple condition, `field operator value`.
#[derive(Debug, Clone)]
pub struct SimpleCondition {
    pub field: String,
    pub operator: ComparisonOp,
    pub value: String,
}

/// Whether `op` is the operator the word `w` names: `=` or `==`, `!=`,
/// `>`, `>=`, `<`, `<=`; any other word is an unknown operator.
pub open spec fn names_op(w: Seq<char>, op: ComparisonOp) -> bool {
    match op {
        ComparisonOp::Equal => w == "="@ || w == "=="@,
        ComparisonOp::NotEqual => w == "!="@,
        ComparisonOp::Greater => w == ">"@,
        ComparisonOp::GreaterEqual => w == ">="@,
        ComparisonOp::Less => w == "<"@,
        ComparisonOp::LessEqual => w == "<="@,
        ComparisonOp::Unsupported(a) => a@ == w && w != "="@ && w != "=="@ && w != "!="@ && w != ">"@ && w != ">="@
            && w != "<"@ && w != "<="@,
    }
}

/// The operator named by a word of a condition.
fn op_named(w: &String) -> (op: ComparisonOp)
    ensures
        names_op(w@, op),
{
    let s = w.as_str();
    if crate::strmap::str_eq(s, "=") || crate::strmap::str_eq(s, "==") {
        ComparisonOp::Equal
    } else if crate::strmap::str_eq(s, "!=") {
        ComparisonOp::NotEqual
    } else if crate::strmap::str_eq(s, ">") {
        ComparisonOp::Greater
    } else if crate::strmap::str_eq(s, ">=") {
        ComparisonOp::GreaterEqual
    } else if crate::strmap::str_eq(s, "<") {
        ComparisonOp::Less
    } else if crate::strmap::str_eq(s, "<=") {
        ComparisonOp::LessEqual
    } else {
        ComparisonOp::Unsupported(copy_text(w))
    }
}

fn copy_text(s: &String) -> (r: String)
    ensures
        r@ == s@,
{
    string_from_chars(&chars_of(s.as_str()))
}

/// A condition read for evaluation: a simple one must be three words,
/// `field operator value`; the other kinds are not evaluated.
pub fn parse_condition(condition: &PatternCondition) -> (r: Result<SimpleCondition, String>)
    ensures
        match condition.condition_type {
            ConditionType::Simple => {
                let ws = words(condition.expression@);
                if ws.len() == 3 {
                    r matches Ok(c) && c.field@ == ws[0] && c.value@ == ws[2] && names_op(ws[1], c.operator)
                } else {
                    r matches Err(e) && e@ == "Invalid simple condition format: "@ + condition.expression@
                }
            },
            ConditionType::Compound => r matches Err(e) && e@ == "Compound conditions not implemented yet"@,
            ConditionType::Regex => r matches Err(e) && e@ == "Regex conditions not implemented yet"@,
            ConditionType::SqlExpression => r matches Err(e) && e@ == "SQL expression conditions not implemented yet"@,
            ConditionType::CustomFunction => r matches Err(e) && e@ == "Custom function conditions not implemented yet"@,
        },
{
    match condition.condition_type {
        ConditionType::Simple => {
            let ws = split_words(condition.expression.as_str());
            if ws.len() != 3 {
                let mut cs = chars_of("Invalid simple condition format: ");
                append_chars(&mut cs, condition.expression.as_str());
                return Err(string_from_chars(&cs));
            }
            proof {
                assert(ws@.map_values(|w: String| w@)[0] == ws@[0]@);
                assert(ws@.map_values(|w: String| w@)[1] == ws@[1]@);
                assert(ws@.map_values(|w: String| w@)[2] == ws@[2]@);
            }
            Ok(SimpleCondition { field: copy_text(&ws[0]), operator: op_named(&ws[1]), value: copy_text(&ws[2]) })
        },
        ConditionType::Compound => Err(string_from_chars(&chars_of("Compound conditions not implemented yet"))),
        ConditionType::Regex => Err(string_from_chars(&chars_of("Regex conditions not implemented yet"))),
        ConditionType::SqlExpression => Err(string_from_chars(&chars_of("SQL expression conditions not implemented yet"))),
        ConditionType::CustomFunction => Err(string_from_chars(&chars_of("Custom function conditions not implemented yet"))),
    }
}

/// What a comparison gives: equality holds when the field's text contains
/// the value, inequality when it does not; an ordering holds by how the
/// field's number compares with the value (`order`, -1, 0 or 1, or why it
/// could not be had); an unknown operator is refused.
pub fn comparison_result(operator: &ComparisonOp, contains_value: bool, order: Result<i8, String>) -> (r: Result<bool, String>)
    ensures
        match *operator {
            ComparisonOp::Equal => r == Ok::<bool, String>(contains_value),
            ComparisonOp::NotEqual => r == Ok::<bool, String>(!contains_value),
            ComparisonOp::Greater => r == (match order { Ok(o) => Ok::<bool, String>(o > 0), Err(e) => Err(e) }),
            ComparisonOp::GreaterEqual => r == (match order { Ok(o) => Ok::<bool, String>(o >= 0), Err(e) => Err(e) }),
            ComparisonOp::Less => r == (match order { Ok(o) => Ok::<bool, String>(o < 0), Err(e) => Err(e) }),
            ComparisonOp::LessEqual => r == (match order { Ok(o) => Ok::<bool, String>(o <= 0), Err(e) => Err(e) }),
            ComparisonOp::Unsupported(o) => r matches Err(e) && e@ == "Unsupported operator: "@ + o@,
        },
{
    match operator {
        ComparisonOp::Equal => Ok(contains_value),
        ComparisonOp::NotEqual => Ok(!contains_value),
        ComparisonOp::Greater => match order {
            Ok(o) => Ok(o > 0),
            Err(e) => Err(e),
        },
        ComparisonOp::GreaterEqual => match order {
            Ok(o) => Ok(o >= 0),
            Err(e) => Err(e),
        },
        ComparisonOp::Less => match order {
            Ok(o) => Ok(o < 0),
            Err(e) => Err(e),
        },
        ComparisonOp::LessEqual => match order {
            Ok(o) => Ok(o <= 0),
            Err(e) => Err(e),
        },
        ComparisonOp::Unsupported(o) => {
            let mut cs = chars_of("Unsupported operator: ");
            append_chars(&mut cs, o.as_str());
            Err(string_from_chars(&cs))
        },
    }
}

/// Whether a match of a pattern of this kind completes with the event that
/// starts it; only single-event patterns are evaluated.
pub fn completes_at_once(pattern_type: &PatternType) -> (r: Result<(), String>)
    ensures
        match *pattern_type {
            PatternType::Singleton => r is Ok,
            PatternType::Sequence => r matches Err(e) && e@ == "Sequence pattern not implemented yet"@,
            PatternType::Followed => r matches Err(e) && e@ == "Followed pattern not implemented yet"@,
            PatternType::Negation => r matches Err(e) && e@ == "Negation pattern not implemented yet"@,
            PatternType::Repetition => r matches Err(e) && e@ == "Repetition pattern not implemented yet"@,
            PatternType::TimeConstrained => r matches Err(e) && e@ == "Time constrained pattern not implemented yet"@,
        },
{
    match pattern_type {
        PatternType::Singleton => Ok(()),
        PatternType::Sequence => Err(string_from_chars(&chars_of("Sequence pattern not implemented yet"))),
        PatternType::Followed => Err(string_from_chars(&chars_of("Followed pattern not implemented yet"))),
        PatternType::Negation => Err(string_from_chars(&chars_of("Negation pattern not implemented yet"))),
        PatternType::Repetition => Err(string_from_chars(&chars_of("Repetition pattern not implemented yet"))),
        PatternType::TimeConstrained => Err(string_from_chars(&chars_of("Time constrained pattern not implemented yet"))),
    }
}

/// Where a topic table's source starts.
#[derive(Debug, Clone, Copy, PartialEq, Eq, Structural)]
pub enum TableOffset {
    Earliest,
    Latest,
}

/// Whether a topic table is read or written.
#[derive(Debug, Clone, Copy, PartialEq, Eq, Structural)]
pub enum TopicTableType {
    Source { offset: TableOffset },
    Sink,
}

/// A table over a topic.
#[derive(Debug, Clone, PartialEq, Eq)]
pub struct TopicTable {
    pub topic: String,
    pub type_: TopicTableType,
}

/// Whether a connection reads or writes.
#[derive(Debug, Clone, Copy, PartialEq, Eq, Structural)]
pub enum ConnectionType {
    Source,
    Sink,
}

/// The kind of topic table that the `type` option and, for a source, the
/// `source.offset` option ask for: a source starts at the latest offset
/// unless `earliest` is asked for.
pub fn topic_table_type(table_type: &str, source_offset: Option<&str>) -> (r: Result<TopicTableType, String>)
    ensures
        table_type@ == "source"@ ==> match source_offset {
            None => r == Ok::<TopicTableType, String>(TopicTableType::Source { offset: TableOffset::Latest }),
            Some(o) => if o@ == "latest"@ {
                r == Ok::<TopicTableType, String>(TopicTableType::Source { offset: TableOffset::Latest })
            } else if o@ == "earliest"@ {
                r == Ok::<TopicTableType, String>(TopicTableType::Source { offset: TableOffset::Earliest })
            } else {
                r matches Err(e) && e@ == "invalid value for source.offset '"@ + o@ + "'"@
            },
        },
        table_type@ == "sink"@ ==> r == Ok::<TopicTableType, String>(TopicTableType::Sink),
        table_type@ != "source"@ && table_type@ != "sink"@ ==> (r matches Err(e) && e@ == "type must be one of 'source' or 'sink"@),
{
    proof {
        reveal_strlit("source");
        reveal_strlit("sink");
        assert("sink"@.len() == 4 && "source"@.len() == 6);
        assert("sink"@ != "source"@);
    }
    if crate::strmap::str_eq(table_type, "source") {
        match source_offset {
            None => Ok(TopicTableType::Source { offset: TableOffset::Latest }),
            Some(o) => {
                if crate::strmap::str_eq(o, "latest") {
                    Ok(TopicTableType::Source { offset: TableOffset::Latest })
                } else if crate::strmap::str_eq(o, "earliest") {
                    Ok(TopicTableType::Source { offset: TableOffset::Earliest })
                } else {
                    let mut cs = chars_of("invalid value for source.offset '");
                    append_chars(&mut cs, o);
                    append_chars(&mut cs, "'");
                    Err(string_from_chars(&cs))
                }
            },
        }
    } else if crate::strmap::str_eq(table_type, "sink") {
        Ok(TopicTableType::Sink)
    } else {
        Err(string_from_chars(&chars_of("type must be one of 'source' or 'sink")))
    }
}

fn wrapped(prefix: &str, inner: &str) -> (s: String)
    ensures
        s@ == prefix@ + inner@ + ">"@,
{
    let mut cs = chars_of(prefix);
    append_chars(&mut cs, inner);
    append_chars(&mut cs, ">");
    string_from_chars(&cs)
}

/// Whether a topic table's connection reads or writes, and how it is
/// described: `TopicSource<topic>` or `TopicSink<topic>`.
pub fn topic_connection(table: &TopicTable) -> (r: (ConnectionType, String))
    ensures
        match table.type_ {
            TopicTableType::Source { .. } => r.0 == ConnectionType::Source && r.1@ == "TopicSource<"@ + table.topic@ + ">"@,
            TopicTableType::Sink => r.0 == ConnectionType::Sink && r.1@ == "TopicSink<"@ + table.topic@ + ">"@,
        },
{
    match table.type_ {
        TopicTableType::Source { .. } => (ConnectionType::Source, wrapped("TopicSource<", table.topic.as_str())),
        TopicTableType::Sink => (ConnectionType::Sink, wrapped("TopicSink<", table.topic.as_str())),
    }
}

/// How a websocket source is described: `WebsocketSource<endpoint>`.
pub fn websocket_description(endpoint: &str) -> (s: String)
    ensures
        s@ == "WebsocketSource<"@ + endpoint@ + ">"@,
{
    wrapped("WebsocketSource<", endpoint)
}

/// Where a topic source starts, by its table's offset.
pub fn source_offset_of(offset: TableOffset) -> (r: crate::source::SourceOffset)
    ensures
        r == match offset {
            TableOffset::Earliest => crate::source::SourceOffset::Earliest,
            TableOffset::Latest => crate::source::SourceOffset::Latest,
        },
{
    match offset {
        TableOffset::Earliest => crate::source::SourceOffset::Earliest,
        TableOffset::Latest => crate::source::SourceOffset::Latest,
    }
}

/// A connection: its name, whether it reads or writes, and its
/// description.
#[derive(Debug, Clone, PartialEq, Eq)]
pub struct ConnectionInfo {
    pub name: String,
    pub connection_type: ConnectionType,
    pub description: String,
}

/// The connection named `name` over a topic table, given whether a schema
/// is defined and whether that schema sets a format: both are needed.
pub fn topic_from_config(name: &str, table: &TopicTable, has_schema: bool, has_format: bool) -> (r: Result<ConnectionInfo, String>)
    ensures
        !has_schema ==> (r matches Err(e) && e@ == "no schema defined for Topic connection"@),
        has_schema && !has_format ==> (r matches Err(e) && e@ == "'format' must be set for Topic connection"@),
        has_schema && has_format ==> (r matches Ok(c) && c.name@ == name@ && match table.type_ {
            TopicTableType::Source { .. } => c.connection_type == ConnectionType::Source
                && c.description@ == "TopicSource<"@ + table.topic@ + ">"@,
            TopicTableType::Sink => c.connection_type == ConnectionType::Sink
                && c.description@ == "TopicSink<"@ + table.topic@ + ">"@,
        }),
{
    let (connection_type, description) = topic_connection(table);
    if !has_schema {
        return Err(string_from_chars(&chars_of("no schema defined for Topic connection")));
    }
    if !has_format {
        return Err(string_from_chars(&chars_of("'format' must be set for Topic connection")));
    }
    Ok(ConnectionInfo { name: string_from_chars(&chars_of(name)), connection_type, description })
}

/// The connection named `name` that the options `topic`, `type` and, for a
/// source, `source.offset` ask for.
pub fn topic_from_options(
    name: &str,
    topic: &str,
    table_type: &str,
    source_offset: Option<&str>,
    has_schema: bool,
    has_format: bool,
) -> (r: Result<ConnectionInfo, String>)
    ensures
        ({
            let t = if table_type@ == "sink"@ {
                Ok::<TopicTableType, Seq<char>>(TopicTableType::Sink)
            } else if table_type@ != "source"@ {
                Err::<TopicTableType, Seq<char>>("type must be one of 'source' or 'sink"@)
            } else {
                match source_offset {
                    None => Ok(TopicTableType::Source { offset: TableOffset::Latest }),
                    Some(o) => if o@ == "latest"@ {
                        Ok(TopicTableType::Source { offset: TableOffset::Latest })
                    } else if o@ == "earliest"@ {
                        Ok(TopicTableType::Source { offset: TableOffset::Earliest })
                    } else {
                        Err("invalid value for source.offset '"@ + o@ + "'"@)
                    },
                }
            };
            match t {
                Err(e) => r matches Err(x) && x@ == e,
                Ok(kind) => if !has_schema {
                    r matches Err(x) && x@ == "no schema defined for Topic connection"@
                } else if !has_format {
                    r matches Err(x) && x@ == "'format' must be set for Topic connection"@
                } else {
                    r matches Ok(c) && c.name@ == name@ && match kind {
                        TopicTableType::Source { .. } => c.connection_type == ConnectionType::Source
                            && c.description@ == "TopicSource<"@ + topic@ + ">"@,
                        TopicTableType::Sink => c.connection_type == ConnectionType::Sink
                            && c.description@ == "TopicSink<"@ + topic@ + ">"@,
                    }
                },
            }
        }),
{
    proof {
        reveal_strlit("source");
        reveal_strlit("sink");
        assert("sink"@.len() == 4 && "source"@.len() == 6);
    }
    let kind = match topic_table_type(table_type, source_offset) {
        Ok(k) => k,
        Err(e) => return Err(e),
    };
    let table = TopicTable { topic: string_from_chars(&chars_of(topic)), type_: kind };
    topic_from_config(name, &table, has_schema, has_format)
}

/// The operator that a topic table makes: a source that starts where its
/// table says, reading batches of 100 and prefetching 1000 records; or a
/// transactional round-robin sink over 3 partitions that flushes at 1000
/// held records.
#[derive(Debug)]
pub enum TopicOperator {
    Source { topic: String, offset_mode: crate::source::SourceOffset, batch_size: usize, prefetch_count: usize },
    Sink(crate::sink::TopicSinkRun),
}

/// The operator for a topic table, given whether its configuration sets a
/// format, which both kinds need.
pub fn make_operator(table: TopicTable, has_format: bool) -> (r: Result<TopicOperator, String>)
    ensures
        !has_format ==> (r matches Err(e) && e@ == match table.type_ {
            TopicTableType::Source { .. } => "format required for topic source"@,
            TopicTableType::Sink => "format required for topic sink"@,
        }),
        has_format ==> match table.type_ {
            TopicTableType::Source { offset } => r matches Ok(TopicOperator::Source { topic, offset_mode, batch_size,
                prefetch_count }) && topic == table.topic && offset_mode == match offset {
                TableOffset::Earliest => crate::source::SourceOffset::Earliest,
                TableOffset::Latest => crate::source::SourceOffset::Latest,
            } && batch_size == 100 && prefetch_count == 1000,
            TopicTableType::Sink => r matches Ok(TopicOperator::Sink(s)) && s.topic == table.topic && s.transactional
                && s.partitioner == (crate::sink::SinkPartitioner {
                    partition_strategy: crate::sink::PartitionStrategy::RoundRobin,
                    partition_count: 3,
                    current_partition_index: 0,
                }) && s.current_transaction is None && s.last_committed_transaction_id is None
                && s.buffer_size_limit == 1000 && s.current_buffer_size == 0,
        },
{
    match table.type_ {
        TopicTableType::Source { offset } => {
            let offset_mode = source_offset_of(offset);
            if !has_format {
                return Err(string_from_chars(&chars_of("format required for topic source")));
            }
            Ok(TopicOperator::Source { topic: table.topic, offset_mode, batch_size: 100, prefetch_count: 1000 })
        },
        TopicTableType::Sink => {
            if !has_format {
                return Err(string_from_chars(&chars_of("format required for topic sink")));
            }
            let sink = crate::sink::TopicSinkRun::new(table.topic)
                .with_partition_strategy(crate::sink::PartitionStrategy::RoundRobin)
                .with_transactions()
                .with_partition_count(3)
                .with_buffer_size_limit(1000);
            Ok(TopicOperator::Sink(sink))
        },
    }
}

/// The connection named `name` of a websocket source reading `endpoint`,
/// given whether a schema is defined and whether that schema sets a
/// format: both are needed.
pub fn websocket_from_config(name: &str, endpoint: &str, has_schema: bool, has_format: bool) -> (r: Result<ConnectionInfo, String>)
    ensures
        !has_schema ==> (r matches Err(e) && e@ == "no schema defined for WebSocket connection"@),
        has_schema && !has_format ==> (r matches Err(e) && e@ == "'format' must be set for WebSocket connection"@),
        has_schema && has_format ==> (r matches Ok(c) && c.name@ == name@ && c.connection_type == ConnectionType::Source
            && c.description@ == "WebsocketSource<"@ + endpoint@ + ">"@),
{
    let description = websocket_description(endpoint);
    if !has_schema {
        return Err(string_from_chars(&chars_of("no schema defined for WebSocket connection")));
    }
    if !has_format {
        return Err(string_from_chars(&chars_of("'format' must be set for WebSocket connection")));
    }
    Ok(ConnectionInfo { name: string_from_chars(&chars_of(name)), connection_type: ConnectionType::Source, description })
}

/// The option that holds the `i`-th of several subscription messages.
pub open spec fn subscription_key(i: nat) -> Seq<char> {
    "subscription_messages."@ + decimal(i)
}

/// The options hold the indexed subscription messages `0 .. n` and not the
/// `n`-th.
pub open spec fn indexed_run(m: Map<Seq<char>, String>, n: nat) -> bool {
    &&& forall|i: nat| i < n ==> m.contains_key(#[trigger] subscription_key(i))
    &&& !m.contains_key(subscription_key(n))
}

/// The options of the indexed subscription messages `0 .. n`.
pub open spec fn subscription_keys(n: nat) -> Set<Seq<char>> {
    Set::new(|k: Seq<char>| exists|i: nat| i < n && k == #[trigger] subscription_key(i))
}

proof fn lemma_subscription_keys_differ(a: nat, b: nat)
    requires
        subscription_key(a) == subscription_key(b),
    ensures
        a == b,
{
    let p = "subscription_messages."@;
    assert(subscription_key(a).subrange(p.len() as int, subscription_key(a).len() as int) =~= decimal(a));
    assert(subscription_key(b).subrange(p.len() as int, subscription_key(b).len() as int) =~= decimal(b));
    crate::scaling::lemma_decimal_injective(a, b);
}

fn subscription_key_text(i: u64) -> (k: String)
    ensures
        k@ == subscription_key(i as nat),
{
    let mut cs = chars_of("subscription_messages.");
    let digits = crate::text::u64_to_decimal(i);
    append_chars(&mut cs, digits.as_str());
    string_from_chars(&cs)
}

/// Takes the subscription messages of a websocket source out of its
/// options: the `subscription_message` option, if set, then the indexed
/// `subscription_messages.0`, `subscription_messages.1` and on, up to the
/// first index not set; setting both the single message and the index 0 is
/// refused.
pub fn websocket_subscription_messages(options: &mut StringMap<String>) -> (r: Result<Vec<String>, String>)
    requires
        old(options).wf(),
    ensures
        final(options).wf(),
        ({
            let single = old(options)@.get("subscription_message"@);
            let m1 = old(options)@.remove("subscription_message"@);
            if single is Some && m1.contains_key(subscription_key(0)) {
                &&& r matches Err(e)
                &&& e@ == "Cannot specify both 'subscription_message' and 'subscription_messages.0'"@
                &&& final(options)@ == m1
            } else {
                exists|n: nat| #![trigger indexed_run(m1, n)]
                    indexed_run(m1, n) && (r matches Ok(v) && texts(v@) == (match single {
                        Some(s) => seq![s@],
                        None => Seq::<Seq<char>>::empty(),
                    }) + Seq::new(n, |i: int| m1[subscription_key(i as nat)]@)) && final(options)@ == m1.remove_keys(
                        subscription_keys(n),
                    )
            }
        }),
{
    let ghost m0 = options@;
    let mut messages: Vec<String> = Vec::new();
    let single = options.remove("subscription_message");
    let ghost m1 = options@;
    let n0 = options.len();
    proof {
        options.lemma_finite();
    }
    let ghost first = texts(messages@);
    match single {
        Some(m) => {
            messages.push(m);
            if options.contains_key("subscription_messages.0") {
                proof {
                    reveal_strlit("subscription_messages.0");
                    reveal_strlit("subscription_messages.");
                    assert("subscription_messages.0"@ =~= subscription_key(0));
                }
                return Err(string_from_chars(&chars_of("Cannot specify both 'subscription_message' and 'subscription_messages.0'")));
            }
            proof {
                reveal_strlit("subscription_messages.0");
                reveal_strlit("subscription_messages.");
                assert("subscription_messages.0"@ =~= subscription_key(0));
            }
        },
        None => {},
    }
    let ghost head = texts(messages@);
    proof {
        assert(head =~= match m0.get("subscription_message"@) {
            Some(s) => seq![s@],
            None => Seq::<Seq<char>>::empty(),
        });
        assert(m1.remove_keys(subscription_keys(0)) =~= m1);
        assert(m1.dom().finite());
    }
    let mut i: u64 = 0;
    loop
        invariant
            options.wf(),
            m1.dom().finite(),
            options@ == m1.remove_keys(subscription_keys(i as nat)),
            forall|j: nat| j < i ==> m1.contains_key(#[trigger] subscription_key(j)),
            texts(messages@) == head + Seq::new(i as nat, |j: int| m1[subscription_key(j as nat)]@),
            i as nat + options@.len() == m1.len(),
            m1.len() == n0,
        ensures
            exists|n: nat| #![trigger indexed_run(m1, n)]
                indexed_run(m1, n) && texts(messages@) == head + Seq::new(n, |j: int| m1[subscription_key(j as nat)]@)
                && options@ == m1.remove_keys(subscription_keys(n)),
        decreases options@.len(),
    {
        let key = subscription_key_text(i);
        let ghost before = options@;
        proof {
            options.lemma_finite();
        }
        let ghost prev = messages@;
        match options.remove(key.as_str()) {
            Some(m) => {
                proof {
                    assert(m1.contains_key(subscription_key(i as nat)));
                    assert(m1[subscription_key(i as nat)] == m);
                    assert(before.dom().contains(key@));
                    assert(before.remove(key@).dom() =~= before.dom().remove(key@));
                    assert(options@.len() == before.len() - 1);
                }
                messages.push(m);
                proof {
                    assert(texts(messages@) =~= texts(prev).push(m@));
                    assert(subscription_keys(i as nat).insert(subscription_key(i as nat)) =~= subscription_keys(i as nat + 1)) by {
                        assert forall|k: Seq<char>| subscription_keys(i as nat + 1).contains(k) implies
                            subscription_keys(i as nat).insert(subscription_key(i as nat)).contains(k) by {
                            let j = choose|j: nat| j < i + 1 && k == subscription_key(j);
                            if j < i {
                                assert(subscription_keys(i as nat).contains(k));
                            }
                        }
                    }
                    assert(options@ =~= m1.remove_keys(subscription_keys(i as nat + 1)));
                    assert(texts(messages@) =~= head + Seq::new((i + 1) as nat, |j: int| m1[subscription_key(j as nat)]@));
                }
                i = i + 1;
            },
            None => {
                proof {
                    assert(options@ =~= before);
                    assert(!m1.contains_key(subscription_key(i as nat))) by {
                        if m1.contains_key(subscription_key(i as nat)) {
                            assert(!subscription_keys(i as nat).contains(subscription_key(i as nat))) by {
                                if subscription_keys(i as nat).contains(subscription_key(i as nat)) {
                                    let j = choose|j: nat| j < i && subscription_key(i as nat) == subscription_key(j);
                                    lemma_subscription_keys_differ(i as nat, j);
                                }
                            }
                        }
                    }
                    assert(indexed_run(m1, i as nat));
                }
                break;
            },
        }
    }
    Ok(messages)
}

} // verus!
