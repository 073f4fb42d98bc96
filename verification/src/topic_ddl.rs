//! Topic statements in SQL: `CREATE TOPIC`, `ALTER TOPIC`, `DROP TOPIC` and
//! `SHOW TOPICS`, recognized in statements that a SQL parser has read.

use vstd::prelude::*;
use crate::charclass::{lowercase, to_lowercase, to_uppercase, uppercase};
use crate::scaling::copy_string;
use crate::strmap::str_eq;
use crate::text::{all_digits, digits_value, lemma_decimal_digits, lemma_decimal_len_ge_1, parse_bounded_i64, parse_signed, signed_decimal, unsigned_body};

verus! {

/// The value of an option as the SQL parser read it.
#[derive(Debug, Clone)]
pub enum SqlValue {
    /// A number, as written.
    Number(String),
    /// A text in single quotes, without the quotes.
    SingleQuotedString(String),
    /// Anything else.
    Other,
}

/// A `name = value` option of a `WITH` clause.
#[derive(Debug, Clone)]
pub struct SqlOption {
    pub name: String,
    pub value: SqlValue,
}

/// An operation of an `ALTER` statement.
#[derive(Debug, Clone)]
pub enum AlterOperation {
    /// `SET name = value`; a value that is not a plain value is `Other`.
    SetOption { name: String, value: SqlValue },
    /// Anything else.
    Other,
}

/// The parts of a SQL statement that topic statements are made of.
#[derive(Debug, Clone)]
pub enum SqlStatement {
    /// `CREATE TABLE name ... [WITH (...)]`, the name split at its dots.
    CreateTable { name: Vec<String>, if_not_exists: bool, with_options: Option<Vec<SqlOption>> },
    /// `ALTER TABLE name operations`.
    AlterTable { name: Vec<String>, operations: Vec<AlterOperation> },
    /// `DROP object_type [IF EXISTS] names`, each as written.
    Drop { object_type: String, if_exists: bool, names: Vec<String> },
    /// `SHOW [object_type]`.
    ShowTables { object_type: Option<String> },
    /// Any other statement.
    Other,
}

/// The settings of a topic.
#[derive(Debug, Clone, PartialEq, Eq)]
pub struct TopicConfig {
    pub name: String,
    pub partitions: i32,
    pub replication_factor: i16,
    pub retention_ms: Option<i64>,
    pub retention_bytes: Option<i64>,
    pub cleanup_policy: String,
    pub max_message_bytes: Option<i32>,
    pub description: Option<String>,
}

/// A topic statement.
#[derive(Debug, Clone)]
pub enum TopicDdlStatement {
    CreateTopic { name: String, if_not_exists: bool, config: TopicConfig },
    AlterTopic { name: String, config: TopicConfig },
    DropTopic { name: String, if_exists: bool },
    ShowTopics,
}

/// The values of a topic's settings.
pub struct ConfigView {
    pub name: Seq<char>,
    pub partitions: i32,
    pub replication_factor: i16,
    pub retention_ms: Option<i64>,
    pub retention_bytes: Option<i64>,
    pub cleanup_policy: Seq<char>,
    pub max_message_bytes: Option<i32>,
    pub description: Option<Seq<char>>,
}

pub open spec fn config_view(c: TopicConfig) -> ConfigView {
    ConfigView {
        name: c.name@,
        partitions: c.partitions,
        replication_factor: c.replication_factor,
        retention_ms: c.retention_ms,
        retention_bytes: c.retention_bytes,
        cleanup_policy: c.cleanup_policy@,
        max_message_bytes: c.max_message_bytes,
        description: match c.description {
            Some(d) => Some(d@),
            None => None,
        },
    }
}

/// The settings a new topic starts from: one partition, one replica, no
/// retention limits, deleted on cleanup.
pub open spec fn base_config(name: Seq<char>) -> ConfigView {
    ConfigView {
        name,
        partitions: 1,
        replication_factor: 1,
        retention_ms: None,
        retention_bytes: None,
        cleanup_policy: "delete"@,
        max_message_bytes: None,
        description: None,
    }
}

/// A number read as an integer in `min..=max`, or `fallback` when it is not one.
pub open spec fn number_or(n: Seq<char>, min: int, max: int, fallback: int) -> int {
    match parse_signed(n, min, max) {
        Some(v) => v,
        None => fallback,
    }
}

/// The effect of one option, named `name` (in lower case), on the settings.
/// `sizing` says whether partitions and replicas may be set.
pub open spec fn apply_option(c: ConfigView, name: Seq<char>, value: SqlValue, sizing: bool) -> ConfigView {
    match value {
        SqlValue::Number(n) => if sizing && name == "partitions"@ {
            ConfigView { partitions: number_or(n@, i32::MIN as int, i32::MAX as int, 1) as i32, ..c }
        } else if sizing && name == "replication_factor"@ {
            ConfigView { replication_factor: number_or(n@, i16::MIN as int, i16::MAX as int, 1) as i16, ..c }
        } else if name == "retention_ms"@ {
            ConfigView { retention_ms: Some(number_or(n@, i64::MIN as int, i64::MAX as int, 86400000) as i64), ..c }
        } else if name == "retention_bytes"@ {
            ConfigView { retention_bytes: Some(number_or(n@, i64::MIN as int, i64::MAX as int, -1) as i64), ..c }
        } else if name == "max_message_bytes"@ {
            ConfigView { max_message_bytes: Some(number_or(n@, i32::MIN as int, i32::MAX as int, 1048576) as i32), ..c }
        } else {
            c
        },
        SqlValue::SingleQuotedString(t) => if name == "cleanup_policy"@ {
            ConfigView { cleanup_policy: t@, ..c }
        } else if name == "description"@ {
            ConfigView { description: Some(t@), ..c }
        } else {
            c
        },
        SqlValue::Other => c,
    }
}

/// The settings after the `WITH` options, in order.
pub open spec fn with_options_applied(c: ConfigView, opts: Seq<SqlOption>) -> ConfigView
    decreases opts.len(),
{
    if opts.len() == 0 {
        c
    } else {
        apply_option(
            with_options_applied(c, opts.drop_last()),
            lowercase(opts.last().name@),
            opts.last().value,
            true,
        )
    }
}

/// The settings after the `SET` operations, in order.
pub open spec fn set_operations_applied(c: ConfigView, ops: Seq<AlterOperation>) -> ConfigView
    decreases ops.len(),
{
    if ops.len() == 0 {
        c
    } else {
        let before = set_operations_applied(c, ops.drop_last());
        match ops.last() {
            AlterOperation::SetOption { name, value } => apply_option(before, lowercase(name@), value, false),
            AlterOperation::Other => before,
        }
    }
}

/// Whether a name part reads `TOPIC` in any case.
pub open spec fn names_topic(parts: Seq<String>) -> bool {
    parts.len() > 0 && uppercase(parts[0]@) == "TOPIC"@
}

/// The topic statement that `st` is, if any, or the error.
pub open spec fn ddl_matches(st: SqlStatement, r: Result<Option<TopicDdlStatement>, String>) -> bool {
    match st {
        SqlStatement::CreateTable { name, if_not_exists, with_options } => if names_topic(name@) {
            if name@.len() < 2 {
                r matches Err(e) && e@ == "Missing topic name in CREATE TOPIC statement"@
            } else {
                r matches Ok(Some(TopicDdlStatement::CreateTopic { name: n, if_not_exists: ine, config }))
                    && n@ == name@[1]@ && ine == if_not_exists
                    && config_view(config) == match with_options {
                        Some(opts) => with_options_applied(base_config(name@[1]@), opts@),
                        None => base_config(name@[1]@),
                    }
            }
        } else {
            r == Ok::<Option<TopicDdlStatement>, String>(None)
        },
        SqlStatement::AlterTable { name, operations } => if names_topic(name@) {
            if name@.len() < 2 {
                r matches Err(e) && e@ == "Missing topic name in ALTER TOPIC statement"@
            } else {
                r matches Ok(Some(TopicDdlStatement::AlterTopic { name: n, config }))
                    && n@ == name@[1]@
                    && config_view(config) == set_operations_applied(base_config(name@[1]@), operations@)
            }
        } else {
            r == Ok::<Option<TopicDdlStatement>, String>(None)
        },
        SqlStatement::Drop { object_type, if_exists, names } => if uppercase(object_type@) == "TOPIC"@ {
            if names@.len() == 0 {
                r matches Err(e) && e@ == "Missing topic name in DROP TOPIC statement"@
            } else {
                r matches Ok(Some(TopicDdlStatement::DropTopic { name: n, if_exists: ie }))
                    && n@ == names@[0]@ && ie == if_exists
            }
        } else {
            r == Ok::<Option<TopicDdlStatement>, String>(None)
        },
        SqlStatement::ShowTables { object_type } => match object_type {
            Some(t) => if uppercase(t@) == "TOPICS"@ {
                r matches Ok(Some(TopicDdlStatement::ShowTopics))
            } else {
                r == Ok::<Option<TopicDdlStatement>, String>(None)
            },
            None => r == Ok::<Option<TopicDdlStatement>, String>(None),
        },
        SqlStatement::Other => r == Ok::<Option<TopicDdlStatement>, String>(None),
    }
}

/// Whether the upper-case form of `s` is `word`.
fn upper_is(s: &str, word: &str) -> (b: bool)
    ensures
        b == (uppercase(s@) == word@),
{
    let u = to_uppercase(s);
    str_eq(u.as_str(), word)
}

/// The settings a new topic starts from.
fn base_topic_config(name: &String) -> (c: TopicConfig)
    ensures
        config_view(c) == base_config(name@),
{
    TopicConfig {
        name: copy_string(name),
        partitions: 1,
        replication_factor: 1,
        retention_ms: None,
        retention_bytes: None,
        cleanup_policy: "delete".to_owned(),
        max_message_bytes: None,
        description: None,
    }
}

/// A number read as an integer in `min..=max`, or `fallback`.
fn read_number(n: &String, min: i64, max: i64, fallback: i64) -> (v: i64)
    requires
        min <= 0 <= max,
        min <= fallback <= max,
    ensures
        v == number_or(n@, min as int, max as int, fallback as int),
        min <= v <= max,
{
    match parse_bounded_i64(n.as_str(), min, max) {
        Some(v) => v,
        None => fallback,
    }
}

/// Applies one option to the settings.
fn apply_one(c: &mut TopicConfig, name: &String, value: &SqlValue, sizing: bool)
    ensures
        config_view(*final(c)) == apply_option(config_view(*old(c)), lowercase(name@), *value, sizing),
{
    let lower = to_lowercase(name.as_str());
    let key = lower.as_str();
    proof {
        reveal_strlit("partitions");
    }
    match value {
        SqlValue::Number(n) => {
            if sizing && str_eq(key, "partitions") {
                c.partitions = read_number(n, -0x8000_0000, 0x7fff_ffff, 1) as i32;
            } else if sizing && str_eq(key, "replication_factor") {
                c.replication_factor = read_number(n, -0x8000, 0x7fff, 1) as i16;
            } else if str_eq(key, "retention_ms") {
                c.retention_ms = Some(read_number(n, i64::MIN, i64::MAX, 86400000));
            } else if str_eq(key, "retention_bytes") {
                c.retention_bytes = Some(read_number(n, i64::MIN, i64::MAX, -1));
            } else if str_eq(key, "max_message_bytes") {
                c.max_message_bytes = Some(read_number(n, -0x8000_0000, 0x7fff_ffff, 1048576) as i32);
            }
        },
        SqlValue::SingleQuotedString(t) => {
            if str_eq(key, "cleanup_policy") {
                c.cleanup_policy = copy_string(t);
            } else if str_eq(key, "description") {
                c.description = Some(copy_string(t));
            }
        },
        SqlValue::Other => {},
    }
}

/// Recognizes a topic statement: `Some` statement for `CREATE TOPIC`,
/// `ALTER TOPIC`, `DROP TOPIC` and `SHOW TOPICS`, `None` for any other
/// statement, and an error for a topic statement without a topic name.
/// Options that are unknown, or whose value has the wrong kind, are skipped;
/// a number that does not fit its setting gives the setting's fallback.
pub fn try_parse_topic_ddl(statement: &SqlStatement) -> (r: Result<Option<TopicDdlStatement>, String>)
    ensures
        ddl_matches(*statement, r),
{
    match statement {
        SqlStatement::CreateTable { name, if_not_exists, with_options } => {
            if name.len() > 0 && upper_is(name[0].as_str(), "TOPIC") {
                if name.len() < 2 {
                    return Err("Missing topic name in CREATE TOPIC statement".to_owned());
                }
                let topic_name = copy_string(&name[1]);
                let mut config = base_topic_config(&name[1]);
                match with_options {
                    Some(opts) => {
                        let mut k: usize = 0;
                        while k < opts.len()
                            invariant
                                0 <= k <= opts@.len(),
                                config_view(config) == with_options_applied(base_config(name@[1]@), opts@.subrange(0, k as int)),
                            decreases opts.len() - k,
                        {
                            apply_one(&mut config, &opts[k].name, &opts[k].value, true);
                            proof {
                                let pre = opts@.subrange(0, k as int + 1);
                                assert(pre.drop_last() =~= opts@.subrange(0, k as int));
                                assert(pre.last() == opts@[k as int]);
                            }
                            k = k + 1;
                        }
                        proof {
                            assert(opts@.subrange(0, opts@.len() as int) =~= opts@);
                        }
                    },
                    None => {},
                }
                return Ok(Some(TopicDdlStatement::CreateTopic { name: topic_name, if_not_exists: *if_not_exists, config }));
            }
            Ok(None)
        },
        SqlStatement::AlterTable { name, operations } => {
            if name.len() > 0 && upper_is(name[0].as_str(), "TOPIC") {
                if name.len() < 2 {
                    return Err("Missing topic name in ALTER TOPIC statement".to_owned());
                }
                let topic_name = copy_string(&name[1]);
                let mut config = base_topic_config(&name[1]);
                let mut k: usize = 0;
                while k < operations.len()
                    invariant
                        0 <= k <= operations@.len(),
                        config_view(config) == set_operations_applied(base_config(name@[1]@), operations@.subrange(0, k as int)),
                    decreases operations.len() - k,
                {
                    match &operations[k] {
                        AlterOperation::SetOption { name: option_name, value } => {
                            apply_one(&mut config, option_name, value, false);
                        },
                        AlterOperation::Other => {},
                    }
                    proof {
                        let pre = operations@.subrange(0, k as int + 1);
                        assert(pre.drop_last() =~= operations@.subrange(0, k as int));
                        assert(pre.last() == operations@[k as int]);
                    }
                    k = k + 1;
                }
                proof {
                    assert(operations@.subrange(0, operations@.len() as int) =~= operations@);
                }
                return Ok(Some(TopicDdlStatement::AlterTopic { name: topic_name, config }));
            }
            Ok(None)
        },
        SqlStatement::Drop { object_type, if_exists, names } => {
            if upper_is(object_type.as_str(), "TOPIC") {
                if names.len() == 0 {
                    return Err("Missing topic name in DROP TOPIC statement".to_owned());
                }
                return Ok(Some(TopicDdlStatement::DropTopic { name: copy_string(&names[0]), if_exists: *if_exists }));
            }
            Ok(None)
        },
        SqlStatement::ShowTables { object_type } => {
            match object_type {
                Some(t) => {
                    if upper_is(t.as_str(), "TOPICS") {
                        return Ok(Some(TopicDdlStatement::ShowTopics));
                    }
                },
                None => {},
            }
            Ok(None)
        },
        SqlStatement::Other => Ok(None),
    }
}

/// A signed decimal number reads back as itself when it lies in
/// `lo..=hi`, and does not read at all otherwise.
pub proof fn lemma_signed_decimal_reads_back(v: int, lo: int, hi: int)
    requires
        lo <= 0 <= hi,
    ensures
        parse_signed(signed_decimal(v), lo, hi) == if lo <= v <= hi { Some(v) } else { None::<int> },
{
    if v < 0 {
        let m: nat = (-v) as nat;
        lemma_decimal_digits(m);
        let s = signed_decimal(v);
        assert(s == seq!['-'] + crate::text::decimal(m));
        assert(s.drop_first() =~= crate::text::decimal(m));
    } else {
        let m: nat = v as nat;
        lemma_decimal_digits(m);
        lemma_decimal_len_ge_1(m);
        let d = crate::text::decimal(m);
        assert(all_digits(d));
        assert('0' <= d[0] && d[0] <= '9');
        assert(unsigned_body(d) == d);
    }
}

/// The names of the settings are all different.
proof fn lemma_option_names_differ()
    ensures
        "partitions"@.len() == 10,
        "replication_factor"@.len() == 18,
        "retention_ms"@.len() == 12,
        "retention_bytes"@.len() == 15,
        "max_message_bytes"@.len() == 17,
        "cleanup_policy"@.len() == 14,
        "description"@.len() == 11,
{
    reveal_strlit("partitions");
    reveal_strlit("replication_factor");
    reveal_strlit("retention_ms");
    reveal_strlit("retention_bytes");
    reveal_strlit("max_message_bytes");
    reveal_strlit("cleanup_policy");
    reveal_strlit("description");
}

/// A number option written as the decimal integer `v` sets its setting to
/// exactly `v` when `v` fits the setting's type, and to the setting's
/// default when it does not: 64 bits for the retention time (default one
/// day in milliseconds) and size (default -1, no limit), 32 bits for the
/// message size (default 1 MiB) and the partitions (default 1), 16 bits
/// for the replicas (default 1). Partitions and replicas are only set
/// where sizing is allowed (a `CREATE`); elsewhere they are left as they
/// are. Nothing else changes.
pub proof fn lemma_number_options_read_exactly(c: ConfigView, n: String, v: int, sizing: bool)
    requires
        n@ == signed_decimal(v),
    ensures
        apply_option(c, "retention_ms"@, SqlValue::Number(n), sizing) == (ConfigView {
            retention_ms: Some(if i64::MIN <= v <= i64::MAX { v as i64 } else { 86400000 }),
            ..c
        }),
        apply_option(c, "retention_bytes"@, SqlValue::Number(n), sizing) == (ConfigView {
            retention_bytes: Some(if i64::MIN <= v <= i64::MAX { v as i64 } else { -1i64 }),
            ..c
        }),
        apply_option(c, "max_message_bytes"@, SqlValue::Number(n), sizing) == (ConfigView {
            max_message_bytes: Some(if i32::MIN <= v <= i32::MAX { v as i32 } else { 1048576 }),
            ..c
        }),
        apply_option(c, "partitions"@, SqlValue::Number(n), true) == (ConfigView {
            partitions: if i32::MIN <= v <= i32::MAX { v as i32 } else { 1 },
            ..c
        }),
        apply_option(c, "replication_factor"@, SqlValue::Number(n), true) == (ConfigView {
            replication_factor: if i16::MIN <= v <= i16::MAX { v as i16 } else { 1 },
            ..c
        }),
        apply_option(c, "partitions"@, SqlValue::Number(n), false) == c,
        apply_option(c, "replication_factor"@, SqlValue::Number(n), false) == c,
{
    lemma_option_names_differ();
    lemma_signed_decimal_reads_back(v, i64::MIN as int, i64::MAX as int);
    lemma_signed_decimal_reads_back(v, i32::MIN as int, i32::MAX as int);
    lemma_signed_decimal_reads_back(v, i16::MIN as int, i16::MAX as int);
}

/// A number option whose text does not end in a digit is no number: its
/// setting takes its default (partitions and replicas only where sizing
/// is allowed).
pub proof fn lemma_number_options_default(c: ConfigView, n: String, sizing: bool)
    requires
        n@.len() == 0 || !('0' <= n@.last() && n@.last() <= '9'),
    ensures
        apply_option(c, "retention_ms"@, SqlValue::Number(n), sizing) == (ConfigView { retention_ms: Some(86400000), ..c }),
        apply_option(c, "retention_bytes"@, SqlValue::Number(n), sizing) == (ConfigView { retention_bytes: Some(-1i64), ..c }),
        apply_option(c, "max_message_bytes"@, SqlValue::Number(n), sizing) == (ConfigView { max_message_bytes: Some(1048576), ..c }),
        apply_option(c, "partitions"@, SqlValue::Number(n), true) == (ConfigView { partitions: 1, ..c }),
        apply_option(c, "replication_factor"@, SqlValue::Number(n), true) == (ConfigView { replication_factor: 1, ..c }),
{
    lemma_option_names_differ();
    let t = n@;
    if t.len() > 0 {
        if t[0] == '-' {
            assert(t.drop_first().len() == 0 || t.drop_first().last() == t.last());
        } else {
            assert(unsigned_body(t).len() == 0 || unsigned_body(t).last() == t.last());
        }
    }
}

/// The text options set their setting to the text, in a `CREATE` and in
/// an `ALTER` alike; nothing else changes.
pub proof fn lemma_text_options_set(c: ConfigView, t: String, sizing: bool)
    ensures
        apply_option(c, "cleanup_policy"@, SqlValue::SingleQuotedString(t), sizing) == (ConfigView { cleanup_policy: t@, ..c }),
        apply_option(c, "description"@, SqlValue::SingleQuotedString(t), sizing) == (ConfigView { description: Some(t@), ..c }),
{
    lemma_option_names_differ();
}

/// An option of another name, a value of the wrong kind, or a value that
/// is neither a number nor a text changes nothing.
pub proof fn lemma_other_options_change_nothing(c: ConfigView, name: Seq<char>, n: String, t: String, sizing: bool)
    ensures
        name != "partitions"@ && name != "replication_factor"@ && name != "retention_ms"@ && name != "retention_bytes"@
            && name != "max_message_bytes"@ ==> apply_option(c, name, SqlValue::Number(n), sizing) == c,
        name != "cleanup_policy"@ && name != "description"@ ==> apply_option(c, name, SqlValue::SingleQuotedString(t), sizing) == c,
        apply_option(c, name, SqlValue::Other, sizing) == c,
{
}

/// A `retention_bytes` option whose value is a 64-bit integer written in
/// decimal sets the retention size to exactly that integer, in a `CREATE`
/// and in an `ALTER` alike, and changes nothing else.
pub proof fn lemma_retention_bytes_read_exactly(c: ConfigView, v: i64, n: String, sizing: bool)
    requires
        n@ == signed_decimal(v as int),
    ensures
        apply_option(c, "retention_bytes"@, SqlValue::Number(n), sizing) == (ConfigView { retention_bytes: Some(v), ..c }),
{
    lemma_number_options_read_exactly(c, n, v as int, sizing);
}

/// A `description` option, or `SET description = 'text'`, sets the
/// description to the text, in a `CREATE` and in an `ALTER` alike, and
/// changes nothing else.
pub proof fn lemma_description_set(c: ConfigView, t: String, sizing: bool)
    ensures
        apply_option(c, "description"@, SqlValue::SingleQuotedString(t), sizing) == (ConfigView { description: Some(t@), ..c }),
{
    reveal_strlit("description");
    reveal_strlit("cleanup_policy");
    assert("description"@.len() != "cleanup_policy"@.len());
}

/// In an `ALTER TOPIC`, a last `SET description = 'text'` (the option's
/// name in any case) leaves the topic described by that text.
pub proof fn lemma_alter_sets_description(c: ConfigView, ops: Seq<AlterOperation>, name: String, t: String)
    requires
        lowercase(name@) == "description"@,
    ensures
        set_operations_applied(c, ops.push(AlterOperation::SetOption { name, value: SqlValue::SingleQuotedString(t) })).description
            == Some(t@),
{
    let all = ops.push(AlterOperation::SetOption { name, value: SqlValue::SingleQuotedString(t) });
    assert(all.drop_last() =~= ops);
    lemma_description_set(set_operations_applied(c, ops), t, false);
}

/// An `ALTER TOPIC` never changes the partitions or the replicas of the
/// settings it starts from.
pub proof fn lemma_alter_keeps_sizing(c: ConfigView, ops: Seq<AlterOperation>)
    ensures
        set_operations_applied(c, ops).partitions == c.partitions,
        set_operations_applied(c, ops).replication_factor == c.replication_factor,
    decreases ops.len(),
{
    if ops.len() > 0 {
        lemma_alter_keeps_sizing(c, ops.drop_last());
    }
}

/// No option renames a topic: whatever the `WITH` options or the `SET`
/// operations, the settings keep the name they started with.
pub proof fn lemma_options_keep_name(c: ConfigView, opts: Seq<SqlOption>, ops: Seq<AlterOperation>)
    ensures
        with_options_applied(c, opts).name == c.name,
        set_operations_applied(c, ops).name == c.name,
    decreases opts.len() + ops.len(),
{
    if opts.len() > 0 {
        lemma_options_keep_name(c, opts.drop_last(), ops);
    }
    if ops.len() > 0 {
        lemma_options_keep_name(c, opts, ops.drop_last());
    }
}

/// `CREATE TOPIC t` without options creates topic `t`, keeping `IF NOT
/// EXISTS`, with one partition, one replica, no retention limits and no
/// message size limit, deleted on cleanup and without a description; a
/// topic statement always names the topic after the `TOPIC` part.
pub proof fn lemma_create_topic_defaults(name: Vec<String>, if_not_exists: bool, r: Result<Option<TopicDdlStatement>, String>)
    requires
        name@.len() >= 2,
        uppercase(name@[0]@) == "TOPIC"@,
        ddl_matches(SqlStatement::CreateTable { name, if_not_exists, with_options: None }, r),
    ensures
        r matches Ok(Some(TopicDdlStatement::CreateTopic { name: n, if_not_exists: i, config })) && {
            &&& n@ == name@[1]@
            &&& i == if_not_exists
            &&& config.name@ == name@[1]@
            &&& config.partitions == 1
            &&& config.replication_factor == 1
            &&& config.retention_ms is None
            &&& config.retention_bytes is None
            &&& config.max_message_bytes is None
            &&& config.cleanup_policy@ == "delete"@
            &&& config.description is None
        },
{
}

} // verus!
