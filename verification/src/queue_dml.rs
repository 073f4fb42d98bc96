//! Queue statements in SQL: `PRODUCE` and `CONSUME`, written as a common
//! table expression named after the statement, and recognized in
//! statements that a SQL parser has read.

use vstd::prelude::*;
use crate::charclass::{to_uppercase, uppercase};
use crate::scaling::copy_string;
use crate::strmap::str_eq;
use crate::text::{append_chars, chars_of, decimal, lemma_parse_decimal, u64_to_decimal, parse_bounded_u64, parse_unsigned, string_from_chars, texts};

verus! {

/// The value of an option of a common table expression.
#[derive(Debug, Clone)]
pub enum CteOptionValue {
    Identifier(String),
    SingleQuotedString(String),
    Other,
}

/// A `name = value` option of a common table expression.
#[derive(Debug, Clone)]
pub struct CteOption {
    pub name: String,
    pub value: CteOptionValue,
}

/// A common table expression: its alias, the relation it reads from (as
/// written), its columns and its options.
#[derive(Debug, Clone)]
pub struct QueueCte {
    pub alias: String,
    pub from: Option<String>,
    pub columns: Option<Vec<String>>,
    pub options: Vec<CteOption>,
}

/// What the inner query of a statement is made of, `Q` being the
/// parser's queries.
#[derive(Debug)]
pub enum QueryBody<E, Q> {
    /// `VALUES` rows of expressions.
    Values(Vec<Vec<E>>),
    /// `TABLE name`.
    Table,
    /// A query, such as a `SELECT`.
    Query(Q),
    Other,
}

/// A `LIMIT` as the SQL parser read it.
#[derive(Debug, Clone)]
pub enum LimitValue {
    /// A number, as written.
    Number(String),
    Other,
}

/// The parts of a SQL statement that queue statements are made of, `E`
/// being the parser's expressions and `Q` its queries.
#[derive(Debug)]
pub enum QueueSqlStatement<E, Q> {
    /// A query whose body is itself a query: its `WITH` clause, the inner
    /// query's body, filter and limit.
    NestedQuery { with: Option<Vec<QueueCte>>, body: QueryBody<E, Q>, selection: Option<E>, limit: Option<LimitValue> },
    /// Any other statement.
    Other,
}

/// A queue statement.
#[derive(Debug)]
pub enum QueueDmlStatement<E, Q> {
    /// Produce rows to a topic, given as `VALUES` rows or as a query whose
    /// results are produced; `key_column_index` is the column that keys
    /// the messages.
    Produce { topic: String, columns: Vec<String>, key_column_index: Option<usize>, values: Option<Vec<Vec<E>>>, query: Option<Q> },
    /// Consume from a topic, in a consumer group, with a filter and a limit.
    Consume { topic: String, group_id: Option<String>, filter: Option<E>, limit: Option<usize> },
}

/// Whether a common table expression names the statement `word` (compared
/// in upper case) and reads from a relation.
pub open spec fn names_statement(c: QueueCte, word: Seq<char>) -> bool {
    uppercase(c.alias@) == word && c.from is Some
}

/// The first of `ctes` that names the statement `word`; the number of
/// them when none does.
pub open spec fn first_cte(ctes: Seq<QueueCte>, word: Seq<char>) -> int
    decreases ctes.len(),
{
    if ctes.len() == 0 {
        0
    } else if first_cte(ctes.drop_last(), word) < ctes.len() - 1 {
        first_cte(ctes.drop_last(), word)
    } else if names_statement(ctes.last(), word) {
        ctes.len() - 1
    } else {
        ctes.len() as int
    }
}

/// The first position of `name` among `columns`.
pub open spec fn column_position(columns: Seq<Seq<char>>, name: Seq<char>) -> Option<int>
    decreases columns.len(),
{
    if columns.len() == 0 {
        None
    } else {
        match column_position(columns.drop_last(), name) {
            Some(p) => Some(p),
            None => if columns.last() == name { Some(columns.len() - 1) } else { None },
        }
    }
}

/// A position that `column_position` finds holds the name.
pub proof fn lemma_column_position_found(columns: Seq<Seq<char>>, name: Seq<char>)
    ensures
        column_position(columns, name) matches Some(p) ==> 0 <= p < columns.len() && columns[p] == name,
    decreases columns.len(),
{
    if columns.len() > 0 {
        lemma_column_position_found(columns.drop_last(), name);
    }
}

/// The key column that the options name: each `KEY = identifier` option
/// names one, the last one counting; naming a column that is not listed
/// is refused.
pub open spec fn key_index(options: Seq<CteOption>, columns: Seq<Seq<char>>) -> Result<Option<int>, Seq<char>>
    decreases options.len(),
{
    if options.len() == 0 {
        Ok(None)
    } else {
        match key_index(options.drop_last(), columns) {
            Err(e) => Err(e),
            Ok(k) => {
                let o = options.last();
                if uppercase(o.name@) == "KEY"@ && o.value is Identifier {
                    let id = o.value->Identifier_0@;
                    match column_position(columns, id) {
                        Some(p) => Ok(Some(p)),
                        None => Err("Key column '"@ + id + "' not found in column list"@),
                    }
                } else {
                    Ok(k)
                }
            },
        }
    }
}

/// Whether an option names a key column: `KEY = identifier`, `KEY` in
/// any case.
pub open spec fn is_key_option(o: CteOption) -> bool {
    uppercase(o.name@) == "KEY"@ && o.value is Identifier
}

/// Where a name stands among columns: `column_position` finds its first
/// position, and finds none exactly when the name is not listed.
pub proof fn lemma_column_position_first(columns: Seq<Seq<char>>, name: Seq<char>)
    ensures
        column_position(columns, name) matches Some(p) ==> 0 <= p < columns.len() && columns[p] == name
            && forall|q: int| 0 <= q < p ==> columns[q] != name,
        column_position(columns, name) is None <==> !columns.contains(name),
    decreases columns.len(),
{
    if columns.len() > 0 {
        let rest = columns.drop_last();
        let last = columns.len() - 1;
        lemma_column_position_first(rest, name);
        assert forall|q: int| 0 <= q < rest.len() implies columns[q] == #[trigger] rest[q] by {}
        match column_position(rest, name) {
            Some(p) => {
                assert(column_position(columns, name) == Some(p));
                assert(columns[p] == rest[p]);
                assert forall|q: int| 0 <= q < p implies columns[q] != name by {
                    assert(columns[q] == rest[q]);
                }
            },
            None => {
                if columns[last] == name {
                    assert forall|q: int| 0 <= q < last implies columns[q] != name by {
                        assert(columns[q] == rest[q]);
                    }
                } else {
                    assert forall|i: int| 0 <= i < columns.len() implies columns[i] != name by {
                        if i < last {
                            assert(columns[i] == rest[i]);
                        }
                    }
                }
            },
        }
    }
}

/// Which column keys the messages of a `PRODUCE`: none when no option
/// names a key column; otherwise the first listed column of the name that
/// the last key option gives. Naming a column that is not listed, in any
/// key option, is refused.
pub proof fn lemma_key_index_meaning(options: Seq<CteOption>, columns: Seq<Seq<char>>)
    ensures
        key_index(options, columns) is Err <==> exists|i: int| 0 <= i < options.len() && #[trigger] is_key_option(options[i])
            && !columns.contains(options[i].value->Identifier_0@),
        key_index(options, columns) matches Ok(None) ==> forall|i: int| 0 <= i < options.len() ==> !#[trigger] is_key_option(options[i]),
        key_index(options, columns) matches Ok(Some(p)) ==> 0 <= p < columns.len() && exists|i: int| {
            &&& 0 <= i < options.len()
            &&& #[trigger] is_key_option(options[i])
            &&& columns[p] == options[i].value->Identifier_0@
            &&& (forall|q: int| 0 <= q < p ==> columns[q] != columns[p])
            &&& forall|j: int| i < j < options.len() ==> !is_key_option(options[j])
        },
    decreases options.len(),
{
    if options.len() > 0 {
        let rest = options.drop_last();
        let last = options.len() - 1;
        let o = options[last];
        lemma_key_index_meaning(rest, columns);
        assert forall|i: int| 0 <= i < rest.len() implies options[i] == #[trigger] rest[i] by {}
        assert(options.last() == o);
        let id = o.value->Identifier_0@;
        lemma_column_position_first(columns, id);
        match key_index(rest, columns) {
            Err(_) => {
                let i = choose|i: int| 0 <= i < rest.len() && #[trigger] is_key_option(rest[i])
                    && !columns.contains(rest[i].value->Identifier_0@);
                assert(options[i] == rest[i]);
                assert(is_key_option(options[i]) && !columns.contains(options[i].value->Identifier_0@));
            },
            Ok(k) => {
                assert forall|i: int| 0 <= i < rest.len() implies !(#[trigger] is_key_option(options[i])
                    && !columns.contains(options[i].value->Identifier_0@)) by {
                    assert(options[i] == rest[i]);
                    if is_key_option(rest[i]) && !columns.contains(rest[i].value->Identifier_0@) {
                        assert(exists|i: int| 0 <= i < rest.len() && #[trigger] is_key_option(rest[i])
                            && !columns.contains(rest[i].value->Identifier_0@));
                    }
                }
                if is_key_option(o) {
                    match column_position(columns, id) {
                        Some(p) => {
                            assert(key_index(options, columns) == Ok::<Option<int>, Seq<char>>(Some(p)));
                            assert(columns.contains(id));
                            assert forall|i: int| 0 <= i < options.len() implies !(#[trigger] is_key_option(options[i])
                                && !columns.contains(options[i].value->Identifier_0@)) by {
                                if i < last {
                                    assert(options[i] == rest[i]);
                                }
                            }
                            assert(is_key_option(options[last]) && columns[p] == options[last].value->Identifier_0@);
                        },
                        None => {
                            assert(is_key_option(options[last]) && !columns.contains(options[last].value->Identifier_0@));
                        },
                    }
                } else {
                    assert(key_index(options, columns) == key_index(rest, columns));
                    assert forall|i: int| 0 <= i < options.len() implies !(#[trigger] is_key_option(options[i])
                        && !columns.contains(options[i].value->Identifier_0@)) by {
                        if i < last {
                            assert(options[i] == rest[i]);
                        }
                    }
                    match k {
                        Some(p) => {
                            let i = choose|i: int| {
                                &&& 0 <= i < rest.len()
                                &&& #[trigger] is_key_option(rest[i])
                                &&& columns[p] == rest[i].value->Identifier_0@
                                &&& (forall|q: int| 0 <= q < p ==> columns[q] != columns[p])
                                &&& forall|j: int| i < j < rest.len() ==> !is_key_option(rest[j])
                            };
                            assert(options[i] == rest[i]);
                            assert forall|j: int| i < j < options.len() implies !is_key_option(options[j]) by {
                                if j < last {
                                    assert(options[j] == rest[j]);
                                }
                            }
                            assert(is_key_option(options[i]) && columns[p] == options[i].value->Identifier_0@);
                        },
                        None => {
                            assert forall|i: int| 0 <= i < options.len() implies !#[trigger] is_key_option(options[i]) by {
                                if i < last {
                                    assert(options[i] == rest[i]);
                                }
                            }
                        },
                    }
                }
            },
        }
    }
}

/// The consumer group that the options name: the last `GROUP_ID = 'text'`.
pub open spec fn group_of(options: Seq<CteOption>) -> Option<Seq<char>>
    decreases options.len(),
{
    if options.len() == 0 {
        None
    } else {
        let o = options.last();
        if uppercase(o.name@) == "GROUP_ID"@ && o.value is SingleQuotedString {
            Some(o.value->SingleQuotedString_0@)
        } else {
            group_of(options.drop_last())
        }
    }
}

fn first_cte_exec(ctes: &Vec<QueueCte>, word: &str) -> (i: usize)
    ensures
        i as int == first_cte(ctes@, word@),
        i < ctes@.len() ==> names_statement(ctes@[i as int], word@),
{
    let mut i: usize = 0;
    while i < ctes.len()
        invariant
            0 <= i <= ctes@.len(),
            first_cte(ctes@.subrange(0, i as int), word@) == i,
        decreases ctes.len() - i,
    {
        proof {
            assert(ctes@.subrange(0, i + 1).drop_last() =~= ctes@.subrange(0, i as int));
            assert(ctes@.subrange(0, i + 1).last() == ctes@[i as int]);
        }
        let named = match &ctes[i].from {
            Some(_) => str_eq(to_uppercase(ctes[i].alias.as_str()).as_str(), word),
            None => false,
        };
        if named {
            proof {
                lemma_first_cte_prefix(ctes@, word@, i as int + 1);
            }
            return i;
        }
        i = i + 1;
    }
    proof {
        assert(ctes@.subrange(0, ctes@.len() as int) =~= ctes@);
    }
    i
}

/// A statement found among the first `k` is the first of all.
proof fn lemma_first_cte_prefix(ctes: Seq<QueueCte>, word: Seq<char>, k: int)
    requires
        0 <= k <= ctes.len(),
        first_cte(ctes.subrange(0, k), word) < k,
    ensures
        first_cte(ctes, word) == first_cte(ctes.subrange(0, k), word),
    decreases ctes.len() - k,
{
    if k < ctes.len() {
        assert(ctes.subrange(0, k + 1).drop_last() =~= ctes.subrange(0, k));
        lemma_first_cte_prefix(ctes, word, k + 1);
    } else {
        assert(ctes.subrange(0, k) =~= ctes);
    }
}

pub(crate) fn column_position_exec(columns: &Vec<String>, name: &str) -> (r: Option<usize>)
    ensures
        match column_position(texts(columns@), name@) {
            Some(p) => r == Some(p as usize),
            None => r is None,
        },
{
    let mut i: usize = 0;
    while i < columns.len()
        invariant
            0 <= i <= columns@.len(),
            column_position(texts(columns@).subrange(0, i as int), name@) is None,
        decreases columns.len() - i,
    {
        proof {
            assert(texts(columns@).subrange(0, i + 1).drop_last() =~= texts(columns@).subrange(0, i as int));
            assert(texts(columns@).subrange(0, i + 1).last() == columns@[i as int]@);
        }
        if str_eq(columns[i].as_str(), name) {
            proof {
                lemma_position_prefix(texts(columns@), name@, i as int + 1);
            }
            return Some(i);
        }
        i = i + 1;
    }
    proof {
        assert(texts(columns@).subrange(0, columns@.len() as int) =~= texts(columns@));
    }
    None
}

proof fn lemma_position_prefix(columns: Seq<Seq<char>>, name: Seq<char>, k: int)
    requires
        0 <= k <= columns.len(),
        column_position(columns.subrange(0, k), name) is Some,
    ensures
        column_position(columns, name) == column_position(columns.subrange(0, k), name),
    decreases columns.len() - k,
{
    if k < columns.len() {
        assert(columns.subrange(0, k + 1).drop_last() =~= columns.subrange(0, k));
        lemma_position_prefix(columns, name, k + 1);
    } else {
        assert(columns.subrange(0, k) =~= columns);
    }
}

fn key_index_exec(options: &Vec<CteOption>, columns: &Vec<String>) -> (r: Result<Option<usize>, String>)
    ensures
        match key_index(options@, texts(columns@)) {
            Ok(Some(p)) => r == Ok::<Option<usize>, String>(Some(p as usize)),
            Ok(None) => r == Ok::<Option<usize>, String>(None),
            Err(e) => r matches Err(x) && x@ == e,
        },
{
    let mut key: Option<usize> = None;
    let mut i: usize = 0;
    while i < options.len()
        invariant
            0 <= i <= options@.len(),
            match key_index(options@.subrange(0, i as int), texts(columns@)) {
                Ok(Some(p)) => key == Some(p as usize),
                Ok(None) => key is None,
                Err(_) => false,
            },
        decreases options.len() - i,
    {
        proof {
            assert(options@.subrange(0, i + 1).drop_last() =~= options@.subrange(0, i as int));
            assert(options@.subrange(0, i + 1).last() == options@[i as int]);
        }
        let o = &options[i];
        if str_eq(to_uppercase(o.name.as_str()).as_str(), "KEY") {
            match &o.value {
                CteOptionValue::Identifier(id) => {
                    match column_position_exec(columns, id.as_str()) {
                        Some(p) => {
                            key = Some(p);
                        },
                        None => {
                            let mut cs = chars_of("Key column '");
                            append_chars(&mut cs, id.as_str());
                            append_chars(&mut cs, "' not found in column list");
                            proof {
                                lemma_key_error_stays(options@, texts(columns@), i as int + 1);
                            }
                            return Err(string_from_chars(&cs));
                        },
                    }
                },
                _ => {},
            }
        }
        i = i + 1;
    }
    proof {
        assert(options@.subrange(0, options@.len() as int) =~= options@);
    }
    Ok(key)
}

/// Once the options refuse a key, more options do not change that.
proof fn lemma_key_error_stays(options: Seq<CteOption>, columns: Seq<Seq<char>>, k: int)
    requires
        0 <= k <= options.len(),
        key_index(options.subrange(0, k), columns) is Err,
    ensures
        key_index(options, columns) == key_index(options.subrange(0, k), columns),
    decreases options.len() - k,
{
    if k < options.len() {
        assert(options.subrange(0, k + 1).drop_last() =~= options.subrange(0, k));
        lemma_key_error_stays(options, columns, k + 1);
    } else {
        assert(options.subrange(0, k) =~= options);
    }
}

fn group_of_exec(options: &Vec<CteOption>) -> (r: Option<String>)
    ensures
        match group_of(options@) {
            Some(g) => r matches Some(x) && x@ == g,
            None => r is None,
        },
{
    let mut group: Option<String> = None;
    let mut i: usize = 0;
    while i < options.len()
        invariant
            0 <= i <= options@.len(),
            match group_of(options@.subrange(0, i as int)) {
                Some(g) => group matches Some(x) && x@ == g,
                None => group is None,
            },
        decreases options.len() - i,
    {
        proof {
            assert(options@.subrange(0, i + 1).drop_last() =~= options@.subrange(0, i as int));
            assert(options@.subrange(0, i + 1).last() == options@[i as int]);
        }
        let o = &options[i];
        if str_eq(to_uppercase(o.name.as_str()).as_str(), "GROUP_ID") {
            match &o.value {
                CteOptionValue::SingleQuotedString(g) => {
                    group = Some(copy_string(g));
                },
                _ => {},
            }
        }
        i = i + 1;
    }
    proof {
        assert(options@.subrange(0, options@.len() as int) =~= options@);
    }
    group
}

/// Whether an option names a consumer group: `GROUP_ID = 'text'`,
/// `GROUP_ID` in any case.
pub open spec fn is_group_option(o: CteOption) -> bool {
    uppercase(o.name@) == "GROUP_ID"@ && o.value is SingleQuotedString
}

/// The consumer group of a `CONSUME` is the text of its last group
/// option, and there is none when no option names one.
pub proof fn lemma_group_of_meaning(options: Seq<CteOption>)
    ensures
        group_of(options) is None <==> forall|i: int| 0 <= i < options.len() ==> !#[trigger] is_group_option(options[i]),
        group_of(options) matches Some(g) ==> exists|i: int| {
            &&& 0 <= i < options.len()
            &&& #[trigger] is_group_option(options[i])
            &&& options[i].value->SingleQuotedString_0@ == g
            &&& forall|j: int| i < j < options.len() ==> !is_group_option(options[j])
        },
    decreases options.len(),
{
    if options.len() > 0 {
        let rest = options.drop_last();
        let last = options.len() - 1;
        lemma_group_of_meaning(rest);
        assert forall|i: int| 0 <= i < rest.len() implies options[i] == #[trigger] rest[i] by {}
        assert(options.last() == options[last]);
        if is_group_option(options[last]) {
            assert(!(forall|i: int| 0 <= i < options.len() ==> !#[trigger] is_group_option(options[i])));
        } else {
            match group_of(rest) {
                Some(g) => {
                    let i = choose|i: int| {
                        &&& 0 <= i < rest.len()
                        &&& #[trigger] is_group_option(rest[i])
                        &&& rest[i].value->SingleQuotedString_0@ == g
                        &&& forall|j: int| i < j < rest.len() ==> !is_group_option(rest[j])
                    };
                    assert(options[i] == rest[i]);
                    assert forall|j: int| i < j < options.len() implies !is_group_option(options[j]) by {
                        if j < last {
                            assert(options[j] == rest[j]);
                        }
                    }
                    assert(is_group_option(options[i]));
                },
                None => {
                    assert forall|i: int| 0 <= i < options.len() implies !#[trigger] is_group_option(options[i]) by {
                        if i < last {
                            assert(options[i] == rest[i]);
                        }
                    }
                },
            }
        }
    }
}

/// What a statement is as a `PRODUCE`: a nested query over `VALUES` or
/// over a query, whose `WITH` clause names `PRODUCE` (the first such
/// expression that reads from a relation), which must list its columns and
/// may name a key column; the rows or the query are what is produced.
/// `None` for any other statement.
pub open spec fn produce_of<E, Q>(s: QueueSqlStatement<E, Q>) -> Result<Option<(Seq<char>, Seq<Seq<char>>, Option<int>, Option<Vec<Vec<E>>>, Option<Q>)>, Seq<char>> {
    match s {
        QueueSqlStatement::NestedQuery { with: Some(ctes), body, .. } => {
            let i = first_cte(ctes@, "PRODUCE"@);
            if !(body is Values || body is Query) || i >= ctes@.len() {
                Ok(None)
            } else {
                let c = ctes@[i];
                let values = match body {
                    QueryBody::Values(rows) => Some(rows),
                    _ => None,
                };
                let query = match body {
                    QueryBody::Query(q) => Some(q),
                    _ => None,
                };
                match c.columns {
                    None => Err("Missing columns in PRODUCE statement"@),
                    Some(cols) => match key_index(c.options@, texts(cols@)) {
                        Err(e) => Err(e),
                        Ok(k) => Ok(Some((c.from->0@, texts(cols@), k, values, query))),
                    },
                }
            }
        },
        _ => Ok(None),
    }
}

/// What a statement is as a `CONSUME`: a nested query over a table or a
/// query, whose `WITH` clause names `CONSUME` (the first such expression
/// that reads from a relation), with its group, the filter, and the limit
/// when that is a number that fits; `None` for any other statement.
pub open spec fn consume_of<E, Q>(s: QueueSqlStatement<E, Q>) -> Option<(Seq<char>, Option<Seq<char>>, Option<E>, Option<usize>)> {
    match s {
        QueueSqlStatement::NestedQuery { with: Some(ctes), body, selection, limit } => {
            let i = first_cte(ctes@, "CONSUME"@);
            if !(body is Table || body is Query) || i >= ctes@.len() {
                None
            } else {
                let c = ctes@[i];
                Some((
                    c.from->0@,
                    group_of(c.options@),
                    selection,
                    match limit {
                        Some(LimitValue::Number(n)) => match parse_unsigned(n@, usize::MAX as nat) {
                            Some(v) => Some(v as usize),
                            None => None,
                        },
                        _ => None,
                    },
                ))
            }
        },
        _ => None,
    }
}

/// A `CONSUME` whose limit is written as a decimal number that fits a
/// `usize` is limited to that number.
pub proof fn lemma_consume_limit_reads_back<E, Q>(s: QueueSqlStatement<E, Q>, v: usize)
    requires
        consume_of(s) is Some,
        s matches QueueSqlStatement::NestedQuery { limit: Some(LimitValue::Number(n)), .. } && n@ == decimal(v as nat),
    ensures
        consume_of(s) matches Some(c) && c.3 == Some(v),
{
    lemma_parse_decimal(v as nat, usize::MAX as nat);
}

fn copy_texts(cols: &Vec<String>) -> (columns: Vec<String>)
    ensures
        texts(columns@) == texts(cols@),
{
    let mut columns: Vec<String> = Vec::new();
    let mut j: usize = 0;
    while j < cols.len()
        invariant
            0 <= j <= cols@.len(),
            texts(columns@) == texts(cols@).subrange(0, j as int),
        decreases cols.len() - j,
    {
        let ghost prev = texts(columns@);
        columns.push(copy_string(&cols[j]));
        proof {
            assert(texts(columns@) =~= prev.push(cols@[j as int]@));
            assert(texts(cols@).subrange(0, j + 1) =~= texts(cols@).subrange(0, j as int).push(cols@[j as int]@));
        }
        j = j + 1;
    }
    proof {
        assert(texts(cols@).subrange(0, cols@.len() as int) =~= texts(cols@));
    }
    columns
}

/// Reads a statement as a `PRODUCE` or a `CONSUME`, if it is one; a
/// `PRODUCE` is looked for first.
pub fn try_parse_queue_dml<E, Q>(statement: QueueSqlStatement<E, Q>) -> (r: Result<Option<QueueDmlStatement<E, Q>>, String>)
    ensures
        match produce_of(statement) {
            Err(e) => r matches Err(x) && x@ == e,
            Ok(Some((topic, columns, key, values, query))) => r matches Ok(Some(QueueDmlStatement::Produce { topic: t, columns: c, key_column_index: k, values: v, query: q }))
                && t@ == topic && texts(c@) == columns && v == values && q == query && match key {
                    Some(p) => k == Some(p as usize),
                    None => k is None,
                },
            Ok(None) => match consume_of(statement) {
                Some((topic, group, filter, limit)) => r matches Ok(Some(QueueDmlStatement::Consume { topic: t, group_id: g, filter: f, limit: l }))
                    && t@ == topic && f == filter && l == limit && match group {
                        Some(x) => g matches Some(y) && y@ == x,
                        None => g is None,
                    },
                None => r matches Ok(None),
            },
        },
{
    match statement {
        QueueSqlStatement::NestedQuery { with: Some(ctes), body, selection, limit } => {
            let produce_body = match &body {
                QueryBody::Values(_) => true,
                QueryBody::Query(_) => true,
                _ => false,
            };
            if produce_body {
                let i = first_cte_exec(&ctes, "PRODUCE");
                if i < ctes.len() {
                    let c = &ctes[i];
                    let topic = match &c.from {
                        Some(f) => copy_string(f),
                        None => string_from_chars(&Vec::new()),
                    };
                    return match &c.columns {
                        None => Err(string_from_chars(&chars_of("Missing columns in PRODUCE statement"))),
                        Some(cols) => {
                            match key_index_exec(&c.options, cols) {
                                Err(e) => Err(e),
                                Ok(k) => {
                                    let columns = copy_texts(cols);
                                    let (values, query) = match body {
                                        QueryBody::Values(rows) => (Some(rows), None),
                                        QueryBody::Query(q) => (None, Some(q)),
                                        _ => (None, None),
                                    };
                                    Ok(Some(QueueDmlStatement::Produce { topic, columns, key_column_index: k, values, query }))
                                },
                            }
                        },
                    };
                }
            }
            let consume_body = match &body {
                QueryBody::Table => true,
                QueryBody::Query(_) => true,
                _ => false,
            };
            if !consume_body {
                return Ok(None);
            }
            let i = first_cte_exec(&ctes, "CONSUME");
            if i >= ctes.len() {
                return Ok(None);
            }
            let c = &ctes[i];
            let topic = match &c.from {
                Some(f) => copy_string(f),
                None => string_from_chars(&Vec::new()),
            };
            let group_id = group_of_exec(&c.options);
            let limit = match &limit {
                Some(LimitValue::Number(n)) => match parse_bounded_u64(n.as_str(), usize::MAX as u64) {
                    Some(v) => Some(v as usize),
                    None => None,
                },
                _ => None,
            };
            Ok(Some(QueueDmlStatement::Consume { topic, group_id, filter: selection, limit }))
        },
        _ => Ok(None),
    }
}

/// A value of a row to produce, as read from a `VALUES` row.
#[derive(Debug)]
pub enum QueueValue {
    Integer(i64),
    /// A number that is not an integer, as written.
    Number(String),
    Text(String),
    Bool(bool),
    Null,
}

/// A row value with its texts taken by their characters.
pub enum QueueValueView {
    Integer(int),
    Number(Seq<char>),
    Text(Seq<char>),
    Bool(bool),
    Null,
}

impl QueueValue {
    pub open spec fn view(&self) -> QueueValueView {
        match self {
            QueueValue::Integer(i) => QueueValueView::Integer(*i as int),
            QueueValue::Number(n) => QueueValueView::Number(n@),
            QueueValue::Text(t) => QueueValueView::Text(t@),
            QueueValue::Bool(b) => QueueValueView::Bool(*b),
            QueueValue::Null => QueueValueView::Null,
        }
    }

    /// A copy of the value.
    pub fn copy(&self) -> (r: QueueValue)
        ensures
            r@ == self@,
    {
        match self {
            QueueValue::Integer(i) => QueueValue::Integer(*i),
            QueueValue::Number(n) => QueueValue::Number(copy_string(n)),
            QueueValue::Text(t) => QueueValue::Text(copy_string(t)),
            QueueValue::Bool(b) => QueueValue::Bool(*b),
            QueueValue::Null => QueueValue::Null,
        }
    }
}

/// The views of a row's values.
pub open spec fn row_view(row: Seq<QueueValue>) -> Seq<QueueValueView> {
    row.map_values(|v: QueueValue| v@)
}

/// The value part of a message made from `row`: for each of the first `n`
/// columns, in order, the column's name with the row's value at its
/// position, leaving out the key column and the columns the row is too
/// short for.
pub open spec fn value_pairs(columns: Seq<Seq<char>>, key: Option<int>, row: Seq<QueueValueView>, n: int) -> Seq<(Seq<char>, QueueValueView)>
    decreases n,
{
    if n <= 0 {
        Seq::empty()
    } else {
        let prev = value_pairs(columns, key, row, n - 1);
        let j = n - 1;
        if j < row.len() && key != Some(j) {
            prev.push((columns[j], row[j]))
        } else {
            prev
        }
    }
}

/// The column that the `i`-th value pair of a message comes from: the
/// columns in order, the key column skipped.
pub open spec fn pair_source(i: int, key: Option<int>) -> int {
    match key {
        Some(k) => if i >= k { i + 1 } else { i },
        None => i,
    }
}

/// What the value part of a message holds, taken over its first `n`
/// columns: one pair for each column `j` that the row has a value for,
/// other than the key column, in column order, each pair being the
/// column's name and the row's value at `j`; and no pair for the key
/// column.
pub proof fn lemma_value_pairs_skip_only_the_key(
    columns: Seq<Seq<char>>,
    key: Option<int>,
    row: Seq<QueueValueView>,
    n: int,
)
    requires
        0 <= n,
        key matches Some(k) ==> 0 <= k,
    ensures
        ({
            let m = if n < row.len() { n } else { row.len() as int };
            let keyed = key matches Some(k) && k < m;
            let pairs = value_pairs(columns, key, row, n);
            &&& pairs.len() == if keyed { m - 1 } else { m }
            &&& forall|i: int| 0 <= i < pairs.len() ==> {
                &&& 0 <= pair_source(i, key) < m
                &&& key != Some(pair_source(i, key))
                &&& #[trigger] pairs[i] == (columns[pair_source(i, key)], row[pair_source(i, key)])
            }
        }),
    decreases n,
{
    if n > 0 {
        lemma_value_pairs_skip_only_the_key(columns, key, row, n - 1);
        let prev = value_pairs(columns, key, row, n - 1);
        let j = n - 1;
        if j < row.len() && key != Some(j) {
            let pairs = prev.push((columns[j], row[j]));
            assert(value_pairs(columns, key, row, n) == pairs);
            assert forall|i: int| 0 <= i < pairs.len() implies {
                &&& 0 <= pair_source(i, key) < n
                &&& key != Some(pair_source(i, key))
                &&& #[trigger] pairs[i] == (columns[pair_source(i, key)], row[pair_source(i, key)])
            } by {
                if i < prev.len() {
                    assert(pairs[i] == prev[i]);
                }
            }
        }
    }
}

/// The value of a message that a row makes, over all the columns: the
/// law above with every column taken.
pub proof fn lemma_message_value_pairs(columns: Seq<Seq<char>>, key: Option<int>, row: Seq<QueueValueView>)
    requires
        key matches Some(k) ==> 0 <= k,
    ensures
        ({
            let m = if columns.len() < row.len() { columns.len() as int } else { row.len() as int };
            let keyed = key matches Some(k) && k < m;
            let pairs = value_pairs(columns, key, row, columns.len() as int);
            &&& pairs.len() == if keyed { m - 1 } else { m }
            &&& forall|i: int| 0 <= i < pairs.len() ==> {
                &&& 0 <= pair_source(i, key) < m
                &&& key != Some(pair_source(i, key))
                &&& #[trigger] pairs[i] == (columns[pair_source(i, key)], row[pair_source(i, key)])
            }
        }),
{
    lemma_value_pairs_skip_only_the_key(columns, key, row, columns.len() as int);
}

/// The views of a message's value pairs.
pub open spec fn pairs_view(pairs: Seq<(String, QueueValue)>) -> Seq<(Seq<char>, QueueValueView)> {
    pairs.map_values(|p: (String, QueueValue)| (p.0@, p.1@))
}

/// Whether row `row` is too short to hold the key column.
pub open spec fn lacks_key(key: Option<usize>, row: Seq<QueueValue>) -> bool {
    key matches Some(k) && row.len() <= k
}

/// The messages that rows of values make when produced to a topic, in
/// order: one per row, keyed by the row's value in the key column when
/// there is one, its value being the other columns' names with the row's
/// values. Production stops at the first row that has no value in the key
/// column: the messages of the rows before it are made, and the error
/// says why it stopped.
pub fn produce_messages(columns: &Vec<String>, key: Option<usize>, rows: &Vec<Vec<QueueValue>>) -> (r: (Vec<(Option<QueueValue>, Vec<(String, QueueValue)>)>, Result<(), String>))
    ensures
        r.0.len() <= rows.len(),
        forall|i: int| 0 <= i < r.0.len() ==> !lacks_key(key, #[trigger] rows@[i]@),
        r.0.len() < rows.len() <==> r.1 is Err,
        r.0.len() < rows.len() ==> lacks_key(key, rows@[r.0.len() as int]@),
        r.1 matches Err(e) ==> e@ == "Key column index out of bounds"@,
        forall|i: int| 0 <= i < r.0.len() ==> {
            &&& match key {
                Some(k) => (#[trigger] r.0@[i]).0 matches Some(v) && v@ == rows@[i]@[k as int]@,
                None => r.0@[i].0 is None,
            }
            &&& pairs_view(r.0@[i].1@) == value_pairs(texts(columns@), match key { Some(k) => Some(k as int), None => None }, row_view(rows@[i]@), columns.len() as int)
        },
{
    let ghost kk: Option<int> = match key { Some(k) => Some(k as int), None => None };
    let mut ms: Vec<(Option<QueueValue>, Vec<(String, QueueValue)>)> = Vec::new();
    let mut i: usize = 0;
    while i < rows.len()
        invariant
            0 <= i <= rows.len(),
            ms.len() == i,
            kk == match key { Some(k) => Some(k as int), None => None::<int> },
            forall|m: int| 0 <= m < i ==> !lacks_key(key, #[trigger] rows@[m]@),
            forall|m: int| 0 <= m < i ==> {
                &&& match key {
                    Some(k) => (#[trigger] ms@[m]).0 matches Some(v) && v@ == rows@[m]@[k as int]@,
                    None => ms@[m].0 is None,
                }
                &&& pairs_view(ms@[m].1@) == value_pairs(texts(columns@), kk, row_view(rows@[m]@), columns.len() as int)
            },
        decreases rows.len() - i,
    {
        let row = &rows[i];
        let k = match key {
            Some(k) => {
                if k >= row.len() {
                    return (ms, Err(string_from_chars(&chars_of("Key column index out of bounds"))));
                }
                Some(row[k].copy())
            },
            None => None,
        };
        let mut pairs: Vec<(String, QueueValue)> = Vec::new();
        let mut j: usize = 0;
        while j < columns.len()
            invariant
                0 <= j <= columns.len(),
                row == rows@[i as int],
                kk == match key { Some(k) => Some(k as int), None => None::<int> },
                pairs_view(pairs@) == value_pairs(texts(columns@), kk, row_view(row@), j as int),
            decreases columns.len() - j,
        {
            let ghost prev = pairs@;
            let skip = match key {
                Some(k) => k == j,
                None => false,
            };
            if j < row.len() && !skip {
                pairs.push((copy_string(&columns[j]), row[j].copy()));
                proof {
                    assert(pairs_view(pairs@) =~= pairs_view(prev).push((columns@[j as int]@, row@[j as int]@)));
                }
            }
            j = j + 1;
        }
        ms.push((k, pairs));
        proof {
            assert(ms@[i as int].1@ == pairs@);
        }
        i = i + 1;
    }
    (ms, Ok(()))
}

/// The reply to a `PRODUCE` of rows: how many messages went to the topic.
pub fn produced_report(count: u64, topic: &str) -> (r: String)
    ensures
        r@ == "Produced "@ + decimal(count as nat) + " messages to topic '"@ + topic@ + "'"@,
{
    let mut cs = chars_of("Produced ");
    let n = u64_to_decimal(count);
    append_chars(&mut cs, n.as_str());
    append_chars(&mut cs, " messages to topic '");
    append_chars(&mut cs, topic);
    append_chars(&mut cs, "'");
    string_from_chars(&cs)
}

/// The text that serde_json shows of the JSON value it reads from `bytes`,
/// or `None` when the bytes are not JSON.
pub uninterp spec fn json_text(bytes: Seq<u8>) -> Option<Seq<char>>;

/// Calls `serde_json::from_slice` for a `serde_json::Value` and shows the
/// value with its `Display`; the contract names the text, which depends on
/// the bytes alone, and says that it is absent exactly when the bytes are
/// not read as JSON.
#[verifier::external_body]
fn show_json(bytes: &Vec<u8>) -> (r: Option<String>)
    ensures
        match r {
            Some(t) => json_text(bytes@) == Some(t@),
            None => json_text(bytes@) is None,
        },
{
    match serde_json::from_slice::<serde_json::Value>(bytes) {
        Ok(v) => Some(format!("{}", v)),
        Err(_) => None,
    }
}

/// How a consumed message's key is shown: `null` when it has none, its
/// JSON text, or its size when it is not JSON.
pub open spec fn key_display(key: Option<Seq<u8>>) -> Seq<char> {
    match key {
        None => "null"@,
        Some(k) => match json_text(k) {
            Some(t) => t,
            None => "<binary key of "@ + decimal(k.len()) + " bytes>"@,
        },
    }
}

/// How a consumed message's value is shown: its JSON text, or its size
/// when it is not JSON.
pub open spec fn value_display(v: Seq<u8>) -> Seq<char> {
    match json_text(v) {
        Some(t) => t,
        None => "<binary data of "@ + decimal(v.len()) + " bytes>"@,
    }
}

pub open spec fn message_key(m: (Option<Vec<u8>>, Vec<u8>)) -> Option<Seq<u8>> {
    match m.0 {
        Some(k) => Some(k@),
        None => None,
    }
}

/// The lines that show the first `n` consumed messages, numbered from 1.
pub open spec fn consumed_lines(msgs: Seq<(Option<Vec<u8>>, Vec<u8>)>, n: int) -> Seq<char>
    decreases n,
{
    if n <= 0 {
        Seq::empty()
    } else {
        consumed_lines(msgs, n - 1) + decimal(n as nat) + ". Key: "@ + key_display(message_key(msgs[n - 1])) + ", Value: "@
            + value_display(msgs[n - 1].1@) + "\n"@
    }
}

/// How many messages a `CONSUME` shows: its limit, 10 when it has none.
pub open spec fn consume_limit(limit: Option<usize>) -> int {
    match limit {
        Some(l) => l as int,
        None => 10,
    }
}

/// The reply to a `CONSUME` of topic `topic`, from the messages polled
/// (each a key, if any, and a value, as bytes): the first ones, up to the
/// limit, counted and shown one per line.
pub fn consume_report(topic: &str, messages: &Vec<(Option<Vec<u8>>, Vec<u8>)>, limit: Option<usize>) -> (r: String)
    ensures
        ({
            let n = if messages@.len() > consume_limit(limit) { consume_limit(limit) } else { messages@.len() as int };
            r@ == "Consumed "@ + decimal(n as nat) + " messages from topic '"@ + topic@ + "':\n"@ + consumed_lines(messages@, n)
        }),
{
    let limit_val: usize = match limit {
        Some(l) => l,
        None => 10,
    };
    let n: usize = if messages.len() > limit_val { limit_val } else { messages.len() };
    let mut out = chars_of("Consumed ");
    append_chars(&mut out, u64_to_decimal(n as u64).as_str());
    append_chars(&mut out, " messages from topic '");
    append_chars(&mut out, topic);
    append_chars(&mut out, "':\n");
    let ghost head = out@;
    let mut i: usize = 0;
    while i < n
        invariant
            0 <= i <= n <= messages@.len(),
            out@ == head + consumed_lines(messages@, i as int),
        decreases n - i,
    {
        let (key, value) = &messages[i];
        let key_text = match key {
            None => string_from_chars(&chars_of("null")),
            Some(k) => match show_json(k) {
                Some(t) => t,
                None => {
                    let mut cs = chars_of("<binary key of ");
                    append_chars(&mut cs, u64_to_decimal(k.len() as u64).as_str());
                    append_chars(&mut cs, " bytes>");
                    string_from_chars(&cs)
                },
            },
        };
        let value_text = match show_json(value) {
            Some(t) => t,
            None => {
                let mut cs = chars_of("<binary data of ");
                append_chars(&mut cs, u64_to_decimal(value.len() as u64).as_str());
                append_chars(&mut cs, " bytes>");
                string_from_chars(&cs)
            },
        };
        proof {
            assert(key_text@ == key_display(message_key(messages@[i as int])));
            assert(value_text@ == value_display(messages@[i as int].1@));
        }
        append_chars(&mut out, u64_to_decimal((i + 1) as u64).as_str());
        append_chars(&mut out, ". Key: ");
        append_chars(&mut out, key_text.as_str());
        append_chars(&mut out, ", Value: ");
        append_chars(&mut out, value_text.as_str());
        append_chars(&mut out, "\n");
        proof {
            assert(out@ =~= head + consumed_lines(messages@, i + 1));
        }
        i = i + 1;
    }
    string_from_chars(&out)
}

} // verus!
