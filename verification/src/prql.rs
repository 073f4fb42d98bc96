//! Compiling PRQL queries to SQL, and telling PRQL queries from SQL ones.

use vstd::prelude::*;
use vstd::string::*;
use crate::charclass::{is_white_space, is_word_char, white_space, word_char};
use crate::prql_syntax::{
    connector_view, connectors_view, extended_syntax, has_at, occurs_at, pairs_view, parse_extended_syntax, push_all,
    push_range, ConnectorConfig, ConnectorView,
};
use crate::strmap::{str_eq, StringMap};
use crate::text::{append_chars, chars_of, string_from_chars};

verus! {

/// What can go wrong while turning a PRQL query into SQL.
#[derive(Debug, Clone, PartialEq, Eq)]
pub enum PrqlError {
    /// The PRQL compiler rejected the query.
    CompilationError(String),
    /// The SQL could not be post-processed, or the extended syntax is wrong.
    PostProcessingError(String),
    /// An Arroyo-specific feature is misused.
    ArroyoFeatureError(String),
    /// Anything else.
    Other(String),
}

/// The text shown for an error.
pub open spec fn error_message(e: PrqlError) -> Seq<char> {
    match e {
        PrqlError::CompilationError(m) => "PRQL compilation error: "@ + m@,
        PrqlError::PostProcessingError(m) => "SQL post-processing error: "@ + m@,
        PrqlError::ArroyoFeatureError(m) => "Arroyo feature error: "@ + m@,
        PrqlError::Other(m) => "Other error: "@ + m@,
    }
}

impl PrqlError {
    /// The text shown for this error.
    pub fn message(&self) -> (m: String)
        ensures
            m@ == error_message(*self),
    {
        let (prefix, detail) = match self {
            PrqlError::CompilationError(m) => (chars_of("PRQL compilation error: "), m),
            PrqlError::PostProcessingError(m) => (chars_of("SQL post-processing error: "), m),
            PrqlError::ArroyoFeatureError(m) => (chars_of("Arroyo feature error: "), m),
            PrqlError::Other(m) => (chars_of("Other error: "), m),
        };
        let mut cs = prefix;
        crate::text::append_chars(&mut cs, detail.as_str());
        string_from_chars(&cs)
    }
}

/// The SQL that the PRQL compiler makes of a query (PostgreSQL dialect, no
/// formatting, no signature comment), or `None` when it rejects the query.
pub uninterp spec fn prql_compiled(q: Seq<char>) -> Option<Seq<char>>;

/// Calls `prqlc::compile` with the PostgreSQL dialect, no formatting and no
/// signature comment. The contract names the SQL it returns and says that it
/// fails exactly when the compiler rejects the query; the text of the error
/// (which depends on how errors are displayed) is left unsaid. It does not
/// say that the compiler never panics: nothing here shows that.
#[verifier::external_body]
fn compile_prql(prql_query: &str) -> (r: Result<String, String>)
    ensures
        match r {
            Ok(sql) => prql_compiled(prql_query@) == Some(sql@),
            Err(_) => prql_compiled(prql_query@) is None,
        },
{
    let options = prqlc::Options {
        format: false,
        target: prqlc::Target::Sql(Some(prqlc::sql::Dialect::Postgres)),
        signature_comment: false,
        ..Default::default()
    };
    match prqlc::compile(prql_query, &options) {
        Ok(sql) => Ok(sql),
        Err(e) => Err(e.to_string()),
    }
}

/// The SQL name of a connector type.
pub open spec fn connector_keyword(t: Seq<char>) -> Seq<char> {
    if t == "kafka"@ {
        "KAFKA"@
    } else if t == "file"@ {
        "FILE"@
    } else if t == "jdbc"@ {
        "JDBC"@
    } else if t == "http"@ {
        "HTTP"@
    } else {
        t
    }
}

/// An option of a connector in SQL: `name => 'value'`, the format being
/// named bare, `format => json`.
pub open spec fn option_sql(o: (Seq<char>, Seq<char>)) -> Seq<char> {
    if o.0 == "format"@ {
        o.0 + " => "@ + o.1
    } else {
        o.0 + " => '"@ + o.1 + "'"@
    }
}

/// The options of a connector in SQL, in order, separated by `, `.
pub open spec fn options_sql(os: Seq<(Seq<char>, Seq<char>)>) -> Seq<char>
    decreases os.len(),
{
    if os.len() == 0 {
        Seq::empty()
    } else if os.len() == 1 {
        option_sql(os[0])
    } else {
        options_sql(os.drop_last()) + ", "@ + option_sql(os.last())
    }
}

/// A connector as a call in SQL: `KAFKA(topic => 'events', ...)`.
pub open spec fn connector_call(c: ConnectorView) -> Seq<char> {
    connector_keyword(c.0) + "("@ + options_sql(c.1) + ")"@
}

/// The table that a source connector stands for in the query: its alias,
/// or its type followed by `_source`.
pub open spec fn source_table(c: ConnectorView) -> Seq<char> {
    match c.2 {
        Some(a) => a,
        None => c.0 + "_source"@,
    }
}

/// Whether `FROM name` stands at `p` in `s`, the name not running on.
pub open spec fn from_at(s: Seq<char>, p: int, name: Seq<char>) -> bool {
    let e = p + 5 + name.len();
    &&& has_at(s, p, "FROM "@ + name)
    &&& (e == s.len() || !(word_char(s[e]) || s[e] == '.'))
}

/// The first position from `i` on where `FROM name` stands; the length of
/// `s` when there is none.
pub open spec fn first_from(s: Seq<char>, name: Seq<char>, i: int) -> int
    decreases s.len() - i,
{
    if i < 0 || i >= s.len() {
        s.len() as int
    } else if from_at(s, i, name) {
        i
    } else {
        first_from(s, name, i + 1)
    }
}

/// A connector put into SQL: a source takes the place of the first
/// `FROM` of its table, which it then names; a sink makes the query an
/// insert into it.
pub open spec fn apply_connector(sql: Seq<char>, c: ConnectorView) -> Seq<char> {
    if c.3 {
        let t = source_table(c);
        let p = first_from(sql, t, 0);
        if p >= sql.len() {
            sql
        } else {
            sql.subrange(0, p) + "FROM "@ + connector_call(c) + " AS "@ + t + sql.subrange(p + 5 + t.len(), sql.len() as int)
        }
    } else {
        "INSERT INTO "@ + connector_call(c) + " "@ + sql
    }
}

/// The connectors put into SQL, in order.
pub open spec fn with_connectors(sql: Seq<char>, cs: Seq<ConnectorView>) -> Seq<char>
    decreases cs.len(),
{
    if cs.len() == 0 {
        sql
    } else {
        apply_connector(with_connectors(sql, cs.drop_last()), cs.last())
    }
}

fn connector_keyword_exec(t: &str) -> (r: Vec<char>)
    ensures
        r@ == connector_keyword(t@),
{
    if str_eq(t, "kafka") {
        chars_of("KAFKA")
    } else if str_eq(t, "file") {
        chars_of("FILE")
    } else if str_eq(t, "jdbc") {
        chars_of("JDBC")
    } else if str_eq(t, "http") {
        chars_of("HTTP")
    } else {
        chars_of(t)
    }
}

fn connector_call_exec(c: &ConnectorConfig) -> (r: Vec<char>)
    ensures
        r@ == connector_call(connector_view(*c)),
{
    let mut out = connector_keyword_exec(c.connector_type.as_str());
    append_chars(&mut out, "(");
    let ghost start = out@;
    let ghost os = pairs_view(c.options@);
    let mut i: usize = 0;
    while i < c.options.len()
        invariant
            0 <= i <= c.options@.len(),
            os == pairs_view(c.options@),
            out@ == start + options_sql(os.subrange(0, i as int)),
        decreases c.options.len() - i,
    {
        proof {
            assert(os.subrange(0, i + 1).drop_last() =~= os.subrange(0, i as int));
            assert(os.subrange(0, i + 1).last() == os[i as int]);
        }
        if i > 0 {
            append_chars(&mut out, ", ");
        }
        let (name, value) = &c.options[i];
        append_chars(&mut out, name.as_str());
        if str_eq(name.as_str(), "format") {
            append_chars(&mut out, " => ");
            append_chars(&mut out, value.as_str());
        } else {
            append_chars(&mut out, " => '");
            append_chars(&mut out, value.as_str());
            append_chars(&mut out, "'");
        }
        proof {
            if i == 0 {
                assert(os.subrange(0, 1) =~= seq![os[0]]);
            }
            assert(out@ =~= start + options_sql(os.subrange(0, i + 1)));
        }
        i = i + 1;
    }
    proof {
        assert(os.subrange(0, c.options@.len() as int) =~= os);
    }
    append_chars(&mut out, ")");
    out
}

/// The first `FROM` earlier than none is the first from any earlier point
/// at which none stands before `i`.
proof fn lemma_first_from_skip(s: Seq<char>, name: Seq<char>, j: int, i: int)
    requires
        0 <= j <= i,
        forall|k: int| j <= k < i ==> !from_at(s, k, name),
    ensures
        i <= s.len() ==> first_from(s, name, j) == first_from(s, name, i),
    decreases i - j,
{
    if j < i {
        lemma_first_from_skip(s, name, j + 1, i);
    }
}

fn find_from(sql: &Vec<char>, name: &Vec<char>) -> (p: usize)
    ensures
        p as int == first_from(sql@, name@, 0),
        p <= sql@.len(),
        p < sql@.len() ==> from_at(sql@, p as int, name@),
{
    proof {
        reveal_strlit("FROM ");
    }
    let mut pat = chars_of("FROM ");
    push_all(&mut pat, name);
    let mut i: usize = 0;
    while i < sql.len()
        invariant
            0 <= i <= sql@.len(),
            pat@ == "FROM "@ + name@,
            forall|k: int| 0 <= k < i ==> !from_at(sql@, k, name@),
        decreases sql.len() - i,
    {
        let here = if occurs_at(sql, i, &pat) {
            let e = i + pat.len();
            e == sql.len() || !(is_word_char(sql[e]) || sql[e] == '.')
        } else {
            false
        };
        proof {
            reveal_strlit("FROM ");
            assert(("FROM "@ + name@).len() == 5 + name@.len());
            assert(here == from_at(sql@, i as int, name@));
        }
        if here {
            proof {
                lemma_first_from_skip(sql@, name@, 0, i as int);
            }
            return i;
        }
        i = i + 1;
    }
    proof {
        lemma_first_from_skip(sql@, name@, 0, i as int);
    }
    i
}

fn apply_connector_exec(sql: Vec<char>, c: &ConnectorConfig) -> (r: Vec<char>)
    ensures
        r@ == apply_connector(sql@, connector_view(*c)),
{
    let call = connector_call_exec(c);
    if c.is_source {
        let table = match &c.alias {
            Some(a) => chars_of(a.as_str()),
            None => {
                let mut t = chars_of(c.connector_type.as_str());
                append_chars(&mut t, "_source");
                t
            },
        };
        let p = find_from(&sql, &table);
        if p >= sql.len() {
            return sql;
        }
        proof {
            reveal_strlit("FROM ");
            assert(("FROM "@ + table@).len() == 5 + table@.len());
        }
        let mut out: Vec<char> = Vec::new();
        push_range(&mut out, &sql, 0, p);
        append_chars(&mut out, "FROM ");
        push_all(&mut out, &call);
        append_chars(&mut out, " AS ");
        push_all(&mut out, &table);
        push_range(&mut out, &sql, p + 5 + table.len(), sql.len());
        out
    } else {
        let mut out = chars_of("INSERT INTO ");
        push_all(&mut out, &call);
        append_chars(&mut out, " ");
        push_all(&mut out, &sql);
        out
    }
}

/// The connectors taken out of a query, put into the SQL made of it:
/// each source in place of the first `FROM` of its table, each sink as
/// an insert into it.
pub fn render_connectors(sql: &str, connectors: &Vec<ConnectorConfig>) -> (r: String)
    ensures
        r@ == with_connectors(sql@, connectors_view(connectors@)),
{
    let mut out = chars_of(sql);
    let mut i: usize = 0;
    while i < connectors.len()
        invariant
            0 <= i <= connectors@.len(),
            out@ == with_connectors(sql@, connectors_view(connectors@).subrange(0, i as int)),
        decreases connectors.len() - i,
    {
        proof {
            let cv = connectors_view(connectors@);
            assert(cv.subrange(0, i + 1).drop_last() =~= cv.subrange(0, i as int));
            assert(cv.subrange(0, i + 1).last() == connector_view(connectors@[i as int]));
        }
        out = apply_connector_exec(out, &connectors[i]);
        i = i + 1;
    }
    proof {
        assert(connectors_view(connectors@).subrange(0, connectors@.len() as int) =~= connectors_view(connectors@));
    }
    string_from_chars(&out)
}

/// Compiles a PRQL query to SQL: the extended syntax (connectors, windows,
/// watermarks) is taken out first, the rest is compiled and
/// post-processed, and the connectors are put into the SQL. That it
/// returns rather than panics rests on the PRQL compiler, whose code is
/// not verified here.
pub fn prql_to_sql(prql_query: &str) -> (r: Result<String, PrqlError>)
    ensures
        match extended_syntax(prql_query@) {
            Err(e) => r matches Err(PrqlError::PostProcessingError(x)) && x@ == e,
            Ok((text, connectors, _, _)) => match prql_compiled(text) {
                Some(sql) => r matches Ok(x) && x@ == with_connectors(sql, connectors),
                None => r matches Err(PrqlError::CompilationError(_)),
            },
        },
{
    let (text, connectors, _windows, _watermarks) = match parse_extended_syntax(prql_query) {
        Ok(parts) => parts,
        Err(e) => return Err(e),
    };
    match compile_prql(text.as_str()) {
        Ok(sql) => match post_process_sql(sql.as_str()) {
            Ok(processed) => Ok(render_connectors(processed.as_str(), &connectors)),
            Err(e) => Err(e),
        },
        Err(m) => Err(PrqlError::CompilationError(m)),
    }
}

/// SQL already made from PRQL queries, by query text.
pub struct PrqlCache {
    entries: StringMap<String>,
}

impl PrqlCache {
    /// The SQL kept for each query.
    pub closed spec fn kept(&self) -> Map<Seq<char>, Seq<char>> {
        self.entries.view().map_values(|s: String| s@)
    }

    pub closed spec fn wf(&self) -> bool {
        self.entries.wf()
    }

    /// A cache that keeps nothing yet.
    pub fn new() -> (c: Self)
        ensures
            c.wf(),
            c.kept() == Map::<Seq<char>, Seq<char>>::empty(),
    {
        let c = PrqlCache { entries: StringMap::new() };
        proof {
            assert(c.kept() =~= Map::<Seq<char>, Seq<char>>::empty());
        }
        c
    }

    /// The SQL kept for `query`, if any.
    pub fn get_from_cache(&self, query: &str) -> (r: Option<String>)
        requires
            self.wf(),
        ensures
            match r {
                Some(sql) => self.kept().contains_key(query@) && self.kept()[query@] == sql@,
                None => !self.kept().contains_key(query@),
            },
    {
        match self.entries.get(query) {
            Some(sql) => Some(string_from_chars(&chars_of(sql.as_str()))),
            None => None,
        }
    }

    /// Keeps `sql` as the SQL of `query`.
    pub fn add_to_cache(&mut self, query: &str, sql: &str)
        requires
            old(self).wf(),
        ensures
            final(self).wf(),
            final(self).kept() == old(self).kept().insert(query@, sql@),
    {
        self.entries.insert(string_from_chars(&chars_of(query)), string_from_chars(&chars_of(sql)));
        proof {
            assert(self.kept() =~= old(self).kept().insert(query@, sql@));
        }
    }

    /// `prql_to_sql`, answered from the cache when the query's SQL is kept;
    /// SQL made anew is kept.
    pub fn prql_to_sql(&mut self, prql_query: &str) -> (r: Result<String, PrqlError>)
        requires
            old(self).wf(),
        ensures
            final(self).wf(),
            old(self).kept().contains_key(prql_query@) ==> (r matches Ok(x) && x@ == old(self).kept()[prql_query@])
                && final(self).kept() == old(self).kept(),
            !old(self).kept().contains_key(prql_query@) ==> match extended_syntax(prql_query@) {
                Err(e) => (r matches Err(PrqlError::PostProcessingError(x)) && x@ == e) && final(self).kept() == old(self).kept(),
                Ok((text, connectors, _, _)) => match prql_compiled(text) {
                    Some(sql) => (r matches Ok(x) && x@ == with_connectors(sql, connectors))
                        && final(self).kept() == old(self).kept().insert(prql_query@, with_connectors(sql, connectors)),
                    None => (r matches Err(PrqlError::CompilationError(_))) && final(self).kept() == old(self).kept(),
                },
            },
    {
        match self.get_from_cache(prql_query) {
            Some(sql) => Ok(sql),
            None => {
                let r = prql_to_sql(prql_query);
                match &r {
                    Ok(sql) => self.add_to_cache(prql_query, sql.as_str()),
                    Err(_) => {},
                }
                r
            },
        }
    }
}

/// Adapts SQL made from PRQL to the engine: window functions, then time
/// functions, then connectors. Each step leaves the SQL as it is.
pub fn post_process_sql(sql: &str) -> (r: Result<String, PrqlError>)
    ensures
        r matches Ok(x) && x@ == sql@,
{
    let processed = sql.to_owned();
    let processed = match process_window_functions(processed.as_str()) {
        Ok(s) => s,
        Err(e) => {
            return Err(e);
        },
    };
    let processed = match process_time_functions(processed.as_str()) {
        Ok(s) => s,
        Err(e) => {
            return Err(e);
        },
    };
    process_connectors(processed.as_str())
}

/// Window functions: the SQL is kept as it is.
pub fn process_window_functions(sql: &str) -> (r: Result<String, PrqlError>)
    ensures
        r matches Ok(x) && x@ == sql@,
{
    Ok(sql.to_owned())
}

/// Time functions: the SQL is kept as it is.
pub fn process_time_functions(sql: &str) -> (r: Result<String, PrqlError>)
    ensures
        r matches Ok(x) && x@ == sql@,
{
    Ok(sql.to_owned())
}

/// Connectors: the SQL is kept as it is.
pub fn process_connectors(sql: &str) -> (r: Result<String, PrqlError>)
    ensures
        r matches Ok(x) && x@ == sql@,
{
    Ok(sql.to_owned())
}

/// The first index from which no White_Space character remains before the
/// end of `s` when read from `i`.
pub open spec fn trim_start_from(s: Seq<char>, i: int) -> int
    decreases s.len() - i,
{
    if 0 <= i < s.len() && white_space(s[i]) {
        trim_start_from(s, i + 1)
    } else {
        i
    }
}

/// The end of `s[..j]` once its trailing White_Space is dropped.
pub open spec fn trim_end_to(s: Seq<char>, j: int) -> int
    decreases j,
{
    if 0 < j <= s.len() && white_space(s[j - 1]) {
        trim_end_to(s, j - 1)
    } else {
        j
    }
}

/// `s` without leading and trailing White_Space.
pub open spec fn trimmed(s: Seq<char>) -> Seq<char> {
    let a = trim_start_from(s, 0);
    let b = trim_end_to(s, s.len() as int);
    if a < b {
        s.subrange(a, b)
    } else {
        seq![]
    }
}

/// `t` occurs somewhere in `s`.
pub open spec fn occurs_in(s: Seq<char>, t: Seq<char>) -> bool {
    exists|i: int| #[trigger] crate::prql_syntax::has_at(s, i, t)
}

/// The signs of a PRQL query, checked on the query without surrounding
/// white space: it starts with `from`, `let` or `prql`; or it uses the pipe
/// `|` and neither `SELECT` nor `FROM`; or it uses `filter `, `derive ` or
/// `group `.
pub open spec fn looks_like_prql(q: Seq<char>) -> bool {
    let t = trimmed(q);
    ||| crate::prql_syntax::has_at(t, 0, "from"@)
    ||| crate::prql_syntax::has_at(t, 0, "let"@)
    ||| crate::prql_syntax::has_at(t, 0, "prql"@)
    ||| (occurs_in(t, "|"@) && !occurs_in(t, "SELECT"@) && !occurs_in(t, "FROM"@))
    ||| occurs_in(t, "filter "@)
    ||| occurs_in(t, "derive "@)
    ||| occurs_in(t, "group "@)
}

/// The characters of `s` without leading and trailing White_Space.
fn trim_chars(s: &str) -> (r: Vec<char>)
    ensures
        r@ == trimmed(s@),
{
    let cs = chars_of(s);
    let mut a: usize = 0;
    while a < cs.len() && is_white_space(cs[a])
        invariant
            0 <= a <= cs@.len(),
            cs@ == s@,
            trim_start_from(cs@, 0) == trim_start_from(cs@, a as int),
        decreases cs.len() - a,
    {
        a = a + 1;
    }
    let mut b: usize = cs.len();
    while b > 0 && is_white_space(cs[b - 1])
        invariant
            0 <= b <= cs@.len(),
            cs@ == s@,
            trim_end_to(cs@, cs@.len() as int) == trim_end_to(cs@, b as int),
        decreases b,
    {
        b = b - 1;
    }
    let mut r: Vec<char> = Vec::new();
    if a < b {
        let mut k = a;
        while k < b
            invariant
                a <= k <= b <= cs@.len(),
                r@ == cs@.subrange(a as int, k as int),
            decreases b - k,
        {
            r.push(cs[k]);
            proof {
                assert(cs@.subrange(a as int, k as int + 1) =~= cs@.subrange(a as int, k as int).push(cs@[k as int]));
            }
            k = k + 1;
        }
    } else {
        assert(r@ =~= seq![]);
    }
    r
}

/// Whether `lit` occurs somewhere in `cs`.
pub(crate) fn text_contains(cs: &Vec<char>, lit: &str) -> (b: bool)
    ensures
        b == occurs_in(cs@, lit@),
{
    let t = chars_of(lit);
    let mut i: usize = 0;
    while i < cs.len()
        invariant
            0 <= i <= cs@.len(),
            t@ == lit@,
            forall|j: int| 0 <= j < i ==> !#[trigger] crate::prql_syntax::has_at(cs@, j, lit@),
        decreases cs@.len() - i,
    {
        if crate::prql_syntax::occurs_at(cs, i, &t) {
            return true;
        }
        i = i + 1;
    }
    if crate::prql_syntax::occurs_at(cs, cs.len(), &t) {
        return true;
    }
    proof {
        assert forall|j: int| !#[trigger] crate::prql_syntax::has_at(cs@, j, lit@) by {
            if 0 <= j < cs@.len() {
                assert(j < i);
            }
        }
    }
    false
}

/// Whether a query looks like PRQL rather than SQL.
pub fn is_prql_query(query: &str) -> (b: bool)
    ensures
        b == looks_like_prql(query@),
{
    let t = trim_chars(query);
    let from_kw = chars_of("from");
    let let_kw = chars_of("let");
    let prql_kw = chars_of("prql");
    if crate::prql_syntax::occurs_at(&t, 0, &from_kw) || crate::prql_syntax::occurs_at(&t, 0, &let_kw)
        || crate::prql_syntax::occurs_at(&t, 0, &prql_kw) {
        return true;
    }
    if text_contains(&t, "|") && !text_contains(&t, "SELECT") && !text_contains(&t, "FROM") {
        return true;
    }
    text_contains(&t, "filter ") || text_contains(&t, "derive ") || text_contains(&t, "group ")
}

} // verus!
