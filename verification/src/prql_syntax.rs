//! The extended query syntax: connectors (`from kafka (...) as t`,
//! `into file (...)`), window options (`window tumbling (...) (`) and
//! watermarks (`watermark (...)`), taken out of a query and replaced by
//! plain syntax.
//!
//! Each construct is found the way a leftmost-first regular-expression
//! search finds it: the first position where the construct starts, each
//! repetition as long as it can be, and the search resumes after the end of
//! the previous occurrence.

use vstd::prelude::*;
use vstd::string::*;
use crate::charclass::{
    decimal_number, is_decimal_number, is_white_space, is_word_char, lowercase, to_lowercase,
    white_space, word_char,
};
use crate::prql::PrqlError;
use crate::text::{chars_of, decimal, is_digit, string_from_chars, u64_to_decimal};

verus! {

/// The character classes that the syntax is made of.
#[derive(Clone, Copy)]
pub enum CharClass {
    /// White space.
    Space,
    /// Word characters.
    Word,
    /// Anything but a parenthesis.
    Plain,
    /// Word characters and `.`.
    NameChar,
    /// Anything but `,` and white space.
    Bare,
    /// Decimal digits.
    Digit,
    /// Anything but the given character.
    Not(char),
}

pub open spec fn in_class(c: char, k: CharClass) -> bool {
    match k {
        CharClass::Space => white_space(c),
        CharClass::Word => word_char(c),
        CharClass::Plain => c != '(' && c != ')',
        CharClass::NameChar => word_char(c) || c == '.',
        CharClass::Bare => c != ',' && !white_space(c),
        CharClass::Digit => decimal_number(c),
        CharClass::Not(q) => c != q,
    }
}

/// The end of the longest run of class `k` that starts at `i`.
pub open spec fn run_end(s: Seq<char>, i: int, k: CharClass) -> int
    decreases s.len() - i,
{
    if 0 <= i < s.len() && in_class(s[i], k) {
        run_end(s, i + 1, k)
    } else {
        i
    }
}

pub proof fn lemma_run_end_bounds(s: Seq<char>, i: int, k: CharClass)
    ensures
        i <= run_end(s, i, k),
        0 <= i <= s.len() ==> run_end(s, i, k) <= s.len(),
        forall|j: int| i <= j < run_end(s, i, k) ==> in_class(#[trigger] s[j], k),
        run_end(s, i, k) < s.len() && 0 <= i ==> !in_class(s[run_end(s, i, k)], k),
    decreases s.len() - i,
{
    if 0 <= i < s.len() && in_class(s[i], k) {
        lemma_run_end_bounds(s, i + 1, k);
    }
}

/// `lit` occurs in `s` at position `p`.
pub open spec fn has_at(s: Seq<char>, p: int, lit: Seq<char>) -> bool {
    0 <= p && p + lit.len() <= s.len() && s.subrange(p, p + lit.len()) == lit
}

/// The end of the longest text from `i` made of parenthesis-free runs and
/// parenthesized groups without nested parentheses.
pub open spec fn balanced_end(s: Seq<char>, i: int) -> int
    decreases s.len() - i,
{
    if i < 0 || i > s.len() {
        i
    } else {
        let j = run_end(s, i, CharClass::Plain);
        proof {
            lemma_run_end_bounds(s, i, CharClass::Plain);
            lemma_run_end_bounds(s, j + 1, CharClass::Plain);
        }
        if j < s.len() && s[j] == '(' {
            let k = run_end(s, j + 1, CharClass::Plain);
            if k < s.len() && s[k] == ')' {
                balanced_end(s, k + 1)
            } else {
                j
            }
        } else {
            j
        }
    }
}

pub proof fn lemma_balanced_end_bounds(s: Seq<char>, i: int)
    requires
        0 <= i <= s.len(),
    ensures
        i <= balanced_end(s, i) <= s.len(),
    decreases s.len() - i,
{
    let j = run_end(s, i, CharClass::Plain);
    lemma_run_end_bounds(s, i, CharClass::Plain);
    if j < s.len() && s[j] == '(' {
        let k = run_end(s, j + 1, CharClass::Plain);
        lemma_run_end_bounds(s, j + 1, CharClass::Plain);
        if k < s.len() && s[k] == ')' {
            lemma_balanced_end_bounds(s, k + 1);
        }
    }
}

/// A parenthesized block that opens at `d`: the start and end of what it
/// holds, leading white space left out. It closes at the end position.
pub open spec fn paren_block(s: Seq<char>, d: int) -> Option<(int, int)> {
    let e = run_end(s, d + 1, CharClass::Space);
    let f = balanced_end(s, e);
    if 0 <= d < s.len() && s[d] == '(' && 0 <= f < s.len() && s[f] == ')' {
        Some((e, f))
    } else {
        None
    }
}

/// One `name = value` option at position `p`: name start and end, value
/// start and end, end of the option. A value is a double-quoted text, a
/// single-quoted text, or a run of characters other than commas and white
/// space.
pub open spec fn option_at(s: Seq<char>, p: int) -> Option<(int, int, int, int, int)> {
    let n = run_end(s, p, CharClass::NameChar);
    let q = run_end(s, n, CharClass::Space);
    let v = run_end(s, q + 1, CharClass::Space);
    let dq = run_end(s, v + 1, CharClass::Not('"'));
    let sq = run_end(s, v + 1, CharClass::Not('\''));
    let bare = run_end(s, v, CharClass::Bare);
    if !(0 <= p < s.len()) || n == p || !(q < s.len() && s[q] == '=') {
        None
    } else if v < s.len() && s[v] == '"' && dq < s.len() {
        Some((p, n, v + 1, dq, dq + 1))
    } else if v < s.len() && s[v] == '\'' && sq < s.len() {
        Some((p, n, v + 1, sq, sq + 1))
    } else if bare == v {
        None
    } else {
        Some((p, n, v, bare, bare))
    }
}

/// The first position from `i` on where an option starts, or the length of
/// `s` when there is none.
pub open spec fn next_option(s: Seq<char>, i: int) -> int
    decreases s.len() - i,
{
    if i < 0 || i >= s.len() {
        s.len() as int
    } else if option_at(s, i) is Some {
        i
    } else {
        next_option(s, i + 1)
    }
}

pub proof fn lemma_option_end(s: Seq<char>, p: int)
    requires
        option_at(s, p) is Some,
    ensures
        ({
            let (ns, ne, vs, ve, end) = option_at(s, p)->0;
            &&& 0 <= p == ns < ne <= s.len()
            &&& ne < vs <= ve <= end <= s.len()
        }),
{
    let n = run_end(s, p, CharClass::NameChar);
    lemma_run_end_bounds(s, p, CharClass::NameChar);
    let q = run_end(s, n, CharClass::Space);
    lemma_run_end_bounds(s, n, CharClass::Space);
    let v = run_end(s, q + 1, CharClass::Space);
    lemma_run_end_bounds(s, q + 1, CharClass::Space);
    lemma_run_end_bounds(s, v + 1, CharClass::Not('"'));
    lemma_run_end_bounds(s, v + 1, CharClass::Not('\''));
    lemma_run_end_bounds(s, v, CharClass::Bare);
}

pub proof fn lemma_next_option_bounds(s: Seq<char>, i: int)
    requires
        0 <= i,
    ensures
        i <= next_option(s, i) || i > s.len(),
        next_option(s, i) <= s.len(),
        next_option(s, i) < s.len() ==> option_at(s, next_option(s, i)) is Some,
    decreases s.len() - i,
{
    if i < s.len() && option_at(s, i) is None {
        lemma_next_option_bounds(s, i + 1);
    }
}

/// The options of a block, in order, from position `i` on.
pub open spec fn options_from(s: Seq<char>, i: int) -> Seq<(Seq<char>, Seq<char>)>
    decreases s.len() - i,
{
    let p = next_option(s, i);
    if i < 0 || p >= s.len() {
        seq![]
    } else {
        let (ns, ne, vs, ve, end) = option_at(s, p)->0;
        proof {
            lemma_next_option_bounds(s, i);
            lemma_option_end(s, p);
        }
        seq![(s.subrange(ns, ne), s.subrange(vs, ve))] + options_from(s, end)
    }
}

/// The options written in a block's text.
pub open spec fn options_of(t: Seq<char>) -> Seq<(Seq<char>, Seq<char>)> {
    options_from(t, 0)
}

/// The value of the first option called `name`.
pub open spec fn option_value(opts: Seq<(Seq<char>, Seq<char>)>, name: Seq<char>) -> Option<Seq<char>>
    decreases opts.len(),
{
    if opts.len() == 0 {
        None
    } else if opts[0].0 == name {
        Some(opts[0].1)
    } else {
        option_value(opts.drop_first(), name)
    }
}

/// The texts of a list of string pairs.
pub open spec fn pairs_view(v: Seq<(String, String)>) -> Seq<(Seq<char>, Seq<char>)> {
    v.map_values(|p: (String, String)| (p.0@, p.1@))
}

fn has_class(c: char, k: CharClass) -> (b: bool)
    ensures
        b == in_class(c, k),
{
    match k {
        CharClass::Space => is_white_space(c),
        CharClass::Word => is_word_char(c),
        CharClass::Plain => c != '(' && c != ')',
        CharClass::NameChar => c == '.' || is_word_char(c),
        CharClass::Bare => c != ',' && !is_white_space(c),
        CharClass::Digit => is_decimal_number(c),
        CharClass::Not(q) => c != q,
    }
}

/// The end of the longest run of class `k` from `i`.
fn scan(cs: &Vec<char>, i: usize, k: CharClass) -> (j: usize)
    requires
        i <= cs@.len(),
    ensures
        j == run_end(cs@, i as int, k),
        i <= j <= cs@.len(),
{
    let mut j = i;
    while j < cs.len() && has_class(cs[j], k)
        invariant
            i <= j <= cs@.len(),
            run_end(cs@, i as int, k) == run_end(cs@, j as int, k),
        decreases cs.len() - j,
    {
        j = j + 1;
    }
    j
}

/// Whether `lit` occurs in `cs` at `p`.
pub(crate) fn occurs_at(cs: &Vec<char>, p: usize, lit: &Vec<char>) -> (b: bool)
    ensures
        b == has_at(cs@, p as int, lit@),
{
    let n = cs.len();
    if p > n || lit.len() > n - p {
        return false;
    }
    let mut k: usize = 0;
    while k < lit.len()
        invariant
            n == cs@.len(),
            p + lit@.len() <= n,
            0 <= k <= lit@.len(),
            forall|m: int| 0 <= m < k ==> cs@[p + m] == lit@[m],
        decreases lit.len() - k,
    {
        assert(p + k < cs@.len());
        if cs[p + k] != lit[k] {
            assert(cs@.subrange(p as int, p + lit@.len())[k as int] != lit@[k as int]);
            return false;
        }
        k = k + 1;
    }
    assert(cs@.subrange(p as int, p + lit@.len()) =~= lit@);
    true
}

/// The end of the balanced text from `i`.
fn scan_balanced(cs: &Vec<char>, i: usize) -> (j: usize)
    requires
        i <= cs@.len(),
    ensures
        j == balanced_end(cs@, i as int),
        i <= j <= cs@.len(),
    decreases cs@.len() - i,
{
    proof {
        lemma_balanced_end_bounds(cs@, i as int);
    }
    let j = scan(cs, i, CharClass::Plain);
    if j < cs.len() && cs[j] == '(' {
        let k = scan(cs, j + 1, CharClass::Plain);
        if k < cs.len() && cs[k] == ')' {
            scan_balanced(cs, k + 1)
        } else {
            j
        }
    } else {
        j
    }
}

/// The parenthesized block opening at `d`.
fn scan_paren_block(cs: &Vec<char>, d: usize) -> (r: Option<(usize, usize)>)
    requires
        d <= cs@.len(),
    ensures
        match paren_block(cs@, d as int) {
            Some((e, f)) => r == Some((e as usize, f as usize)) && d < e <= f < cs@.len(),
            None => r is None,
        },
{
    if d >= cs.len() || cs[d] != '(' {
        return None;
    }
    let e = scan(cs, d + 1, CharClass::Space);
    let f = scan_balanced(cs, e);
    if f < cs.len() && cs[f] == ')' {
        Some((e, f))
    } else {
        None
    }
}

/// The option at `p`.
fn scan_option(cs: &Vec<char>, p: usize) -> (r: Option<(usize, usize, usize, usize, usize)>)
    requires
        p <= cs@.len(),
    ensures
        match option_at(cs@, p as int) {
            Some((a, b, c, d, e)) => r == Some((a as usize, b as usize, c as usize, d as usize, e as usize)),
            None => r is None,
        },
{
    proof {
        if option_at(cs@, p as int) is Some {
            lemma_option_end(cs@, p as int);
        }
    }
    if p >= cs.len() {
        return None;
    }
    let n = scan(cs, p, CharClass::NameChar);
    if n == p {
        return None;
    }
    let q = scan(cs, n, CharClass::Space);
    if !(q < cs.len() && cs[q] == '=') {
        return None;
    }
    let v = scan(cs, q + 1, CharClass::Space);
    if v < cs.len() && cs[v] == '"' {
        let dq = scan(cs, v + 1, CharClass::Not('"'));
        if dq < cs.len() {
            return Some((p, n, v + 1, dq, dq + 1));
        }
    }
    if v < cs.len() && cs[v] == '\'' {
        let sq = scan(cs, v + 1, CharClass::Not('\''));
        if sq < cs.len() {
            return Some((p, n, v + 1, sq, sq + 1));
        }
    }
    let bare = scan(cs, v, CharClass::Bare);
    if bare == v {
        None
    } else {
        Some((p, n, v, bare, bare))
    }
}

/// The characters `cs[a..b]` as a string.
fn slice_string(cs: &Vec<char>, a: usize, b: usize) -> (r: String)
    requires
        a <= b <= cs@.len(),
    ensures
        r@ == cs@.subrange(a as int, b as int),
{
    let mut v: Vec<char> = Vec::new();
    let mut k = a;
    while k < b
        invariant
            a <= k <= b <= cs@.len(),
            v@ == cs@.subrange(a as int, k as int),
        decreases b - k,
    {
        v.push(cs[k]);
        proof {
            assert(cs@.subrange(a as int, k as int + 1) =~= cs@.subrange(a as int, k as int).push(cs@[k as int]));
        }
        k = k + 1;
    }
    string_from_chars(&v)
}

/// The first option from `i` on.
fn find_option(cs: &Vec<char>, i: usize) -> (r: (usize, Option<(usize, usize, usize, usize, usize)>))
    requires
        i <= cs@.len(),
    ensures
        r.0 == next_option(cs@, i as int),
        i <= r.0 <= cs@.len(),
        r.0 < cs@.len() ==> match option_at(cs@, r.0 as int) {
            Some((a, b, c, d, e)) => r.1 == Some((a as usize, b as usize, c as usize, d as usize, e as usize)),
            None => false,
        },
{
    let mut p = i;
    while p < cs.len()
        invariant
            i <= p <= cs@.len(),
            next_option(cs@, i as int) == next_option(cs@, p as int),
        decreases cs.len() - p,
    {
        let m = scan_option(cs, p);
        if m.is_some() {
            return (p, m);
        }
        p = p + 1;
    }
    (p, None)
}

/// The options in a block's text, in order.
fn parse_options(cs: &Vec<char>) -> (opts: Vec<(String, String)>)
    ensures
        pairs_view(opts@) == options_of(cs@),
{
    let mut opts: Vec<(String, String)> = Vec::new();
    let mut i: usize = 0;
    while i < cs.len()
        invariant
            0 <= i <= cs@.len(),
            options_of(cs@) == pairs_view(opts@) + options_from(cs@, i as int),
        decreases cs.len() - i,
    {
        let ghost i0 = i as int;
        let (p, found) = find_option(cs, i);
        if p >= cs.len() {
            assert(options_from(cs@, i0) =~= seq![]);
            i = cs.len();
            proof {
                assert(pairs_view(opts@) + seq![] =~= pairs_view(opts@));
                assert(options_from(cs@, cs@.len() as int) =~= seq![]);
            }
        } else {
            let (ns, ne, vs, ve, end) = found.unwrap();
            proof {
                lemma_option_end(cs@, p as int);
            }
            let name = slice_string(cs, ns, ne);
            let value = slice_string(cs, vs, ve);
            let ghost before = opts@;
            opts.push((name, value));
            proof {
                assert(pairs_view(opts@) =~= pairs_view(before).push((cs@.subrange(ns as int, ne as int), cs@.subrange(vs as int, ve as int))));
                assert(pairs_view(opts@) + options_from(cs@, end as int) =~= pairs_view(before) + options_from(cs@, i0));
            }
            i = end;
        }
    }
    proof {
        assert(options_from(cs@, i as int) =~= seq![]);
        assert(pairs_view(opts@) + seq![] =~= pairs_view(opts@));
    }
    opts
}

/// The four constructs of the extended syntax.
#[derive(Clone, Copy)]
pub enum Construct {
    Source,
    Sink,
    Window,
    Watermark,
}

/// The keyword that opens a construct.
pub open spec fn keyword(k: Construct) -> Seq<char> {
    match k {
        Construct::Source => seq!['f', 'r', 'o', 'm'],
        Construct::Sink => seq!['i', 'n', 't', 'o'],
        Construct::Window => seq!['w', 'i', 'n', 'd', 'o', 'w'],
        Construct::Watermark => seq!['w', 'a', 't', 'e', 'r', 'm', 'a', 'r', 'k'],
    }
}

/// `kw`, white space, a word, optional white space and a closed
/// parenthesized block at `p`: the word's start and end, and the block's
/// content start and end (the block closes at the content end).
pub open spec fn named_block_at(s: Seq<char>, p: int, kw: Seq<char>) -> Option<(int, int, int, int)> {
    let a = p + kw.len();
    let b = run_end(s, a, CharClass::Space);
    let c = run_end(s, b, CharClass::Word);
    let d = run_end(s, c, CharClass::Space);
    if has_at(s, p, kw) && b > a && c > b {
        match paren_block(s, d) {
            Some((e, f)) => Some((b, c, e, f)),
            None => None,
        }
    } else {
        None
    }
}

/// `as` and a word after white space at `g`: the word's start and end.
pub open spec fn alias_at(s: Seq<char>, g: int) -> Option<(int, int)> {
    let h = run_end(s, g, CharClass::Space);
    let k = run_end(s, h + 2, CharClass::Space);
    let m = run_end(s, k, CharClass::Word);
    if h > g && has_at(s, h, seq!['a', 's']) && k > h + 2 && m > k {
        Some((k, m))
    } else {
        None
    }
}

/// An occurrence of construct `k` at `p`: its word (empty for a watermark),
/// the content of its block, and its end.
/// - source: `from` word `(`...`)`, then optionally `as` word;
/// - sink: `into` word `(`...`)`;
/// - window: `window` word `(`...`)` and the `(` that follows;
/// - watermark: `watermark` `(`...`)`.
pub open spec fn construct_at(s: Seq<char>, p: int, k: Construct) -> Option<(int, int, int, int, int)> {
    match k {
        Construct::Watermark => {
            let d = run_end(s, p + 9, CharClass::Space);
            if has_at(s, p, keyword(k)) {
                match paren_block(s, d) {
                    Some((e, f)) => Some((p, p, e, f, f + 1)),
                    None => None,
                }
            } else {
                None
            }
        },
        _ => match named_block_at(s, p, keyword(k)) {
            None => None,
            Some((b, c, e, f)) => match k {
                Construct::Source => Some((b, c, e, f, match alias_at(s, f + 1) {
                    Some((x, m)) => m,
                    None => f + 1,
                })),
                Construct::Window => {
                    let h = run_end(s, f + 1, CharClass::Space);
                    if h < s.len() && s[h] == '(' {
                        Some((b, c, e, f, h + 1))
                    } else {
                        None
                    }
                },
                _ => Some((b, c, e, f, f + 1)),
            },
        },
    }
}

/// The first position from `i` on where construct `k` occurs, or the length
/// of `s` when there is none.
pub open spec fn next_construct(s: Seq<char>, i: int, k: Construct) -> int
    decreases s.len() - i,
{
    if i < 0 || i >= s.len() {
        s.len() as int
    } else if construct_at(s, i, k) is Some {
        i
    } else {
        next_construct(s, i + 1, k)
    }
}

pub proof fn lemma_construct_bounds(s: Seq<char>, p: int, k: Construct)
    requires
        construct_at(s, p, k) is Some,
    ensures
        ({
            let (b, c, e, f, end) = construct_at(s, p, k)->0;
            &&& 0 <= p <= b <= c <= e <= f < end <= s.len()
        }),
{
    let kw = keyword(k);
    if let Construct::Watermark = k {
        let d = run_end(s, p + 9, CharClass::Space);
        lemma_run_end_bounds(s, p + 9, CharClass::Space);
        let e = run_end(s, d + 1, CharClass::Space);
        lemma_run_end_bounds(s, d + 1, CharClass::Space);
        lemma_balanced_end_bounds(s, e);
    } else {
        let a = p + kw.len();
        let b = run_end(s, a, CharClass::Space);
        lemma_run_end_bounds(s, a, CharClass::Space);
        let c = run_end(s, b, CharClass::Word);
        lemma_run_end_bounds(s, b, CharClass::Word);
        let d = run_end(s, c, CharClass::Space);
        lemma_run_end_bounds(s, c, CharClass::Space);
        let e = run_end(s, d + 1, CharClass::Space);
        lemma_run_end_bounds(s, d + 1, CharClass::Space);
        lemma_balanced_end_bounds(s, e);
        let f = balanced_end(s, e);
        lemma_run_end_bounds(s, f + 1, CharClass::Space);
        let h = run_end(s, f + 1, CharClass::Space);
        lemma_run_end_bounds(s, h + 2, CharClass::Space);
        let kk = run_end(s, h + 2, CharClass::Space);
        lemma_run_end_bounds(s, kk, CharClass::Word);
    }
}

pub proof fn lemma_next_construct_bounds(s: Seq<char>, i: int, k: Construct)
    requires
        0 <= i,
    ensures
        i <= next_construct(s, i, k) || i > s.len(),
        next_construct(s, i, k) <= s.len(),
        next_construct(s, i, k) < s.len() ==> construct_at(s, next_construct(s, i, k), k) is Some,
    decreases s.len() - i,
{
    if i < s.len() && construct_at(s, i, k) is None {
        lemma_next_construct_bounds(s, i + 1, k);
    }
}

/// The connector names that the syntax knows.
pub open spec fn is_connector_name(t: Seq<char>) -> bool {
    ||| t == seq!['k', 'a', 'f', 'k', 'a']
    ||| t == seq!['f', 'i', 'l', 'e']
    ||| t == seq!['j', 'd', 'b', 'c']
    ||| t == seq!['h', 't', 't', 'p']
}

/// A connector: its type, its options, its alias, whether it is a source.
pub type ConnectorView = (Seq<char>, Seq<(Seq<char>, Seq<char>)>, Option<Seq<char>>, bool);

/// The source connectors of `s` from `i` on: the text with each known
/// source replaced by `from` and its table (the alias, or the type and
/// `_source`), and the connectors, in order. Unknown types stay as written.
pub open spec fn source_pass(s: Seq<char>, i: int) -> (Seq<char>, Seq<ConnectorView>)
    decreases s.len() - i,
{
    let p = next_construct(s, i, Construct::Source);
    if i < 0 || i > s.len() {
        (seq![], seq![])
    } else if p >= s.len() {
        (s.subrange(i, s.len() as int), seq![])
    } else {
        let (b, c, e, f, end) = construct_at(s, p, Construct::Source)->0;
        proof {
            lemma_next_construct_bounds(s, i, Construct::Source);
            lemma_construct_bounds(s, p, Construct::Source);
        }
        let ty = lowercase(s.subrange(b, c));
        let alias = match alias_at(s, f + 1) {
            Some((x, m)) => Some(s.subrange(x, m)),
            None => None,
        };
        let rest = source_pass(s, end);
        if is_connector_name(ty) {
            let table = match alias {
                Some(t) => t,
                None => ty + seq!['_', 's', 'o', 'u', 'r', 'c', 'e'],
            };
            (
                s.subrange(i, p) + seq!['f', 'r', 'o', 'm', ' '] + table + rest.0,
                seq![(ty, options_of(s.subrange(e, f)), alias, true)] + rest.1,
            )
        } else {
            (s.subrange(i, end) + rest.0, rest.1)
        }
    }
}

/// The sink connectors of `s` from `i` on: the text with each known sink
/// removed, and the connectors, in order.
pub open spec fn sink_pass(s: Seq<char>, i: int) -> (Seq<char>, Seq<ConnectorView>)
    decreases s.len() - i,
{
    let p = next_construct(s, i, Construct::Sink);
    if i < 0 || i > s.len() {
        (seq![], seq![])
    } else if p >= s.len() {
        (s.subrange(i, s.len() as int), seq![])
    } else {
        let (b, c, e, f, end) = construct_at(s, p, Construct::Sink)->0;
        proof {
            lemma_next_construct_bounds(s, i, Construct::Sink);
            lemma_construct_bounds(s, p, Construct::Sink);
        }
        let ty = lowercase(s.subrange(b, c));
        let rest = sink_pass(s, end);
        if is_connector_name(ty) {
            (s.subrange(i, p) + rest.0, seq![(ty, options_of(s.subrange(e, f)), None, false)] + rest.1)
        } else {
            (s.subrange(i, end) + rest.0, rest.1)
        }
    }
}

/// The windows of `s` from `i` on: the text with each window written as
/// `window` type size `(`, the size being the `size` option or `5m`, and the
/// windows (type and options), in order.
pub open spec fn window_pass(s: Seq<char>, i: int) -> (Seq<char>, Seq<(Seq<char>, Seq<(Seq<char>, Seq<char>)>)>)
    decreases s.len() - i,
{
    let p = next_construct(s, i, Construct::Window);
    if i < 0 || i > s.len() {
        (seq![], seq![])
    } else if p >= s.len() {
        (s.subrange(i, s.len() as int), seq![])
    } else {
        let (b, c, e, f, end) = construct_at(s, p, Construct::Window)->0;
        proof {
            lemma_next_construct_bounds(s, i, Construct::Window);
            lemma_construct_bounds(s, p, Construct::Window);
        }
        let ty = lowercase(s.subrange(b, c));
        let opts = options_of(s.subrange(e, f));
        let size = match option_value(opts, seq!['s', 'i', 'z', 'e']) {
            Some(v) => v,
            None => seq!['5', 'm'],
        };
        let rest = window_pass(s, end);
        (
            s.subrange(i, p) + seq!['w', 'i', 'n', 'd', 'o', 'w', ' '] + ty + seq![' '] + size + seq![' ', '('] + rest.0,
            seq![(ty, opts)] + rest.1,
        )
    }
}

/// Appends the characters `cs[a..b]` to `out`.
pub(crate) fn push_range(out: &mut Vec<char>, cs: &Vec<char>, a: usize, b: usize)
    requires
        a <= b <= cs@.len(),
    ensures
        final(out)@ == old(out)@ + cs@.subrange(a as int, b as int),
{
    let ghost start = out@;
    let mut k = a;
    while k < b
        invariant
            a <= k <= b <= cs@.len(),
            out@ == start + cs@.subrange(a as int, k as int),
        decreases b - k,
    {
        out.push(cs[k]);
        proof {
            assert(cs@.subrange(a as int, k as int + 1) =~= cs@.subrange(a as int, k as int).push(cs@[k as int]));
        }
        k = k + 1;
    }
}

/// Appends the characters of `t` to `out`.
pub(crate) fn push_all(out: &mut Vec<char>, t: &Vec<char>)
    ensures
        final(out)@ == old(out)@ + t@,
{
    push_range(out, t, 0, t.len());
    assert(t@.subrange(0, t@.len() as int) =~= t@);
}

/// The characters of a keyword.
fn keyword_chars(k: Construct) -> (v: Vec<char>)
    ensures
        v@ == keyword(k),
{
    match k {
        Construct::Source => {
            let v = chars_of("from");
            proof { reveal_strlit("from"); }
            v
        },
        Construct::Sink => {
            let v = chars_of("into");
            proof { reveal_strlit("into"); }
            v
        },
        Construct::Window => {
            let v = chars_of("window");
            proof { reveal_strlit("window"); }
            v
        },
        Construct::Watermark => {
            let v = chars_of("watermark");
            proof { reveal_strlit("watermark"); }
            v
        },
    }
}

/// The block of `kw` at `p`.
fn scan_named_block(cs: &Vec<char>, p: usize, kw: &Vec<char>) -> (r: Option<(usize, usize, usize, usize)>)
    requires
        p <= cs@.len(),
        kw@.len() <= 9,
    ensures
        match named_block_at(cs@, p as int, kw@) {
            Some((b, c, e, f)) => r == Some((b as usize, c as usize, e as usize, f as usize)),
            None => r is None,
        },
{
    let n = cs.len();
    if !occurs_at(cs, p, kw) {
        return None;
    }
    assert(p + kw@.len() <= n);
    let a = p + kw.len();
    let b = scan(cs, a, CharClass::Space);
    if b == a {
        return None;
    }
    let c = scan(cs, b, CharClass::Word);
    if c == b {
        return None;
    }
    let d = scan(cs, c, CharClass::Space);
    match scan_paren_block(cs, d) {
        Some((e, f)) => Some((b, c, e, f)),
        None => None,
    }
}

/// The alias after a source block that closes before `g`.
fn scan_alias(cs: &Vec<char>, g: usize) -> (r: Option<(usize, usize)>)
    requires
        g <= cs@.len(),
    ensures
        match alias_at(cs@, g as int) {
            Some((x, m)) => r == Some((x as usize, m as usize)),
            None => r is None,
        },
{
    let h = scan(cs, g, CharClass::Space);
    if h == g {
        return None;
    }
    let mut kw: Vec<char> = Vec::new();
    kw.push('a');
    kw.push('s');
    assert(kw@ =~= seq!['a', 's']);
    let n = cs.len();
    if !occurs_at(cs, h, &kw) {
        return None;
    }
    assert(h + 2 <= n);
    let k = scan(cs, h + 2, CharClass::Space);
    if k == h + 2 {
        return None;
    }
    let m = scan(cs, k, CharClass::Word);
    if m == k {
        None
    } else {
        Some((k, m))
    }
}

/// The occurrence of construct `k` at `p`.
fn scan_construct(cs: &Vec<char>, p: usize, k: Construct) -> (r: Option<(usize, usize, usize, usize, usize)>)
    requires
        p <= cs@.len(),
    ensures
        match construct_at(cs@, p as int, k) {
            Some((a, b, c, d, e)) => r == Some((a as usize, b as usize, c as usize, d as usize, e as usize)),
            None => r is None,
        },
{
    proof {
        if construct_at(cs@, p as int, k) is Some {
            lemma_construct_bounds(cs@, p as int, k);
        }
    }
    let n = cs.len();
    let kw = keyword_chars(k);
    match k {
        Construct::Watermark => {
            if !occurs_at(cs, p, &kw) {
                return None;
            }
            assert(p + 9 <= n);
            let d = scan(cs, p + 9, CharClass::Space);
            match scan_paren_block(cs, d) {
                Some((e, f)) => Some((p, p, e, f, f + 1)),
                None => None,
            }
        },
        _ => match scan_named_block(cs, p, &kw) {
            None => None,
            Some((b, c, e, f)) => match k {
                Construct::Source => {
                    assert(f < n);
                    let end = match scan_alias(cs, f + 1) {
                        Some((x, m)) => m,
                        None => f + 1,
                    };
                    Some((b, c, e, f, end))
                },
                Construct::Window => {
                    assert(f < n);
                    let h = scan(cs, f + 1, CharClass::Space);
                    if h < cs.len() && cs[h] == '(' {
                        Some((b, c, e, f, h + 1))
                    } else {
                        None
                    }
                },
                _ => {
                    assert(f < n);
                    Some((b, c, e, f, f + 1))
                },
            },
        },
    }
}

/// The first occurrence of construct `k` from `i` on.
fn find_construct(cs: &Vec<char>, i: usize, k: Construct) -> (r: (usize, Option<(usize, usize, usize, usize, usize)>))
    requires
        i <= cs@.len(),
    ensures
        r.0 == next_construct(cs@, i as int, k),
        i <= r.0 <= cs@.len(),
        r.0 < cs@.len() ==> match construct_at(cs@, r.0 as int, k) {
            Some((a, b, c, d, e)) => r.1 == Some((a as usize, b as usize, c as usize, d as usize, e as usize)),
            None => false,
        },
{
    let mut p = i;
    while p < cs.len()
        invariant
            i <= p <= cs@.len(),
            next_construct(cs@, i as int, k) == next_construct(cs@, p as int, k),
        decreases cs.len() - p,
    {
        let m = scan_construct(cs, p, k);
        if m.is_some() {
            return (p, m);
        }
        p = p + 1;
    }
    (p, None)
}

/// A connector taken out of a query.
#[derive(Debug, Clone)]
pub struct ConnectorConfig {
    /// The connector's type, in lower case (`kafka`, `file`, `jdbc`, `http`).
    pub connector_type: String,
    /// The options written in its block, in order.
    pub options: Vec<(String, String)>,
    /// The table name given with `as`, for a source.
    pub alias: Option<String>,
    /// Whether it reads (`from`) rather than writes (`into`).
    pub is_source: bool,
}

/// A window taken out of a query.
#[derive(Debug, Clone)]
pub struct WindowConfig {
    /// The window's type, in lower case.
    pub window_type: String,
    /// The options written in its block, in order.
    pub options: Vec<(String, String)>,
}

/// A watermark taken out of a query.
#[derive(Debug, Clone)]
pub struct WatermarkConfig {
    /// The event-time field.
    pub field: String,
    /// The delay as written, such as `5s`.
    pub delay: String,
}

pub open spec fn connector_view(c: ConnectorConfig) -> ConnectorView {
    (
        c.connector_type@,
        pairs_view(c.options@),
        match c.alias {
            Some(a) => Some(a@),
            None => None,
        },
        c.is_source,
    )
}

pub open spec fn connectors_view(v: Seq<ConnectorConfig>) -> Seq<ConnectorView> {
    v.map_values(|c: ConnectorConfig| connector_view(c))
}

pub open spec fn windows_view(v: Seq<WindowConfig>) -> Seq<(Seq<char>, Seq<(Seq<char>, Seq<char>)>)> {
    v.map_values(|w: WindowConfig| (w.window_type@, pairs_view(w.options@)))
}

/// Whether a connector type is one that the syntax knows.
pub fn is_connector_type(connector_type: &str) -> (b: bool)
    ensures
        b == is_connector_name(connector_type@),
{
    proof {
        reveal_strlit("kafka");
        reveal_strlit("file");
        reveal_strlit("jdbc");
        reveal_strlit("http");
        assert("kafka"@ =~= seq!['k', 'a', 'f', 'k', 'a']);
        assert("file"@ =~= seq!['f', 'i', 'l', 'e']);
        assert("jdbc"@ =~= seq!['j', 'd', 'b', 'c']);
        assert("http"@ =~= seq!['h', 't', 't', 'p']);
    }
    crate::strmap::str_eq(connector_type, "kafka") || crate::strmap::str_eq(connector_type, "file")
        || crate::strmap::str_eq(connector_type, "jdbc") || crate::strmap::str_eq(connector_type, "http")
}

/// The characters `cs[a..b]`.
fn slice_chars(cs: &Vec<char>, a: usize, b: usize) -> (r: Vec<char>)
    requires
        a <= b <= cs@.len(),
    ensures
        r@ == cs@.subrange(a as int, b as int),
{
    let mut r: Vec<char> = Vec::new();
    push_range(&mut r, cs, a, b);
    r
}

/// The lower-case text of `cs[a..b]`.
fn lower_slice(cs: &Vec<char>, a: usize, b: usize) -> (r: String)
    requires
        a <= b <= cs@.len(),
    ensures
        r@ == lowercase(cs@.subrange(a as int, b as int)),
{
    let t = slice_string(cs, a, b);
    to_lowercase(t.as_str())
}

/// One step of the source rewrite: the text up to and including the next
/// source connector from `i`, or the rest of the text when there is none.
fn source_step(cs: &Vec<char>, i: usize, out: &mut Vec<char>, connectors: &mut Vec<ConnectorConfig>) -> (next: usize)
    requires
        i < cs@.len(),
    ensures
        i < next <= cs@.len(),
        final(out)@ + source_pass(cs@, next as int).0 == old(out)@ + source_pass(cs@, i as int).0,
        connectors_view(final(connectors)@) + source_pass(cs@, next as int).1
            == connectors_view(old(connectors)@) + source_pass(cs@, i as int).1,
{
    let ghost before = connectors_view(connectors@);
    let ghost out0 = out@;
    let (p, found) = find_construct(cs, i, Construct::Source);
    if p >= cs.len() {
        push_range(out, cs, i, cs.len());
        proof {
            assert(source_pass(cs@, cs@.len() as int).0 =~= seq![]);
            assert(source_pass(cs@, cs@.len() as int).1 =~= seq![]);
            assert(out@ + seq![] =~= out@);
            assert(connectors_view(connectors@) + seq![] =~= connectors_view(connectors@));
        }
        return cs.len();
    }
    let (b, c, e, f, end) = found.unwrap();
    proof {
        lemma_construct_bounds(cs@, p as int, Construct::Source);
    }
    let ty = lower_slice(cs, b, c);
    if is_connector_type(ty.as_str()) {
        let content = slice_chars(cs, e, f);
        let options = parse_options(&content);
        let alias = match scan_alias(cs, f + 1) {
            Some((x, m)) => Some(slice_string(cs, x, m)),
            None => None,
        };
        push_range(out, cs, i, p);
        let from_kw = keyword_chars(Construct::Source);
        push_all(out, &from_kw);
        out.push(' ');
        match &alias {
            Some(t) => {
                let tc = chars_of(t.as_str());
                push_all(out, &tc);
            },
            None => {
                let tc = chars_of(ty.as_str());
                push_all(out, &tc);
                let sfx = chars_of("_source");
                proof { reveal_strlit("_source"); }
                push_all(out, &sfx);
            },
        }
        proof {
            let table = match alias_at(cs@, f + 1) {
                Some((x, m)) => cs@.subrange(x, m),
                None => lowercase(cs@.subrange(b as int, c as int)) + seq!['_', 's', 'o', 'u', 'r', 'c', 'e'],
            };
            assert(out@ =~= out0 + cs@.subrange(i as int, p as int) + seq!['f', 'r', 'o', 'm', ' '] + table);
        }
        connectors.push(ConnectorConfig { connector_type: ty, options, alias, is_source: true });
        proof {
            assert(connectors_view(connectors@) =~= before.push(connector_view(connectors@.last())));
        }
    } else {
        push_range(out, cs, i, end);
    }
    proof {
        let rest = source_pass(cs@, end as int);
        assert(out@ + rest.0 =~= out0 + source_pass(cs@, i as int).0);
        assert(connectors_view(connectors@) + rest.1 =~= before + source_pass(cs@, i as int).1);
    }
    end
}

/// Rewrites the source connectors of a query and collects them.
fn parse_source_connectors(cs: &Vec<char>, connectors: &mut Vec<ConnectorConfig>) -> (out: Vec<char>)
    ensures
        out@ == source_pass(cs@, 0).0,
        connectors_view(final(connectors)@) == connectors_view(old(connectors)@) + source_pass(cs@, 0).1,
{
    let mut out: Vec<char> = Vec::new();
    let mut i: usize = 0;
    let ghost start = connectors_view(connectors@);
    assert(out@ + source_pass(cs@, 0).0 =~= source_pass(cs@, 0).0);
    while i < cs.len()
        invariant
            0 <= i <= cs@.len(),
            out@ + source_pass(cs@, i as int).0 == source_pass(cs@, 0).0,
            connectors_view(connectors@) + source_pass(cs@, i as int).1 == start + source_pass(cs@, 0).1,
        decreases cs.len() - i,
    {
        i = source_step(cs, i, &mut out, connectors);
    }
    proof {
        assert(source_pass(cs@, i as int).0 =~= seq![]);
        assert(source_pass(cs@, i as int).1 =~= seq![]);
        assert(out@ + seq![] =~= out@);
        assert(connectors_view(connectors@) + seq![] =~= connectors_view(connectors@));
    }
    out
}

/// One step of the sink rewrite.
fn sink_step(cs: &Vec<char>, i: usize, out: &mut Vec<char>, connectors: &mut Vec<ConnectorConfig>) -> (next: usize)
    requires
        i < cs@.len(),
    ensures
        i < next <= cs@.len(),
        final(out)@ + sink_pass(cs@, next as int).0 == old(out)@ + sink_pass(cs@, i as int).0,
        connectors_view(final(connectors)@) + sink_pass(cs@, next as int).1
            == connectors_view(old(connectors)@) + sink_pass(cs@, i as int).1,
{
    let ghost before = connectors_view(connectors@);
    let ghost out0 = out@;
    let (p, found) = find_construct(cs, i, Construct::Sink);
    if p >= cs.len() {
        push_range(out, cs, i, cs.len());
        proof {
            assert(sink_pass(cs@, cs@.len() as int).0 =~= seq![]);
            assert(sink_pass(cs@, cs@.len() as int).1 =~= seq![]);
            assert(out@ + seq![] =~= out@);
            assert(connectors_view(connectors@) + seq![] =~= connectors_view(connectors@));
        }
        return cs.len();
    }
    let (b, c, e, f, end) = found.unwrap();
    proof {
        lemma_construct_bounds(cs@, p as int, Construct::Sink);
    }
    let ty = lower_slice(cs, b, c);
    if is_connector_type(ty.as_str()) {
        let content = slice_chars(cs, e, f);
        let options = parse_options(&content);
        push_range(out, cs, i, p);
        connectors.push(ConnectorConfig { connector_type: ty, options, alias: None, is_source: false });
        proof {
            assert(connectors_view(connectors@) =~= before.push(connector_view(connectors@.last())));
        }
    } else {
        push_range(out, cs, i, end);
    }
    proof {
        let rest = sink_pass(cs@, end as int);
        assert(out@ + rest.0 =~= out0 + sink_pass(cs@, i as int).0);
        assert(connectors_view(connectors@) + rest.1 =~= before + sink_pass(cs@, i as int).1);
    }
    end
}

/// Removes the sink connectors of a query and collects them.
fn parse_sink_connectors(cs: &Vec<char>, connectors: &mut Vec<ConnectorConfig>) -> (out: Vec<char>)
    ensures
        out@ == sink_pass(cs@, 0).0,
        connectors_view(final(connectors)@) == connectors_view(old(connectors)@) + sink_pass(cs@, 0).1,
{
    let mut out: Vec<char> = Vec::new();
    let mut i: usize = 0;
    let ghost start = connectors_view(connectors@);
    assert(out@ + sink_pass(cs@, 0).0 =~= sink_pass(cs@, 0).0);
    while i < cs.len()
        invariant
            0 <= i <= cs@.len(),
            out@ + sink_pass(cs@, i as int).0 == sink_pass(cs@, 0).0,
            connectors_view(connectors@) + sink_pass(cs@, i as int).1 == start + sink_pass(cs@, 0).1,
        decreases cs.len() - i,
    {
        i = sink_step(cs, i, &mut out, connectors);
    }
    proof {
        assert(sink_pass(cs@, i as int).0 =~= seq![]);
        assert(sink_pass(cs@, i as int).1 =~= seq![]);
        assert(out@ + seq![] =~= out@);
        assert(connectors_view(connectors@) + seq![] =~= connectors_view(connectors@));
    }
    out
}

/// The value of the first option called `name`.
fn find_option_value(opts: &Vec<(String, String)>, name: &str) -> (r: Option<String>)
    ensures
        match option_value(pairs_view(opts@), name@) {
            Some(v) => r matches Some(x) && x@ == v,
            None => r is None,
        },
{
    let mut k: usize = 0;
    assert(pairs_view(opts@).subrange(0, opts@.len() as int) =~= pairs_view(opts@));
    while k < opts.len()
        invariant
            0 <= k <= opts@.len(),
            option_value(pairs_view(opts@), name@) == option_value(pairs_view(opts@).subrange(k as int, opts@.len() as int), name@),
        decreases opts.len() - k,
    {
        let ghost rest = pairs_view(opts@).subrange(k as int, opts@.len() as int);
        assert(rest.drop_first() =~= pairs_view(opts@).subrange(k as int + 1, opts@.len() as int));
        assert(rest[0] == (opts@[k as int].0@, opts@[k as int].1@));
        if crate::strmap::str_eq(opts[k].0.as_str(), name) {
            return Some(crate::scaling::copy_string(&opts[k].1));
        }
        k = k + 1;
    }
    None
}

/// One step of the window rewrite.
fn window_step(cs: &Vec<char>, i: usize, out: &mut Vec<char>, windows: &mut Vec<WindowConfig>) -> (next: usize)
    requires
        i < cs@.len(),
    ensures
        i < next <= cs@.len(),
        final(out)@ + window_pass(cs@, next as int).0 == old(out)@ + window_pass(cs@, i as int).0,
        windows_view(final(windows)@) + window_pass(cs@, next as int).1
            == windows_view(old(windows)@) + window_pass(cs@, i as int).1,
{
    let ghost before = windows_view(windows@);
    let ghost out0 = out@;
    let (p, found) = find_construct(cs, i, Construct::Window);
    if p >= cs.len() {
        push_range(out, cs, i, cs.len());
        proof {
            assert(window_pass(cs@, cs@.len() as int).0 =~= seq![]);
            assert(window_pass(cs@, cs@.len() as int).1 =~= seq![]);
            assert(out@ + seq![] =~= out@);
            assert(windows_view(windows@) + seq![] =~= windows_view(windows@));
        }
        return cs.len();
    }
    let (b, c, e, f, end) = found.unwrap();
    proof {
        lemma_construct_bounds(cs@, p as int, Construct::Window);
    }
    let ty = lower_slice(cs, b, c);
    let content = slice_chars(cs, e, f);
    let options = parse_options(&content);
    let size = match find_option_value(&options, "size") {
        Some(v) => v,
        None => "5m".to_owned(),
    };
    proof {
        reveal_strlit("size");
        reveal_strlit("5m");
        assert("size"@ =~= seq!['s', 'i', 'z', 'e']);
        assert("5m"@ =~= seq!['5', 'm']);
    }
    push_range(out, cs, i, p);
    let kw = keyword_chars(Construct::Window);
    push_all(out, &kw);
    out.push(' ');
    let tc = chars_of(ty.as_str());
    push_all(out, &tc);
    out.push(' ');
    let sc = chars_of(size.as_str());
    push_all(out, &sc);
    out.push(' ');
    out.push('(');
    proof {
        let sz = match option_value(options_of(cs@.subrange(e as int, f as int)), seq!['s', 'i', 'z', 'e']) {
            Some(v) => v,
            None => seq!['5', 'm'],
        };
        assert(out@ =~= out0 + cs@.subrange(i as int, p as int) + seq!['w', 'i', 'n', 'd', 'o', 'w', ' ']
            + lowercase(cs@.subrange(b as int, c as int)) + seq![' '] + sz + seq![' ', '(']);
    }
    windows.push(WindowConfig { window_type: ty, options });
    proof {
        assert(windows_view(windows@) =~= before.push((windows@.last().window_type@, pairs_view(windows@.last().options@))));
        let rest = window_pass(cs@, end as int);
        assert(out@ + rest.0 =~= out0 + window_pass(cs@, i as int).0);
        assert(windows_view(windows@) + rest.1 =~= before + window_pass(cs@, i as int).1);
    }
    end
}

/// Rewrites the windows of a query and collects them.
fn parse_window_configs(cs: &Vec<char>, windows: &mut Vec<WindowConfig>) -> (out: Vec<char>)
    ensures
        out@ == window_pass(cs@, 0).0,
        windows_view(final(windows)@) == windows_view(old(windows)@) + window_pass(cs@, 0).1,
{
    let mut out: Vec<char> = Vec::new();
    let mut i: usize = 0;
    let ghost start = windows_view(windows@);
    assert(out@ + window_pass(cs@, 0).0 =~= window_pass(cs@, 0).0);
    while i < cs.len()
        invariant
            0 <= i <= cs@.len(),
            out@ + window_pass(cs@, i as int).0 == window_pass(cs@, 0).0,
            windows_view(windows@) + window_pass(cs@, i as int).1 == start + window_pass(cs@, 0).1,
        decreases cs.len() - i,
    {
        i = window_step(cs, i, &mut out, windows);
    }
    proof {
        assert(window_pass(cs@, i as int).0 =~= seq![]);
        assert(window_pass(cs@, i as int).1 =~= seq![]);
        assert(out@ + seq![] =~= out@);
        assert(windows_view(windows@) + seq![] =~= windows_view(windows@));
    }
    out
}

/// The time units and how many seconds each stands for.
pub open spec fn is_unit(c: char) -> bool {
    c == 's' || c == 'm' || c == 'h' || c == 'd'
}

pub open spec fn unit_factor(c: char) -> u64 {
    if c == 's' {
        1
    } else if c == 'm' {
        60
    } else if c == 'h' {
        3600
    } else {
        86400
    }
}

/// Digits followed by a time unit at `p`.
pub open spec fn time_at(t: Seq<char>, p: int) -> bool {
    let r = run_end(t, p, CharClass::Digit);
    0 <= p && r > p && r < t.len() && is_unit(t[r])
}

/// The first position from `i` on where a time occurs, or the length of `t`.
pub open spec fn next_time(t: Seq<char>, i: int) -> int
    decreases t.len() - i,
{
    if i < 0 || i >= t.len() {
        t.len() as int
    } else if time_at(t, i) {
        i
    } else {
        next_time(t, i + 1)
    }
}

/// Reading digits left to right into a `u64`: the value, or the first
/// problem met, an invalid digit (`true`) or an overflow (`false`).
pub open spec fn digits_outcome(d: Seq<char>) -> Result<nat, bool>
    decreases d.len(),
{
    if d.len() == 0 {
        Ok(0)
    } else {
        match digits_outcome(d.drop_last()) {
            Err(e) => Err(e),
            Ok(v) => if !is_digit(d.last()) {
                Err(true)
            } else if v * 10 + (d.last() as int - 48) > u64::MAX {
                Err(false)
            } else {
                Ok((v * 10 + (d.last() as int - 48)) as nat)
            },
        }
    }
}

/// A time such as `5s`, `10m`, `1h` or `2d` (the first number followed by a
/// unit in the text), in seconds, in decimal; or the error message.
pub open spec fn time_in_seconds(t: Seq<char>) -> Result<Seq<char>, Seq<char>> {
    let p = next_time(t, 0);
    let r = run_end(t, p, CharClass::Digit);
    if p >= t.len() {
        Err("Invalid time format: "@ + t)
    } else {
        match digits_outcome(t.subrange(p, r)) {
            Err(invalid) => Err("Failed to parse time value: "@ + if invalid {
                "invalid digit found in string"@
            } else {
                "number too large to fit in target type"@
            }),
            Ok(v) => Ok(decimal(vstd::wrapping::u64_specs::wrapping_mul(v as u64, unit_factor(t[r])) as nat)),
        }
    }
}

pub proof fn lemma_next_time_bounds(t: Seq<char>, i: int)
    requires
        0 <= i,
    ensures
        i <= next_time(t, i) || i > t.len(),
        next_time(t, i) <= t.len(),
        next_time(t, i) < t.len() ==> time_at(t, next_time(t, i)),
    decreases t.len() - i,
{
    if i < t.len() && !time_at(t, i) {
        lemma_next_time_bounds(t, i + 1);
    }
}

/// Reads `cs[a..b]` as a `u64`, reporting the first problem met.
fn read_digits(cs: &Vec<char>, a: usize, b: usize) -> (r: Result<u64, bool>)
    requires
        a <= b <= cs@.len(),
    ensures
        match digits_outcome(cs@.subrange(a as int, b as int)) {
            Ok(v) => r == Ok::<u64, bool>(v as u64),
            Err(x) => r == Err::<u64, bool>(x),
        },
{
    let mut acc: u64 = 0;
    let mut k = a;
    while k < b
        invariant
            a <= k <= b <= cs@.len(),
            digits_outcome(cs@.subrange(a as int, k as int)) == Ok::<nat, bool>(acc as nat),
        decreases b - k,
    {
        let ghost pre = cs@.subrange(a as int, k as int + 1);
        assert(pre.drop_last() =~= cs@.subrange(a as int, k as int));
        assert(pre.last() == cs@[k as int]);
        let c = cs[k];
        if !('0' <= c && c <= '9') {
            proof {
                let mut j = k as int + 1;
                lemma_outcome_sticks(cs@, a as int, k as int + 1, b as int, Err(true));
            }
            return Err(true);
        }
        let d = (c as u32 - 48) as u64;
        if acc > (0xffff_ffff_ffff_ffffu64 - d) / 10 {
            proof {
                assert(acc * 10 + d > 0xffff_ffff_ffff_ffffu64) by (nonlinear_arith)
                    requires acc > (0xffff_ffff_ffff_ffffu64 - d) / 10, d <= 9;
                lemma_outcome_sticks(cs@, a as int, k as int + 1, b as int, Err(false));
            }
            return Err(false);
        }
        proof {
            assert(acc * 10 + d <= 0xffff_ffff_ffff_ffffu64) by (nonlinear_arith)
                requires acc <= (0xffff_ffff_ffff_ffffu64 - d) / 10, d <= 9;
        }
        acc = acc * 10 + d;
        k = k + 1;
    }
    Ok(acc)
}

/// Once reading stops at a problem, longer texts stop at the same problem.
proof fn lemma_outcome_sticks(s: Seq<char>, a: int, k: int, b: int, e: Result<nat, bool>)
    requires
        0 <= a <= k <= b <= s.len(),
        e is Err,
        digits_outcome(s.subrange(a, k)) == e,
    ensures
        digits_outcome(s.subrange(a, b)) == e,
    decreases b - k,
{
    if k < b {
        let pre = s.subrange(a, k + 1);
        assert(pre.drop_last() =~= s.subrange(a, k));
        lemma_outcome_sticks(s, a, k + 1, b, e);
    }
}

/// The first time in `cs` from `i` on.
fn find_time(cs: &Vec<char>, i: usize) -> (p: usize)
    requires
        i <= cs@.len(),
    ensures
        p == next_time(cs@, i as int),
        i <= p <= cs@.len(),
{
    let mut p = i;
    while p < cs.len()
        invariant
            i <= p <= cs@.len(),
            next_time(cs@, i as int) == next_time(cs@, p as int),
        decreases cs.len() - p,
    {
        let r = scan(cs, p, CharClass::Digit);
        if r > p && r < cs.len() && (cs[r] == 's' || cs[r] == 'm' || cs[r] == 'h' || cs[r] == 'd') {
            return p;
        }
        p = p + 1;
    }
    p
}

/// A time such as `5s`, `10m`, `1h` or `2d`, in seconds.
pub fn parse_time_unit(time_str: &str) -> (r: Result<String, PrqlError>)
    ensures
        match time_in_seconds(time_str@) {
            Ok(v) => r matches Ok(x) && x@ == v,
            Err(m) => r matches Err(PrqlError::PostProcessingError(x)) && x@ == m,
        },
{
    let cs = chars_of(time_str);
    let p = find_time(&cs, 0);
    if p >= cs.len() {
        let mut msg = chars_of("Invalid time format: ");
        push_all(&mut msg, &cs);
        return Err(PrqlError::PostProcessingError(string_from_chars(&msg)));
    }
    proof {
        lemma_next_time_bounds(cs@, 0);
    }
    let r = scan(&cs, p, CharClass::Digit);
    match read_digits(&cs, p, r) {
        Err(invalid) => {
            let mut msg = chars_of("Failed to parse time value: ");
            let detail = if invalid {
                chars_of("invalid digit found in string")
            } else {
                chars_of("number too large to fit in target type")
            };
            push_all(&mut msg, &detail);
            Err(PrqlError::PostProcessingError(string_from_chars(&msg)))
        },
        Ok(value) => {
            let unit = cs[r];
            let factor: u64 = if unit == 's' {
                1
            } else if unit == 'm' {
                60
            } else if unit == 'h' {
                3600
            } else {
                86400
            };
            Ok(u64_to_decimal(value.wrapping_mul(factor)))
        },
    }
}

/// The comment that stands in the query for a watermark.
pub open spec fn watermark_comment(field: Seq<char>, secs: Seq<char>) -> Seq<char> {
    "# -- WATERMARK FOR "@ + field + " AS "@ + field + " - INTERVAL '"@ + secs + "' SECOND"@
}

/// The watermarks of `s` from `i` on: the text with each watermark replaced
/// by a comment, and the watermarks (field and delay), in order; or the
/// first error: a watermark without `field` or `delay`, or a bad delay.
pub open spec fn watermark_pass(s: Seq<char>, i: int) -> Result<(Seq<char>, Seq<(Seq<char>, Seq<char>)>), Seq<char>>
    decreases s.len() - i,
{
    let p = next_construct(s, i, Construct::Watermark);
    if i < 0 || i > s.len() {
        Ok((seq![], seq![]))
    } else if p >= s.len() {
        Ok((s.subrange(i, s.len() as int), seq![]))
    } else {
        let (b, c, e, f, end) = construct_at(s, p, Construct::Watermark)->0;
        proof {
            lemma_next_construct_bounds(s, i, Construct::Watermark);
            lemma_construct_bounds(s, p, Construct::Watermark);
        }
        let opts = options_of(s.subrange(e, f));
        match option_value(opts, seq!['f', 'i', 'e', 'l', 'd']) {
            None => Err("Missing 'field' in watermark configuration"@),
            Some(field) => match option_value(opts, seq!['d', 'e', 'l', 'a', 'y']) {
                None => Err("Missing 'delay' in watermark configuration"@),
                Some(delay) => match time_in_seconds(delay) {
                    Err(m) => Err(m),
                    Ok(secs) => match watermark_pass(s, end) {
                        Err(m) => Err(m),
                        Ok(rest) => Ok((
                            s.subrange(i, p) + watermark_comment(field, secs) + rest.0,
                            seq![(field, delay)] + rest.1,
                        )),
                    },
                },
            },
        }
    }
}

pub open spec fn watermarks_view(v: Seq<WatermarkConfig>) -> Seq<(Seq<char>, Seq<char>)> {
    v.map_values(|w: WatermarkConfig| (w.field@, w.delay@))
}

/// A pass result with a text and items put in front.
pub open spec fn prefixed<T>(
    text: Seq<char>,
    items: Seq<T>,
    r: Result<(Seq<char>, Seq<T>), Seq<char>>,
) -> Result<(Seq<char>, Seq<T>), Seq<char>> {
    match r {
        Err(m) => Err(m),
        Ok((t, w)) => Ok((text + t, items + w)),
    }
}

/// One step of the watermark rewrite.
fn watermark_step(cs: &Vec<char>, i: usize, out: &mut Vec<char>, marks: &mut Vec<WatermarkConfig>) -> (r: Result<usize, String>)
    requires
        i < cs@.len(),
    ensures
        match r {
            Ok(next) => i < next <= cs@.len() && prefixed(final(out)@, watermarks_view(final(marks)@), watermark_pass(cs@, next as int))
                == prefixed(old(out)@, watermarks_view(old(marks)@), watermark_pass(cs@, i as int)),
            Err(m) => watermark_pass(cs@, i as int) == Err::<(Seq<char>, Seq<(Seq<char>, Seq<char>)>), Seq<char>>(m@),
        },
{
    let ghost before = watermarks_view(marks@);
    let ghost out0 = out@;
    let (p, found) = find_construct(cs, i, Construct::Watermark);
    if p >= cs.len() {
        push_range(out, cs, i, cs.len());
        proof {
            assert(watermark_pass(cs@, cs@.len() as int) == Ok::<(Seq<char>, Seq<(Seq<char>, Seq<char>)>), Seq<char>>(
                (cs@.subrange(cs@.len() as int, cs@.len() as int), seq![])));
            assert(cs@.subrange(cs@.len() as int, cs@.len() as int) =~= seq![]);
            assert(out@ + seq![] =~= out@);
            assert(watermarks_view(marks@) + seq![] =~= watermarks_view(marks@));
        }
        return Ok(cs.len());
    }
    let (b, c, e, f, end) = found.unwrap();
    proof {
        lemma_construct_bounds(cs@, p as int, Construct::Watermark);
        reveal_strlit("field");
        reveal_strlit("delay");
        assert("field"@ =~= seq!['f', 'i', 'e', 'l', 'd']);
        assert("delay"@ =~= seq!['d', 'e', 'l', 'a', 'y']);
    }
    let content = slice_chars(cs, e, f);
    let options = parse_options(&content);
    let field = match find_option_value(&options, "field") {
        Some(v) => v,
        None => {
            return Err("Missing 'field' in watermark configuration".to_owned());
        },
    };
    let delay = match find_option_value(&options, "delay") {
        Some(v) => v,
        None => {
            return Err("Missing 'delay' in watermark configuration".to_owned());
        },
    };
    let secs = match parse_time_unit(delay.as_str()) {
        Ok(v) => v,
        Err(PrqlError::PostProcessingError(m)) => {
            return Err(m);
        },
        Err(_) => {
            return Err("".to_owned());
        },
    };
    push_range(out, cs, i, p);
    let mut comment = chars_of("# -- WATERMARK FOR ");
    crate::text::append_chars(&mut comment, field.as_str());
    crate::text::append_chars(&mut comment, " AS ");
    crate::text::append_chars(&mut comment, field.as_str());
    crate::text::append_chars(&mut comment, " - INTERVAL '");
    crate::text::append_chars(&mut comment, secs.as_str());
    crate::text::append_chars(&mut comment, "' SECOND");
    push_all(out, &comment);
    marks.push(WatermarkConfig { field, delay });
    proof {
        assert(watermarks_view(marks@) =~= before.push((marks@.last().field@, marks@.last().delay@)));
        assert(out@ =~= out0 + cs@.subrange(i as int, p as int) + watermark_comment(marks@.last().field@, secs@));
        match watermark_pass(cs@, end as int) {
            Err(m) => {},
            Ok(rest) => {
                assert(out@ + rest.0 =~= out0 + (cs@.subrange(i as int, p as int) + watermark_comment(marks@.last().field@, secs@) + rest.0));
                assert(watermarks_view(marks@) + rest.1 =~= before + (seq![(marks@.last().field@, marks@.last().delay@)] + rest.1));
            },
        }
    }
    Ok(end)
}

/// Replaces the watermarks of a query by comments and collects them.
fn parse_watermark_configs(cs: &Vec<char>, marks: &mut Vec<WatermarkConfig>) -> (r: Result<Vec<char>, String>)
    ensures
        match watermark_pass(cs@, 0) {
            Ok((t, w)) => r matches Ok(out) && out@ == t && watermarks_view(final(marks)@) == watermarks_view(old(marks)@) + w,
            Err(m) => r matches Err(x) && x@ == m,
        },
{
    let mut out: Vec<char> = Vec::new();
    let mut i: usize = 0;
    let ghost start = watermarks_view(marks@);
    proof {
        match watermark_pass(cs@, 0) {
            Err(m) => {},
            Ok((t, w)) => {
                assert(out@ + t =~= t);
                assert(start + w =~= start + w);
            },
        }
    }
    while i < cs.len()
        invariant
            0 <= i <= cs@.len(),
            prefixed(out@, watermarks_view(marks@), watermark_pass(cs@, i as int))
                == prefixed(seq![], start, watermark_pass(cs@, 0)),
        decreases cs.len() - i,
    {
        match watermark_step(cs, i, &mut out, marks) {
            Ok(next) => {
                i = next;
            },
            Err(m) => {
                return Err(m);
            },
        }
    }
    proof {
        assert(watermark_pass(cs@, i as int) == Ok::<(Seq<char>, Seq<(Seq<char>, Seq<char>)>), Seq<char>>(
            (cs@.subrange(i as int, i as int), seq![])));
        assert(cs@.subrange(i as int, i as int) =~= seq![]);
        assert(out@ + seq![] =~= out@);
        assert(watermarks_view(marks@) + seq![] =~= watermarks_view(marks@));
        match watermark_pass(cs@, 0) {
            Err(m) => {},
            Ok((t, w)) => {
                assert(seq![] + t =~= t);
            },
        }
    }
    Ok(out)
}

/// The result of taking the extended syntax out of a query: the rewritten
/// query, the connectors (sources, then sinks), the windows and the
/// watermarks; or the error message.
pub open spec fn extended_syntax(q: Seq<char>) -> Result<
    (Seq<char>, Seq<ConnectorView>, Seq<(Seq<char>, Seq<(Seq<char>, Seq<char>)>)>, Seq<(Seq<char>, Seq<char>)>),
    Seq<char>,
> {
    let (t1, sources) = source_pass(q, 0);
    let (t2, sinks) = sink_pass(t1, 0);
    let (t3, windows) = window_pass(t2, 0);
    match watermark_pass(t3, 0) {
        Err(m) => Err(m),
        Ok((t4, marks)) => Ok((t4, sources + sinks, windows, marks)),
    }
}

/// Takes the extended syntax out of a PRQL query: source and sink
/// connectors, window options and watermarks, in that order, each pass
/// working on the text the previous one left.
pub fn parse_extended_syntax(prql_query: &str) -> (r: Result<
    (String, Vec<ConnectorConfig>, Vec<WindowConfig>, Vec<WatermarkConfig>),
    PrqlError,
>)
    ensures
        match extended_syntax(prql_query@) {
            Ok((t, c, w, m)) => r matches Ok((text, conns, wins, marks)) && text@ == t
                && connectors_view(conns@) == c && windows_view(wins@) == w && watermarks_view(marks@) == m,
            Err(e) => r matches Err(PrqlError::PostProcessingError(x)) && x@ == e,
        },
{
    let cs = chars_of(prql_query);
    let mut connectors: Vec<ConnectorConfig> = Vec::new();
    let mut windows: Vec<WindowConfig> = Vec::new();
    let mut watermarks: Vec<WatermarkConfig> = Vec::new();
    let t1 = parse_source_connectors(&cs, &mut connectors);
    let t2 = parse_sink_connectors(&t1, &mut connectors);
    let t3 = parse_window_configs(&t2, &mut windows);
    proof {
        assert(connectors_view(Seq::<ConnectorConfig>::empty()) =~= seq![]);
        assert(windows_view(Seq::<WindowConfig>::empty()) =~= seq![]);
        assert(watermarks_view(Seq::<WatermarkConfig>::empty()) =~= seq![]);
        assert(seq![] + source_pass(cs@, 0).1 =~= source_pass(cs@, 0).1);
        assert(seq![] + window_pass(t2@, 0).1 =~= window_pass(t2@, 0).1);
    }
    match parse_watermark_configs(&t3, &mut watermarks) {
        Ok(t4) => {
            proof {
                match watermark_pass(t3@, 0) {
                    Ok((t, w)) => {
                        assert(seq![] + w =~= w);
                    },
                    Err(_) => {},
                }
            }
            Ok((string_from_chars(&t4), connectors, windows, watermarks))
        },
        Err(m) => Err(PrqlError::PostProcessingError(m)),
    }
}

proof fn lemma_no_occurrence(s: Seq<char>, i: int, k: Construct)
    requires
        0 <= i,
        forall|p: int| #[trigger] construct_at(s, p, k) is None,
    ensures
        next_construct(s, i, k) == s.len(),
    decreases s.len() - i,
{
    if i < s.len() {
        lemma_no_occurrence(s, i + 1, k);
    }
}

/// A query that uses none of the extended constructs comes back unchanged,
/// with no connectors, windows or watermarks.
pub proof fn lemma_plain_query_unchanged(q: Seq<char>)
    requires
        forall|p: int, k: Construct| #[trigger] construct_at(q, p, k) is None,
    ensures
        extended_syntax(q) == Ok::<
            (Seq<char>, Seq<ConnectorView>, Seq<(Seq<char>, Seq<(Seq<char>, Seq<char>)>)>, Seq<(Seq<char>, Seq<char>)>),
            Seq<char>,
        >((q, seq![], seq![], seq![])),
{
    assert forall|p: int| #[trigger] construct_at(q, p, Construct::Source) is None by {
        assert(construct_at(q, p, Construct::Source) is None);
    }
    assert forall|p: int| #[trigger] construct_at(q, p, Construct::Sink) is None by {
        assert(construct_at(q, p, Construct::Sink) is None);
    }
    assert forall|p: int| #[trigger] construct_at(q, p, Construct::Window) is None by {
        assert(construct_at(q, p, Construct::Window) is None);
    }
    assert forall|p: int| #[trigger] construct_at(q, p, Construct::Watermark) is None by {
        assert(construct_at(q, p, Construct::Watermark) is None);
    }
    lemma_no_occurrence(q, 0, Construct::Source);
    lemma_no_occurrence(q, 0, Construct::Sink);
    lemma_no_occurrence(q, 0, Construct::Window);
    lemma_no_occurrence(q, 0, Construct::Watermark);
    assert(q.subrange(0, q.len() as int) =~= q);
    assert(seq![] + seq![] =~= Seq::<ConnectorView>::empty());
}

} // verus!
