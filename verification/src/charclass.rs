//! Unicode character classes and case mapping, as the regular-expression
//! engine and the standard library define them.

use vstd::prelude::*;

verus! {

/// Whether `c` is a Unicode word character: Alphabetic, Join_Control,
/// Decimal_Number, Mark or Connector_Punctuation.
pub uninterp spec fn word_char(c: char) -> bool;

/// Whether `c` has the Unicode White_Space property: tab to carriage
/// return, space, next line, no-break space, Ogham space mark, the spaces
/// from en quad to hair space, line and paragraph separators, narrow
/// no-break space, medium mathematical space and ideographic space.
pub open spec fn white_space(c: char) -> bool {
    let u = c as u32;
    ||| 0x9 <= u <= 0xD
    ||| u == 0x20
    ||| u == 0x85
    ||| u == 0xA0
    ||| u == 0x1680
    ||| 0x2000 <= u <= 0x200A
    ||| u == 0x2028
    ||| u == 0x2029
    ||| u == 0x202F
    ||| u == 0x205F
    ||| u == 0x3000
}

/// Whether every character of `s` is ASCII.
pub open spec fn is_ascii_text(s: Seq<char>) -> bool {
    forall|i: int| 0 <= i < s.len() ==> (#[trigger] s[i] as u32) < 128
}

/// The ASCII upper-case form of a character: `a` to `z` become `A` to
/// `Z`, any other character stays.
pub open spec fn ascii_upper(c: char) -> char {
    if 'a' <= c && c <= 'z' {
        ((c as u32) - 32) as char
    } else {
        c
    }
}

/// The ASCII lower-case form of a character: `A` to `Z` become `a` to
/// `z`, any other character stays.
pub open spec fn ascii_lower(c: char) -> char {
    if 'A' <= c && c <= 'Z' {
        ((c as u32) + 32) as char
    } else {
        c
    }
}

/// Whether `c` is in the Unicode Decimal_Number category.
pub uninterp spec fn decimal_number(c: char) -> bool;

/// The Unicode lower-case form of a text.
pub uninterp spec fn lowercase(s: Seq<char>) -> Seq<char>;

/// The Unicode upper-case form of a text.
pub uninterp spec fn uppercase(s: Seq<char>) -> Seq<char>;

/// Asks the regular-expression engine whether `c` alone matches `\w`, the
/// Unicode word class; the contract names its answer and claims nothing
/// more.
#[verifier::external_body]
pub(crate) fn is_word_char(c: char) -> (b: bool)
    ensures
        b == word_char(c),
{
    let mut buf = [0u8; 4];
    match regex::Regex::new(r"^\w$") {
        Ok(re) => re.is_match(c.encode_utf8(&mut buf)),
        Err(_) => false,
    }
}

/// Whether `c` has the White_Space property (what `char::is_whitespace`
/// answers).
pub(crate) fn is_white_space(c: char) -> (b: bool)
    ensures
        b == white_space(c),
{
    let u = c as u32;
    (0x9 <= u && u <= 0xD) || u == 0x20 || u == 0x85 || u == 0xA0 || u == 0x1680 || (0x2000 <= u && u <= 0x200A)
        || u == 0x2028 || u == 0x2029 || u == 0x202F || u == 0x205F || u == 0x3000
}

/// Asks the regular-expression engine whether `c` alone matches `\d`; the
/// contract names its answer and claims nothing more.
#[verifier::external_body]
pub(crate) fn is_decimal_number(c: char) -> (b: bool)
    ensures
        b == decimal_number(c),
{
    let mut buf = [0u8; 4];
    match regex::Regex::new(r"^\d$") {
        Ok(re) => re.is_match(c.encode_utf8(&mut buf)),
        Err(_) => false,
    }
}

/// Calls `str::to_lowercase`; the contract names its result, and says that
/// an ASCII text is mapped character by character, `A` to `Z` becoming
/// `a` to `z`.
#[verifier::external_body]
pub(crate) fn to_lowercase(s: &str) -> (r: String)
    ensures
        r@ == lowercase(s@),
        is_ascii_text(s@) ==> r@ == s@.map_values(|c: char| ascii_lower(c)),
{
    s.to_lowercase()
}

/// Calls `str::to_uppercase`; the contract names its result, and says that
/// an ASCII text is mapped character by character, `a` to `z` becoming
/// `A` to `Z`.
#[verifier::external_body]
pub(crate) fn to_uppercase(s: &str) -> (r: String)
    ensures
        r@ == uppercase(s@),
        is_ascii_text(s@) ==> r@ == s@.map_values(|c: char| ascii_upper(c)),
{
    s.to_uppercase()
}

} // verus!
