//! Decimal numbers as written (`-12`, `150.0`, `+0.25`), compared exactly.

use vstd::prelude::*;
use crate::text::{append_chars, chars_of, string_from_chars};

verus! {

pub open spec fn is_digit(c: char) -> bool {
    '0' <= c && c <= '9'
}

pub open spec fn digit_value(c: char) -> nat {
    (c as int - '0' as int) as nat
}

/// Ten to the power `n`.
pub open spec fn pow10(n: nat) -> nat
    decreases n,
{
    if n == 0 {
        1
    } else {
        10 * pow10((n - 1) as nat)
    }
}

/// Reading the characters of a number's body from the left: whether they
/// are well formed so far, whether the point has been read, how many
/// digits come before it and after it, and the value of all digits read.
pub open spec fn scan_body(s: Seq<char>) -> (bool, bool, nat, nat, nat)
    decreases s.len(),
{
    if s.len() == 0 {
        (true, false, 0, 0, 0)
    } else {
        let (ok, point, int_digits, frac_digits, m) = scan_body(s.drop_last());
        let c = s.last();
        if !ok {
            (false, point, int_digits, frac_digits, m)
        } else if is_digit(c) {
            if point {
                (true, true, int_digits, frac_digits + 1, m * 10 + digit_value(c))
            } else {
                (true, false, int_digits + 1, frac_digits, m * 10 + digit_value(c))
            }
        } else if c == '.' && !point && int_digits > 0 {
            (true, true, int_digits, frac_digits, m)
        } else {
            (false, point, int_digits, frac_digits, m)
        }
    }
}

/// The body of a number: what follows its sign, if it has one.
pub open spec fn number_body(t: Seq<char>) -> Seq<char> {
    if t.len() > 0 && (t[0] == '-' || t[0] == '+') {
        t.drop_first()
    } else {
        t
    }
}

/// A decimal number as written: an optional sign, one or more digits, and
/// optionally a point followed by one or more digits. Its parts are
/// whether it is negative, the value of all its digits, and how many
/// digits follow the point; its value is the second divided by ten to
/// the third, negated when it is negative. `None` for any other text.
pub open spec fn decimal_parts(t: Seq<char>) -> Option<(bool, nat, nat)> {
    let r = scan_body(number_body(t));
    if r.0 && r.2 >= 1 && (r.1 ==> r.3 >= 1) {
        Some((t.len() > 0 && t[0] == '-', r.4, r.3))
    } else {
        None
    }
}

pub open spec fn signed(negative: bool, m: nat) -> int {
    if negative {
        -(m as int)
    } else {
        m as int
    }
}

/// How `a` compares with `b` as numbers: -1, 0 or 1. Both are brought to
/// the same number of digits after the point; a text that is not a number
/// is refused, and so is one whose digits, so brought, exceed what 128
/// bits hold.
pub open spec fn number_order(a: Seq<char>, b: Seq<char>) -> Result<int, Seq<char>> {
    match decimal_parts(a) {
        None => Err("Invalid number: "@ + a),
        Some((n1, m1, k1)) => match decimal_parts(b) {
            None => Err("Invalid number: "@ + b),
            Some((n2, m2, k2)) => {
                let k = if k1 < k2 { k2 } else { k1 };
                let s1 = m1 * pow10((k - k1) as nat);
                let s2 = m2 * pow10((k - k2) as nat);
                if s1 > u128::MAX {
                    Err("Number out of range: "@ + a)
                } else if s2 > u128::MAX {
                    Err("Number out of range: "@ + b)
                } else {
                    let d = signed(n1, s1) - signed(n2, s2);
                    Ok(if d < 0 { -1 } else if d == 0 { 0 } else { 1 })
                }
            },
        },
    }
}

proof fn lemma_pow10_step(m: nat, j: nat)
    ensures
        m * pow10(j + 1) == (m * pow10(j)) * 10,
{
    assert(pow10(j + 1) == 10 * pow10(j));
    assert(m * (10 * pow10(j)) == (m * pow10(j)) * 10) by (nonlinear_arith);
}

proof fn lemma_pow10_grows(m: nat, j: nat, n: nat)
    requires
        j <= n,
    ensures
        m * pow10(j) <= m * pow10(n),
    decreases n - j,
{
    if j < n {
        lemma_pow10_grows(m, j, (n - 1) as nat);
        lemma_pow10_step(m, (n - 1) as nat);
        assert((m * pow10((n - 1) as nat)) <= (m * pow10((n - 1) as nat)) * 10) by (nonlinear_arith);
    }
}

/// Once the digits read exceed a bound, reading more keeps them above it.
proof fn lemma_scan_grows(s: Seq<char>, i: int)
    requires
        0 <= i <= s.len(),
    ensures
        scan_body(s.subrange(0, i)).4 <= scan_body(s).4,
    decreases s.len() - i,
{
    if i < s.len() {
        lemma_scan_grows(s, i + 1);
        assert(s.subrange(0, i + 1).drop_last() =~= s.subrange(0, i));
    } else {
        assert(s.subrange(0, i) =~= s);
    }
}

/// The body of a number read: its well-formedness, the point, the digit
/// counts, and its digits' value when that fits in 128 bits.
fn scan_exec(t: &Vec<char>, start: usize) -> (r: (bool, bool, usize, usize, Option<u128>))
    requires
        start <= t@.len(),
    ensures
        r.0 == scan_body(t@.subrange(start as int, t@.len() as int)).0,
        r.1 == scan_body(t@.subrange(start as int, t@.len() as int)).1,
        r.2 == scan_body(t@.subrange(start as int, t@.len() as int)).2,
        r.3 == scan_body(t@.subrange(start as int, t@.len() as int)).3,
        match r.4 {
            Some(m) => m == scan_body(t@.subrange(start as int, t@.len() as int)).4,
            None => scan_body(t@.subrange(start as int, t@.len() as int)).4 > u128::MAX,
        },
{
    let ghost body = t@.subrange(start as int, t@.len() as int);
    let mut ok = true;
    let mut point = false;
    let mut int_digits: usize = 0;
    let mut frac_digits: usize = 0;
    let mut m: Option<u128> = Some(0);
    let mut i = start;
    while i < t.len()
        invariant
            start <= i <= t@.len(),
            body == t@.subrange(start as int, t@.len() as int),
            int_digits <= i - start,
            frac_digits <= i - start,
            ({
                let r = scan_body(body.subrange(0, i - start));
                &&& ok == r.0
                &&& point == r.1
                &&& int_digits == r.2
                &&& frac_digits == r.3
                &&& match m {
                    Some(v) => v == r.4,
                    None => r.4 > u128::MAX,
                }
            }),
        decreases t.len() - i,
    {
        let ghost prev = body.subrange(0, i - start);
        proof {
            assert(body.subrange(0, i + 1 - start).drop_last() =~= prev);
            assert(body.subrange(0, i + 1 - start).last() == t@[i as int]);
        }
        let c = t[i];
        if ok {
            if '0' <= c && c <= '9' {
                let d = (c as u32 - '0' as u32) as u128;
                m = match m {
                    Some(v) => match v.checked_mul(10) {
                        Some(w) => w.checked_add(d),
                        None => None,
                    },
                    None => None,
                };
                if point {
                    frac_digits = frac_digits + 1;
                } else {
                    int_digits = int_digits + 1;
                }
            } else if c == '.' && !point && int_digits > 0 {
                point = true;
            } else {
                ok = false;
            }
        }
        i = i + 1;
    }
    proof {
        assert(body.subrange(0, i - start) =~= body);
    }
    (ok, point, int_digits, frac_digits, m)
}

/// The parts of a number as written, its digits' value when that fits.
fn parts_exec(t: &str) -> (r: Option<(bool, Option<u128>, usize)>)
    ensures
        match decimal_parts(t@) {
            None => r is None,
            Some((n, m, k)) => r matches Some((rn, rm, rk)) && rn == n && rk == k && match rm {
                Some(v) => v == m,
                None => m > u128::MAX,
            },
        },
{
    let cs = chars_of(t);
    let signed_text = cs.len() > 0 && (cs[0] == '-' || cs[0] == '+');
    let start: usize = if signed_text { 1 } else { 0 };
    proof {
        if signed_text {
            assert(cs@.subrange(1, cs@.len() as int) =~= number_body(t@));
        } else {
            assert(cs@.subrange(0, cs@.len() as int) =~= number_body(t@));
        }
    }
    let (ok, point, int_digits, frac_digits, m) = scan_exec(&cs, start);
    if ok && int_digits >= 1 && (!point || frac_digits >= 1) {
        Some((cs.len() > 0 && cs[0] == '-', m, frac_digits))
    } else {
        None
    }
}

/// `m` times ten to the power `n`, when that fits in 128 bits.
fn scale(m: u128, n: usize) -> (r: Option<u128>)
    ensures
        match r {
            Some(v) => v == m * pow10(n as nat),
            None => m * pow10(n as nat) > u128::MAX,
        },
{
    let mut v = m;
    let mut j: usize = 0;
    assert(m * pow10(0) == m) by {
        assert(pow10(0) == 1);
    }
    while j < n
        invariant
            0 <= j <= n,
            v == m * pow10(j as nat),
        decreases n - j,
    {
        proof {
            lemma_pow10_step(m as nat, j as nat);
        }
        match v.checked_mul(10) {
            Some(w) => {
                v = w;
            },
            None => {
                proof {
                    lemma_pow10_grows(m as nat, (j + 1) as nat, n as nat);
                }
                return None;
            },
        }
        j = j + 1;
    }
    Some(v)
}

fn message(prefix: &str, t: &str) -> (r: String)
    ensures
        r@ == prefix@ + t@,
{
    let mut cs = chars_of(prefix);
    append_chars(&mut cs, t);
    string_from_chars(&cs)
}

/// How the number `a` compares with the number `b`: -1, 0 or 1.
pub fn compare_numbers(a: &str, b: &str) -> (r: Result<i8, String>)
    ensures
        match number_order(a@, b@) {
            Ok(o) => r == Ok::<i8, String>(o as i8),
            Err(e) => r matches Err(x) && x@ == e,
        },
{
    let (n1, m1, k1) = match parts_exec(a) {
        None => return Err(message("Invalid number: ", a)),
        Some(p) => p,
    };
    let (n2, m2, k2) = match parts_exec(b) {
        None => return Err(message("Invalid number: ", b)),
        Some(p) => p,
    };
    let k = if k1 < k2 { k2 } else { k1 };
    let s1 = match m1 {
        Some(v) => scale(v, k - k1),
        None => None,
    };
    let s1 = match s1 {
        Some(v) => v,
        None => {
            proof {
                if m1 is None {
                    let (_, mm, _) = decimal_parts(a@)->0;
                    assert(mm * pow10((k - k1) as nat) >= mm * pow10(0)) by {
                        lemma_pow10_grows(mm, 0, (k - k1) as nat);
                    }
                    assert(pow10(0) == 1);
                    assert(mm * pow10(0) == mm);
                }
            }
            return Err(message("Number out of range: ", a));
        },
    };
    let s2 = match m2 {
        Some(v) => scale(v, k - k2),
        None => None,
    };
    let s2 = match s2 {
        Some(v) => v,
        None => {
            proof {
                if m2 is None {
                    let (_, mm, _) = decimal_parts(b@)->0;
                    assert(mm * pow10((k - k2) as nat) >= mm * pow10(0)) by {
                        lemma_pow10_grows(mm, 0, (k - k2) as nat);
                    }
                    assert(pow10(0) == 1);
                    assert(mm * pow10(0) == mm);
                }
            }
            return Err(message("Number out of range: ", b));
        },
    };
    let o: i8 = if !n1 && !n2 {
        if s1 < s2 { -1 } else if s1 == s2 { 0 } else { 1 }
    } else if n1 && n2 {
        if s2 < s1 { -1 } else if s1 == s2 { 0 } else { 1 }
    } else if n1 {
        if s1 == 0 && s2 == 0 { 0 } else { -1 }
    } else {
        if s1 == 0 && s2 == 0 { 0 } else { 1 }
    };
    Ok(o)
}

} // verus!
