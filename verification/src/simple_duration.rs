//! A parser for short duration texts such as `"3h"`, `"2m 10s"` or
//! `"-5s"`: a sign, then any number of value/unit tokens, whose seconds
//! are summed.

use vstd::prelude::*;
use vstd::string::StringExecFns;

verus! {

/// Why a duration text was rejected.
#[derive(Debug, PartialEq, Eq)]
pub enum Error {
    ParseError(String),
}

impl Error {
    /// The diagnostic text carried by the error.
    pub open spec fn message(&self) -> Seq<char> {
        match self {
            Error::ParseError(m) => m@,
        }
    }

    /// The diagnostic text, for callers that report it.
    pub fn text(&self) -> (r: &String)
        ensures
            r@ == self.message(),
    {
        match self {
            Error::ParseError(m) => m,
        }
    }
}

/// An ASCII decimal digit.
pub open spec fn is_digit(c: char) -> bool {
    48 <= c as u32 <= 57
}

/// An ASCII letter.
pub open spec fn is_alpha(c: char) -> bool {
    (65 <= c as u32 <= 90) || (97 <= c as u32 <= 122)
}

/// The position of the first digit at or after `i`, or the length.
pub open spec fn scan_to_digit(s: Seq<char>, i: int) -> int
    decreases s.len() - i when 0 <= i <= s.len()
{
    if i >= s.len() {
        s.len() as int
    } else if is_digit(s[i]) {
        i
    } else {
        scan_to_digit(s, i + 1)
    }
}

/// The position of the first non-digit at or after `i`, or the length.
pub open spec fn scan_digits(s: Seq<char>, i: int) -> int
    decreases s.len() - i when 0 <= i <= s.len()
{
    if i >= s.len() {
        s.len() as int
    } else if !is_digit(s[i]) {
        i
    } else {
        scan_digits(s, i + 1)
    }
}

/// The position of the first non-space at or after `i`, or the length.
pub open spec fn scan_spaces(s: Seq<char>, i: int) -> int
    decreases s.len() - i when 0 <= i <= s.len()
{
    if i >= s.len() {
        s.len() as int
    } else if s[i] != ' ' {
        i
    } else {
        scan_spaces(s, i + 1)
    }
}

/// The position of the first non-letter at or after `i`, or the length.
pub open spec fn scan_alpha(s: Seq<char>, i: int) -> int
    decreases s.len() - i when 0 <= i <= s.len()
{
    if i >= s.len() {
        s.len() as int
    } else if !is_alpha(s[i]) {
        i
    } else {
        scan_alpha(s, i + 1)
    }
}

/// Bounds of the digit scan.
pub proof fn lemma_scan_to_digit(s: Seq<char>, i: int)
    requires
        0 <= i <= s.len(),
    ensures
        i <= scan_to_digit(s, i) <= s.len(),
        scan_to_digit(s, i) < s.len() ==> is_digit(s[scan_to_digit(s, i)]),
    decreases s.len() - i,
{
    if i < s.len() && !is_digit(s[i]) {
        lemma_scan_to_digit(s, i + 1);
    }
}

/// Bounds of the digit-run scan.
pub proof fn lemma_scan_digits(s: Seq<char>, i: int)
    requires
        0 <= i <= s.len(),
    ensures
        i <= scan_digits(s, i) <= s.len(),
    decreases s.len() - i,
{
    if i < s.len() && is_digit(s[i]) {
        lemma_scan_digits(s, i + 1);
    }
}

/// Bounds of the space scan.
pub proof fn lemma_scan_spaces(s: Seq<char>, i: int)
    requires
        0 <= i <= s.len(),
    ensures
        i <= scan_spaces(s, i) <= s.len(),
    decreases s.len() - i,
{
    if i < s.len() && s[i] == ' ' {
        lemma_scan_spaces(s, i + 1);
    }
}

/// Bounds of the letter scan.
pub proof fn lemma_scan_alpha(s: Seq<char>, i: int)
    requires
        0 <= i <= s.len(),
    ensures
        i <= scan_alpha(s, i) <= s.len(),
    decreases s.len() - i,
{
    if i < s.len() && is_alpha(s[i]) {
        lemma_scan_alpha(s, i + 1);
    }
}

/// The value of the decimal digits `s[lo..hi)`.
pub open spec fn digits_val(s: Seq<char>, lo: int, hi: int) -> int
    decreases hi - lo when lo <= hi
{
    if lo >= hi {
        0
    } else {
        digits_val(s, lo, hi - 1) * 10 + (s[hi - 1] as u32 - 48)
    }
}

/// A digit run's value is never negative.
pub proof fn lemma_digits_val_nonneg(s: Seq<char>, lo: int, hi: int)
    requires
        lo <= hi,
        forall|k: int| lo <= k < hi ==> is_digit(#[trigger] s[k]),
    ensures
        digits_val(s, lo, hi) >= 0,
    decreases hi - lo,
{
    if lo < hi {
        lemma_digits_val_nonneg(s, lo, hi - 1);
        assert(digits_val(s, lo, hi - 1) * 10 >= 0) by (nonlinear_arith)
            requires
                digits_val(s, lo, hi - 1) >= 0,
        ;
    }
}

/// How many seconds one unit letter stands for, if it is a known unit.
pub open spec fn unit_secs(u: Seq<char>) -> Option<int> {
    if u.len() == 1 {
        if u[0] == 's' {
            Some(1)
        } else if u[0] == 'm' {
            Some(60)
        } else if u[0] == 'h' {
            Some(3600)
        } else if u[0] == 'd' {
            Some(86400)
        } else if u[0] == 'w' {
            Some(604800)
        } else {
            None
        }
    } else {
        None
    }
}

/// The diagnostic for a text with no value/unit token at all.
pub open spec fn dur_err_msg(s: Seq<char>) -> Seq<char> {
    "invalid duration: '"@ + s + "'"@
}

/// The diagnostic for an unknown unit.
pub open spec fn unit_err_msg(u: Seq<char>) -> Seq<char> {
    "invalid duration units: '"@ + u + "'"@
}

/// The summed seconds of all value/unit tokens at or after `i`: each
/// token is a digit run, optional spaces, and a unit; text between
/// tokens is ignored. An unknown unit rejects the whole text.
pub open spec fn parse_from(s: Seq<char>, i: int) -> Result<int, Seq<char>>
    decreases s.len() - i when 0 <= i <= s.len() via parse_from_decreases
{
    let d0 = scan_to_digit(s, i);
    if d0 >= s.len() {
        Ok(0)
    } else {
        let d1 = scan_digits(s, d0 + 1);
        let sp = scan_spaces(s, d1);
        let a1 = scan_alpha(s, sp);
        let unit = s.subrange(sp, a1);
        match unit_secs(unit) {
            Option::None => Err(unit_err_msg(unit)),
            Option::Some(m) => match parse_from(s, a1) {
                Ok(rest) => Ok(digits_val(s, d0, d1) * m + rest),
                Err(e) => Err(e),
            },
        }
    }
}

#[via_fn]
proof fn parse_from_decreases(s: Seq<char>, i: int) {
    let d0 = scan_to_digit(s, i);
    lemma_scan_to_digit(s, i);
    if d0 < s.len() {
        lemma_scan_digits(s, d0 + 1);
        let d1 = scan_digits(s, d0 + 1);
        lemma_scan_spaces(s, d1);
        let sp = scan_spaces(s, d1);
        lemma_scan_alpha(s, sp);
    }
}

/// The token sum is never negative.
pub proof fn lemma_parse_from_nonneg(s: Seq<char>, i: int)
    requires
        0 <= i <= s.len(),
    ensures
        parse_from(s, i) is Ok ==> parse_from(s, i)->Ok_0 >= 0,
    decreases s.len() - i,
{
    let d0 = scan_to_digit(s, i);
    lemma_scan_to_digit(s, i);
    if d0 < s.len() {
        let d1 = scan_digits(s, d0 + 1);
        lemma_scan_digits(s, d0 + 1);
        let sp = scan_spaces(s, d1);
        lemma_scan_spaces(s, d1);
        let a1 = scan_alpha(s, sp);
        lemma_scan_alpha(s, sp);
        let unit = s.subrange(sp, a1);
        if unit_secs(unit) is Some {
            let m = unit_secs(unit)->0;
            lemma_parse_from_nonneg(s, a1);
            assert(forall|k: int| d0 <= k < d1 ==> is_digit(#[trigger] s[k])) by {
                lemma_scan_digits_all(s, d0 + 1, d1);
                assert(is_digit(s[d0]));
            }
            lemma_digits_val_nonneg(s, d0, d1);
            assert(digits_val(s, d0, d1) * m >= 0) by (nonlinear_arith)
                requires
                    digits_val(s, d0, d1) >= 0,
                    m >= 1,
            ;
        }
    }
}

/// Every character passed over by the digit-run scan is a digit.
proof fn lemma_scan_digits_all(s: Seq<char>, i: int, j: int)
    requires
        0 <= i <= s.len(),
        j == scan_digits(s, i),
    ensures
        forall|k: int| i <= k < j ==> is_digit(#[trigger] s[k]),
    decreases s.len() - i,
{
    lemma_scan_digits(s, i);
    if i < s.len() && is_digit(s[i]) {
        lemma_scan_digits_all(s, i + 1, j);
    }
}

/// The meaning of a whole duration text: `"0"` alone is zero seconds; a
/// leading `-` negates the sum; a text without any value/unit token is
/// rejected.
pub open spec fn spec_parse_duration(s: Seq<char>) -> Result<int, Seq<char>> {
    if s.len() == 1 && s[0] == '0' {
        Ok(0)
    } else if scan_to_digit(s, 0) >= s.len() {
        Err(dur_err_msg(s))
    } else {
        let sign: int = if s.len() > 0 && s[0] == '-' {
            -1
        } else {
            1
        };
        match parse_from(s, 0) {
            Ok(v) => Ok(sign * v),
            Err(e) => Err(e),
        }
    }
}

/// The value of a digit run is monotone in its end.
proof fn lemma_digits_val_mono(s: Seq<char>, lo: int, j: int, hi: int)
    requires
        lo <= j <= hi,
        forall|k: int| lo <= k < hi ==> is_digit(#[trigger] s[k]),
    ensures
        digits_val(s, lo, hi) >= digits_val(s, lo, j),
        digits_val(s, lo, hi) >= 0,
    decreases hi - j,
{
    lemma_digits_val_nonneg(s, lo, hi);
    if j < hi {
        lemma_digits_val_mono(s, lo, j, hi - 1);
        lemma_digits_val_nonneg(s, lo, hi - 1);
        assert(digits_val(s, lo, hi - 1) * 10 >= digits_val(s, lo, hi - 1)) by (nonlinear_arith)
            requires
                digits_val(s, lo, hi - 1) >= 0,
        ;
    }
}

/// The position of the first digit at or after `i`, executably.
fn find_digit(s: &str, i: usize, n: usize) -> (j: usize)
    requires
        i <= n,
        n == s@.len(),
    ensures
        j as int == scan_to_digit(s@, i as int),
        i <= j <= n,
        j < n ==> is_digit(s@[j as int]),
{
    let mut k = i;
    loop
        invariant
            i <= k <= n,
            n == s@.len(),
            scan_to_digit(s@, i as int) == scan_to_digit(s@, k as int),
        decreases n - k,
    {
        if k == n {
            return k;
        }
        let c = s.get_char(k);
        let u = c as u32;
        if 48 <= u && u <= 57 {
            return k;
        }
        k += 1;
    }
}

/// The position of the first non-digit at or after `i`, executably.
fn end_digits(s: &str, i: usize, n: usize) -> (j: usize)
    requires
        i <= n,
        n == s@.len(),
    ensures
        j as int == scan_digits(s@, i as int),
        i <= j <= n,
{
    let mut k = i;
    loop
        invariant
            i <= k <= n,
            n == s@.len(),
            scan_digits(s@, i as int) == scan_digits(s@, k as int),
        decreases n - k,
    {
        if k == n {
            return k;
        }
        let c = s.get_char(k);
        let u = c as u32;
        if !(48 <= u && u <= 57) {
            return k;
        }
        k += 1;
    }
}

/// The position of the first non-space at or after `i`, executably.
fn end_spaces(s: &str, i: usize, n: usize) -> (j: usize)
    requires
        i <= n,
        n == s@.len(),
    ensures
        j as int == scan_spaces(s@, i as int),
        i <= j <= n,
{
    let mut k = i;
    loop
        invariant
            i <= k <= n,
            n == s@.len(),
            scan_spaces(s@, i as int) == scan_spaces(s@, k as int),
        decreases n - k,
    {
        if k == n {
            return k;
        }
        if !(s.get_char(k) == ' ') {
            return k;
        }
        k += 1;
    }
}

/// The position of the first non-letter at or after `i`, executably.
fn end_alpha(s: &str, i: usize, n: usize) -> (j: usize)
    requires
        i <= n,
        n == s@.len(),
    ensures
        j as int == scan_alpha(s@, i as int),
        i <= j <= n,
{
    let mut k = i;
    loop
        invariant
            i <= k <= n,
            n == s@.len(),
            scan_alpha(s@, i as int) == scan_alpha(s@, k as int),
        decreases n - k,
    {
        if k == n {
            return k;
        }
        let c = s.get_char(k);
        let u = c as u32;
        if !((65 <= u && u <= 90) || (97 <= u && u <= 122)) {
            return k;
        }
        k += 1;
    }
}

/// The value of the digit run `s[lo..hi)`, or nothing when it exceeds
/// what an `i64` can hold.
fn digits_value(s: &str, lo: usize, hi: usize) -> (r: Option<i64>)
    requires
        lo <= hi <= s@.len(),
        forall|k: int| lo <= k < hi ==> is_digit(#[trigger] s@[k]),
    ensures
        match r {
            Some(v) => v as int == digits_val(s@, lo as int, hi as int) && v >= 0,
            None => digits_val(s@, lo as int, hi as int) > i64::MAX,
        },
{
    let mut v: i64 = 0;
    let mut k = lo;
    while k < hi
        invariant
            lo <= k <= hi <= s@.len(),
            forall|q: int| lo <= q < hi ==> is_digit(#[trigger] s@[q]),
            v >= 0,
            v as int == digits_val(s@, lo as int, k as int),
        decreases hi - k,
    {
        let c = s.get_char(k);
        let d = (c as u32) - 48;
        let overflowed: bool;
        match v.checked_mul(10) {
            Some(v10) => match v10.checked_add(d as i64) {
                Some(nv) => {
                    v = nv;
                    overflowed = false;
                },
                None => {
                    overflowed = true;
                },
            },
            None => {
                overflowed = true;
            },
        }
        if overflowed {
            proof {
                assert(digits_val(s@, lo as int, k + 1) > i64::MAX);
                lemma_digits_val_mono(s@, lo as int, k + 1, hi as int);
            }
            return None;
        }
        k += 1;
    }
    Some(v)
}

/// The seconds one unit token stands for, or nothing for an unknown unit.
fn unit_value(s: &str, sp: usize, a1: usize) -> (r: Option<i64>)
    requires
        sp <= a1 <= s@.len(),
    ensures
        match r {
            Some(m) => unit_secs(s@.subrange(sp as int, a1 as int)) == Some(m as int) && 1 <= m
                <= 604800,
            None => unit_secs(s@.subrange(sp as int, a1 as int)) is None,
        },
{
    let ghost u = s@.subrange(sp as int, a1 as int);
    if a1 > sp && a1 - sp == 1 {
        let c = s.get_char(sp);
        assert(u[0] == s@[sp as int]);
        if c == 's' {
            Some(1)
        } else if c == 'm' {
            Some(60)
        } else if c == 'h' {
            Some(3600)
        } else if c == 'd' {
            Some(86400)
        } else if c == 'w' {
            Some(604800)
        } else {
            None
        }
    } else {
        assert(u.len() != 1);
        None
    }
}

/// Parses a duration text into a signed number of seconds.
///
/// `"0"` alone is zero seconds. Otherwise the text is scanned for
/// value/unit tokens (`s`, `m`, `h`, `d`, `w`), whose seconds are
/// summed; a leading `-` negates the sum. A text without a token, or
/// with an unknown unit, is rejected with a diagnostic; so is a sum
/// beyond what an `i64` can hold.
pub fn parse(s: &str) -> (r: Result<i64, Error>)
    ensures
        ({
            let sp = spec_parse_duration(s@);
            match r {
                Ok(v) => sp == Ok::<int, Seq<char>>(v as int) && -i64::MAX <= v,
                Err(e) => match sp {
                    Ok(v) => (v > i64::MAX || v < -i64::MAX) && e.message() == dur_err_msg(s@),
                    Err(m) => e.message() == m,
                },
            }
        }),
{
    let n = s.unicode_len();
    if n == 1 && s.get_char(0) == '0' {
        return Ok(0);
    }
    let neg = n > 0 && s.get_char(0) == '-';
    let first = find_digit(s, 0, n);
    if first == n {
        let mut m = String::from_str("invalid duration: '");
        m.append(s);
        m.append("'");
        return Err(Error::ParseError(m));
    }

    let mut acc: i64 = 0;
    let mut over = false;
    let ghost mut gtot: int = 0;
    let mut cur: usize = 0;
    loop
        invariant_except_break
            0 <= cur <= n,
            n == s@.len(),
            acc >= 0,
            !over ==> gtot == acc as int,
            over ==> gtot > i64::MAX,
            gtot >= 0,
            ({
                let pc = parse_from(s@, cur as int);
                let p0 = parse_from(s@, 0);
                match pc {
                    Ok(rest) => rest >= 0 ==> p0 == Ok::<int, Seq<char>>(gtot + rest),
                    Err(e) => p0 == Err::<int, Seq<char>>(e),
                }
            }),
            !(s@.len() == 1 && s@[0] == '0'),
            scan_to_digit(s@, 0) < s@.len(),
            neg == (s@.len() > 0 && s@[0] == '-'),
        ensures
            n == s@.len(),
            acc >= 0,
            !over ==> gtot == acc as int,
            over ==> gtot > i64::MAX,
            parse_from(s@, 0) == Ok::<int, Seq<char>>(gtot),
            !(s@.len() == 1 && s@[0] == '0'),
            scan_to_digit(s@, 0) < s@.len(),
            neg == (s@.len() > 0 && s@[0] == '-'),
        decreases n - cur,
    {
        let d0 = find_digit(s, cur, n);
        proof {
            lemma_parse_from_nonneg(s@, cur as int);
        }
        if d0 == n {
            assert(parse_from(s@, cur as int) == Ok::<int, Seq<char>>(0));
            break;
        }
        let d1 = end_digits(s, d0 + 1, n);
        let sp = end_spaces(s, d1, n);
        let a1 = end_alpha(s, sp, n);
        let ghost unit = s@.subrange(sp as int, a1 as int);
        proof {
            lemma_parse_from_nonneg(s@, a1 as int);
            lemma_scan_digits_all(s@, d0 + 1, d1 as int);
        }
        assert(forall|k: int| d0 <= k < d1 ==> is_digit(#[trigger] s@[k]));
        match unit_value(s, sp, a1) {
            None => {
                let mut m = String::from_str("invalid duration units: '");
                m.append(s.substring_char(sp, a1));
                m.append("'");
                assert(parse_from(s@, cur as int) == Err::<int, Seq<char>>(unit_err_msg(unit)));
                return Err(Error::ParseError(m));
            },
            Some(m) => {
                let ghost dvv = digits_val(s@, d0 as int, d1 as int);
                let ghost rest = parse_from(s@, a1 as int)->Ok_0;
                proof {
                    lemma_digits_val_nonneg(s@, d0 as int, d1 as int);
                    assert(dvv * (m as int) >= dvv) by (nonlinear_arith)
                        requires
                            dvv >= 0,
                            m >= 1,
                    ;
                    if parse_from(s@, a1 as int) is Ok {
                        assert(parse_from(s@, cur as int) == Ok::<int, Seq<char>>(
                            dvv * (m as int) + rest,
                        ));
                    }
                }
                let mut step_over = false;
                match digits_value(s, d0, d1) {
                    None => {
                        step_over = true;
                    },
                    Some(v) => {
                        match v.checked_mul(m) {
                            None => {
                                proof {
                                    assert(v as int * m as int >= 0) by (nonlinear_arith)
                                        requires
                                            v >= 0,
                                            m >= 0,
                                    ;
                                }
                                step_over = true;
                            },
                            Some(tok_secs) => {
                                if over {
                                    proof {
                                        gtot = gtot + dvv * (m as int);
                                    }
                                } else {
                                    match acc.checked_add(tok_secs) {
                                        None => {
                                            over = true;
                                            proof {
                                                gtot = gtot + dvv * (m as int);
                                            }
                                        },
                                        Some(nacc) => {
                                            acc = nacc;
                                            proof {
                                                gtot = gtot + dvv * (m as int);
                                            }
                                        },
                                    }
                                }
                            },
                        }
                    },
                }
                if step_over {
                    over = true;
                    proof {
                        gtot = gtot + dvv * (m as int);
                    }
                }
                cur = a1;
            },
        }
    }
    proof {
        let sign: int = if s@.len() > 0 && s@[0] == '-' {
            -1
        } else {
            1
        };
        if neg {
            assert(sign == -1);
            assert(sign * gtot == -gtot) by (nonlinear_arith)
                requires
                    sign == -1,
            ;
        } else {
            assert(sign == 1);
            assert(sign * gtot == gtot) by (nonlinear_arith)
                requires
                    sign == 1,
            ;
        }
    }
    if over {
        let mut msg = String::from_str("invalid duration: '");
        msg.append(s);
        msg.append("'");
        return Err(Error::ParseError(msg));
    }
    if neg {
        assert(-acc >= -i64::MAX);
        Ok(-acc)
    } else {
        Ok(acc)
    }
}

} // verus!
