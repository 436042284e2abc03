//! Rendering and reading of timestamps: epoch seconds with a UTC offset
//! are shown as `YYYY-MM-DDTHH:MM:SS+HH:MM` in local time, and read back
//! exactly.

use crate::task::{ts_wf, Timestamp, TS_MAX_SECS, TS_MIN_SECS};
use vstd::prelude::*;

verus! {

/// A leap year of the Gregorian calendar.
pub open spec fn is_leap(y: int) -> bool {
    y % 4 == 0 && (y % 100 != 0 || y % 400 == 0)
}

/// The days of a year.
pub open spec fn days_in_year(y: int) -> int {
    if is_leap(y) {
        366
    } else {
        365
    }
}

/// The leap years strictly before `y`.
pub open spec fn leaps_before(y: int) -> int {
    (y - 1) / 4 - (y - 1) / 100 + (y - 1) / 400
}

/// The days from 1970-01-01 to `y`-01-01.
pub open spec fn days_before_year(y: int) -> int {
    365 * (y - 1970) + leaps_before(y) - leaps_before(1970)
}

/// The days of a month (1 through 12).
pub open spec fn days_in_month(y: int, m: int) -> int {
    if m == 2 {
        if is_leap(y) {
            29
        } else {
            28
        }
    } else if m == 4 || m == 6 || m == 9 || m == 11 {
        30
    } else {
        31
    }
}

/// The days from `y`-01-01 to `y`-`m`-01.
pub open spec fn days_before_month(y: int, m: int) -> int {
    let base: int = if m == 1 {
        0
    } else if m == 2 {
        31
    } else if m == 3 {
        59
    } else if m == 4 {
        90
    } else if m == 5 {
        120
    } else if m == 6 {
        151
    } else if m == 7 {
        181
    } else if m == 8 {
        212
    } else if m == 9 {
        243
    } else if m == 10 {
        273
    } else if m == 11 {
        304
    } else {
        334
    };
    base + if m >= 3 && is_leap(y) {
        1int
    } else {
        0
    }
}

/// A calendar date the library supports.
pub open spec fn valid_civil(y: int, m: int, d: int) -> bool {
    1970 <= y <= 9999 && 1 <= m <= 12 && 1 <= d <= days_in_month(y, m)
}

/// The days from 1970-01-01 to the given date.
pub open spec fn civil_to_days(y: int, m: int, d: int) -> int {
    days_before_year(y) + days_before_month(y, m) + (d - 1)
}

/// Stepping to the next year adds exactly that year's days.
pub proof fn lemma_year_step(y: int)
    requires
        y >= 1,
    ensures
        days_before_year(y + 1) == days_before_year(y) + days_in_year(y),
{
    assert(y / 4 - (y - 1) / 4 == if y % 4 == 0 {
        1int
    } else {
        0
    });
    assert(y / 100 - (y - 1) / 100 == if y % 100 == 0 {
        1int
    } else {
        0
    });
    assert(y / 400 - (y - 1) / 400 == if y % 400 == 0 {
        1int
    } else {
        0
    });
    assert(y % 400 == 0 ==> y % 100 == 0 && y % 4 == 0) by {
        if y % 400 == 0 {
            let k = y / 400;
            assert(y == 400 * k);
            assert(400 * k % 100 == 0) by (nonlinear_arith);
            assert(400 * k % 4 == 0) by (nonlinear_arith);
        }
    }
    assert(y % 100 == 0 ==> y % 4 == 0) by {
        if y % 100 == 0 {
            let k = y / 100;
            assert(y == 100 * k);
            assert(100 * k % 4 == 0) by (nonlinear_arith);
        }
    }
}

/// Days-before-year is monotone.
pub proof fn lemma_dby_mono(a: int, b: int)
    requires
        1 <= a <= b,
    ensures
        days_before_year(a) <= days_before_year(b),
        days_before_year(b) - days_before_year(a) >= 365 * (b - a),
    decreases b - a,
{
    if a < b {
        lemma_dby_mono(a, b - 1);
        lemma_year_step(b - 1);
    }
}

/// A date's position within its year stays below the year's length.
pub proof fn lemma_in_year_bound(y: int, m: int, d: int)
    requires
        valid_civil(y, m, d),
    ensures
        0 <= days_before_month(y, m) + (d - 1) < days_in_year(y),
{
}

/// Distinct supported dates lie a distinct number of days from the
/// epoch: the day count determines the date.
pub proof fn lemma_civil_to_days_injective(y1: int, m1: int, d1: int, y2: int, m2: int, d2: int)
    requires
        valid_civil(y1, m1, d1),
        valid_civil(y2, m2, d2),
        civil_to_days(y1, m1, d1) == civil_to_days(y2, m2, d2),
    ensures
        y1 == y2 && m1 == m2 && d1 == d2,
{
    lemma_in_year_bound(y1, m1, d1);
    lemma_in_year_bound(y2, m2, d2);
    if y1 < y2 {
        lemma_year_step(y1);
        lemma_dby_mono(y1 + 1, y2);
        assert(false);
    }
    if y2 < y1 {
        lemma_year_step(y2);
        lemma_dby_mono(y2 + 1, y1);
        assert(false);
    }
}

/// The date of a day count, computed by walking years and months.
pub fn days_to_civil(days: i64) -> (r: (i64, i64, i64))
    requires
        0 <= days <= 2932896,
    ensures
        valid_civil(r.0 as int, r.1 as int, r.2 as int),
        civil_to_days(r.0 as int, r.1 as int, r.2 as int) == days,
{
    let mut y: i64 = 1970;
    let mut rem: i64 = days;
    loop
        invariant_except_break
            1970 <= y,
            rem == days - days_before_year(y as int),
            0 <= rem,
            days <= 2932896,
        ensures
            1970 <= y <= 9999,
            rem == days - days_before_year(y as int),
            0 <= rem < days_in_year(y as int),
        decreases rem,
    {
        let leap = (y % 4 == 0 && (y % 100 != 0 || y % 400 == 0));
        let ylen: i64 = if leap {
            366
        } else {
            365
        };
        assert(ylen == days_in_year(y as int));
        if rem < ylen {
            proof {
                if y > 9999 {
                    lemma_dby_mono(10000, y as int);
                    assert(days_before_year(10000) == 2932897);
                    assert(false);
                }
            }
            break;
        }
        proof {
            lemma_year_step(y as int);
            if y + 1 > 9999 {
                lemma_dby_mono(10000, y as int + 1);
                assert(days_before_year(10000) == 2932897);
                assert(false);
            }
        }
        rem = rem - ylen;
        y = y + 1;
    }
    let leap = (y % 4 == 0 && (y % 100 != 0 || y % 400 == 0));
    let mut m: i64 = 1;
    loop
        invariant_except_break
            1 <= m <= 12,
            1970 <= y <= 9999,
            leap == is_leap(y as int),
            rem == days - days_before_year(y as int) - days_before_month(y as int, m as int),
            0 <= rem,
            days - days_before_year(y as int) < days_in_year(y as int),
        ensures
            1 <= m <= 12,
            1970 <= y <= 9999,
            rem == days - days_before_year(y as int) - days_before_month(y as int, m as int),
            0 <= rem < days_in_month(y as int, m as int),
        decreases 12 - m,
    {
        let mlen: i64 = if m == 2 {
            if leap {
                29
            } else {
                28
            }
        } else if m == 4 || m == 6 || m == 9 || m == 11 {
            30
        } else {
            31
        };
        assert(mlen == days_in_month(y as int, m as int));
        if rem < mlen {
            break;
        }
        assert(m < 12);
        rem = rem - mlen;
        m = m + 1;
    }
    (y, m, rem + 1)
}

/// The day count of a date.
pub fn civil_to_days_exec(y: i64, m: i64, d: i64) -> (r: i64)
    requires
        valid_civil(y as int, m as int, d as int),
    ensures
        r == civil_to_days(y as int, m as int, d as int),
        0 <= r <= 2932896,
{
    let mut acc: i64 = 0;
    let mut yy: i64 = 1970;
    while yy < y
        invariant
            1970 <= yy <= y <= 9999,
            acc == days_before_year(yy as int),
            0 <= acc,
        decreases y - yy,
    {
        let leap = (yy % 4 == 0 && (yy % 100 != 0 || yy % 400 == 0));
        let ylen: i64 = if leap {
            366
        } else {
            365
        };
        proof {
            lemma_year_step(yy as int);
            lemma_dby_mono(yy as int, 10000);
            assert(days_before_year(10000) == 2932897);
        }
        acc = acc + ylen;
        yy = yy + 1;
    }
    let leap = (y % 4 == 0 && (y % 100 != 0 || y % 400 == 0));
    let mbase: i64 = if m == 1 {
        0
    } else if m == 2 {
        31
    } else if m == 3 {
        59
    } else if m == 4 {
        90
    } else if m == 5 {
        120
    } else if m == 6 {
        151
    } else if m == 7 {
        181
    } else if m == 8 {
        212
    } else if m == 9 {
        243
    } else if m == 10 {
        273
    } else if m == 11 {
        304
    } else {
        334
    };
    let madj: i64 = if m >= 3 && leap {
        1
    } else {
        0
    };
    proof {
        lemma_dby_mono(1970, y as int);
        lemma_year_step(y as int);
        lemma_dby_mono(y as int + 1, 10000);
        assert(days_before_year(10000) == 2932897);
        lemma_in_year_bound(y as int, m as int, d as int);
    }
    acc + mbase + madj + d - 1
}

/// The character of one decimal digit.
pub open spec fn digit_char(d: int) -> char {
    if d == 0 {
        '0'
    } else if d == 1 {
        '1'
    } else if d == 2 {
        '2'
    } else if d == 3 {
        '3'
    } else if d == 4 {
        '4'
    } else if d == 5 {
        '5'
    } else if d == 6 {
        '6'
    } else if d == 7 {
        '7'
    } else if d == 8 {
        '8'
    } else {
        '9'
    }
}

/// Two decimal digits.
pub open spec fn dec2(n: int) -> Seq<char> {
    seq![digit_char(n / 10), digit_char(n % 10)]
}

/// The rendered form of a timestamp: the local civil date and time, then
/// the UTC offset.
#[verifier::opaque]
pub open spec fn fmt_ts(ts: Timestamp) -> Seq<char> {
    let civil = ts.secs + ts.offset_minutes * 60;
    let days = civil / 86400;
    let tod = civil % 86400;
    let ymd = spec_civil_of_days(days);
    let off: int = if ts.offset_minutes >= 0 {
        ts.offset_minutes as int
    } else {
        -(ts.offset_minutes as int)
    };
    seq![
        digit_char(ymd.0 / 1000 % 10),
        digit_char(ymd.0 / 100 % 10),
        digit_char(ymd.0 / 10 % 10),
        digit_char(ymd.0 % 10),
        '-',
        digit_char(ymd.1 / 10 % 10),
        digit_char(ymd.1 % 10),
        '-',
        digit_char(ymd.2 / 10 % 10),
        digit_char(ymd.2 % 10),
        'T',
        digit_char(tod / 3600 / 10 % 10),
        digit_char(tod / 3600 % 10),
        ':',
        digit_char(tod / 60 % 60 / 10 % 10),
        digit_char(tod / 60 % 60 % 10),
        ':',
        digit_char(tod % 60 / 10 % 10),
        digit_char(tod % 60 % 10),
        if ts.offset_minutes >= 0 {
            '+'
        } else {
            '-'
        },
        digit_char(off / 60 / 10 % 10),
        digit_char(off / 60 % 10),
        ':',
        digit_char(off % 60 / 10 % 10),
        digit_char(off % 60 % 10),
    ]
}

/// A rendered timestamp is always twenty-five characters.
pub proof fn lemma_fmt_ts_len(ts: Timestamp)
    ensures
        fmt_ts(ts).len() == 25,
{
    reveal(fmt_ts);
}

/// The date lying the given number of days from the epoch.
pub open spec fn spec_civil_of_days(days: int) -> (int, int, int) {
    choose|t: (int, int, int)|
        valid_civil(t.0, t.1, t.2) && #[trigger] civil_to_days(t.0, t.1, t.2) == days
}

/// The day after a date.
pub open spec fn next_day(t: (int, int, int)) -> (int, int, int) {
    if t.2 < days_in_month(t.0, t.1) {
        (t.0, t.1, t.2 + 1)
    } else if t.1 < 12 {
        (t.0, t.1 + 1, 1)
    } else {
        (t.0 + 1, 1, 1)
    }
}

/// Every supported day count belongs to a date, so the date of a day
/// count is well-defined.
pub proof fn lemma_civil_exists(days: int)
    requires
        0 <= days <= 2932896,
    ensures
        ({
            let t = spec_civil_of_days(days);
            valid_civil(t.0, t.1, t.2) && civil_to_days(t.0, t.1, t.2) == days
        }),
    decreases days,
{
    if days == 0 {
        let w = (1970int, 1int, 1int);
        assert(valid_civil(w.0, w.1, w.2) && civil_to_days(w.0, w.1, w.2) == 0);
    } else {
        lemma_civil_exists(days - 1);
        let t = spec_civil_of_days(days - 1);
        let n = next_day(t);
        if t.2 < days_in_month(t.0, t.1) {
            assert(valid_civil(n.0, n.1, n.2) && civil_to_days(n.0, n.1, n.2) == days);
        } else if t.1 < 12 {
            assert(valid_civil(n.0, n.1, n.2) && civil_to_days(n.0, n.1, n.2) == days);
        } else {
            lemma_year_step(t.0);
            if t.0 + 1 > 9999 {
                lemma_dby_mono(10000, t.0 + 1);
                assert(days_before_year(10000) == 2932897);
                assert(false);
            }
            assert(valid_civil(n.0, n.1, n.2) && civil_to_days(n.0, n.1, n.2) == days);
        }
    }
}

/// The value carried by a digit character.
pub open spec fn ts_digit(c: char) -> int {
    c as u32 - 48
}

/// A digit character carries its value.
pub proof fn lemma_digit_char_val(d: int)
    requires
        0 <= d <= 9,
    ensures
        digit_char(d) as u32 == 48 + d,
        crate::simple_duration::is_digit(digit_char(d)),
        ts_digit(digit_char(d)) == d,
{
}

/// The timestamp a rendered text stands for: the civil date and time,
/// an optional fractional-second part (which is dropped), and the UTC
/// offset; nothing when the text is not of that shape or leaves the
/// supported range.
pub open spec fn parse_ts(u: Seq<char>) -> Option<Timestamp> {
    if u.len() < 25 {
        None
    } else if !(crate::simple_duration::is_digit(u[0]) && crate::simple_duration::is_digit(u[1])
        && crate::simple_duration::is_digit(u[2]) && crate::simple_duration::is_digit(u[3])
        && u[4] == '-' && crate::simple_duration::is_digit(u[5])
        && crate::simple_duration::is_digit(u[6]) && u[7] == '-'
        && crate::simple_duration::is_digit(u[8]) && crate::simple_duration::is_digit(u[9])
        && u[10] == 'T' && crate::simple_duration::is_digit(u[11])
        && crate::simple_duration::is_digit(u[12]) && u[13] == ':'
        && crate::simple_duration::is_digit(u[14]) && crate::simple_duration::is_digit(u[15])
        && u[16] == ':' && crate::simple_duration::is_digit(u[17])
        && crate::simple_duration::is_digit(u[18])) {
        None
    } else {
        let k: int = if u[19] == '.' && crate::simple_duration::is_digit(u[20]) {
            crate::simple_duration::scan_digits(u, 20)
        } else {
            19
        };
        if k + 6 != u.len() {
            None
        } else if !((u[k] == '+' || u[k] == '-') && crate::simple_duration::is_digit(u[k + 1])
            && crate::simple_duration::is_digit(u[k + 2]) && u[k + 3] == ':'
            && crate::simple_duration::is_digit(u[k + 4]) && crate::simple_duration::is_digit(
            u[k + 5],
        )) {
            None
        } else {
            let y = ts_digit(u[0]) * 1000 + ts_digit(u[1]) * 100 + ts_digit(u[2]) * 10 + ts_digit(
                u[3],
            );
            let mo = ts_digit(u[5]) * 10 + ts_digit(u[6]);
            let d = ts_digit(u[8]) * 10 + ts_digit(u[9]);
            let h = ts_digit(u[11]) * 10 + ts_digit(u[12]);
            let mi = ts_digit(u[14]) * 10 + ts_digit(u[15]);
            let sec = ts_digit(u[17]) * 10 + ts_digit(u[18]);
            let oh = ts_digit(u[k + 1]) * 10 + ts_digit(u[k + 2]);
            let om = ts_digit(u[k + 4]) * 10 + ts_digit(u[k + 5]);
            if !(valid_civil(y, mo, d) && h <= 23 && mi <= 59 && sec <= 59 && oh <= 23 && om
                <= 59) {
                None
            } else {
                let offm: int = if u[k] == '-' {
                    -(oh * 60 + om)
                } else {
                    oh * 60 + om
                };
                let secs = civil_to_days(y, mo, d) * 86400 + h * 3600 + mi * 60 + sec - offm * 60;
                if TS_MIN_SECS <= secs <= TS_MAX_SECS {
                    Some(Timestamp { secs: secs as i64, offset_minutes: offm as i32 })
                } else {
                    None
                }
            }
        }
    }
}

/// The shape of a rendered timestamp: its length, its punctuation, and
/// the value of each digit.
#[verifier::rlimit(100)]
pub proof fn lemma_fmt_ts_fields(ts: Timestamp)
    requires
        ts_wf(ts),
    ensures
        ({
            let civil = ts.secs + ts.offset_minutes * 60;
            let days = civil / 86400;
            let tod = civil % 86400;
            let ymd = spec_civil_of_days(days);
            let off: int = if ts.offset_minutes >= 0 {
                ts.offset_minutes as int
            } else {
                -(ts.offset_minutes as int)
            };
            let u = fmt_ts(ts);
            &&& u.len() == 25
            &&& crate::simple_duration::is_digit(u[0]) && ts_digit(u[0]) == ymd.0 / 1000 % 10
            &&& crate::simple_duration::is_digit(u[1]) && ts_digit(u[1]) == ymd.0 / 100 % 10
            &&& crate::simple_duration::is_digit(u[2]) && ts_digit(u[2]) == ymd.0 / 10 % 10
            &&& crate::simple_duration::is_digit(u[3]) && ts_digit(u[3]) == ymd.0 % 10
            &&& u[4] == '-'
            &&& crate::simple_duration::is_digit(u[5]) && ts_digit(u[5]) == ymd.1 / 10 % 10
            &&& crate::simple_duration::is_digit(u[6]) && ts_digit(u[6]) == ymd.1 % 10
            &&& u[7] == '-'
            &&& crate::simple_duration::is_digit(u[8]) && ts_digit(u[8]) == ymd.2 / 10 % 10
            &&& crate::simple_duration::is_digit(u[9]) && ts_digit(u[9]) == ymd.2 % 10
            &&& u[10] == 'T'
            &&& crate::simple_duration::is_digit(u[11]) && ts_digit(u[11]) == tod / 3600 / 10 % 10
            &&& crate::simple_duration::is_digit(u[12]) && ts_digit(u[12]) == tod / 3600 % 10
            &&& u[13] == ':'
            &&& crate::simple_duration::is_digit(u[14]) && ts_digit(u[14]) == tod / 60 % 60 / 10
                % 10
            &&& crate::simple_duration::is_digit(u[15]) && ts_digit(u[15]) == tod / 60 % 60 % 10
            &&& u[16] == ':'
            &&& crate::simple_duration::is_digit(u[17]) && ts_digit(u[17]) == tod % 60 / 10 % 10
            &&& crate::simple_duration::is_digit(u[18]) && ts_digit(u[18]) == tod % 60 % 10
            &&& u[19] == (if ts.offset_minutes >= 0 {
                '+'
            } else {
                '-'
            })
            &&& crate::simple_duration::is_digit(u[20]) && ts_digit(u[20]) == off / 60 / 10 % 10
            &&& crate::simple_duration::is_digit(u[21]) && ts_digit(u[21]) == off / 60 % 10
            &&& u[22] == ':'
            &&& crate::simple_duration::is_digit(u[23]) && ts_digit(u[23]) == off % 60 / 10 % 10
            &&& crate::simple_duration::is_digit(u[24]) && ts_digit(u[24]) == off % 60 % 10
        }),
{
    let civil = ts.secs + ts.offset_minutes * 60;
    let days = civil / 86400;
    let tod = civil % 86400;
    let ymd = spec_civil_of_days(days);
    let off: int = if ts.offset_minutes >= 0 {
        ts.offset_minutes as int
    } else {
        -(ts.offset_minutes as int)
    };
    lemma_digit_char_val(ymd.0 / 1000 % 10);
    lemma_digit_char_val(ymd.0 / 100 % 10);
    lemma_digit_char_val(ymd.0 / 10 % 10);
    lemma_digit_char_val(ymd.0 % 10);
    lemma_digit_char_val(ymd.1 / 10 % 10);
    lemma_digit_char_val(ymd.1 % 10);
    lemma_digit_char_val(ymd.2 / 10 % 10);
    lemma_digit_char_val(ymd.2 % 10);
    lemma_digit_char_val(tod / 3600 / 10 % 10);
    lemma_digit_char_val(tod / 3600 % 10);
    lemma_digit_char_val(tod / 60 % 60 / 10 % 10);
    lemma_digit_char_val(tod / 60 % 60 % 10);
    lemma_digit_char_val(tod % 60 / 10 % 10);
    lemma_digit_char_val(tod % 60 % 10);
    lemma_digit_char_val(off / 60 / 10 % 10);
    lemma_digit_char_val(off / 60 % 10);
    lemma_digit_char_val(off % 60 / 10 % 10);
    lemma_digit_char_val(off % 60 % 10);
    reveal(fmt_ts);
}

/// Two digits recompose their value.
proof fn lemma_dec2_val(n: int)
    requires
        0 <= n <= 99,
    ensures
        n / 10 % 10 * 10 + n % 10 == n,
{
}

/// Three digits recompose their value.
#[verifier::rlimit(100)]
pub proof fn lemma_dec3_val(n: int)
    requires
        0 <= n <= 999,
    ensures
        n / 100 * 100 + n / 10 % 10 * 10 + n % 10 == n,
{
}

/// Four digits recompose their value.
#[verifier::rlimit(100)]
proof fn lemma_dec4_val(n: int)
    requires
        0 <= n <= 9999,
    ensures
        n / 1000 % 10 * 1000 + n / 100 % 10 * 100 + n / 10 % 10 * 10 + n % 10 == n,
{
}

/// A time of day splits into hours, minutes and seconds, and they
/// recompose it.
proof fn lemma_tod_split(tod: int)
    requires
        0 <= tod < 86400,
    ensures
        0 <= tod / 3600 <= 23,
        0 <= tod / 60 % 60 <= 59,
        0 <= tod % 60 <= 59,
        3600 * (tod / 3600) + 60 * (tod / 60 % 60) + tod % 60 == tod,
{
    assert(tod / 3600 <= 23) by {
        vstd::arithmetic::div_mod::lemma_div_is_ordered(tod, 86399, 3600);
    }
    assert(tod / 60 / 60 == tod / 3600) by {
        vstd::arithmetic::div_mod::lemma_div_denominator(tod, 60, 60);
    }
    assert(tod == 60 * (tod / 60) + tod % 60);
    assert(tod / 60 == 60 * (tod / 60 / 60) + tod / 60 % 60);
}

/// Reading a rendered timestamp gives back exactly the timestamp.
#[verifier::rlimit(100)]
pub proof fn lemma_ts_round_trip(ts: Timestamp)
    requires
        ts_wf(ts),
    ensures
        parse_ts(fmt_ts(ts)) == Some(ts),
{
    let civil = ts.secs + ts.offset_minutes * 60;
    let days = civil / 86400;
    let tod = civil % 86400;
    assert(0 <= civil <= 253402300739);
    assert(days <= 2932896) by {
        vstd::arithmetic::div_mod::lemma_div_is_ordered(civil, 253402300739, 86400);
    }
    lemma_civil_exists(days);
    lemma_fmt_ts_fields(ts);
    let ymd = spec_civil_of_days(days);
    let u = fmt_ts(ts);
    let off: int = if ts.offset_minutes >= 0 {
        ts.offset_minutes as int
    } else {
        -(ts.offset_minutes as int)
    };
    assert(('+' as u32) == 43 && ('-' as u32) == 45 && ('.' as u32) == 46);
    lemma_dec4_val(ymd.0);
    lemma_dec2_val(ymd.1);
    lemma_dec2_val(ymd.2);
    lemma_tod_split(tod);
    lemma_dec2_val(tod / 3600);
    lemma_dec2_val(tod / 60 % 60);
    lemma_dec2_val(tod % 60);
    lemma_dec2_val(off / 60);
    lemma_dec2_val(off % 60);
    assert(off / 60 <= 23) by {
        vstd::arithmetic::div_mod::lemma_div_is_ordered(off, 1439, 60);
    }
    let offm: int = if ts.offset_minutes < 0 {
        -(off / 60 * 60 + off % 60)
    } else {
        off / 60 * 60 + off % 60
    };
    assert(off / 60 * 60 + off % 60 == off);
    assert(offm == ts.offset_minutes);
    assert(civil == 86400 * days + tod);
    assert(civil_to_days(ymd.0, ymd.1, ymd.2) * 86400 + tod / 3600 * 3600 + tod / 60 % 60 * 60
        + tod % 60 - offm * 60 == ts.secs);
    assert(parse_ts(u) == Some(ts));
}

/// The character of one digit value, executably.
pub fn digit_to_char(v: u64) -> (c: char)
    requires
        v <= 9,
    ensures
        c == digit_char(v as int),
{
    match v {
        0 => '0',
        1 => '1',
        2 => '2',
        3 => '3',
        4 => '4',
        5 => '5',
        6 => '6',
        7 => '7',
        8 => '8',
        _ => '9',
    }
}

/// Appends the civil date: ten characters.
#[verifier::rlimit(100)]
fn push_date(out: &mut Vec<char>, yy: u64, mm: u64, dd: u64)
    ensures
        final(out)@ == old(out)@ + seq![
            digit_char(yy as int / 1000 % 10),
            digit_char(yy as int / 100 % 10),
            digit_char(yy as int / 10 % 10),
            digit_char(yy as int % 10),
            '-',
            digit_char(mm as int / 10 % 10),
            digit_char(mm as int % 10),
            '-',
            digit_char(dd as int / 10 % 10),
            digit_char(dd as int % 10),
        ],
{
    let ghost base = out@;
    out.push(digit_to_char(yy / 1000 % 10));
    assert(out@ =~= base + seq![digit_char(yy as int / 1000 % 10)]);
    out.push(digit_to_char(yy / 100 % 10));
    assert(out@ =~= base + seq![digit_char(yy as int / 1000 % 10), digit_char(yy as int / 100 % 10)]);
    out.push(digit_to_char(yy / 10 % 10));
    assert(out@ =~= base + seq![digit_char(yy as int / 1000 % 10), digit_char(yy as int / 100 % 10), digit_char(yy as int / 10 % 10)]);
    out.push(digit_to_char(yy % 10));
    assert(out@ =~= base + seq![digit_char(yy as int / 1000 % 10), digit_char(yy as int / 100 % 10), digit_char(yy as int / 10 % 10), digit_char(yy as int % 10)]);
    out.push('-');
    assert(out@ =~= base + seq![digit_char(yy as int / 1000 % 10), digit_char(yy as int / 100 % 10), digit_char(yy as int / 10 % 10), digit_char(yy as int % 10), '-']);
    out.push(digit_to_char(mm / 10 % 10));
    assert(out@ =~= base + seq![digit_char(yy as int / 1000 % 10), digit_char(yy as int / 100 % 10), digit_char(yy as int / 10 % 10), digit_char(yy as int % 10), '-', digit_char(mm as int / 10 % 10)]);
    out.push(digit_to_char(mm % 10));
    assert(out@ =~= base + seq![digit_char(yy as int / 1000 % 10), digit_char(yy as int / 100 % 10), digit_char(yy as int / 10 % 10), digit_char(yy as int % 10), '-', digit_char(mm as int / 10 % 10), digit_char(mm as int % 10)]);
    out.push('-');
    assert(out@ =~= base + seq![digit_char(yy as int / 1000 % 10), digit_char(yy as int / 100 % 10), digit_char(yy as int / 10 % 10), digit_char(yy as int % 10), '-', digit_char(mm as int / 10 % 10), digit_char(mm as int % 10), '-']);
    out.push(digit_to_char(dd / 10 % 10));
    assert(out@ =~= base + seq![digit_char(yy as int / 1000 % 10), digit_char(yy as int / 100 % 10), digit_char(yy as int / 10 % 10), digit_char(yy as int % 10), '-', digit_char(mm as int / 10 % 10), digit_char(mm as int % 10), '-', digit_char(dd as int / 10 % 10)]);
    out.push(digit_to_char(dd % 10));
    assert(out@ =~= base + seq![digit_char(yy as int / 1000 % 10), digit_char(yy as int / 100 % 10), digit_char(yy as int / 10 % 10), digit_char(yy as int % 10), '-', digit_char(mm as int / 10 % 10), digit_char(mm as int % 10), '-', digit_char(dd as int / 10 % 10), digit_char(dd as int % 10)]);
}

/// Appends the time of day: nine characters.
#[verifier::rlimit(100)]
fn push_time(out: &mut Vec<char>, h: u64, mi: u64, sec: u64)
    ensures
        final(out)@ == old(out)@ + seq![
            'T',
            digit_char(h as int / 10 % 10),
            digit_char(h as int % 10),
            ':',
            digit_char(mi as int / 10 % 10),
            digit_char(mi as int % 10),
            ':',
            digit_char(sec as int / 10 % 10),
            digit_char(sec as int % 10),
        ],
{
    let ghost base = out@;
    out.push('T');
    assert(out@ =~= base + seq!['T']);
    out.push(digit_to_char(h / 10 % 10));
    assert(out@ =~= base + seq!['T', digit_char(h as int / 10 % 10)]);
    out.push(digit_to_char(h % 10));
    assert(out@ =~= base + seq!['T', digit_char(h as int / 10 % 10), digit_char(h as int % 10)]);
    out.push(':');
    assert(out@ =~= base + seq!['T', digit_char(h as int / 10 % 10), digit_char(h as int % 10), ':']);
    out.push(digit_to_char(mi / 10 % 10));
    assert(out@ =~= base + seq!['T', digit_char(h as int / 10 % 10), digit_char(h as int % 10), ':', digit_char(mi as int / 10 % 10)]);
    out.push(digit_to_char(mi % 10));
    assert(out@ =~= base + seq!['T', digit_char(h as int / 10 % 10), digit_char(h as int % 10), ':', digit_char(mi as int / 10 % 10), digit_char(mi as int % 10)]);
    out.push(':');
    assert(out@ =~= base + seq!['T', digit_char(h as int / 10 % 10), digit_char(h as int % 10), ':', digit_char(mi as int / 10 % 10), digit_char(mi as int % 10), ':']);
    out.push(digit_to_char(sec / 10 % 10));
    assert(out@ =~= base + seq!['T', digit_char(h as int / 10 % 10), digit_char(h as int % 10), ':', digit_char(mi as int / 10 % 10), digit_char(mi as int % 10), ':', digit_char(sec as int / 10 % 10)]);
    out.push(digit_to_char(sec % 10));
    assert(out@ =~= base + seq!['T', digit_char(h as int / 10 % 10), digit_char(h as int % 10), ':', digit_char(mi as int / 10 % 10), digit_char(mi as int % 10), ':', digit_char(sec as int / 10 % 10), digit_char(sec as int % 10)]);
}

/// Appends the UTC offset: a sign and five characters.
#[verifier::rlimit(100)]
fn push_offset(out: &mut Vec<char>, nonneg: bool, off: u64)
    ensures
        final(out)@ == old(out)@ + seq![
            if nonneg {
                '+'
            } else {
                '-'
            },
            digit_char(off as int / 60 / 10 % 10),
            digit_char(off as int / 60 % 10),
            ':',
            digit_char(off as int % 60 / 10 % 10),
            digit_char(off as int % 60 % 10),
        ],
{
    assert(off as int / 60 == (off / 60) as int);
    out.push(if nonneg {
        '+'
    } else {
        '-'
    });
    out.push(digit_to_char(off / 60 / 10 % 10));
    out.push(digit_to_char(off / 60 % 10));
    out.push(':');
    out.push(digit_to_char(off % 60 / 10 % 10));
    out.push(digit_to_char(off % 60 % 10));
    assert(final(out)@ =~= old(out)@ + seq![
        if nonneg {
            '+'
        } else {
            '-'
        },
        digit_char(off as int / 60 / 10 % 10),
        digit_char(off as int / 60 % 10),
        ':',
        digit_char(off as int % 60 / 10 % 10),
        digit_char(off as int % 60 % 10),
    ]);
}

/// Appends the rendered form of a timestamp.
#[verifier::rlimit(100)]
pub fn push_ts(out: &mut Vec<char>, ts: Timestamp)
    requires
        ts_wf(ts),
    ensures
        final(out)@ == old(out)@ + fmt_ts(ts),
{
    let civil: i64 = ts.secs + (ts.offset_minutes as i64) * 60;
    let civ: u64 = civil as u64;
    let days: u64 = civ / 86400;
    let tod: u64 = civ % 86400;
    proof {
        assert(days as int == (ts.secs + ts.offset_minutes * 60) / 86400);
        assert(tod as int == (ts.secs + ts.offset_minutes * 60) % 86400);
        assert(days <= 2932896) by {
            vstd::arithmetic::div_mod::lemma_div_is_ordered(civ as int, 253402300739, 86400);
        }
        lemma_civil_exists(days as int);
    }
    let (y, m, d) = days_to_civil(days as i64);
    proof {
        let t = spec_civil_of_days(days as int);
        lemma_civil_to_days_injective(y as int, m as int, d as int, t.0, t.1, t.2);
    }
    let h: u64 = tod / 3600;
    let mi: u64 = tod / 60 % 60;
    let sec: u64 = tod % 60;
    proof {
        lemma_tod_split(tod as int);
        assert(tod / 60 / 60 == tod / 3600) by {
            vstd::arithmetic::div_mod::lemma_div_denominator(tod as int, 60, 60);
        }
    }
    let nonneg = ts.offset_minutes >= 0;
    let off: u64 = if nonneg {
        ts.offset_minutes as u64
    } else {
        (-(ts.offset_minutes as i64)) as u64
    };
    assert(off <= 1439);
    let ghost mid0 = out@;
    push_date(out, y as u64, m as u64, d as u64);
    push_time(out, h, mi, sec);
    push_offset(out, nonneg, off);
    assert(final(out)@ =~= old(out)@ + fmt_ts(ts)) by {
        reveal(fmt_ts);
    }
}

/// The digit value of a character, or 10 for any other character.
pub fn char_digit(c: char) -> (v: u64)
    ensures
        crate::simple_duration::is_digit(c) ==> v == ts_digit(c) && v <= 9,
        !crate::simple_duration::is_digit(c) ==> v == 10,
{
    let u = c as u32;
    if 48 <= u && u <= 57 {
        (u - 48) as u64
    } else {
        10
    }
}

/// Reads a rendered timestamp, executably.
#[verifier::rlimit(100)]
pub fn parse_ts_exec(u: &Vec<char>) -> (r: Option<Timestamp>)
    ensures
        r == parse_ts(u@),
{
    let n = u.len();
    if n < 25 {
        return None;
    }
    let d0 = char_digit(u[0]);
    let d1 = char_digit(u[1]);
    let d2 = char_digit(u[2]);
    let d3 = char_digit(u[3]);
    let d5 = char_digit(u[5]);
    let d6 = char_digit(u[6]);
    let d8 = char_digit(u[8]);
    let d9 = char_digit(u[9]);
    let d11 = char_digit(u[11]);
    let d12 = char_digit(u[12]);
    let d14 = char_digit(u[14]);
    let d15 = char_digit(u[15]);
    let d17 = char_digit(u[17]);
    let d18 = char_digit(u[18]);
    let structural = d0 <= 9 && d1 <= 9 && d2 <= 9 && d3 <= 9 && u[4] == '-' && d5 <= 9 && d6
        <= 9 && u[7] == '-' && d8 <= 9 && d9 <= 9 && u[10] == 'T' && d11 <= 9 && d12 <= 9 && u[13]
        == ':' && d14 <= 9 && d15 <= 9 && u[16] == ':' && d17 <= 9 && d18 <= 9;
    if !structural {
        return None;
    }
    let k: usize = if u[19] == '.' && char_digit(u[20]) <= 9 {
        let mut j: usize = 20;
        loop
            invariant_except_break
                20 <= j <= n,
                n == u@.len(),
                crate::simple_duration::scan_digits(u@, 20) == crate::simple_duration::scan_digits(
                    u@,
                    j as int,
                ),
            ensures
                20 <= j <= n,
                n == u@.len(),
                j as int == crate::simple_duration::scan_digits(u@, 20),
            decreases n - j,
        {
            if j == n {
                break;
            }
            if char_digit(u[j]) > 9 {
                break;
            }
            j += 1;
        }
        j
    } else {
        19
    };
    if n - k != 6 {
        return None;
    }
    assert(k + 6 == n);
    let sign_ok = u[k] == '+' || u[k] == '-';
    let o1 = char_digit(u[k + 1]);
    let o2 = char_digit(u[k + 2]);
    let o4 = char_digit(u[k + 4]);
    let o5 = char_digit(u[k + 5]);
    if !(sign_ok && o1 <= 9 && o2 <= 9 && u[k + 3] == ':' && o4 <= 9 && o5 <= 9) {
        return None;
    }
    let y: i64 = (d0 * 1000 + d1 * 100 + d2 * 10 + d3) as i64;
    let mo: i64 = (d5 * 10 + d6) as i64;
    let d: i64 = (d8 * 10 + d9) as i64;
    let h: i64 = (d11 * 10 + d12) as i64;
    let mi: i64 = (d14 * 10 + d15) as i64;
    let sec: i64 = (d17 * 10 + d18) as i64;
    let oh: i64 = (o1 * 10 + o2) as i64;
    let om: i64 = (o4 * 10 + o5) as i64;
    let leap = (y % 4 == 0 && (y % 100 != 0 || y % 400 == 0));
    let dim: i64 = if mo == 2 {
        if leap {
            29
        } else {
            28
        }
    } else if mo == 4 || mo == 6 || mo == 9 || mo == 11 {
        30
    } else {
        31
    };
    if !(1970 <= y && y <= 9999 && 1 <= mo && mo <= 12 && 1 <= d && d <= dim && h <= 23 && mi
        <= 59 && sec <= 59 && oh <= 23 && om <= 59) {
        return None;
    }
    assert(dim == days_in_month(y as int, mo as int));
    let days = civil_to_days_exec(y, mo, d);
    let offm: i64 = if u[k] == '-' {
        -(oh * 60 + om)
    } else {
        oh * 60 + om
    };
    let secs: i64 = days * 86400 + h * 3600 + mi * 60 + sec - offm * 60;
    if TS_MIN_SECS <= secs && secs <= TS_MAX_SECS {
        Some(Timestamp { secs, offset_minutes: offm as i32 })
    } else {
        None
    }
}

} // verus!
