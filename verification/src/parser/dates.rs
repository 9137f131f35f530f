//! Relative dates on task lines (`today`, `tomorrow`, `+3d`, `-1w`, ...),
//! resolved against a given day; the calendar arithmetic is chrono's.

use vstd::prelude::*;
use chrono::Datelike;
use crate::cli::content::{all_digits, digits_value, lemma_digits_grow, lemma_digits_nonneg};
use crate::text::{chars_of, digit_char, is_ascii_digit, same_chars, str_lowercase, to_lowercase};

verus! {

/// The text of an optional string.
pub open spec fn opt_date_text(o: Option<String>) -> Option<Seq<char>> {
    match o {
        Some(t) => Some(t@),
        None => None,
    }
}

/// The `%Y-%m-%d` text chrono writes for the date with this year, month
/// and day; none when there is no such date.
pub uninterp spec fn ymd_text(y: i32, m: u32, d: u32) -> Option<Seq<char>>;

/// The date `n` days after the given one, as chrono computes it; none when
/// the given date does not exist or the result is out of chrono's range.
pub uninterp spec fn ymd_plus_days(y: i32, m: u32, d: u32, n: i64) -> Option<(i32, u32, u32)>;

/// The date `n` weeks after the given one, as chrono computes it; none when
/// the given date does not exist or the result is out of chrono's range.
pub uninterp spec fn ymd_plus_weeks(y: i32, m: u32, d: u32, n: i64) -> Option<(i32, u32, u32)>;

/// Whether chrono parses the text as a date in the format `%Y-%m-%d`.
pub uninterp spec fn iso_date_parses(s: Seq<char>) -> bool;

/// A leap year of the proleptic Gregorian calendar.
pub open spec fn is_leap_year(y: int) -> bool {
    y % 4 == 0 && (y % 100 != 0 || y % 400 == 0)
}

/// The number of days of month `m` of year `y`.
pub open spec fn days_in_month(y: int, m: int) -> int {
    if m == 2 {
        if is_leap_year(y) {
            29
        } else {
            28
        }
    } else if m == 4 || m == 6 || m == 9 || m == 11 {
        30
    } else {
        31
    }
}

/// A calendar date that chrono's `NaiveDate` can hold (from January 1,
/// 262144 BCE to December 31, 262142 CE).
pub open spec fn valid_ymd(y: i32, m: u32, d: u32) -> bool {
    -262143 <= y <= 262142 && 1 <= m <= 12 && 1 <= d <= days_in_month(y as int, m as int)
}

/// A number below 10000 as four decimal digits.
pub open spec fn four_digits(v: int) -> Seq<char> {
    seq![
        digit_char((v / 1000) as nat),
        digit_char((v / 100 % 10) as nat),
        digit_char((v / 10 % 10) as nat),
        digit_char((v % 10) as nat),
    ]
}

/// A number below 100 as two decimal digits.
pub open spec fn two_digits(v: int) -> Seq<char> {
    seq![digit_char((v / 10) as nat), digit_char((v % 10) as nat)]
}

/// `NaiveDate::from_ymd_opt`, then `format("%Y-%m-%d")` written out. As
/// chrono documents, a date exists exactly when it is a valid calendar date
/// in `NaiveDate`'s range, and a year from 0 to 9999 is written with four
/// digits, month and day with two. The text of other years is left to the
/// name `ymd_text`.
#[verifier::external_body]
fn date_text(date: (i32, u32, u32)) -> (r: Option<String>)
    ensures
        opt_date_text(r) == ymd_text(date.0, date.1, date.2),
        r is Some <==> valid_ymd(date.0, date.1, date.2),
        match r {
            Some(x) => 0 <= date.0 <= 9999 ==> x@ == four_digits(date.0 as int) + seq!['-'] + two_digits(date.1 as int)
                + seq!['-'] + two_digits(date.2 as int),
            None => true,
        },
{
    chrono::NaiveDate::from_ymd_opt(date.0, date.1, date.2).map(|x| x.format("%Y-%m-%d").to_string())
}

/// `NaiveDate::from_ymd_opt`, `TimeDelta::try_days` and
/// `NaiveDate::checked_add_signed`; the result by year, month and day.
#[verifier::external_body]
fn date_plus_days(date: (i32, u32, u32), n: i64) -> (r: Option<(i32, u32, u32)>)
    ensures
        r == ymd_plus_days(date.0, date.1, date.2, n),
{
    chrono::NaiveDate::from_ymd_opt(date.0, date.1, date.2).and_then(
        |x| chrono::TimeDelta::try_days(n).and_then(|t| x.checked_add_signed(t)),
    ).map(|x| (x.year(), x.month(), x.day()))
}

/// `NaiveDate::from_ymd_opt`, `TimeDelta::try_weeks` and
/// `NaiveDate::checked_add_signed`; the result by year, month and day.
#[verifier::external_body]
fn date_plus_weeks(date: (i32, u32, u32), n: i64) -> (r: Option<(i32, u32, u32)>)
    ensures
        r == ymd_plus_weeks(date.0, date.1, date.2, n),
{
    chrono::NaiveDate::from_ymd_opt(date.0, date.1, date.2).and_then(
        |x| chrono::TimeDelta::try_weeks(n).and_then(|t| x.checked_add_signed(t)),
    ).map(|x| (x.year(), x.month(), x.day()))
}

/// Whether `NaiveDate::parse_from_str(s, "%Y-%m-%d")` succeeds.
#[verifier::external_body]
fn iso_date(s: &str) -> (r: bool)
    ensures
        r == iso_date_parses(s@),
{
    chrono::NaiveDate::parse_from_str(s, "%Y-%m-%d").is_ok()
}

/// `str::parse::<i64>`: an optional `+` or `-`, then one or more ASCII
/// digits, whose value fits in `i64`.
pub open spec fn parse_i64_spec(t: Seq<char>) -> Option<int> {
    let neg = t.len() > 0 && t[0] == '-';
    let d = if t.len() > 0 && (t[0] == '+' || t[0] == '-') {
        t.drop_first()
    } else {
        t
    };
    if d.len() > 0 && all_digits(d) && digits_value(d) <= (if neg {
        0x8000_0000_0000_0000int
    } else {
        0x7fff_ffff_ffff_ffffint
    }) {
        Some(
            if neg {
                -digits_value(d)
            } else {
                digits_value(d)
            },
        )
    } else {
        None
    }
}

/// Parse `s[lo..hi]` as `str::parse::<i64>` does.
pub fn parse_i64(s: &Vec<char>, lo: usize, hi: usize) -> (r: Option<i64>)
    requires
        lo <= hi <= s@.len(),
    ensures
        match parse_i64_spec(s@.subrange(lo as int, hi as int)) {
            Some(v) => r matches Some(x) && x as int == v,
            None => r is None,
        },
{
    let ghost t = s@.subrange(lo as int, hi as int);
    let neg = lo < hi && s[lo] == '-';
    let start: usize = if lo < hi && (s[lo] == '+' || s[lo] == '-') {
        lo + 1
    } else {
        lo
    };
    let ghost d = if t.len() > 0 && (t[0] == '+' || t[0] == '-') {
        t.drop_first()
    } else {
        t
    };
    assert(d =~= s@.subrange(start as int, hi as int));
    if start >= hi {
        return None;
    }
    let limit: u128 = if neg {
        0x8000_0000_0000_0000
    } else {
        0x7fff_ffff_ffff_ffff
    };
    let mut v: u128 = 0;
    let mut i: usize = start;
    while i < hi
        invariant
            lo <= start <= i <= hi <= s@.len(),
            t == s@.subrange(lo as int, hi as int),
            d == s@.subrange(start as int, hi as int),
            neg == (t.len() > 0 && t[0] == '-'),
            d == (if t.len() > 0 && (t[0] == '+' || t[0] == '-') {
                t.drop_first()
            } else {
                t
            }),
            limit == (if neg {
                0x8000_0000_0000_0000int
            } else {
                0x7fff_ffff_ffff_ffffint
            }),
            forall|k: int| start <= k < i ==> is_ascii_digit(#[trigger] s@[k]),
            v as int == digits_value(s@.subrange(start as int, i as int)),
            v <= limit,
        decreases hi - i,
    {
        let c = s[i];
        assert(s@.subrange(start as int, i + 1).drop_last() =~= s@.subrange(start as int, i as int));
        if !('0' <= c && c <= '9') {
            assert(d[i - start] == c);
            assert(!all_digits(d));
            return None;
        }
        let dv = (c as u32 - '0' as u32) as u128;
        v = v * 10 + dv;
        i = i + 1;
        if v > limit {
            proof {
                assert(d.subrange(0, i - start) =~= s@.subrange(start as int, i as int));
                if all_digits(d) {
                    lemma_digits_grow(d, i - start);
                }
            }
            return None;
        }
    }
    proof {
        assert(all_digits(d));
        lemma_digits_nonneg(d);
    }
    if neg {
        let r = (0 - (v as i128)) as i64;
        Some(r)
    } else {
        Some(v as i64)
    }
}

/// What a shifted date gives: its text, or none when chrono could not
/// compute it (there the calendar arithmetic panics).
pub open spec fn shifted(o: Option<(i32, u32, u32)>) -> Option<Option<Seq<char>>> {
    match o {
        Some(t) => Some(ymd_text(t.0, t.1, t.2)),
        None => None,
    }
}

/// The outcome of an offset `+Nd`, `-Nw`, `+Nm` (a month being 30 days):
/// none when the text is no such offset or its number does not parse; the
/// outer `None` of the outcome where the arithmetic overflows; an inner
/// `None` for an unknown unit.
pub open spec fn offset_outcome(l: Seq<char>, today: (i32, u32, u32)) -> Option<Option<Option<Seq<char>>>> {
    if l.len() >= 3 && (l[0] == '+' || l[0] == '-') {
        let off = l.drop_first();
        let unit = off.last();
        match parse_i64_spec(off.drop_last()) {
            Some(a) => {
                let neg = l[0] == '-';
                let n = if neg {
                    -a
                } else {
                    a
                };
                if n > i64::MAX {
                    Some(None)
                } else if unit == 'd' {
                    Some(shifted(ymd_plus_days(today.0, today.1, today.2, n as i64)))
                } else if unit == 'w' {
                    Some(shifted(ymd_plus_weeks(today.0, today.1, today.2, n as i64)))
                } else if unit == 'm' {
                    if n * 30 < i64::MIN || n * 30 > i64::MAX {
                        Some(None)
                    } else {
                        Some(shifted(ymd_plus_days(today.0, today.1, today.2, (n * 30) as i64)))
                    }
                } else {
                    Some(Some(None))
                }
            },
            None => None,
        }
    } else {
        None
    }
}

/// A relative date resolved against `today` (year, month, day): `today`,
/// `tomorrow`, `yesterday` and offsets (ignoring case), else the text
/// itself when it is an ISO date, else nothing. The outer `None` marks the
/// inputs on which the computation would panic: an offset whose last
/// character is not ASCII, or calendar arithmetic that overflows.
pub open spec fn relative_date(s: Seq<char>, today: (i32, u32, u32)) -> Option<Option<Seq<char>>> {
    let l = str_lowercase(s);
    if l == "today"@ {
        Some(ymd_text(today.0, today.1, today.2))
    } else if l == "tomorrow"@ {
        shifted(ymd_plus_days(today.0, today.1, today.2, 1))
    } else if l == "yesterday"@ {
        shifted(ymd_plus_days(today.0, today.1, today.2, -1i64))
    } else if l.len() >= 2 && (l[0] == '+' || l[0] == '-') && (l.last() as u32) >= 128 {
        None
    } else {
        match offset_outcome(l, today) {
            Some(x) => x,
            None => Some(
                if iso_date_parses(s) {
                    Some(s)
                } else {
                    None
                },
            ),
        }
    }
}

fn shifted_text(o: Option<(i32, u32, u32)>) -> (r: Option<Option<String>>)
    ensures
        match shifted(o) {
            Some(x) => r matches Some(y) && opt_date_text(y) == x,
            None => r is None,
        },
{
    match o {
        Some(t) => Some(date_text(t)),
        None => None,
    }
}

/// Resolve a relative date against `today` (see [`relative_date`]); `None`
/// where the computation would panic, otherwise the resolved date, if any.
pub fn resolve_relative_date(date_str: &str, today: (i32, u32, u32)) -> (r: Option<Option<String>>)
    ensures
        match relative_date(date_str@, today) {
            Some(x) => r matches Some(y) && opt_date_text(y) == x,
            None => r is None,
        },
{
    let l = chars_of(to_lowercase(date_str).as_str());
    let n = l.len();
    if same_chars(l.as_slice(), chars_of("today").as_slice()) {
        return Some(date_text(today));
    }
    if same_chars(l.as_slice(), chars_of("tomorrow").as_slice()) {
        return shifted_text(date_plus_days(today, 1));
    }
    if same_chars(l.as_slice(), chars_of("yesterday").as_slice()) {
        return shifted_text(date_plus_days(today, -1));
    }
    if n >= 2 && (l[0] == '+' || l[0] == '-') && (l[n - 1] as u32) >= 128 {
        return None;
    }
    if n >= 3 && (l[0] == '+' || l[0] == '-') {
        let ghost off = l@.drop_first();
        assert(off.drop_last() =~= l@.subrange(1, n - 1));
        assert(off.last() == l@[n - 1]);
        match parse_i64(&l, 1, n - 1) {
            Some(a) => {
                let unit = l[n - 1];
                let neg = l[0] == '-';
                let amount: i64 = if neg {
                    if a == i64::MIN {
                        return None;
                    }
                    -a
                } else {
                    a
                };
                if unit == 'd' {
                    return shifted_text(date_plus_days(today, amount));
                } else if unit == 'w' {
                    return shifted_text(date_plus_weeks(today, amount));
                } else if unit == 'm' {
                    match amount.checked_mul(30) {
                        Some(days) => {
                            return shifted_text(date_plus_days(today, days));
                        },
                        None => {
                            return None;
                        },
                    }
                } else {
                    return Some(None);
                }
            },
            None => {},
        }
    }
    if iso_date(date_str) {
        Some(Some(date_str.to_string()))
    } else {
        Some(None)
    }
}

/// Resolve a relative date against `today` (year, month, day): `today`,
/// `tomorrow`, `yesterday`, offsets such as `+3d`, `-1w` or `+2m` (a month
/// being 30 days), or an ISO date as it is; nothing for anything else.
pub fn parse_relative_date(date_str: &str, today: (i32, u32, u32)) -> (r: Option<String>)
    requires
        relative_date(date_str@, today) is Some,
    ensures
        opt_date_text(r) == relative_date(date_str@, today)->0,
{
    match resolve_relative_date(date_str, today) {
        Some(x) => x,
        None => None,
    }
}

} // verus!
