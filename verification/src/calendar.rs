//! Calendar dates: reading, writing and comparing them, and today's date.
//! Parsing, formatting, date arithmetic and the clock are chrono's.
use vstd::prelude::*;
use chrono::Datelike;
use crate::text::{nat_digits, padded_digits};

verus! {

/// A calendar date of the proleptic Gregorian calendar.
#[derive(Debug, Clone, Copy, PartialEq, Eq, Structural)]
pub struct Date {
    pub year: i32,
    pub month: u32,
    pub day: u32,
}

pub open spec fn is_leap_year(y: int) -> bool {
    (y % 4 == 0 && y % 100 != 0) || y % 400 == 0
}

pub open spec fn days_in_month(y: int, m: int) -> int {
    if m == 2 {
        if is_leap_year(y) { 29 } else { 28 }
    } else if m == 4 || m == 6 || m == 9 || m == 11 {
        30
    } else {
        31
    }
}

/// A date that `chrono::NaiveDate` can hold: years -262143 to 262142, a
/// month of the year and a day of that month.
pub open spec fn valid_date(d: Date) -> bool {
    &&& -262143 <= d.year <= 262142
    &&& 1 <= d.month <= 12
    &&& 1 <= d.day <= days_in_month(d.year as int, d.month as int)
}

/// The number of the day counted from 1970-01-01.
pub open spec fn day_number(d: Date) -> int {
    let y = if d.month <= 2 { d.year - 1 } else { d.year as int };
    let era = y / 400;
    let yoe = y - era * 400;
    let mp = if d.month > 2 { d.month - 3 } else { d.month + 9 };
    let doy = (153 * mp + 2) / 5 + d.day - 1;
    let doe = yoe * 365 + yoe / 4 - yoe / 100 + doy;
    era * 146097 + doe - 719468
}

/// `a` is the same day as `b` or a later one.
pub open spec fn on_or_after(a: Date, b: Date) -> bool {
    a.year > b.year || (a.year == b.year && (a.month > b.month || (a.month == b.month && a.day
        >= b.day)))
}

/// The date `chrono::NaiveDate::parse_from_str` reads from text `s` in
/// format `fmt`, if any.
pub uninterp spec fn parsed_date(s: Seq<char>, fmt: Seq<char>) -> Option<Date>;

/// `chrono::NaiveDate::parse_from_str(s, fmt)`, with the date read back as
/// year, month and day. Claimed: the result is the named parse of the two
/// texts, and a parsed date is one chrono can hold.
#[verifier::external_body]
pub(crate) fn parse_date(s: &str, fmt: &str) -> (r: Option<Date>)
    ensures
        r == parsed_date(s@, fmt@),
        r matches Some(d) ==> valid_date(d),
{
    match chrono::NaiveDate::parse_from_str(s, fmt) {
        Ok(d) => Some(Date { year: d.year(), month: d.month(), day: d.day() }),
        Err(_) => None,
    }
}

/// The year as chrono writes `%Y`: four digits, zero-padded, for the
/// years 0 to 9999; otherwise a sign and at least four digits.
pub open spec fn year_text(y: int) -> Seq<char> {
    if 0 <= y <= 9999 {
        padded_digits(y as nat, 4)
    } else {
        let a: nat = if y < 0 { (-y) as nat } else { y as nat };
        (if y < 0 { seq!['-'] } else { seq!['+'] }) + if a < 10000 {
            padded_digits(a, 4)
        } else {
            nat_digits(a)
        }
    }
}

/// The ISO text of a date as chrono writes "%Y-%m-%d": the year (see
/// `year_text`), then the month and the day on two digits, joined by '-'.
pub open spec fn iso_text(d: Date) -> Seq<char> {
    year_text(d.year as int) + seq!['-'] + padded_digits(d.month as nat, 2) + seq!['-']
        + padded_digits(d.day as nat, 2)
}

/// `chrono::NaiveDate::format(fmt)` written out with `to_string`, for the
/// ISO format "%Y-%m-%d" (another format could make `to_string` panic).
/// Claimed: the text is the year as chrono's `write_year` writes it (four
/// zero-padded digits for the years 0 to 9999, otherwise a sign and at
/// least four digits), then the month and the day, each zero-padded to two
/// digits, joined by '-'.
#[verifier::external_body]
pub(crate) fn format_date(d: Date, fmt: &str) -> (r: String)
    requires
        valid_date(d),
        fmt@ == "%Y-%m-%d"@,
    ensures
        r@ == iso_text(d),
{
    chrono::NaiveDate::from_ymd_opt(d.year, d.month, d.day).unwrap().format(fmt).to_string()
}

/// `chrono::Local::now().date_naive()`: today's date on this machine's
/// clock and time zone. Claimed: only that it is a date chrono can hold.
#[verifier::external_body]
pub(crate) fn local_today() -> (r: Date)
    ensures
        valid_date(r),
{
    let d = chrono::Local::now().date_naive();
    Date { year: d.year(), month: d.month(), day: d.day() }
}

/// `(later - earlier).num_days()` on chrono dates: the signed number of days
/// from `earlier` to `later`. Claimed: it is the difference of their day
/// numbers.
#[verifier::external_body]
pub(crate) fn days_between(later: Date, earlier: Date) -> (r: i64)
    requires
        valid_date(later),
        valid_date(earlier),
    ensures
        r == day_number(later) - day_number(earlier),
{
    (chrono::NaiveDate::from_ymd_opt(later.year, later.month, later.day).unwrap()
        - chrono::NaiveDate::from_ymd_opt(earlier.year, earlier.month, earlier.day).unwrap()).num_days()
}

/// `a` is the same day as `b` or a later one.
pub fn is_on_or_after(a: Date, b: Date) -> (r: bool)
    ensures
        r == on_or_after(a, b),
{
    a.year > b.year || (a.year == b.year && (a.month > b.month || (a.month == b.month && a.day
        >= b.day)))
}

/// The first day of the month after `y`-`m`.
pub open spec fn next_month_start(y: int, m: int) -> Date {
    if m == 12 {
        Date { year: (y + 1) as i32, month: 1, day: 1 }
    } else {
        Date { year: y as i32, month: (m + 1) as u32, day: 1 }
    }
}

/// Stepping a number up by one moves its quotient by `d` up by one exactly
/// when the new number is a multiple of `d`.
proof fn lemma_step_div(x: int, d: int)
    requires
        d > 0,
    ensures
        (x + 1) / d - x / d == if (x + 1) % d == 0 { 1int } else { 0int },
        (x + 1) % d == if x % d == d - 1 { 0int } else { x % d + 1 },
{
    let q = x / d;
    let r = x % d;
    vstd::arithmetic::div_mod::lemma_fundamental_div_mod(x, d);
    vstd::arithmetic::div_mod::lemma_mod_bound(x, d);
    assert((q + 1) * d == d * q + d && q * d == d * q) by (nonlinear_arith);
    if r == d - 1 {
        vstd::arithmetic::div_mod::lemma_fundamental_div_mod_converse(x + 1, d, q + 1, 0);
    } else {
        vstd::arithmetic::div_mod::lemma_fundamental_div_mod_converse(x + 1, d, q, r + 1);
    }
}

proof fn lemma_march_follows_february(z: int)
    ensures
        ({
            let y2 = z + 1;
            let era = z / 400;
            let yoe = z - era * 400;
            let era2 = y2 / 400;
            let yoe2 = y2 - era2 * 400;
            (era2 * 146097 + yoe2 * 365 + yoe2 / 4 - yoe2 / 100) - (era * 146097 + yoe * 365 + yoe
                / 4 - yoe / 100 + 337) == if is_leap_year(y2) { 29int } else { 28int }
        }),
{
    let y2 = z + 1;
    let era = z / 400;
    let yoe = z - era * 400;
    vstd::arithmetic::div_mod::lemma_fundamental_div_mod(z, 400);
    vstd::arithmetic::div_mod::lemma_mod_bound(z, 400);
    assert(yoe == z % 400);
    lemma_step_div(z, 400);
    let w = yoe + 1;
    if yoe == 399 {
        assert(y2 / 400 == era + 1);
        assert(y2 % 400 == 0);
    } else {
        assert(y2 / 400 == era);
        lemma_step_div(yoe, 4);
        lemma_step_div(yoe, 100);
        vstd::arithmetic::div_mod::lemma_fundamental_div_mod(w, 4);
        vstd::arithmetic::div_mod::lemma_mod_bound(w, 4);
        vstd::arithmetic::div_mod::lemma_fundamental_div_mod_converse(y2, 4, 100 * era + w / 4, w % 4);
        vstd::arithmetic::div_mod::lemma_fundamental_div_mod(w, 100);
        vstd::arithmetic::div_mod::lemma_mod_bound(w, 100);
        vstd::arithmetic::div_mod::lemma_fundamental_div_mod_converse(y2, 100, 4 * era + w / 100, w % 100);
        vstd::arithmetic::div_mod::lemma_fundamental_div_mod_converse(y2, 400, era, w);
        assert(y2 % 4 == w % 4);
        assert(y2 % 100 == w % 100);
        assert(y2 % 400 == w);
    }
}

/// Day numbers count days: 1970-01-01 is day 0, each day of a month is one
/// more than the day before, and the first of the next month comes one day
/// after the month's last day.
pub proof fn law_day_number_counts_days(d: Date)
    requires
        valid_date(d),
    ensures
        day_number(Date { year: 1970, month: 1, day: 1 }) == 0,
        d.day < days_in_month(d.year as int, d.month as int) ==> day_number(
            Date { day: (d.day + 1) as u32, ..d },
        ) == day_number(d) + 1,
        d.day == days_in_month(d.year as int, d.month as int) && d.year < 262142 ==> day_number(
            next_month_start(d.year as int, d.month as int),
        ) == day_number(d) + 1,
{
    let y = d.year as int;
    let m = d.month as int;
    if d.day == days_in_month(y, m) && d.year < 262142 {
        if m == 2 {
            lemma_march_follows_february(y - 1);
        } else if m == 12 {
        } else {
        }
    }
}

} // verus!
