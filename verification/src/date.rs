//! Proleptic Gregorian dates: the mathematical model, the `Date` type, and the
//! trusted bridge to `chrono`, which performs the actual date arithmetic.

use chrono::Datelike;
use vstd::prelude::*;

verus! {

/// The earliest year that `chrono::NaiveDate` can represent.
pub const MIN_YEAR: i32 = -262143;

/// The latest year that `chrono::NaiveDate` can represent.
pub const MAX_YEAR: i32 = 262142;

// ── The Gregorian model ──────────────────────────────────────────────────────

pub open spec fn is_leap_year(y: int) -> bool {
    y % 4 == 0 && (y % 100 != 0 || y % 400 == 0)
}

pub open spec fn days_in_year(y: int) -> int {
    if is_leap_year(y) { 366 } else { 365 }
}

pub open spec fn days_in_month(y: int, m: int) -> int {
    if m == 2 {
        if is_leap_year(y) { 29 } else { 28 }
    } else if m == 4 || m == 6 || m == 9 || m == 11 {
        30
    } else {
        31
    }
}

/// Number of days of year `y` that precede the first of month `m` (1..=12);
/// month 13 stands for the first day of the next year.
pub open spec fn days_before_month(y: int, m: int) -> int {
    let leap: int = if is_leap_year(y) { 1 } else { 0 };
    if m <= 1 { 0 }
    else if m == 2 { 31 }
    else if m == 3 { 59 + leap }
    else if m == 4 { 90 + leap }
    else if m == 5 { 120 + leap }
    else if m == 6 { 151 + leap }
    else if m == 7 { 181 + leap }
    else if m == 8 { 212 + leap }
    else if m == 9 { 243 + leap }
    else if m == 10 { 273 + leap }
    else if m == 11 { 304 + leap }
    else if m == 12 { 334 + leap }
    else { 365 + leap }
}

/// Number of days from January 1 of year 1 to January 1 of year `y`
/// (negative for earlier years).
#[verifier::opaque]
pub open spec fn days_before_year(y: int) -> int {
    let p = y - 1;
    365 * p + p / 4 - p / 100 + p / 400
}

/// A calendar date that exists and that `chrono::NaiveDate` can represent.
pub open spec fn valid_ymd(y: int, m: int, d: int) -> bool {
    &&& MIN_YEAR <= y <= MAX_YEAR
    &&& 1 <= m <= 12
    &&& 1 <= d <= days_in_month(y, m)
}

/// Day of the year, 1 for January 1.
pub open spec fn ordinal_of(y: int, m: int, d: int) -> int {
    days_before_month(y, m) + d
}

/// Days since January 1 of year 1 (day 0, a Monday).
pub open spec fn day_number_of(y: int, m: int, d: int) -> int {
    days_before_year(y) + ordinal_of(y, m, d) - 1
}

/// Day of the week of a day number: 0 = Monday … 6 = Sunday.
pub open spec fn weekday_of_number(n: int) -> int {
    n % 7
}

/// The first day that `chrono::NaiveDate` can represent, as a day number.
pub open spec fn first_day_number() -> int {
    day_number_of(MIN_YEAR as int, 1, 1)
}

/// The last day that `chrono::NaiveDate` can represent, as a day number.
pub open spec fn last_day_number() -> int {
    day_number_of(MAX_YEAR as int, 12, 31)
}

pub open spec fn representable(n: int) -> bool {
    first_day_number() <= n <= last_day_number()
}

/// The Monday that starts ISO week 1 of year `y`: the Monday on or before January 4.
pub open spec fn iso_week_one_start(y: int) -> int {
    let jan4 = day_number_of(y, 1, 4);
    jan4 - weekday_of_number(jan4)
}

/// The ISO 8601 week-numbering year of a day number `n` in calendar year `y`.
pub open spec fn iso_week_year(y: int, n: int) -> int {
    if n < iso_week_one_start(y) {
        y - 1
    } else if n >= iso_week_one_start(y + 1) {
        y + 1
    } else {
        y
    }
}

/// ISO 8601 week number of day number `n` in calendar year `y`.
pub open spec fn iso_week_of(y: int, n: int) -> int {
    (n - iso_week_one_start(iso_week_year(y, n))) / 7 + 1
}

/// English name of a weekday (0 = Monday).
pub open spec fn weekday_full_name(w: int) -> Seq<char> {
    if w == 0 { "Monday"@ }
    else if w == 1 { "Tuesday"@ }
    else if w == 2 { "Wednesday"@ }
    else if w == 3 { "Thursday"@ }
    else if w == 4 { "Friday"@ }
    else if w == 5 { "Saturday"@ }
    else { "Sunday"@ }
}

// ── Facts about the model ────────────────────────────────────────────────────

pub proof fn lemma_days_before_year_step(y: int)
    ensures
        days_before_year(y + 1) == days_before_year(y) + days_in_year(y),
{
    reveal(days_before_year);
    let p = y - 1;
    assert(y / 4 - p / 4 == if y % 4 == 0 { 1int } else { 0int });
    assert(y / 100 - p / 100 == if y % 100 == 0 { 1int } else { 0int });
    assert(y / 400 - p / 400 == if y % 400 == 0 { 1int } else { 0int });
}

pub proof fn lemma_days_before_month_step(y: int, m: int)
    requires
        1 <= m <= 12,
    ensures
        days_before_month(y, m + 1) == days_before_month(y, m) + days_in_month(y, m),
        days_before_month(y, 13) == days_in_year(y),
{
}

/// Day numbers of consecutive years meet: December 31 is followed by January 1.
pub proof fn lemma_year_boundary(y: int)
    ensures
        day_number_of(y, 12, 31) + 1 == day_number_of(y + 1, 1, 1),
        ordinal_of(y, 12, 31) == days_in_year(y),
{
    lemma_days_before_year_step(y);
}

/// Later years start later.
pub proof fn lemma_days_before_year_monotone(a: int, b: int)
    requires
        a <= b,
    ensures
        days_before_year(a) + days_in_year(a) * (if a < b { 1int } else { 0int }) <= days_before_year(b),
    decreases b - a,
{
    if a < b {
        lemma_days_before_year_step(a);
        lemma_days_before_year_monotone(a + 1, b);
    }
}

/// On valid dates, day numbers follow the (year, month, day) order.
pub proof fn lemma_day_number_lex(y1: int, m1: int, d1: int, y2: int, m2: int, d2: int)
    requires
        valid_ymd(y1, m1, d1),
        valid_ymd(y2, m2, d2),
        y1 < y2 || (y1 == y2 && m1 < m2) || (y1 == y2 && m1 == m2 && d1 < d2),
    ensures
        day_number_of(y1, m1, d1) < day_number_of(y2, m2, d2),
{
    lemma_days_before_month_step(y1, m1);
    if y1 < y2 {
        lemma_days_before_year_monotone(y1, y2);
        assert(days_before_month(y1, m1) + days_in_month(y1, m1) <= days_in_year(y1));
    } else if m1 < m2 {
        assert(days_before_month(y1, m1) + days_in_month(y1, m1) <= days_before_month(y1, m2));
    }
}

/// Two valid dates with the same day number are the same date.
pub proof fn lemma_day_number_injective(y1: int, m1: int, d1: int, y2: int, m2: int, d2: int)
    requires
        valid_ymd(y1, m1, d1),
        valid_ymd(y2, m2, d2),
        day_number_of(y1, m1, d1) == day_number_of(y2, m2, d2),
    ensures
        y1 == y2 && m1 == m2 && d1 == d2,
{
    if y1 < y2 || (y1 == y2 && m1 < m2) || (y1 == y2 && m1 == m2 && d1 < d2) {
        lemma_day_number_lex(y1, m1, d1, y2, m2, d2);
    } else if y2 < y1 || (y1 == y2 && m2 < m1) || (y1 == y2 && m1 == m2 && d2 < d1) {
        lemma_day_number_lex(y2, m2, d2, y1, m1, d1);
    }
}

/// A valid date lies in month `m` of year `y` exactly when its day number lies
/// between those of the first and the last day of that month.
pub proof fn lemma_in_month_iff_between(y: int, m: int, yd: int, md: int, dd: int)
    requires
        valid_ymd(y, m, 1),
        valid_ymd(yd, md, dd),
    ensures
        (yd == y && md == m) <==> (day_number_of(y, m, 1) <= day_number_of(yd, md, dd)
            <= day_number_of(y, m, days_in_month(y, m))),
{
    let last = days_in_month(y, m);
    if yd == y && md == m {
        if dd > 1 { lemma_day_number_lex(y, m, 1, yd, md, dd); }
        if dd < last { lemma_day_number_lex(yd, md, dd, y, m, last); }
    } else if yd < y || (yd == y && md < m) {
        lemma_day_number_lex(yd, md, dd, y, m, 1);
    } else {
        lemma_day_number_lex(y, m, last, yd, md, dd);
    }
}

// ── The Date type ────────────────────────────────────────────────────────────

/// A calendar date in the proleptic Gregorian calendar, within the range that
/// `chrono::NaiveDate` supports.
#[derive(Clone, Copy, Debug)]
pub struct Date {
    year: i32,
    month: u32,
    day: u32,
}

impl Date {
    pub closed spec fn spec_year(&self) -> i32 {
        self.year
    }

    pub closed spec fn spec_month(&self) -> u32 {
        self.month
    }

    pub closed spec fn spec_day(&self) -> u32 {
        self.day
    }

    /// Every `Date` names a day that exists and that chrono can represent.
    #[verifier::type_invariant]
    pub open spec fn wf(&self) -> bool {
        valid_ymd(self.spec_year() as int, self.spec_month() as int, self.spec_day() as int)
    }

    pub open spec fn day_number(&self) -> int {
        day_number_of(self.spec_year() as int, self.spec_month() as int, self.spec_day() as int)
    }

    pub open spec fn ordinal(&self) -> int {
        ordinal_of(self.spec_year() as int, self.spec_month() as int, self.spec_day() as int)
    }

    pub open spec fn weekday(&self) -> int {
        weekday_of_number(self.day_number())
    }

    #[verifier::when_used_as_spec(spec_year)]
    pub fn year(&self) -> (r: i32)
        ensures
            r == self.spec_year(),
    {
        self.year
    }

    #[verifier::when_used_as_spec(spec_month)]
    pub fn month(&self) -> (r: u32)
        ensures
            r == self.spec_month(),
    {
        self.month
    }

    #[verifier::when_used_as_spec(spec_day)]
    pub fn day(&self) -> (r: u32)
        ensures
            r == self.spec_day(),
    {
        self.day
    }

    /// The date `year-month-day`, or `None` when no such day exists or chrono
    /// cannot represent it.
    pub fn from_ymd_opt(year: i32, month: u32, day: u32) -> (r: Option<Date>)
        ensures
            r is Some <==> valid_ymd(year as int, month as int, day as int),
            r matches Some(date) ==> date.year() == year && date.month() == month
                && date.day() == day,
    {
        if chrono_date_exists(year, month, day) {
            Some(Date { year, month, day })
        } else {
            None
        }
    }
}

// ── Trusted bridge to chrono ─────────────────────────────────────────────────

/// `chrono::NaiveDate::from_ymd_opt(y, m, d).is_some()`: chrono documents that it
/// returns `None` exactly for days that do not exist, for invalid months and
/// days, and for years outside `MIN_YEAR..=MAX_YEAR`.
#[verifier::external_body]
fn chrono_date_exists(y: i32, m: u32, d: u32) -> (r: bool)
    ensures
        r == valid_ymd(y as int, m as int, d as int),
{
    chrono::NaiveDate::from_ymd_opt(y, m, d).is_some()
}

/// `NaiveDate::ordinal`: chrono documents it as the day of the year starting from 1.
#[verifier::external_body]
pub(crate) fn chrono_ordinal(date: Date) -> (r: u32)
    ensures
        r == date.ordinal(),
{
    chrono::NaiveDate::from_ymd_opt(date.year, date.month, date.day).unwrap().ordinal()
}

/// `NaiveDate::weekday().num_days_from_monday()`: the day of the week, Monday = 0
/// … Sunday = 6, in the proleptic Gregorian calendar where January 1 of year 1
/// is a Monday.
#[verifier::external_body]
pub(crate) fn chrono_weekday_from_monday(date: Date) -> (r: u32)
    ensures
        r == date.weekday(),
{
    chrono::NaiveDate::from_ymd_opt(date.year, date.month, date.day).unwrap().weekday()
        .num_days_from_monday()
}

/// `NaiveDate::iso_week().week()`: the ISO 8601 week number, counted from the
/// Monday on or before January 4 of the ISO week-numbering year.
#[verifier::external_body]
pub(crate) fn chrono_iso_week(date: Date) -> (r: u32)
    ensures
        r == iso_week_of(date.year() as int, date.day_number()),
{
    chrono::NaiveDate::from_ymd_opt(date.year, date.month, date.day).unwrap().iso_week().week()
}

/// `(a - b).num_days()` on `NaiveDate`s: the signed number of days from `b` to `a`.
#[verifier::external_body]
pub(crate) fn chrono_days_between(a: Date, b: Date) -> (r: i64)
    ensures
        r == a.day_number() - b.day_number(),
{
    let na = chrono::NaiveDate::from_ymd_opt(a.year, a.month, a.day).unwrap();
    let nb = chrono::NaiveDate::from_ymd_opt(b.year, b.month, b.day).unwrap();
    (na - nb).num_days()
}

/// `date + chrono::Duration::days(n)`: the date `n` days later (earlier for a
/// negative `n`); chrono panics when that date is out of its range.
#[verifier::external_body]
pub(crate) fn chrono_add_days(date: Date, n: i64) -> (r: Date)
    requires
        representable(date.day_number() + n),
    ensures
        r.wf(),
        r.day_number() == date.day_number() + n,
{
    let nd = chrono::NaiveDate::from_ymd_opt(date.year, date.month, date.day).unwrap()
        + chrono::Duration::days(n);
    Date { year: nd.year(), month: nd.month(), day: nd.day() }
}

/// `a > b` on `NaiveDate`s, which chrono orders chronologically.
#[verifier::external_body]
pub(crate) fn chrono_is_after(a: Date, b: Date) -> (r: bool)
    ensures
        r == (a.day_number() > b.day_number()),
{
    let na = chrono::NaiveDate::from_ymd_opt(a.year, a.month, a.day).unwrap();
    let nb = chrono::NaiveDate::from_ymd_opt(b.year, b.month, b.day).unwrap();
    na > nb
}

/// `date.format("%A").to_string()`: chrono's `%A` is the full English weekday name.
#[verifier::external_body]
pub(crate) fn chrono_weekday_name(date: Date) -> (r: String)
    ensures
        r@ == weekday_full_name(date.weekday()),
{
    chrono::NaiveDate::from_ymd_opt(date.year, date.month, date.day).unwrap().format("%A")
        .to_string()
}

} // verus!
