//! Week numbering, month grids, labels and month navigation.

use vstd::prelude::*;
use crate::date::{
    Date, MAX_YEAR, MIN_YEAR, chrono_add_days, chrono_days_between, chrono_is_after, chrono_iso_week,
    chrono_ordinal, chrono_weekday_from_monday, day_number_of, days_in_month, first_day_number,
    iso_week_of, iso_week_one_start, weekday_full_name, lemma_day_number_lex, lemma_days_before_month_step,
    lemma_year_boundary, representable, valid_ymd, weekday_of_number,
};

verus! {

// ── Week configuration ───────────────────────────────────────────────────────

/// Everything that controls how weeks are numbered.
/// `first_day`: 1 = Monday … 7 = Sunday.
/// `min_days`:  1 = simple (Jan 1 is always week 1), 4 = ISO-style boundary.
#[derive(Clone, Copy, Debug)]
pub struct WeekConfig {
    pub first_day: u8,
    pub min_days: u8,
}

impl Default for WeekConfig {
    /// The standard ISO configuration: weeks start on Monday, week 1 holds at
    /// least four days of the new year.
    fn default() -> (r: Self)
        ensures
            r.first_day == 1 && r.min_days == 4,
    {
        WeekConfig { first_day: 1, min_days: 4 }
    }
}

/// The standard ISO week configuration: Monday first, at least four days in week 1.
pub open spec fn iso_config() -> WeekConfig {
    WeekConfig { first_day: 1, min_days: 4 }
}

pub open spec fn is_iso_config(cfg: WeekConfig) -> bool {
    cfg.first_day == 1 && cfg.min_days == 4
}

/// The configured first day of the week as a weekday index (0 = Monday);
/// `first_day` is read modulo 7, so 7 and 0 both stand for Sunday.
pub open spec fn first_weekday(cfg: WeekConfig) -> int {
    (cfg.first_day - 1) % 7
}

/// How many days into its display week day number `n` falls.
pub open spec fn offset_in_week(n: int, cfg: WeekConfig) -> int {
    (weekday_of_number(n) - first_weekday(cfg)) % 7
}

/// The day number on which week 1 of year `y` starts: the start of the display
/// week holding January 1 when at least `min_days` of that week fall in `y`,
/// otherwise the start of the following week.
#[verifier::opaque]
pub open spec fn week_one_start(y: int, cfg: WeekConfig) -> int {
    let jan1 = day_number_of(y, 1, 1);
    let off = offset_in_week(jan1, cfg);
    jan1 - off + (if 7 - off >= cfg.min_days { 0int } else { 7int })
}

/// The week number of day number `n`, which lies in calendar year `y`.
///
/// Simple mode (`min_days == 1`) counts display weeks from the one holding
/// January 1, with no spill-over between years. Otherwise a day before week 1
/// of its year carries the week number of December 31 of the previous year, a
/// day on or after week 1 of the next year is in week 1, and any other day is
/// counted in whole weeks from week 1 of its own year.
pub open spec fn week_number_of(y: int, n: int, cfg: WeekConfig) -> int {
    let jan1 = day_number_of(y, 1, 1);
    if cfg.min_days == 1 {
        (n - (jan1 - offset_in_week(jan1, cfg))) / 7 + 1
    } else if n < week_one_start(y, cfg) {
        (day_number_of(y - 1, 12, 31) - week_one_start(y - 1, cfg)) / 7 + 1
    } else if n >= week_one_start(y + 1, cfg) {
        1
    } else {
        (n - week_one_start(y, cfg)) / 7 + 1
    }
}

pub open spec fn week_number(date: Date, cfg: WeekConfig) -> int {
    week_number_of(date.year() as int, date.day_number(), cfg)
}

/// The inputs on which the week-number computation stays within chrono's range.
/// Outside the ISO and simple configurations, a day before week 1 of its year
/// looks at December 31 of the previous year, and any other day at January 1
/// of the next year.
pub open spec fn week_number_in_range_of(y: int, n: int, cfg: WeekConfig) -> bool {
    !is_iso_config(cfg) && cfg.min_days != 1 ==> {
        &&& n >= week_one_start(y, cfg) ==> y < MAX_YEAR
        &&& n < week_one_start(y, cfg) ==> y > MIN_YEAR
    }
}

pub open spec fn week_number_in_range(date: Date, cfg: WeekConfig) -> bool {
    week_number_in_range_of(date.year() as int, date.day_number(), cfg)
}

/// Week 1 of year `y` in terms of its January 1 and that day's offset.
pub proof fn lemma_week_one_start_value(y: int, cfg: WeekConfig)
    ensures
        week_one_start(y, cfg) == day_number_of(y, 1, 1) - offset_in_week(day_number_of(y, 1, 1), cfg)
            + (if 7 - offset_in_week(day_number_of(y, 1, 1), cfg) >= cfg.min_days { 0int } else { 7int }),
        0 <= offset_in_week(day_number_of(y, 1, 1), cfg) < 7,
{
    reveal(week_one_start);
}

// ── Simple calculations ──────────────────────────────────────────────────────

/// Day 1 = January 1, day 366 = December 31 of a leap year.
pub fn day_of_year(date: Date) -> (r: u32)
    ensures
        r == date.ordinal(),
        1 <= r <= crate::date::days_in_year(date.year() as int),
        date.month() == 1 && date.day() == 1 ==> r == 1,
        date.month() == 12 && date.day() == 31 ==> r == crate::date::days_in_year(date.year() as int),
{
    proof {
        use_type_invariant(&date);
        crate::date::lemma_days_before_month_step(date.year() as int, date.month() as int);
        lemma_year_boundary(date.year() as int);
    }
    chrono_ordinal(date)
}

/// Pair weeks into fortnights: weeks 1-2 → biweek 1, weeks 3-4 → biweek 2, …
pub fn compute_biweek_number(week: u32) -> (r: u32)
    requires
        week < u32::MAX,
    ensures
        r == (week + 1) / 2,
{
    (week + 1) / 2
}

/// Weeks `2k - 1` and `2k` form biweek `k`.
pub proof fn lemma_biweek_pairs(k: int)
    requires
        k >= 1,
    ensures
        (2 * k - 1 + 1) / 2 == k,
        (2 * k + 1) / 2 == k,
{
}

// ── Week number ──────────────────────────────────────────────────────────────

/// The weekday index of `cfg.first_day`, as `first_weekday` states it.
pub(crate) fn first_weekday_index(cfg: WeekConfig) -> (r: i64)
    ensures
        r == first_weekday(cfg),
        0 <= r < 7,
{
    if cfg.first_day == 0 { 6 } else { ((cfg.first_day - 1) % 7) as i64 }
}

/// Compute the week number for `date` according to `cfg`.
#[verifier::rlimit(60)]
pub fn compute_week_number(date: Date, cfg: WeekConfig) -> (r: u32)
    requires
        week_number_in_range(date, cfg),
    ensures
        r == week_number(date, cfg),
        1 <= r <= 54,
    decreases date.day_number() - first_day_number(),
{
    proof {
        use_type_invariant(&date);
        lemma_week_number_bounds(date.year() as int, date.month() as int, date.day() as int, cfg);
    }
    // Fast path: standard ISO Monday-based weeks via chrono's built-in.
    if cfg.first_day == 1 && cfg.min_days == 4 {
        let w = chrono_iso_week(date);
        proof { lemma_iso_config_is_iso_week(date.year() as int, date.day_number(), date.month() as int, date.day() as int); }
        return w;
    }
    let year = date.year();
    let jan1 = Date::from_ymd_opt(year, 1, 1).unwrap();
    let first = first_weekday_index(cfg);
    let jan1_wd = chrono_weekday_from_monday(jan1) as i64;
    // How many days into the first display-week does Jan 1 fall?
    let jan1_offset = (jan1_wd + 7 - first) % 7;
    // 0-based day-of-year (Jan 1 = 0).
    let doy = chrono_days_between(date, jan1);
    proof {
        use_type_invariant(&jan1);
        assert(jan1_offset == offset_in_week(jan1.day_number(), cfg));
        lemma_week_one_start_value(year as int, cfg);
        lemma_days_before_month_step(year as int, 1);
        if date.day_number() != jan1.day_number() {
            lemma_day_number_lex(year as int, 1, 1, year as int, date.month() as int, date.day() as int);
        }
        assert(0 <= doy < 366);
    }

    // ── Simple mode: no year-boundary spillover ──
    if cfg.min_days == 1 {
        return ((doy + jan1_offset) / 7 + 1) as u32;
    }

    // ── ISO-style mode ──
    let days_in_first_partial: i64 = if jan1_offset > 0 { 7 - jan1_offset } else { 7 };
    let week: i64;
    if days_in_first_partial >= cfg.min_days as i64 {
        week = (doy + jan1_offset) / 7 + 1;
    } else {
        if doy < days_in_first_partial {
            // The date falls in the short leading fragment, which belongs to
            // the last week of the previous year.
            let dec31_prev = Date::from_ymd_opt(year - 1, 12, 31).unwrap();
            proof {
                use_type_invariant(&dec31_prev);
                lemma_year_boundary(year - 1);
                lemma_week_one_start_value(year - 1, cfg);
                if year - 1 > MIN_YEAR || dec31_prev.month() > 1 {
                    lemma_day_number_lex(MIN_YEAR as int, 1, 1, year - 1, 12, 31);
                }
            }
            return compute_week_number(dec31_prev, cfg);
        }
        week = (doy - days_in_first_partial) / 7 + 1;
    }

    // Check whether this date has already crossed into next year's week 1.
    let next_jan1 = Date::from_ymd_opt(year + 1, 1, 1).unwrap();
    let next_wd = chrono_weekday_from_monday(next_jan1) as i64;
    let next_offset = (next_wd + 7 - first) % 7;
    let next_days_in_first: i64 = if next_offset > 0 { 7 - next_offset } else { 7 };
    proof {
        use_type_invariant(&next_jan1);
        lemma_year_boundary(year as int);
        lemma_week_one_start_value(year + 1, cfg);
    }
    if next_days_in_first >= cfg.min_days as i64 {
        let week1_start_doy = chrono_days_between(next_jan1, jan1) - next_offset;
        if doy >= week1_start_doy {
            return 1;
        }
    }
    week as u32
}

// ── Calendar grid ────────────────────────────────────────────────────────────

/// Day number of the first cell of the month grid: the configured first day of
/// the week on or before the first of the month.
pub open spec fn month_grid_start(year: int, month: int, cfg: WeekConfig) -> int {
    let first = day_number_of(year, month, 1);
    first - offset_in_week(first, cfg)
}

/// Day number of the last day of the month.
pub open spec fn month_last_day(year: int, month: int) -> int {
    day_number_of(year, month, days_in_month(year, month))
}

/// Number of display weeks of the month grid: as many as it takes to reach the
/// last day of the month.
pub open spec fn month_grid_rows(year: int, month: int, cfg: WeekConfig) -> int {
    (month_last_day(year, month) - month_grid_start(year, month, cfg)) / 7 + 1
}

/// The months whose grid chrono can represent: the month exists, the first
/// of the next month exists, and the grid does not start before chrono's
/// first day.
pub open spec fn month_weeks_in_range(year: int, month: int, cfg: WeekConfig) -> bool {
    &&& valid_ymd(year, month, 1)
    &&& month == 12 ==> year < MAX_YEAR
    &&& representable(month_grid_start(year, month, cfg))
}

/// Some day of the display week lies in month `month` of `year`.
pub open spec fn week_touches_month(week: [Date; 7], year: int, month: int) -> bool {
    exists|j: int| 0 <= j < 7 && (#[trigger] week[j]).year() == year && week[j].month() == month
}

/// Some cell of the grid is day `d` of month `month` of `year`.
pub open spec fn grid_holds_day(weeks: Seq<[Date; 7]>, year: int, month: int, d: int) -> bool {
    exists|i: int, j: int|
        0 <= i < weeks.len() && 0 <= j < 7 && (#[trigger] weeks[i][j]).year() == year
            && weeks[i][j].month() == month && weeks[i][j].day() == d
}

/// Cells of a month grid lie within a week of the month, so a cell whose month
/// number is the grid's month lies in the grid's year too.
pub proof fn lemma_near_month_same_year(year: int, month: int, cy: int, cm: int, cd: int)
    requires
        valid_ymd(year, month, 1),
        valid_ymd(cy, cm, cd),
        cm == month,
        day_number_of(year, month, 1) - 7 < day_number_of(cy, cm, cd) < month_last_day(year, month) + 7,
    ensures
        cy == year,
{
    let first = day_number_of(year, month, 1);
    let last = month_last_day(year, month);
    if cy < year {
        let dim_c = days_in_month(cy, month);
        let dim_p = days_in_month(year - 1, month);
        if cd < dim_c { lemma_day_number_lex(cy, month, cd, cy, month, dim_c); }
        if cy < year - 1 { lemma_day_number_lex(cy, month, dim_c, year - 1, month, dim_p); }
        lemma_days_before_month_step(year - 1, month);
        lemma_year_boundary(year - 1);
        if month < 12 {
            lemma_day_number_lex(year - 1, month + 1, 8, year, month, 1);
        } else {
            lemma_day_number_lex(year, 1, 8, year, month, 1);
        }
    } else if cy > year {
        if cd > 1 { lemma_day_number_lex(cy, month, 1, cy, month, cd); }
        if cy > year + 1 { lemma_day_number_lex(year + 1, month, 1, cy, month, 1); }
        lemma_days_before_month_step(year, month);
        lemma_year_boundary(year);
        if month < 12 {
            lemma_day_number_lex(year, month + 1, 8, year + 1, month, 1);
        } else {
            lemma_day_number_lex(year + 1, 1, 8, year + 1, month, 1);
        }
    }
}

/// The last day of a month, seven days on, is still a day chrono can represent.
pub proof fn lemma_month_end_room(year: int, month: int)
    requires
        valid_ymd(year, month, 1),
        month == 12 ==> year < MAX_YEAR,
    ensures
        month_last_day(year, month) + 7 <= crate::date::last_day_number(),
        day_number_of(year, month, 1) <= month_last_day(year, month),
{
    lemma_days_before_month_step(year, month);
    lemma_year_boundary(year);
    if month < 12 {
        if year < MAX_YEAR || month + 1 < 12 {
            lemma_day_number_lex(year, month + 1, 7, MAX_YEAR as int, 12, 24);
        }
    } else {
        lemma_year_boundary(year + 1);
        if year + 1 < MAX_YEAR {
            lemma_day_number_lex(year + 1, 1, 7, MAX_YEAR as int, 12, 24);
        } else {
            lemma_days_before_month_step(year + 1, 1);
            lemma_days_before_month_step(year + 1, 12);
        }
    }
    crate::date::lemma_days_before_year_step(MAX_YEAR as int);
    lemma_days_before_month_step(MAX_YEAR as int, 12);
}

/// The last day of the month `year-month`.
fn last_day_of_month(year: i32, month: u32) -> (r: Date)
    requires
        valid_ymd(year as int, month as int, 1),
        month == 12 ==> year < MAX_YEAR,
    ensures
        r.day_number() == month_last_day(year as int, month as int),
{
    let (y, m) = if month == 12 { (year + 1, 1) } else { (year, month + 1) };
    proof {
        lemma_days_before_month_step(year as int, month as int);
        lemma_year_boundary(year as int);
        lemma_month_end_room(year as int, month as int);
        if month == 12 {
            lemma_day_number_lex(MIN_YEAR as int, 1, 1, y as int, 1, 1);
        } else if year > MIN_YEAR || month > 1 {
            lemma_day_number_lex(MIN_YEAR as int, 1, 1, year as int, month as int, 1);
        }
    }
    let next_first = Date::from_ymd_opt(y, m, 1).unwrap();
    chrono_add_days(next_first, -1)
}

/// Build the calendar grid for a month: each element is one display-week,
/// each week is exactly 7 consecutive dates, starting on the configured first
/// day of the week. Dates that belong to adjacent months are included so week
/// numbers can be computed correctly; callers check the month before rendering
/// a cell.
pub fn month_weeks(year: i32, month: u32, cfg: WeekConfig) -> (weeks: Vec<[Date; 7]>)
    requires
        month_weeks_in_range(year as int, month as int, cfg),
    ensures
        weeks.len() == month_grid_rows(year as int, month as int, cfg),
        forall|i: int, j: int|
            0 <= i < weeks.len() && 0 <= j < 7 ==> (#[trigger] weeks[i][j]).day_number()
                == month_grid_start(year as int, month as int, cfg) + 7 * i + j
                && weeks[i][j].wf(),
        // Every display week starts on the configured first day of the week.
        forall|i: int| 0 <= i < weeks.len() ==> (#[trigger] weeks[i][0]).weekday() == first_weekday(cfg),
        // A month spans four to six display weeks.
        4 <= weeks.len() <= 6,
        // A cell belongs to the month exactly when it lies between its first and last day.
        forall|i: int, j: int|
            0 <= i < weeks.len() && 0 <= j < 7 ==> ((#[trigger] weeks[i][j]).year() == year
                && weeks[i][j].month() == month <==> day_number_of(year as int, month as int, 1)
                <= weeks[i][j].day_number() <= month_last_day(year as int, month as int)),
        // Every display week holds at least one day of the month.
        forall|i: int|
            0 <= i < weeks.len() ==> #[trigger] week_touches_month(weeks[i], year as int, month as int),
        // Every day of the month appears in the grid.
        forall|d: int|
            1 <= d <= days_in_month(year as int, month as int) ==> #[trigger] grid_holds_day(
                weeks@, year as int, month as int, d),
{
    let first = Date::from_ymd_opt(year, month, 1).unwrap();
    let last = last_day_of_month(year, month);
    let fi = first_weekday_index(cfg);
    let first_wd = chrono_weekday_from_monday(first) as i64;
    let back = (first_wd + 7 - fi) % 7;
    let ghost gs = month_grid_start(year as int, month as int, cfg);
    let ghost end = month_last_day(year as int, month as int);
    proof {
        lemma_month_end_room(year as int, month as int);
        assert(back == offset_in_week(first.day_number(), cfg));
    }
    let grid_start = chrono_add_days(first, -back);
    let mut weeks: Vec<[Date; 7]> = Vec::new();
    let mut cursor = grid_start;

    loop
        invariant_except_break
            cursor.day_number() <= end,
        invariant
            representable(gs),
            end + 7 <= crate::date::last_day_number(),
            last.day_number() == end,
            gs <= day_number_of(year as int, month as int, 1) <= end,
            cursor.day_number() == gs + 7 * weeks.len(),
            forall|i: int, j: int|
                0 <= i < weeks.len() && 0 <= j < 7 ==> (#[trigger] weeks[i][j]).day_number()
                    == gs + 7 * i + j && weeks[i][j].wf(),
        ensures
            cursor.day_number() > end,
            cursor.day_number() <= end + 7,
        decreases end - cursor.day_number(),
    {
        let week: [Date; 7] = [
            chrono_add_days(cursor, 0),
            chrono_add_days(cursor, 1),
            chrono_add_days(cursor, 2),
            chrono_add_days(cursor, 3),
            chrono_add_days(cursor, 4),
            chrono_add_days(cursor, 5),
            chrono_add_days(cursor, 6),
        ];
        let ghost old_weeks = weeks@;
        weeks.push(week);
        proof {
            assert forall|i: int, j: int|
                0 <= i < weeks.len() && 0 <= j < 7 implies (#[trigger] weeks[i][j]).day_number()
                    == gs + 7 * i + j && weeks[i][j].wf() by {
                if i < old_weeks.len() {
                    assert(weeks[i] == old_weeks[i]);
                }
            }
        }
        cursor = chrono_add_days(cursor, 7);
        // Keep going as long as any day in the upcoming week is still in this month.
        if chrono_is_after(cursor, last) {
            break;
        }
    }
    proof {
        lemma_month_grid_facts(year as int, month as int, cfg, weeks@);
        assert forall|i: int| 0 <= i < weeks.len() implies (#[trigger] weeks[i][0]).weekday()
            == first_weekday(cfg) by {
            lemma_week_start_aligned(gs + 7 * i, cfg);
        }
    }
    weeks
}

/// What the grid's day numbers imply about its cells.
proof fn lemma_month_grid_facts(year: int, month: int, cfg: WeekConfig, weeks: Seq<[Date; 7]>)
    requires
        valid_ymd(year, month, 1),
        weeks.len() == month_grid_rows(year, month, cfg),
        forall|i: int, j: int|
            0 <= i < weeks.len() && 0 <= j < 7 ==> (#[trigger] weeks[i][j]).day_number()
                == month_grid_start(year, month, cfg) + 7 * i + j && weeks[i][j].wf(),
    ensures
        4 <= weeks.len() <= 6,
        forall|i: int, j: int|
            0 <= i < weeks.len() && 0 <= j < 7 ==> ((#[trigger] weeks[i][j]).year() == year
                && weeks[i][j].month() == month <==> day_number_of(year, month, 1)
                <= weeks[i][j].day_number() <= month_last_day(year, month)),
        forall|i: int|
            0 <= i < weeks.len() ==> #[trigger] week_touches_month(weeks[i], year, month),
        forall|d: int|
            1 <= d <= days_in_month(year, month) ==> #[trigger] grid_holds_day(weeks, year, month, d),
{
    let gs = month_grid_start(year, month, cfg);
    let first = day_number_of(year, month, 1);
    let end = month_last_day(year, month);
    let dim = days_in_month(year, month);
    assert(end == first + dim - 1);
    assert(0 <= first - gs < 7);
    assert forall|i: int, j: int|
        0 <= i < weeks.len() && 0 <= j < 7 implies ((#[trigger] weeks[i][j]).year() == year
            && weeks[i][j].month() == month <==> first <= weeks[i][j].day_number() <= end) by {
        let c = weeks[i][j];
        crate::date::lemma_in_month_iff_between(year, month, c.year() as int, c.month() as int,
            c.day() as int);
    }
    assert forall|i: int| 0 <= i < weeks.len() implies #[trigger] week_touches_month(weeks[i], year, month) by {
        let j = if i == 0 { first - gs } else { 0 };
        assert(first <= weeks[i][j].day_number() <= end);
        assert(weeks[i][j].year() == year && weeks[i][j].month() == month);
    }
    assert forall|d: int| 1 <= d <= dim implies #[trigger] grid_holds_day(weeks, year, month, d) by {
        let k = first + d - 1 - gs;
        let i = k / 7;
        let j = k % 7;
        let c = weeks[i][j];
        assert(c.day_number() == first + d - 1);
        assert(c.year() == year && c.month() == month);
        crate::date::lemma_day_number_injective(year, month, d, c.year() as int, c.month() as int,
            c.day() as int);
        assert(weeks[i][j].year() == year && weeks[i][j].month() == month && weeks[i][j].day() == d);
    }
}

// ── Labels ───────────────────────────────────────────────────────────────────

/// Two-letter abbreviation of a weekday (0 = Monday … 6 = Sunday).
pub open spec fn day_abbrev_of(w: int) -> Seq<char> {
    if w == 0 { "Mo"@ }
    else if w == 1 { "Tu"@ }
    else if w == 2 { "We"@ }
    else if w == 3 { "Th"@ }
    else if w == 4 { "Fr"@ }
    else if w == 5 { "Sa"@ }
    else { "Su"@ }
}

/// Two-letter abbreviation of a weekday (0 = Monday … 6 = Sunday).
fn day_abbrev(w: usize) -> (r: &'static str)
    requires
        w < 7,
    ensures
        r@ == day_abbrev_of(w as int),
{
    match w {
        0 => "Mo",
        1 => "Tu",
        2 => "We",
        3 => "Th",
        4 => "Fr",
        5 => "Sa",
        _ => "Su",
    }
}

/// Two-letter day abbreviations starting from `first_day` (1 = Monday).
pub fn day_names(first_day: u8) -> (r: [&'static str; 7])
    requires
        first_day >= 1,
    ensures
        forall|k: int| 0 <= k < 7 ==> (#[trigger] r[k])@ == day_abbrev_of((first_day - 1 + k) % 7),
{
    let idx = ((first_day - 1) % 7) as usize;
    [
        day_abbrev(idx % 7),
        day_abbrev((idx + 1) % 7),
        day_abbrev((idx + 2) % 7),
        day_abbrev((idx + 3) % 7),
        day_abbrev((idx + 4) % 7),
        day_abbrev((idx + 5) % 7),
        day_abbrev((idx + 6) % 7),
    ]
}

/// Name of the configured first day of the week.
pub open spec fn first_day_name(first_day: int) -> Seq<char> {
    if 1 <= first_day <= 7 { weekday_full_name(first_day - 1) } else { "Unknown"@ }
}

/// Human-readable description of a week-numbering scheme.
pub open spec fn view_label_of(cfg: WeekConfig) -> Seq<char> {
    if is_iso_config(cfg) {
        "ISO Week"@
    } else {
        first_day_name(cfg.first_day as int) + " "@ + (if cfg.min_days == 1 { "Simple"@ } else {
            "ISO-like"@
        })
    }
}

/// Human-readable description of the week-numbering scheme.
pub fn view_label(cfg: WeekConfig) -> (r: String)
    ensures
        r@ == view_label_of(cfg),
{
    if cfg.first_day == 1 && cfg.min_days == 4 {
        return String::from_str("ISO Week");
    }
    let day_name = match cfg.first_day {
        1 => "Monday",
        2 => "Tuesday",
        3 => "Wednesday",
        4 => "Thursday",
        5 => "Friday",
        6 => "Saturday",
        7 => "Sunday",
        _ => "Unknown",
    };
    let style = if cfg.min_days == 1 { "Simple" } else { "ISO-like" };
    let mut label = String::from_str(day_name);
    label.append(" ");
    label.append(style);
    label
}

/// Outside the ISO configuration, with a first day in 1..=7, the label starts
/// with the full English name of the configured first weekday, the day whose
/// abbreviation heads the first column of the month grid, and "Unknown" does
/// not occur in it.
pub proof fn lemma_view_label_names_first_day(cfg: WeekConfig)
    requires
        !is_iso_config(cfg),
        1 <= cfg.first_day <= 7,
    ensures
        ({
            let label = view_label_of(cfg);
            let name = weekday_full_name(first_weekday(cfg));
            &&& name.len() <= label.len()
            &&& label.take(name.len() as int) == name
            &&& label.take(2) == day_abbrev_of(first_weekday(cfg))
            &&& label.take(2) == day_abbrev_of((cfg.first_day - 1 + 0) % 7)
            &&& label.take(7) != "Unknown"@
        }),
{
    reveal_strlit("Monday");
    reveal_strlit("Tuesday");
    reveal_strlit("Wednesday");
    reveal_strlit("Thursday");
    reveal_strlit("Friday");
    reveal_strlit("Saturday");
    reveal_strlit("Sunday");
    reveal_strlit("Mo");
    reveal_strlit("Tu");
    reveal_strlit("We");
    reveal_strlit("Th");
    reveal_strlit("Fr");
    reveal_strlit("Sa");
    reveal_strlit("Su");
    reveal_strlit("Unknown");
    reveal_strlit(" ");
    reveal_strlit("Simple");
    reveal_strlit("ISO-like");
    let label = view_label_of(cfg);
    let name = weekday_full_name(first_weekday(cfg));
    let rest = " "@ + (if cfg.min_days == 1 { "Simple"@ } else { "ISO-like"@ });
    assert(label == name + rest);
    assert(label.take(name.len() as int) =~= name);
    assert(label.take(2) =~= name.take(2));
    assert(name.take(2) =~= day_abbrev_of(first_weekday(cfg)));
    if label.take(7) == "Unknown"@ {
        assert(label.take(7)[0] == name[0]);
        assert(label.take(7)[1] == name[1]);
    }
}

// ── Month navigation ─────────────────────────────────────────────────────────

pub open spec fn prev_month_of(year: int, month: int) -> (int, int) {
    if month == 1 { (year - 1, 12) } else { (year, month - 1) }
}

pub open spec fn next_month_of(year: int, month: int) -> (int, int) {
    if month == 12 { (year + 1, 1) } else { (year, month + 1) }
}

/// The month before `year-month`.
pub fn prev_month(year: i32, month: u32) -> (r: (i32, u32))
    requires
        month >= 1,
        month == 1 ==> year > i32::MIN,
    ensures
        (r.0 as int, r.1 as int) == prev_month_of(year as int, month as int),
{
    if month == 1 { (year - 1, 12) } else { (year, month - 1) }
}

/// The month after `year-month`.
pub fn next_month(year: i32, month: u32) -> (r: (i32, u32))
    requires
        month < u32::MAX,
        month == 12 ==> year < i32::MAX,
    ensures
        (r.0 as int, r.1 as int) == next_month_of(year as int, month as int),
{
    if month == 12 { (year + 1, 1) } else { (year, month + 1) }
}

/// Stepping back a month and then forward again returns to the same month,
/// and so does stepping forward and then back.
pub proof fn lemma_prev_next_inverse(year: int, month: int)
    requires
        1 <= month <= 12,
    ensures
        next_month_of(prev_month_of(year, month).0, prev_month_of(year, month).1) == (year, month),
        prev_month_of(next_month_of(year, month).0, next_month_of(year, month).1) == (year, month),
        1 <= prev_month_of(year, month).1 <= 12,
        1 <= next_month_of(year, month).1 <= 12,
{
}

/// Week numbers run from 1 to 54 (54 only in simple mode, for a leap year whose
/// January 1 is the last day of its display week).
pub proof fn lemma_week_number_bounds(y: int, m: int, d: int, cfg: WeekConfig)
    requires
        valid_ymd(y, m, d),
    ensures
        1 <= week_number_of(y, day_number_of(y, m, d), cfg) <= 54,
{
    let n = day_number_of(y, m, d);
    lemma_week_one_start_value(y, cfg);
    lemma_week_one_start_value(y - 1, cfg);
    lemma_year_boundary(y - 1);
    lemma_year_boundary(y);
    lemma_days_before_month_step(y, 1);
    lemma_days_before_month_step(y - 1, 1);
    crate::date::lemma_days_before_month_step(y, m);
    assert(day_number_of(y, 1, 1) <= n <= day_number_of(y, 1, 1) + 365) by {
        assert(crate::date::days_before_month(y, m) + d <= crate::date::days_in_year(y));
    }
}

/// A day that starts a display week falls on the configured first weekday, and
/// so do the days a whole number of weeks before or after it.
pub proof fn lemma_week_start_aligned(n: int, cfg: WeekConfig)
    requires
        offset_in_week(n, cfg) == 0,
    ensures
        forall|k: int| #[trigger] offset_in_week(n + 7 * k, cfg) == 0,
        weekday_of_number(n) == first_weekday(cfg),
{
    assert forall|k: int| #[trigger] offset_in_week(n + 7 * k, cfg) == 0 by {
        assert((n + 7 * k) % 7 == n % 7) by {
            vstd::arithmetic::div_mod::lemma_mod_multiples_vanish(k, n, 7);
        }
    }
}

/// Going back by its offset from any day lands on the start of its display week.
pub proof fn lemma_offset_back_to_start(n: int, cfg: WeekConfig)
    ensures
        0 <= offset_in_week(n, cfg) < 7,
        offset_in_week(n - offset_in_week(n, cfg), cfg) == 0,
{
}

/// In simple mode January 1 is always in week 1.
pub proof fn lemma_simple_january_first_is_week_one(y: int, cfg: WeekConfig)
    requires
        cfg.min_days == 1,
    ensures
        week_number_of(y, day_number_of(y, 1, 1), cfg) == 1,
{
}

/// Under the ISO configuration, week 1 starts on the Monday on or before January 4.
pub proof fn lemma_iso_week_one_start(y: int)
    ensures
        week_one_start(y, iso_config()) == iso_week_one_start(y),
{
    reveal(week_one_start);
    lemma_days_before_month_step(y, 1);
    let x = day_number_of(y, 1, 1);
    assert(day_number_of(y, 1, 4) == x + 3);
    assert(x == 7 * (x / 7) + x % 7);
    assert((x + 3) % 7 == if x % 7 <= 3 { x % 7 + 3 } else { x % 7 - 4 });
    let cfg = iso_config();
    assert(first_weekday(cfg) == 0);
    assert(offset_in_week(x, cfg) == x % 7);
}

/// The ISO configuration numbers weeks exactly as ISO 8601 does.
pub proof fn lemma_iso_config_is_iso_week(y: int, n: int, m: int, d: int)
    requires
        valid_ymd(y, m, d),
        n == day_number_of(y, m, d),
    ensures
        week_number_of(y, n, iso_config()) == iso_week_of(y, n),
{
    let cfg = iso_config();
    lemma_iso_week_one_start(y);
    lemma_iso_week_one_start(y - 1);
    lemma_iso_week_one_start(y + 1);
    lemma_week_one_start_value(y, cfg);
    lemma_week_one_start_value(y - 1, cfg);
    lemma_week_one_start_value(y + 1, cfg);
    lemma_year_boundary(y - 1);
    lemma_year_boundary(y);
    lemma_days_before_month_step(y, 1);
    if !(m == 1 && d == 1) {
        lemma_day_number_lex(y, 1, 1, y, m, d);
    }
    if !(m == 12 && d == 31) {
        lemma_day_number_lex(y, m, d, y, 12, 31);
    }
}

} // verus!
