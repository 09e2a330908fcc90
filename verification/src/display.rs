//! Rendering of calendars as terminal text.

use vstd::prelude::*;
use std::collections::HashSet;
use comfy_table::{Attribute, Cell, Color, Table, presets};
use crate::date::{Date, MAX_YEAR, chrono_weekday_name, day_number_of, valid_ymd, weekday_full_name};
use crate::calendar::{
    WeekConfig, compute_biweek_number, compute_week_number, day_abbrev_of, day_names,
    is_iso_config, lemma_near_month_same_year, month_grid_rows, month_grid_start, month_last_day,
    month_weeks, month_weeks_in_range, offset_in_week, week_number_in_range_of, week_number_of,
    day_of_year, view_label, view_label_of, week_number, week_number_in_range,
};
use crate::calendar::{next_month, next_month_of, prev_month, prev_month_of};
use crate::text::{
    ansi_of, ansi_scan, bold_reverse, cyan, decimal_of, escape_body, i32_to_decimal, join_lines,
    join_lines_of, lemma_ansi_no_line_break, lemma_ansi_scan_bounds, lemma_decimal_len,
    lemma_decimal_plain, lemma_lines_of_join, lemma_max_visible_len_uniform,
    lemma_no_line_break_concat, lemma_scan_ansi, lemma_scan_concat, lemma_scan_plain, lines_of,
    magenta, max_visible_len, no_escape, no_line_break, push_decimal, push_spaces, right_align2,
    side_by_side_of, signed_decimal_of, spaces, split_lines, u32_to_decimal, visible_len_of,
    visible_text_of, widest, yellow,
};

pub use crate::text::side_by_side;

verus! {

// ── Month names ──────────────────────────────────────────────────────────────

pub open spec fn month_name_of(month: int) -> Seq<char> {
    if month == 1 { "January"@ }
    else if month == 2 { "February"@ }
    else if month == 3 { "March"@ }
    else if month == 4 { "April"@ }
    else if month == 5 { "May"@ }
    else if month == 6 { "June"@ }
    else if month == 7 { "July"@ }
    else if month == 8 { "August"@ }
    else if month == 9 { "September"@ }
    else if month == 10 { "October"@ }
    else if month == 11 { "November"@ }
    else if month == 12 { "December"@ }
    else { "Unknown"@ }
}

pub fn month_name(month: u32) -> (r: &'static str)
    ensures
        r@ == month_name_of(month as int),
{
    match month {
        1 => "January",
        2 => "February",
        3 => "March",
        4 => "April",
        5 => "May",
        6 => "June",
        7 => "July",
        8 => "August",
        9 => "September",
        10 => "October",
        11 => "November",
        12 => "December",
        _ => "Unknown",
    }
}

/// The months 1 to 12 are named January to December in calendar order, and no
/// two of them share a name.
pub proof fn lemma_month_names()
    ensures
        forall|m: int|
            1 <= m <= 12 ==> #[trigger] month_name_of(m) == seq![
                "January"@, "February"@, "March"@, "April"@, "May"@, "June"@, "July"@, "August"@,
                "September"@, "October"@, "November"@, "December"@,
            ][m - 1],
        forall|a: int, b: int|
            1 <= a <= 12 && 1 <= b <= 12 && a != b ==> #[trigger] month_name_of(a) != #[trigger] month_name_of(b),
{
    reveal_strlit("January");
    reveal_strlit("February");
    reveal_strlit("March");
    reveal_strlit("April");
    reveal_strlit("May");
    reveal_strlit("June");
    reveal_strlit("July");
    reveal_strlit("August");
    reveal_strlit("September");
    reveal_strlit("October");
    reveal_strlit("November");
    reveal_strlit("December");
    assert forall|a: int, b: int| 1 <= a <= 12 && 1 <= b <= 12 && a != b implies
        #[trigger] month_name_of(a) != #[trigger] month_name_of(b) by {
        let x = month_name_of(a);
        let y = month_name_of(b);
        if x.len() == y.len() {
            if x[0] == y[0] {
                if x[1] == y[1] {
                    assert(x[2] != y[2]);
                } else {
                    assert(x[1] != y[1]);
                }
            } else {
                assert(x[0] != y[0]);
            }
        }
    }
}

// ── The month grid as text ───────────────────────────────────────────────────
//
// Column layout (with week numbers):
//   W##  4 chars: "W" + week number, left-aligned in 3, and a space
//   Mo Tu We Th Fr Sa Su  2 chars per day, space-separated
//    B##  4 chars: " B" + biweek number, or 4 spaces when blank

/// The header's day names, each coloured cyan, separated by spaces.
pub open spec fn header_names_of(first_day: int, k: int) -> Seq<char>
    decreases k,
{
    if k <= 0 {
        Seq::empty()
    } else {
        header_names_of(first_day, k - 1) + (if k - 1 > 0 { " "@ } else { Seq::empty() })
            + ansi_of("36"@, day_abbrev_of((first_day - 1 + k - 1) % 7))
    }
}

/// The header row: the day names, with blank week and biweek columns.
pub open spec fn header_line_of(first_day: int, show_week_numbers: bool) -> Seq<char> {
    let margin = if show_week_numbers { "    "@ } else { Seq::empty() };
    margin + header_names_of(first_day, 7) + margin
}

/// The cell of the day with day number `n`: blank outside the month
/// `first..=last`, else the day of the month right-aligned in two columns,
/// highlighted when it is today.
pub open spec fn day_cell_of(n: int, first: int, last: int, today: Option<Date>) -> Seq<char> {
    if n < first || n > last {
        "  "@
    } else {
        let label = right_align2(decimal_of((n - first + 1) as nat));
        if today matches Some(t) && t.day_number() == n { ansi_of("1;7"@, label) } else { label }
    }
}

/// The first `k` day cells of the display week starting at day number `start`.
pub open spec fn day_cells_of(start: int, first: int, last: int, today: Option<Date>, k: int) -> Seq<char>
    decreases k,
{
    if k <= 0 {
        Seq::empty()
    } else {
        day_cells_of(start, first, last, today, k - 1) + (if k - 1 > 0 { " "@ } else { Seq::empty() })
            + day_cell_of(start + k - 1, first, last, today)
    }
}

/// Padding that fills a label of length `len` to three columns.
pub open spec fn pad3(len: int) -> int {
    if len < 3 { 3 - len } else { 0 }
}

/// The week-number column: "W" and the number in yellow, padded to four columns.
pub open spec fn week_column_of(week: int) -> Seq<char> {
    let raw = "W"@ + decimal_of(week as nat);
    ansi_of("33"@, raw) + spaces(pad3(raw.len() as int) + 1)
}

/// The biweek column: " B" and the number in magenta the first time a biweek
/// appears in the month, four blanks afterwards.
pub open spec fn biweek_column_of(biweek: int, first_time: bool) -> Seq<char> {
    if first_time {
        let raw = "B"@ + decimal_of(biweek as nat);
        " "@ + ansi_of("35"@, raw) + spaces(pad3(raw.len() as int))
    } else {
        "    "@
    }
}

/// Day number of the first day of the month in display week `i` of the grid.
pub open spec fn row_first_in_month(year: int, month: int, cfg: WeekConfig, i: int) -> int {
    let first = day_number_of(year, month, 1);
    let start = month_grid_start(year, month, cfg) + 7 * i;
    if start < first { first } else { start }
}

/// Week number of display week `i`, taken from its first day in the month.
pub open spec fn row_week_of(year: int, month: int, cfg: WeekConfig, i: int) -> int {
    week_number_of(year, row_first_in_month(year, month, cfg, i), cfg)
}

pub open spec fn row_biweek_of(year: int, month: int, cfg: WeekConfig, i: int) -> int {
    (row_week_of(year, month, cfg, i) + 1) / 2
}

/// Display week `i` is the first of the grid with its biweek number.
pub open spec fn biweek_first_time(year: int, month: int, cfg: WeekConfig, i: int) -> bool {
    forall|k: int| 0 <= k < i ==> #[trigger] row_biweek_of(year, month, cfg, k) != row_biweek_of(year, month, cfg, i)
}

/// Text of display week `i` of the month grid.
pub open spec fn row_line_of(
    year: int,
    month: int,
    today: Option<Date>,
    show_week_numbers: bool,
    cfg: WeekConfig,
    i: int,
) -> Seq<char> {
    let cells = day_cells_of(
        month_grid_start(year, month, cfg) + 7 * i,
        day_number_of(year, month, 1),
        month_last_day(year, month),
        today,
        7,
    );
    if show_week_numbers {
        week_column_of(row_week_of(year, month, cfg, i)) + cells + biweek_column_of(
            row_biweek_of(year, month, cfg, i),
            biweek_first_time(year, month, cfg, i),
        )
    } else {
        cells
    }
}

/// The lines of a month's calendar: the header, then one line per display week.
pub open spec fn month_lines_of(
    year: int,
    month: int,
    today: Option<Date>,
    show_week_numbers: bool,
    cfg: WeekConfig,
) -> Seq<Seq<char>> {
    Seq::new(
        (month_grid_rows(year, month, cfg) + 1) as nat,
        |k: int|
            if k == 0 {
                header_line_of(cfg.first_day as int, show_week_numbers)
            } else {
                row_line_of(year, month, today, show_week_numbers, cfg, k - 1)
            },
    )
}

pub open spec fn month_calendar_of(
    year: int,
    month: int,
    today: Option<Date>,
    show_week_numbers: bool,
    cfg: WeekConfig,
) -> Seq<char> {
    join_lines_of(month_lines_of(year, month, today, show_week_numbers, cfg))
}

/// The months whose calendar can be rendered: the grid is within chrono's
/// range, and so are the week numbers of the month's days. Outside the ISO and
/// simple configurations every month has days on or after week 1 of its year,
/// whose week numbers look at January 1 of the next year.
pub open spec fn month_renderable(year: int, month: int, cfg: WeekConfig) -> bool {
    &&& month_weeks_in_range(year, month, cfg)
    &&& week_number_in_range_of(year, day_number_of(year, month, 1), cfg)
    &&& !is_iso_config(cfg) && cfg.min_days != 1 ==> year < MAX_YEAR
    &&& cfg.first_day >= 1
}

/// The header row of the month grid.
fn header_line(names: &[&'static str; 7], first_day: u8, show_week_numbers: bool) -> (r: String)
    requires
        forall|k: int| 0 <= k < 7 ==> (#[trigger] names[k])@ == day_abbrev_of((first_day - 1 + k) % 7),
    ensures
        r@ == header_line_of(first_day as int, show_week_numbers),
{
    let mut hdr = String::new();
    if show_week_numbers {
        hdr.append("    ");
    }
    let ghost start = hdr@;
    let mut i: usize = 0;
    while i < 7
        invariant
            i <= 7,
            forall|k: int| 0 <= k < 7 ==> (#[trigger] names[k])@ == day_abbrev_of((first_day - 1 + k) % 7),
            hdr@ == start + header_names_of(first_day as int, i as int),
        decreases 7 - i,
    {
        if i > 0 {
            hdr.append(" ");
        }
        let name = cyan(names[i]);
        hdr.append(name.as_str());
        proof {
            assert(hdr@ =~= start + header_names_of(first_day as int, i + 1));
        }
        i += 1;
    }
    if show_week_numbers {
        hdr.append("    ");
    }
    proof {
        assert(hdr@ =~= header_line_of(first_day as int, show_week_numbers));
    }
    hdr
}

/// The week-number column for week `week`.
fn week_column(week: u32) -> (r: String)
    ensures
        r@ == week_column_of(week as int),
{
    let mut raw = String::from_str("W");
    push_decimal(&mut raw, week);
    let coloured = yellow(raw.as_str());
    let len = raw.unicode_len();
    let pad = if len < 3 { 3 - len } else { 0 };
    let mut out = coloured;
    push_spaces(&mut out, pad + 1);
    out
}

/// The biweek column for biweek `biweek`.
fn biweek_column(biweek: u32, first_time: bool) -> (r: String)
    ensures
        r@ == biweek_column_of(biweek as int, first_time),
{
    if first_time {
        let mut raw = String::from_str("B");
        push_decimal(&mut raw, biweek);
        let coloured = magenta(raw.as_str());
        let len = raw.unicode_len();
        let pad = if len < 3 { 3 - len } else { 0 };
        let mut out = String::from_str(" ");
        out.append(coloured.as_str());
        push_spaces(&mut out, pad);
        out
    } else {
        String::from_str("    ")
    }
}

/// The day cells of one display week of the grid of `year-month`.
fn day_cells(week: &[Date; 7], year: i32, month: u32, today: Option<Date>, Ghost(start): Ghost<int>) -> (r: String)
    requires
        valid_ymd(year as int, month as int, 1),
        day_number_of(year as int, month as int, 1) - 6 <= start <= month_last_day(year as int, month as int),
        forall|j: int| 0 <= j < 7 ==> (#[trigger] week[j]).day_number() == start + j && week[j].wf(),
    ensures
        r@ == day_cells_of(start, day_number_of(year as int, month as int, 1),
            month_last_day(year as int, month as int), today, 7),
{
    let ghost first = day_number_of(year as int, month as int, 1);
    let ghost last = month_last_day(year as int, month as int);
    let mut line = String::new();
    let mut i: usize = 0;
    while i < 7
        invariant
            i <= 7,
            valid_ymd(year as int, month as int, 1),
            first == day_number_of(year as int, month as int, 1),
            last == month_last_day(year as int, month as int),
            first - 6 <= start <= last,
            forall|j: int| 0 <= j < 7 ==> (#[trigger] week[j]).day_number() == start + j && week[j].wf(),
            line@ == day_cells_of(start, first, last, today, i as int),
        decreases 7 - i,
    {
        if i > 0 {
            line.append(" ");
        }
        let day = week[i];
        let ghost n = start + i;
        proof {
            use_type_invariant(&day);
            assert(day.day_number() == n);
            if day.month() == month {
                lemma_near_month_same_year(year as int, month as int, day.year() as int,
                    day.month() as int, day.day() as int);
            }
            crate::date::lemma_in_month_iff_between(year as int, month as int, day.year() as int,
                day.month() as int, day.day() as int);
            assert((day.month() == month) == (first <= n <= last));
        }
        if day.month() != month {
            line.append("  ");
        } else {
            let mut label = String::new();
            if day.day() < 10 {
                label.append(" ");
            }
            push_decimal(&mut label, day.day());
            proof {
                reveal_strlit(" ");
                assert(day.day() == n - first + 1);
                crate::text::lemma_decimal_len(day.day() as nat);
                assert(label@ =~= right_align2(decimal_of((n - first + 1) as nat)));
            }
            let is_today = match today {
                Some(t) => {
                    proof {
                        use_type_invariant(&t);
                        if t.day_number() == n {
                            crate::date::lemma_day_number_injective(t.year() as int, t.month() as int,
                                t.day() as int, day.year() as int, day.month() as int, day.day() as int);
                        }
                    }
                    t.year() == day.year() && t.month() == day.month() && t.day() == day.day()
                },
                None => false,
            };
            if is_today {
                let highlighted = bold_reverse(label.as_str());
                line.append(highlighted.as_str());
            } else {
                line.append(label.as_str());
            }
        }
        proof {
            assert(line@ =~= day_cells_of(start, first, last, today, i + 1));
        }
        i += 1;
    }
    line
}

/// Week number of a display week, from its first day in the month.
fn row_week_number(week: &[Date; 7], year: i32, month: u32, cfg: WeekConfig, Ghost(i): Ghost<int>) -> (r: Option<u32>)
    requires
        month_renderable(year as int, month as int, cfg),
        0 <= i < month_grid_rows(year as int, month as int, cfg),
        forall|j: int| 0 <= j < 7 ==> (#[trigger] week[j]).day_number()
            == month_grid_start(year as int, month as int, cfg) + 7 * i + j && week[j].wf(),
    ensures
        r == Some(row_week_of(year as int, month as int, cfg, i) as u32),
        1 <= row_week_of(year as int, month as int, cfg, i) <= 54,
{
    let ghost first = day_number_of(year as int, month as int, 1);
    let ghost last = month_last_day(year as int, month as int);
    let ghost start = month_grid_start(year as int, month as int, cfg) + 7 * i;
    let ghost j0 = row_first_in_month(year as int, month as int, cfg, i) - start;
    proof {
        crate::calendar::lemma_month_end_room(year as int, month as int);
        crate::calendar::lemma_week_one_start_value(year as int, cfg);
        assert(0 <= j0 < 7);
    }
    let mut j: usize = 0;
    while j < 7
        invariant
            0 <= j0 < 7,
            j <= j0,
            first == day_number_of(year as int, month as int, 1),
            last == month_last_day(year as int, month as int),
            first - 6 <= start <= last,
            start == month_grid_start(year as int, month as int, cfg) + 7 * i,
            first <= start + j0 <= last,
            start + j0 == row_first_in_month(year as int, month as int, cfg, i),
            month_renderable(year as int, month as int, cfg),
            forall|j: int| 0 <= j < 7 ==> (#[trigger] week[j]).day_number() == start + j && week[j].wf(),
        decreases 7 - j,
    {
        let day = week[j];
        proof {
            use_type_invariant(&day);
            assert(day.day_number() == start + j);
            if day.month() == month {
                lemma_near_month_same_year(year as int, month as int, day.year() as int,
                    day.month() as int, day.day() as int);
            }
            crate::date::lemma_in_month_iff_between(year as int, month as int, day.year() as int,
                day.month() as int, day.day() as int);
        }
        if day.month() == month {
            proof {
                assert(day.year() == year);
                assert(first <= start + j <= last);
                assert(j == j0);
                crate::calendar::lemma_week_one_start_value(year as int, cfg);
            }
            return Some(compute_week_number(day, cfg));
        }
        j += 1;
    }
    None
}

/// Render one month's calendar grid: a header of day names, then one line per
/// display week, with week and biweek numbers beside it when
/// `show_week_numbers` is set and `today` highlighted.
pub fn render_month_calendar(
    year: i32,
    month: u32,
    today: Option<Date>,
    show_week_numbers: bool,
    cfg: WeekConfig,
) -> (r: String)
    requires
        month_renderable(year as int, month as int, cfg),
    ensures
        r@ == month_calendar_of(year as int, month as int, today, show_week_numbers, cfg),
{
    broadcast use vstd::std_specs::hash::group_hash_axioms;
    let weeks = month_weeks(year, month, cfg);
    let names = day_names(cfg.first_day);
    let ghost gs = month_grid_start(year as int, month as int, cfg);
    let ghost all = month_lines_of(year as int, month as int, today, show_week_numbers, cfg);
    let mut lines: Vec<String> = Vec::new();
    let hdr = header_line(&names, cfg.first_day, show_week_numbers);
    lines.push(hdr);
    proof {
        crate::calendar::lemma_month_end_room(year as int, month as int);
    }

    let mut seen_biweeks: HashSet<u32> = HashSet::new();
    let mut w: usize = 0;
    while w < weeks.len()
        invariant
            month_renderable(year as int, month as int, cfg),
            weeks.len() == month_grid_rows(year as int, month as int, cfg),
            forall|i: int, j: int|
                0 <= i < weeks.len() && 0 <= j < 7 ==> (#[trigger] weeks[i][j]).day_number()
                    == gs + 7 * i + j && weeks[i][j].wf(),
            gs == month_grid_start(year as int, month as int, cfg),
            day_number_of(year as int, month as int, 1) - 6 <= gs,
            all == month_lines_of(year as int, month as int, today, show_week_numbers, cfg),
            w <= weeks.len(),
            lines@.len() == w + 1,
            forall|k: int| 0 <= k <= w ==> (#[trigger] lines@[k])@ == all[k],
            show_week_numbers ==> seen_biweeks@ == Set::new(|b: u32| exists|k: int|
                0 <= k < w && row_biweek_of(year as int, month as int, cfg, k) == b as int),
        decreases weeks.len() - w,
    {
        let week = weeks[w];
        let ghost start = gs + 7 * w;
        proof {
            assert(forall|j: int| 0 <= j < 7 ==> week[j] == weeks[w as int][j]);
            assert(start <= month_last_day(year as int, month as int));
        }
        let week_num = row_week_number(&week, year, month, cfg, Ghost(w as int));
        let mut line = String::new();
        if show_week_numbers {
            match week_num {
                Some(wn) => {
                    let col = week_column(wn);
                    line.append(col.as_str());
                },
                None => line.append("    "),
            }
        }
        let cells = day_cells(&week, year, month, today, Ghost(start));
        line.append(cells.as_str());
        if show_week_numbers {
            match week_num {
                Some(wn) => {
                    let bw = compute_biweek_number(wn);
                    let ghost seen_before = seen_biweeks@;
                    let first_time = seen_biweeks.insert(bw);
                    proof {
                        assert(first_time == biweek_first_time(year as int, month as int, cfg, w as int)) by {
                            if !first_time {
                                assert(seen_before.contains(bw));
                            } else {
                                assert forall|k: int| 0 <= k < w implies
                                    #[trigger] row_biweek_of(year as int, month as int, cfg, k)
                                    != row_biweek_of(year as int, month as int, cfg, w as int) by {
                                    if row_biweek_of(year as int, month as int, cfg, k)
                                        == row_biweek_of(year as int, month as int, cfg, w as int) {
                                        assert(seen_before.contains(bw));
                                    }
                                }
                            }
                        }
                        let target = Set::new(|b: u32| exists|k: int|
                            0 <= k < w + 1 && row_biweek_of(year as int, month as int, cfg, k) == b as int);
                        assert(seen_biweeks@ == seen_before.insert(bw));
                        assert forall|b: u32| #[trigger] seen_biweeks@.contains(b) == target.contains(b) by {
                            if b == bw {
                                assert(row_biweek_of(year as int, month as int, cfg, w as int) == b as int);
                            } else if target.contains(b) {
                                let k = choose|k: int| 0 <= k < w + 1
                                    && row_biweek_of(year as int, month as int, cfg, k) == b as int;
                                assert(k < w);
                                assert(seen_before.contains(b));
                            }
                        }
                        assert(seen_biweeks@ =~= target);
                    }
                    let col = biweek_column(bw, first_time);
                    line.append(col.as_str());
                },
                None => line.append("    "),
            }
        }
        proof {
            assert(line@ =~= all[w + 1]);
        }
        lines.push(line);
        w += 1;
    }
    let r = join_lines(&lines);
    proof {
        assert(lines@.map_values(|l: String| l@) =~= all);
    }
    r
}

// ── Widths of the month grid ─────────────────────────────────────────────────

proof fn lemma_day_abbrev_plain(w: int)
    ensures
        day_abbrev_of(w).len() == 2,
        no_escape(day_abbrev_of(w)),
{
    reveal_strlit("Mo");
    reveal_strlit("Tu");
    reveal_strlit("We");
    reveal_strlit("Th");
    reveal_strlit("Fr");
    reveal_strlit("Sa");
    reveal_strlit("Su");
}

proof fn lemma_blank_plain(k: int)
    requires
        0 <= k,
    ensures
        ansi_scan(spaces(k)) == (k, false),
{
    lemma_scan_plain(spaces(k));
}

proof fn lemma_literal_spaces()
    ensures
        " "@ == spaces(1),
        "  "@ == spaces(2),
        "    "@ == spaces(4),
{
    reveal_strlit(" ");
    reveal_strlit("  ");
    reveal_strlit("    ");
    assert(" "@ =~= spaces(1));
    assert("  "@ =~= spaces(2));
    assert("    "@ =~= spaces(4));
}

proof fn lemma_codes_plain()
    ensures
        escape_body("33"@),
        escape_body("35"@),
        escape_body("36"@),
        escape_body("1;7"@),
{
    reveal_strlit("33");
    reveal_strlit("35");
    reveal_strlit("36");
    reveal_strlit("1;7");
}

/// The header's `k` day names take `3k - 1` columns.
proof fn lemma_header_names_width(first_day: int, k: int)
    requires
        1 <= k <= 7,
    ensures
        ansi_scan(header_names_of(first_day, k)) == (3 * k - 1, false),
    decreases k,
{
    let name = day_abbrev_of((first_day - 1 + k - 1) % 7);
    lemma_day_abbrev_plain((first_day - 1 + k - 1) % 7);
    lemma_codes_plain();
    lemma_scan_ansi("36"@, name);
    lemma_literal_spaces();
    if k == 1 {
        assert(header_names_of(first_day, 1) =~= ansi_of("36"@, name));
    } else {
        lemma_header_names_width(first_day, k - 1);
        lemma_blank_plain(1);
        lemma_scan_concat(header_names_of(first_day, k - 1), " "@);
        lemma_scan_concat(header_names_of(first_day, k - 1) + " "@, ansi_of("36"@, name));
        assert(header_names_of(first_day, k) =~= header_names_of(first_day, k - 1) + " "@
            + ansi_of("36"@, name));
    }
}

/// The header is 28 columns wide with week numbers, 20 without.
proof fn lemma_header_width(first_day: int, show_week_numbers: bool)
    ensures
        ansi_scan(header_line_of(first_day, show_week_numbers))
            == ((if show_week_numbers { 28int } else { 20int }), false),
{
    lemma_header_names_width(first_day, 7);
    lemma_literal_spaces();
    lemma_blank_plain(4);
    lemma_blank_plain(0);
    let names = header_names_of(first_day, 7);
    if show_week_numbers {
        lemma_scan_concat(spaces(4), names);
        lemma_scan_concat(spaces(4) + names, spaces(4));
    } else {
        assert(header_line_of(first_day, false) =~= names);
    }
}

/// A day cell is two columns wide, for months of up to 31 days.
proof fn lemma_day_cell_width(n: int, first: int, last: int, today: Option<Date>)
    requires
        last - first < 31,
    ensures
        ansi_scan(day_cell_of(n, first, last, today)) == (2int, false),
{
    lemma_literal_spaces();
    lemma_blank_plain(2);
    if first <= n <= last {
        let d = (n - first + 1) as nat;
        lemma_decimal_len(d);
        lemma_decimal_plain(d);
        let label = right_align2(decimal_of(d));
        assert(no_escape(label) && label.len() == 2) by {
            if decimal_of(d).len() < 2 {
                assert(label =~= spaces(1) + decimal_of(d));
            }
        }
        lemma_scan_plain(label);
        lemma_codes_plain();
        lemma_scan_ansi("1;7"@, label);
    }
}

/// `k` day cells take `3k - 1` columns.
proof fn lemma_day_cells_width(start: int, first: int, last: int, today: Option<Date>, k: int)
    requires
        last - first < 31,
        1 <= k <= 7,
    ensures
        ansi_scan(day_cells_of(start, first, last, today, k)) == (3 * k - 1, false),
    decreases k,
{
    let cell = day_cell_of(start + k - 1, first, last, today);
    lemma_day_cell_width(start + k - 1, first, last, today);
    if k == 1 {
        assert(day_cells_of(start, first, last, today, 1) =~= cell);
    } else {
        lemma_day_cells_width(start, first, last, today, k - 1);
        lemma_literal_spaces();
        lemma_blank_plain(1);
        let prev = day_cells_of(start, first, last, today, k - 1);
        lemma_scan_concat(prev, " "@);
        lemma_scan_concat(prev + " "@, cell);
        assert(day_cells_of(start, first, last, today, k) =~= prev + " "@ + cell);
    }
}

/// The week-number column is four columns wide for numbers below 100.
proof fn lemma_week_column_width(week: int)
    requires
        0 <= week < 100,
    ensures
        ansi_scan(week_column_of(week)) == (4int, false),
{
    reveal_strlit("W");
    lemma_decimal_len(week as nat);
    lemma_decimal_plain(week as nat);
    let raw = "W"@ + decimal_of(week as nat);
    assert(no_escape(raw));
    lemma_codes_plain();
    lemma_scan_ansi("33"@, raw);
    lemma_blank_plain(pad3(raw.len() as int) + 1);
    lemma_scan_concat(ansi_of("33"@, raw), spaces(pad3(raw.len() as int) + 1));
}

/// The biweek column is four columns wide for numbers below 100.
proof fn lemma_biweek_column_width(biweek: int, first_time: bool)
    requires
        0 <= biweek < 100,
    ensures
        ansi_scan(biweek_column_of(biweek, first_time)) == (4int, false),
{
    lemma_literal_spaces();
    lemma_blank_plain(4);
    if first_time {
        reveal_strlit("B");
        lemma_decimal_len(biweek as nat);
        lemma_decimal_plain(biweek as nat);
        let raw = "B"@ + decimal_of(biweek as nat);
        assert(no_escape(raw));
        lemma_codes_plain();
        lemma_scan_ansi("35"@, raw);
        lemma_blank_plain(1);
        lemma_blank_plain(pad3(raw.len() as int));
        lemma_scan_concat(spaces(1), ansi_of("35"@, raw));
        lemma_scan_concat(spaces(1) + ansi_of("35"@, raw), spaces(pad3(raw.len() as int)));
    }
}

/// Every line of a month's calendar is 28 columns wide with week numbers and
/// 20 without (colour codes not counted), and closes its colour codes.
pub proof fn lemma_month_line_widths(
    year: int,
    month: int,
    today: Option<Date>,
    show_week_numbers: bool,
    cfg: WeekConfig,
)
    requires
        month_renderable(year, month, cfg),
    ensures
        forall|k: int|
            0 <= k < month_lines_of(year, month, today, show_week_numbers, cfg).len()
                ==> ansi_scan(#[trigger] month_lines_of(year, month, today, show_week_numbers, cfg)[k])
                == ((if show_week_numbers { 28int } else { 20int }), false),
{
    let lines = month_lines_of(year, month, today, show_week_numbers, cfg);
    let first = day_number_of(year, month, 1);
    let last = month_last_day(year, month);
    crate::calendar::lemma_month_end_room(year, month);
    assert forall|k: int| 0 <= k < lines.len() implies ansi_scan(#[trigger] lines[k])
        == ((if show_week_numbers { 28int } else { 20int }), false) by {
        if k == 0 {
            lemma_header_width(cfg.first_day as int, show_week_numbers);
        } else {
            let i = k - 1;
            let start = month_grid_start(year, month, cfg) + 7 * i;
            lemma_day_cells_width(start, first, last, today, 7);
            if show_week_numbers {
                let n = row_first_in_month(year, month, cfg, i);
                assert(first <= n <= last);
                crate::calendar::lemma_week_number_bounds(year, month, n - first + 1, cfg);
                let w = row_week_of(year, month, cfg, i);
                lemma_week_column_width(w);
                lemma_biweek_column_width((w + 1) / 2, biweek_first_time(year, month, cfg, i));
                let cells = day_cells_of(start, first, last, today, 7);
                lemma_scan_concat(week_column_of(w), cells);
                lemma_scan_concat(week_column_of(w) + cells,
                    biweek_column_of((w + 1) / 2, biweek_first_time(year, month, cfg, i)));
            }
        }
    }
}

proof fn lemma_codes_single_line()
    ensures
        no_line_break("33"@),
        no_line_break("35"@),
        no_line_break("36"@),
        no_line_break("1;7"@),
        no_line_break(" "@),
        no_line_break("W"@),
        no_line_break("B"@),
        forall|k: int| no_line_break(#[trigger] spaces(k)),
        forall|w: int| no_line_break(#[trigger] day_abbrev_of(w)),
{
    reveal_strlit("33");
    reveal_strlit("35");
    reveal_strlit("36");
    reveal_strlit("1;7");
    reveal_strlit(" ");
    reveal_strlit("W");
    reveal_strlit("B");
    reveal_strlit("Mo");
    reveal_strlit("Tu");
    reveal_strlit("We");
    reveal_strlit("Th");
    reveal_strlit("Fr");
    reveal_strlit("Sa");
    reveal_strlit("Su");
}

proof fn lemma_header_names_single_line(first_day: int, k: int)
    requires
        0 <= k <= 7,
    ensures
        no_line_break(header_names_of(first_day, k)),
    decreases k,
{
    lemma_codes_single_line();
    lemma_literal_spaces();
    if k > 0 {
        lemma_header_names_single_line(first_day, k - 1);
        let name = day_abbrev_of((first_day - 1 + k - 1) % 7);
        assert(no_line_break(name));
        lemma_ansi_no_line_break("36"@, name);
        let sep = if k - 1 > 0 { " "@ } else { Seq::<char>::empty() };
        assert(no_line_break(sep));
        lemma_no_line_break_concat(header_names_of(first_day, k - 1), sep);
        lemma_no_line_break_concat(header_names_of(first_day, k - 1) + sep, ansi_of("36"@, name));
    }
}

proof fn lemma_header_single_line(first_day: int, show_week_numbers: bool)
    ensures
        no_line_break(header_line_of(first_day, show_week_numbers)),
{
    lemma_codes_single_line();
    lemma_literal_spaces();
    lemma_header_names_single_line(first_day, 7);
    let margin = if show_week_numbers { "    "@ } else { Seq::<char>::empty() };
    assert(no_line_break(margin));
    lemma_no_line_break_concat(margin, header_names_of(first_day, 7));
    lemma_no_line_break_concat(margin + header_names_of(first_day, 7), margin);
}

proof fn lemma_day_cells_single_line(start: int, first: int, last: int, today: Option<Date>, k: int)
    requires
        0 <= k <= 7,
    ensures
        no_line_break(day_cells_of(start, first, last, today, k)),
    decreases k,
{
    lemma_codes_single_line();
    lemma_literal_spaces();
    if k > 0 {
        lemma_day_cells_single_line(start, first, last, today, k - 1);
        let n = start + k - 1;
        let cell = day_cell_of(n, first, last, today);
        if first <= n <= last {
            let d = (n - first + 1) as nat;
            lemma_decimal_plain(d);
            let label = right_align2(decimal_of(d));
            assert(no_line_break(label)) by {
                if decimal_of(d).len() < 2 {
                    lemma_no_line_break_concat(spaces(2 - decimal_of(d).len()), decimal_of(d));
                }
            }
            lemma_ansi_no_line_break("1;7"@, label);
        }
        assert(no_line_break(cell));
        let sep = if k - 1 > 0 { " "@ } else { Seq::<char>::empty() };
        assert(no_line_break(sep));
        lemma_no_line_break_concat(day_cells_of(start, first, last, today, k - 1), sep);
        lemma_no_line_break_concat(day_cells_of(start, first, last, today, k - 1) + sep, cell);
    }
}

proof fn lemma_columns_single_line(week: int, biweek: int, first_time: bool)
    requires
        week >= 0,
        biweek >= 0,
    ensures
        no_line_break(week_column_of(week)),
        no_line_break(biweek_column_of(biweek, first_time)),
{
    lemma_codes_single_line();
    lemma_literal_spaces();
    lemma_decimal_plain(week as nat);
    lemma_decimal_plain(biweek as nat);
    let raw = "W"@ + decimal_of(week as nat);
    lemma_no_line_break_concat("W"@, decimal_of(week as nat));
    lemma_ansi_no_line_break("33"@, raw);
    lemma_no_line_break_concat(ansi_of("33"@, raw), spaces(pad3(raw.len() as int) + 1));
    let braw = "B"@ + decimal_of(biweek as nat);
    lemma_no_line_break_concat("B"@, decimal_of(biweek as nat));
    lemma_ansi_no_line_break("35"@, braw);
    lemma_no_line_break_concat(" "@, ansi_of("35"@, braw));
    lemma_no_line_break_concat(" "@ + ansi_of("35"@, braw), spaces(pad3(braw.len() as int)));
}

/// Splitting a month's calendar into lines gives back its header and display
/// weeks, and its title is centred over a grid of 28 columns with week
/// numbers and 20 without.
pub proof fn lemma_month_title_centred(
    year: int,
    month: int,
    today: Option<Date>,
    show_week_numbers: bool,
    cfg: WeekConfig,
)
    requires
        month_renderable(year, month, cfg),
    ensures
        lines_of(month_calendar_of(year, month, today, show_week_numbers, cfg))
            == month_lines_of(year, month, today, show_week_numbers, cfg),
        ({
            let width: int = if show_week_numbers { 28 } else { 20 };
            let title = month_title_of(year, month);
            let pad = (if width > title.len() { width - title.len() } else { 0 }) / 2;
            titled_month_of(year, month, today, show_week_numbers, cfg)
                == spaces(pad) + title + "\n"@ + month_calendar_of(year, month, today, show_week_numbers, cfg)
        }),
{
    let lines = month_lines_of(year, month, today, show_week_numbers, cfg);
    let width: int = if show_week_numbers { 28 } else { 20 };
    lemma_month_line_widths(year, month, today, show_week_numbers, cfg);
    crate::calendar::lemma_month_end_room(year, month);
    let first = day_number_of(year, month, 1);
    let last = month_last_day(year, month);
    assert forall|k: int| 0 <= k < lines.len() implies no_line_break(#[trigger] lines[k])
        && lines[k].len() > 0 && visible_len_of(lines[k]) == width by {
        lemma_ansi_scan_bounds(lines[k]);
        if k == 0 {
            lemma_header_single_line(cfg.first_day as int, show_week_numbers);
        } else {
            let i = k - 1;
            let start = month_grid_start(year, month, cfg) + 7 * i;
            lemma_day_cells_single_line(start, first, last, today, 7);
            if show_week_numbers {
                let n = row_first_in_month(year, month, cfg, i);
                crate::calendar::lemma_week_number_bounds(year, month, n - first + 1, cfg);
                let w = row_week_of(year, month, cfg, i);
                let fresh = biweek_first_time(year, month, cfg, i);
                lemma_columns_single_line(w, (w + 1) / 2, fresh);
                let cells = day_cells_of(start, first, last, today, 7);
                lemma_no_line_break_concat(week_column_of(w), cells);
                lemma_no_line_break_concat(week_column_of(w) + cells, biweek_column_of((w + 1) / 2, fresh));
            }
        }
    }
    lemma_lines_of_join(lines);
    lemma_max_visible_len_uniform(lines, width);
    reveal(titled_month_of);
}

/// With week numbers, line `i + 1` of a month's calendar (display week `i`)
/// starts with "W" and the week number of the week's first day in the month,
/// in yellow and padded to four columns. It ends with " B" and that week's
/// biweek number in magenta, padded to four columns, where no earlier display
/// week of the month has the same biweek, and with four blanks where one has.
pub proof fn lemma_month_week_columns(year: int, month: int, today: Option<Date>, cfg: WeekConfig, i: int)
    requires
        month_renderable(year, month, cfg),
        0 <= i < month_grid_rows(year, month, cfg),
    ensures
        ({
            let line = lines_of(month_calendar_of(year, month, today, true, cfg))[i + 1];
            let w = week_number_of(year, row_first_in_month(year, month, cfg, i), cfg);
            let b = (w + 1) / 2;
            let wraw = "W"@ + decimal_of(w as nat);
            let head = ansi_of("33"@, wraw) + spaces(pad3(wraw.len() as int) + 1);
            let fresh = forall|k: int| 0 <= k < i ==> #[trigger] row_biweek_of(year, month, cfg, k) != b;
            let braw = "B"@ + decimal_of(b as nat);
            let tail = if fresh { " "@ + ansi_of("35"@, braw) + spaces(pad3(braw.len() as int)) } else { "    "@ };
            &&& head.len() + tail.len() <= line.len()
            &&& line.take(head.len() as int) == head
            &&& line.skip(line.len() - tail.len()) == tail
        }),
{
    lemma_month_title_centred(year, month, today, true, cfg);
    let w = row_week_of(year, month, cfg, i);
    let fresh = biweek_first_time(year, month, cfg, i);
    let head = week_column_of(w);
    let tail = biweek_column_of((w + 1) / 2, fresh);
    let cells = day_cells_of(
        month_grid_start(year, month, cfg) + 7 * i,
        day_number_of(year, month, 1),
        month_last_day(year, month),
        today,
        7,
    );
    let line = month_lines_of(year, month, today, true, cfg)[i + 1];
    assert(line == head + cells + tail);
    assert(line.take(head.len() as int) =~= head);
    assert(line.skip(line.len() - tail.len()) =~= tail);
}

// ── Today's highlight ────────────────────────────────────────────────────────

/// Cells that do not hold today's date read the same with and without a today.
proof fn lemma_cells_ignore_today(start: int, first: int, last: int, t: Date, k: int)
    requires
        !(first <= t.day_number() <= last && start <= t.day_number() < start + k),
    ensures
        day_cells_of(start, first, last, Some(t), k) == day_cells_of(start, first, last, None, k),
    decreases k,
{
    if k > 0 {
        lemma_cells_ignore_today(start, first, last, t, k - 1);
    }
}

/// The cells holding today's date differ from those without a today only in
/// today's cell, which is highlighted.
proof fn lemma_cells_highlight_today(start: int, first: int, last: int, t: Date, k: int)
    -> (r: (Seq<char>, Seq<char>))
    requires
        first <= t.day_number() <= last,
        start <= t.day_number() < start + k,
    ensures
        day_cells_of(start, first, last, None, k)
            == r.0 + right_align2(decimal_of((t.day_number() - first + 1) as nat)) + r.1,
        day_cells_of(start, first, last, Some(t), k)
            == r.0 + ansi_of("1;7"@, right_align2(decimal_of((t.day_number() - first + 1) as nat))) + r.1,
    decreases k,
{
    let label = right_align2(decimal_of((t.day_number() - first + 1) as nat));
    let n = start + k - 1;
    let sep: Seq<char> = if k - 1 > 0 { " "@ } else { Seq::empty() };
    if t.day_number() == n {
        lemma_cells_ignore_today(start, first, last, t, k - 1);
        let pre = day_cells_of(start, first, last, None, k - 1) + sep;
        assert(day_cells_of(start, first, last, None, k) =~= pre + label + Seq::<char>::empty());
        assert(day_cells_of(start, first, last, Some(t), k) =~= pre + ansi_of("1;7"@, label)
            + Seq::<char>::empty());
        (pre, Seq::empty())
    } else {
        let r = lemma_cells_highlight_today(start, first, last, t, k - 1);
        let cell = day_cell_of(n, first, last, None);
        assert(day_cell_of(n, first, last, Some(t)) == cell);
        let post = r.1 + sep + cell;
        assert(day_cells_of(start, first, last, None, k) =~= r.0 + label + post);
        assert(day_cells_of(start, first, last, Some(t), k) =~= r.0 + ansi_of("1;7"@, label) + post);
        (r.0, post)
    }
}

/// Two lists of lines that differ only in line `i`, where one holds `x` and
/// the other `y` between the same text, join to texts that differ only there.
proof fn lemma_join_replace(
    ls1: Seq<Seq<char>>,
    ls2: Seq<Seq<char>>,
    i: int,
    a: Seq<char>,
    x: Seq<char>,
    y: Seq<char>,
    b: Seq<char>,
) -> (r: (Seq<char>, Seq<char>))
    requires
        ls1.len() == ls2.len(),
        0 <= i < ls1.len(),
        forall|j: int| 0 <= j < ls1.len() && j != i ==> ls1[j] == ls2[j],
        ls1[i] == a + x + b,
        ls2[i] == a + y + b,
    ensures
        join_lines_of(ls1) == r.0 + x + r.1,
        join_lines_of(ls2) == r.0 + y + r.1,
    decreases ls1.len(),
{
    if ls1.len() == 1 {
        (a, b)
    } else if i == ls1.len() - 1 {
        assert(ls1.drop_last() =~= ls2.drop_last());
        let head = join_lines_of(ls1.drop_last()) + "\n"@;
        assert(join_lines_of(ls1) =~= head + a + x + b);
        assert(join_lines_of(ls2) =~= head + a + y + b);
        assert(head + a + x + b =~= (head + a) + x + b);
        assert(head + a + y + b =~= (head + a) + y + b);
        (head + a, b)
    } else {
        let r = lemma_join_replace(ls1.drop_last(), ls2.drop_last(), i, a, x, y, b);
        assert(ls1.last() == ls2.last());
        let tail = "\n"@ + ls1.last();
        assert(join_lines_of(ls1) =~= r.0 + x + (r.1 + tail));
        assert(join_lines_of(ls2) =~= r.0 + y + (r.1 + tail));
        (r.0, r.1 + tail)
    }
}

/// Only today's date itself is highlighted: with today in another month (of
/// this year or another), the month's calendar is the one without a today.
pub proof fn lemma_other_month_not_highlighted(
    year: int,
    month: int,
    t: Date,
    show_week_numbers: bool,
    cfg: WeekConfig,
)
    requires
        valid_ymd(year, month, 1),
        t.wf(),
        t.year() != year || t.month() != month,
    ensures
        month_calendar_of(year, month, Some(t), show_week_numbers, cfg)
            == month_calendar_of(year, month, None, show_week_numbers, cfg),
{
    crate::date::lemma_in_month_iff_between(year, month, t.year() as int, t.month() as int, t.day() as int);
    let first = day_number_of(year, month, 1);
    let last = month_last_day(year, month);
    let l1 = month_lines_of(year, month, Some(t), show_week_numbers, cfg);
    let l2 = month_lines_of(year, month, None, show_week_numbers, cfg);
    assert forall|k: int| 0 <= k < l1.len() implies #[trigger] l1[k] == l2[k] by {
        if k > 0 {
            lemma_cells_ignore_today(month_grid_start(year, month, cfg) + 7 * (k - 1), first, last, t, 7);
        }
    }
    assert(l1 =~= l2);
}

/// With today in the month shown, the calendar differs from the one without a
/// today in exactly one place: today's day of the month, right-aligned in two
/// columns, is wrapped in the highlight (bold, reversed) colour codes.
pub proof fn lemma_today_highlighted(
    year: int,
    month: int,
    t: Date,
    show_week_numbers: bool,
    cfg: WeekConfig,
) -> (split: (Seq<char>, Seq<char>))
    requires
        t.wf(),
        t.year() == year,
        t.month() == month,
    ensures
        month_calendar_of(year, month, None, show_week_numbers, cfg)
            == split.0 + right_align2(decimal_of(t.day() as nat)) + split.1,
        month_calendar_of(year, month, Some(t), show_week_numbers, cfg)
            == split.0 + ansi_of("1;7"@, right_align2(decimal_of(t.day() as nat))) + split.1,
{
    crate::date::lemma_in_month_iff_between(year, month, t.year() as int, t.month() as int, t.day() as int);
    let first = day_number_of(year, month, 1);
    let last = month_last_day(year, month);
    let n0 = t.day_number();
    let gs = month_grid_start(year, month, cfg);
    let i = (n0 - gs) / 7;
    assert(0 <= offset_in_week(first, cfg) < 7);
    assert(gs <= first);
    assert(0 <= i < month_grid_rows(year, month, cfg));
    let start = gs + 7 * i;
    assert(start <= n0 < start + 7);
    assert(n0 - first + 1 == t.day());
    let label = right_align2(decimal_of(t.day() as nat));
    let c = lemma_cells_highlight_today(start, first, last, t, 7);
    let l1 = month_lines_of(year, month, None, show_week_numbers, cfg);
    let l2 = month_lines_of(year, month, Some(t), show_week_numbers, cfg);
    let (a, b) = if show_week_numbers {
        let wc = week_column_of(row_week_of(year, month, cfg, i));
        let bc = biweek_column_of(row_biweek_of(year, month, cfg, i), biweek_first_time(year, month, cfg, i));
        assert(l1[i + 1] =~= (wc + c.0) + label + (c.1 + bc));
        assert(l2[i + 1] =~= (wc + c.0) + ansi_of("1;7"@, label) + (c.1 + bc));
        (wc + c.0, c.1 + bc)
    } else {
        assert(l1[i + 1] == c.0 + label + c.1);
        assert(l2[i + 1] == c.0 + ansi_of("1;7"@, label) + c.1);
        (c.0, c.1)
    };
    assert forall|j: int| 0 <= j < l1.len() && j != i + 1 implies l1[j] == l2[j] by {
        if j > 0 {
            let sj = gs + 7 * (j - 1);
            assert(!(start <= n0 < start + 7 && sj <= n0 < sj + 7 && j - 1 != i)) by (nonlinear_arith)
                requires start == gs + 7 * i, sj == gs + 7 * (j - 1), j - 1 != i;
            lemma_cells_ignore_today(sj, first, last, t, 7);
        }
    }
    lemma_join_replace(l1, l2, i + 1, a, label, ansi_of("1;7"@, label), b)
}

// ── Titles and multi-month views ─────────────────────────────────────────────

/// "Month YYYY".
pub open spec fn month_title_of(year: int, month: int) -> Seq<char> {
    month_name_of(month) + " "@ + signed_decimal_of(year)
}

/// The month's calendar under its title, the title centred over the calendar's
/// widest line (measured without colour codes).
#[verifier::opaque]
pub open spec fn titled_month_of(
    year: int,
    month: int,
    today: Option<Date>,
    show_week_numbers: bool,
    cfg: WeekConfig,
) -> Seq<char> {
    let title = month_title_of(year, month);
    let cal = month_calendar_of(year, month, today, show_week_numbers, cfg);
    let width = if lines_of(cal).len() == 0 { title.len() as int } else { max_visible_len(lines_of(cal)) };
    let pad = (if width > title.len() { width - title.len() } else { 0 }) / 2;
    spaces(pad) + title + "\n"@ + cal
}

/// Add a centred "Month YYYY" title above the calendar grid.
pub fn render_month_with_title(
    year: i32,
    month: u32,
    today: Option<Date>,
    show_week_numbers: bool,
    cfg: WeekConfig,
) -> (r: String)
    requires
        month_renderable(year as int, month as int, cfg),
    ensures
        r@ == titled_month_of(year as int, month as int, today, show_week_numbers, cfg),
{
    let mut title = String::from_str(month_name(month));
    title.append(" ");
    let digits = i32_to_decimal(year);
    title.append(digits.as_str());
    let cal = render_month_calendar(year, month, today, show_week_numbers, cfg);
    // Measure visible width (ANSI codes are invisible characters).
    let cal_lines = split_lines(cal.as_str());
    let title_len = title.unicode_len();
    let cal_width = if cal_lines.len() == 0 { title_len } else { widest(&cal_lines) };
    proof {
        assert(cal_lines@.map_values(|l: &str| l@) =~= lines_of(cal@));
    }
    let pad = (if cal_width > title_len { cal_width - title_len } else { 0 }) / 2;
    let mut out = String::new();
    push_spaces(&mut out, pad);
    out.append(title.as_str());
    out.append("\n");
    out.append(cal.as_str());
    proof {
        reveal(titled_month_of);
        assert(out@ =~= titled_month_of(year as int, month as int, today, show_week_numbers, cfg));
    }
    out
}

/// The previous, the given and the next month, side by side.
pub open spec fn three_months_of(year: int, month: int, today: Option<Date>, cfg: WeekConfig) -> Seq<char> {
    let (py, pm) = prev_month_of(year, month);
    let (ny, nm) = next_month_of(year, month);
    side_by_side_of(
        seq![
            titled_month_of(py, pm, today, true, cfg),
            titled_month_of(year, month, today, true, cfg),
            titled_month_of(ny, nm, today, true, cfg),
        ],
        2,
    )
}

/// The month before, the month itself and the month after can all be rendered.
pub open spec fn three_months_renderable(year: int, month: int, cfg: WeekConfig) -> bool {
    &&& 1 <= month <= 12
    &&& month_renderable(prev_month_of(year, month).0, prev_month_of(year, month).1, cfg)
    &&& month_renderable(year, month, cfg)
    &&& month_renderable(next_month_of(year, month).0, next_month_of(year, month).1, cfg)
}

/// Show the previous, current and next month side by side.
pub fn render_three_months(
    center_year: i32,
    center_month: u32,
    today: Option<Date>,
    cfg: WeekConfig,
) -> (r: String)
    requires
        three_months_renderable(center_year as int, center_month as int, cfg),
    ensures
        r@ == three_months_of(center_year as int, center_month as int, today, cfg),
{
    let (py, pm) = prev_month(center_year, center_month);
    let (ny, nm) = next_month(center_year, center_month);
    let blocks = vec![
        render_month_with_title(py, pm, today, true, cfg),
        render_month_with_title(center_year, center_month, today, true, cfg),
        render_month_with_title(ny, nm, today, true, cfg),
    ];
    let r = side_by_side(blocks.as_slice(), 2);
    proof {
        assert(blocks@.map_values(|b: String| b@) =~= seq![
            titled_month_of(py as int, pm as int, today, true, cfg),
            titled_month_of(center_year as int, center_month as int, today, true, cfg),
            titled_month_of(ny as int, nm as int, today, true, cfg),
        ]);
    }
    r
}

/// The months `3 * row + 1 ..= 3 * row + 3` of `year`, side by side.
pub open spec fn year_row_of(year: int, row: int, today: Option<Date>, cfg: WeekConfig) -> Seq<char> {
    side_by_side_of(
        seq![
            titled_month_of(year, 3 * row + 1, today, true, cfg),
            titled_month_of(year, 3 * row + 2, today, true, cfg),
            titled_month_of(year, 3 * row + 3, today, true, cfg),
        ],
        2,
    )
}

/// The first `rows` rows of the year view, each followed by an empty line.
pub open spec fn year_rows_of(year: int, rows: int, today: Option<Date>, cfg: WeekConfig) -> Seq<char>
    decreases rows,
{
    if rows <= 0 {
        Seq::empty()
    } else {
        year_rows_of(year, rows - 1, today, cfg) + year_row_of(year, rows - 1, today, cfg) + "\n"@
    }
}

/// The whole year: a title line, then the months in four rows of three.
pub open spec fn year_view_of(year: int, today: Option<Date>, cfg: WeekConfig) -> Seq<char> {
    "  "@ + signed_decimal_of(year) + "\n\n"@ + year_rows_of(year, 4, today, cfg)
}

/// Every month of `year` can be rendered.
pub open spec fn year_renderable(year: int, cfg: WeekConfig) -> bool {
    forall|month: int| 1 <= month <= 12 ==> #[trigger] month_renderable(year, month, cfg)
}

/// Show all twelve months of `year`, three per row.
pub fn render_year(year: i32, today: Option<Date>, cfg: WeekConfig) -> (r: String)
    requires
        year_renderable(year as int, cfg),
    ensures
        r@ == year_view_of(year as int, today, cfg),
{
    let mut out = String::from_str("  ");
    let digits = i32_to_decimal(year);
    out.append(digits.as_str());
    out.append("\n\n");
    let ghost head = out@;
    let mut row_idx: u32 = 0;
    while row_idx < 4
        invariant
            row_idx <= 4,
            year_renderable(year as int, cfg),
            out@ == head + year_rows_of(year as int, row_idx as int, today, cfg),
        decreases 4 - row_idx,
    {
        let m = row_idx * 3 + 1;
        proof {
            assert(month_renderable(year as int, m as int, cfg));
            assert(month_renderable(year as int, m + 1, cfg));
            assert(month_renderable(year as int, m + 2, cfg));
        }
        let blocks = vec![
            render_month_with_title(year, m, today, true, cfg),
            render_month_with_title(year, m + 1, today, true, cfg),
            render_month_with_title(year, m + 2, today, true, cfg),
        ];
        let part = side_by_side(blocks.as_slice(), 2);
        proof {
            assert(blocks@.map_values(|b: String| b@) =~= seq![
                titled_month_of(year as int, 3 * row_idx + 1, today, true, cfg),
                titled_month_of(year as int, 3 * row_idx + 2, today, true, cfg),
                titled_month_of(year as int, 3 * row_idx + 3, today, true, cfg),
            ]);
        }
        out.append(part.as_str());
        out.append("\n");
        proof {
            assert(out@ =~= head + year_rows_of(year as int, row_idx + 1, today, cfg));
        }
        row_idx += 1;
    }
    proof {
        assert(out@ =~= year_view_of(year as int, today, cfg));
    }
    out
}

/// The year view is the year's number above four three-month views, those
/// centred on February, May, August and November, each followed by an empty
/// line: every month of the year appears once, titled and with its week and
/// biweek numbers, as the three-month view shows it.
pub proof fn lemma_year_view_is_three_month_views(year: int, today: Option<Date>, cfg: WeekConfig)
    ensures
        year_view_of(year, today, cfg) == "  "@ + signed_decimal_of(year) + "\n\n"@
            + three_months_of(year, 2, today, cfg) + "\n"@
            + three_months_of(year, 5, today, cfg) + "\n"@
            + three_months_of(year, 8, today, cfg) + "\n"@
            + three_months_of(year, 11, today, cfg) + "\n"@,
{
    reveal_with_fuel(year_rows_of, 5);
    assert forall|row: int| 0 <= row < 4 implies #[trigger] year_row_of(year, row, today, cfg)
        == three_months_of(year, 3 * row + 2, today, cfg) by {
        assert(prev_month_of(year, 3 * row + 2) == (year, 3 * row + 1));
        assert(next_month_of(year, 3 * row + 2) == (year, 3 * row + 3));
    }
    assert(year_row_of(year, 0, today, cfg) == three_months_of(year, 2, today, cfg));
    assert(year_row_of(year, 1, today, cfg) == three_months_of(year, 5, today, cfg));
    assert(year_row_of(year, 2, today, cfg) == three_months_of(year, 8, today, cfg));
    assert(year_row_of(year, 3, today, cfg) == three_months_of(year, 11, today, cfg));
    let rows = year_rows_of(year, 4, today, cfg);
    assert(rows =~= three_months_of(year, 2, today, cfg) + "\n"@
        + three_months_of(year, 5, today, cfg) + "\n"@
        + three_months_of(year, 8, today, cfg) + "\n"@
        + three_months_of(year, 11, today, cfg) + "\n"@);
    assert(year_view_of(year, today, cfg) =~= "  "@ + signed_decimal_of(year) + "\n\n"@
        + three_months_of(year, 2, today, cfg) + "\n"@
        + three_months_of(year, 5, today, cfg) + "\n"@
        + three_months_of(year, 8, today, cfg) + "\n"@
        + three_months_of(year, 11, today, cfg) + "\n"@);
}

// ── Info table ───────────────────────────────────────────────────────────────

/// The rows of the info table for `today`: property names and their values.
pub fn info_rows(today: Date, cfg: WeekConfig) -> (r: Vec<(String, String)>)
    requires
        week_number_in_range(today, cfg),
    ensures
        r@.len() == 5,
        r@[0].0@ == "Week"@ && r@[0].1@ == decimal_of(week_number(today, cfg) as nat),
        r@[1].0@ == "Biweek"@ && r@[1].1@ == decimal_of(((week_number(today, cfg) + 1) / 2) as nat),
        r@[2].0@ == "Year"@ && r@[2].1@ == signed_decimal_of(today.year() as int),
        r@[3].0@ == "Day"@ && r@[3].1@ == weekday_full_name(today.weekday()),
        r@[4].0@ == "Day of Year"@ && r@[4].1@ == decimal_of(today.ordinal() as nat),
{
    let week = compute_week_number(today, cfg);
    let biweek = compute_biweek_number(week);
    let doy = day_of_year(today);
    let mut rows: Vec<(String, String)> = Vec::new();
    rows.push((String::from_str("Week"), u32_to_decimal(week)));
    rows.push((String::from_str("Biweek"), u32_to_decimal(biweek)));
    rows.push((String::from_str("Year"), i32_to_decimal(today.year())));
    rows.push((String::from_str("Day"), chrono_weekday_name(today)));
    rows.push((String::from_str("Day of Year"), u32_to_decimal(doy)));
    rows
}

/// The rows of the info table for `today`, as text: property names and values.
pub open spec fn info_rows_of(today: Date, cfg: WeekConfig) -> Seq<(Seq<char>, Seq<char>)> {
    seq![
        ("Week"@, decimal_of(week_number(today, cfg) as nat)),
        ("Biweek"@, decimal_of(((week_number(today, cfg) + 1) / 2) as nat)),
        ("Year"@, signed_decimal_of(today.year() as int)),
        ("Day"@, weekday_full_name(today.weekday())),
        ("Day of Year"@, decimal_of(today.ordinal() as nat)),
    ]
}

/// The text that `comfy_table` lays out for a two-column table with the
/// `UTF8_FULL_CONDENSED` preset, the header cells `header` and empty, and one
/// line per row of `rows`, with every styling escape sequence left out.
pub uninterp spec fn comfy_plain_table_of(header: Seq<char>, rows: Seq<(Seq<char>, Seq<char>)>) -> Seq<char>;

/// Rows whose names and values hold no escape character.
pub open spec fn rows_plain(rows: Seq<(Seq<char>, Seq<char>)>) -> bool {
    forall|i: int| 0 <= i < rows.len() ==> no_escape(#[trigger] rows[i].0) && no_escape(rows[i].1)
}

/// A `comfy_table::Table` with the `UTF8_FULL_CONDENSED` preset, a bold blue
/// header `header` beside an empty header cell, and one row per pair (name in
/// cyan, value in green), rendered with `to_string`.
///
/// The table keeps comfy_table's default `ContentArrangement::Disabled` and sets
/// no column constraints, so its layout (column widths, borders, lines) depends
/// on the header and rows alone. Whether standard output is a terminal decides
/// only whether the cells are wrapped in colour and attribute escape sequences
/// (each `\x1b[...m`). So where the header and rows hold no escape character, the
/// text with its escape sequences removed is `comfy_plain_table_of` of the header
/// and rows. Which escape sequences the text carries is left unsaid.
#[verifier::external_body]
fn comfy_table_render(header: &str, rows: &Vec<(String, String)>) -> (r: String)
    ensures
        no_escape(header@) && rows_plain(rows@.map_values(|p: (String, String)| (p.0@, p.1@)))
            ==> visible_text_of(r@) == comfy_plain_table_of(
            header@,
            rows@.map_values(|p: (String, String)| (p.0@, p.1@)),
        ),
{
    let mut table = Table::new();
    table.load_preset(presets::UTF8_FULL_CONDENSED);
    table.set_header(vec![
        Cell::new(header).add_attribute(Attribute::Bold).fg(Color::Blue),
        Cell::new(""),
    ]);
    for (prop, val) in rows.iter() {
        table.add_row(vec![Cell::new(prop).fg(Color::Cyan), Cell::new(val).fg(Color::Green)]);
    }
    table.to_string()
}

proof fn lemma_weekday_name_plain(w: int)
    ensures
        no_escape(weekday_full_name(w)),
{
    reveal_strlit("Monday");
    reveal_strlit("Tuesday");
    reveal_strlit("Wednesday");
    reveal_strlit("Thursday");
    reveal_strlit("Friday");
    reveal_strlit("Saturday");
    reveal_strlit("Sunday");
}

proof fn lemma_view_label_plain(cfg: WeekConfig)
    ensures
        no_escape(view_label_of(cfg)),
{
    reveal_strlit("ISO Week");
    reveal_strlit("Unknown");
    reveal_strlit(" ");
    reveal_strlit("Simple");
    reveal_strlit("ISO-like");
    lemma_weekday_name_plain(cfg.first_day as int - 1);
}

proof fn lemma_info_rows_plain(today: Date, cfg: WeekConfig)
    ensures
        rows_plain(info_rows_of(today, cfg)),
{
    reveal_strlit("Week");
    reveal_strlit("Biweek");
    reveal_strlit("Year");
    reveal_strlit("Day");
    reveal_strlit("Day of Year");
    reveal_strlit("-");
    lemma_decimal_plain(week_number(today, cfg) as nat);
    lemma_decimal_plain(((week_number(today, cfg) + 1) / 2) as nat);
    lemma_decimal_plain(today.ordinal() as nat);
    if today.year() < 0 {
        lemma_decimal_plain((-today.year()) as nat);
    } else {
        lemma_decimal_plain(today.year() as nat);
    }
    lemma_weekday_name_plain(today.weekday());
}

/// Render today's calendar metrics as a bordered table: the week-numbering
/// scheme as header, then the rows of `info_rows`. Stripped of its colour
/// codes, the text is comfy_table's layout of that header and those rows.
pub fn render_info_table(today: Date, cfg: WeekConfig) -> (r: String)
    requires
        week_number_in_range(today, cfg),
    ensures
        visible_text_of(r@) == comfy_plain_table_of(view_label_of(cfg), info_rows_of(today, cfg)),
{
    let label = view_label(cfg);
    let rows = info_rows(today, cfg);
    proof {
        assert(rows@.map_values(|p: (String, String)| (p.0@, p.1@)) =~= info_rows_of(today, cfg));
        lemma_info_rows_plain(today, cfg);
        lemma_view_label_plain(cfg);
    }
    comfy_table_render(label.as_str(), &rows)
}

/// The default view: the info table `info` beside the current month.
pub open spec fn default_view_of(info: Seq<char>, today: Date, cfg: WeekConfig) -> Seq<char> {
    side_by_side_of(
        seq![info, titled_month_of(today.year() as int, today.month() as int, Some(today), true, cfg)],
        4,
    )
}

/// Place the rendered info table `info` beside today's month.
pub fn compose_default_view(info: &String, today: Date, cfg: WeekConfig) -> (r: String)
    requires
        month_renderable(today.year() as int, today.month() as int, cfg),
    ensures
        r@ == default_view_of(info@, today, cfg),
{
    let month = render_month_with_title(today.year(), today.month(), Some(today), true, cfg);
    let blocks = vec![info.clone(), month];
    let r = side_by_side(blocks.as_slice(), 4);
    proof {
        assert(blocks@.map_values(|b: String| b@) =~= seq![
            info@,
            titled_month_of(today.year() as int, today.month() as int, Some(today), true, cfg),
        ]);
    }
    r
}

} // verus!
