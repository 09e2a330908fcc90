use calx::calendar::{
    compute_biweek_number, compute_week_number, day_names, day_of_year, month_weeks, next_month,
    prev_month, view_label, WeekConfig,
};
use calx::date::Date;
use chrono::Datelike;

fn d(y: i32, m: u32, day: u32) -> Date {
    Date::from_ymd_opt(y, m, day).unwrap()
}

#[test]
fn iso_week_fast_path() {
    let cfg = WeekConfig::default();
    assert_eq!(compute_week_number(d(2024, 1, 1), cfg), 1);
    assert_eq!(compute_week_number(d(2023, 1, 1), cfg), 52); // prev-year spillover
    assert_eq!(compute_week_number(d(2023, 12, 31), cfg), 52);
    assert_eq!(compute_week_number(d(2026, 5, 18), cfg), 21);
    assert_eq!(compute_week_number(d(2025, 12, 29), cfg), 1); // next-year spillover
}

#[test]
fn simple_monday() {
    let cfg = WeekConfig { first_day: 1, min_days: 1 };
    assert_eq!(compute_week_number(d(2024, 1, 1), cfg), 1);
    assert_eq!(compute_week_number(d(2024, 1, 7), cfg), 1);
    assert_eq!(compute_week_number(d(2024, 1, 8), cfg), 2);
}

#[test]
fn simple_sunday() {
    let cfg = WeekConfig { first_day: 7, min_days: 1 };
    assert_eq!(compute_week_number(d(2024, 1, 1), cfg), 1); // Jan 1 is Monday → week 1
    assert_eq!(compute_week_number(d(2024, 1, 7), cfg), 2); // first Sunday → week 2 starts
}

#[test]
fn biweek_pairs() {
    assert_eq!(compute_biweek_number(1), 1);
    assert_eq!(compute_biweek_number(2), 1);
    assert_eq!(compute_biweek_number(3), 2);
    assert_eq!(compute_biweek_number(4), 2);
    assert_eq!(compute_biweek_number(52), 26);
}

#[test]
fn day_of_year_values() {
    assert_eq!(day_of_year(d(2024, 1, 1)), 1);
    assert_eq!(day_of_year(d(2024, 12, 31)), 366); // 2024 is a leap year
    assert_eq!(day_of_year(d(2025, 12, 31)), 365);
}

#[test]
fn month_weeks_row_count() {
    let cfg = WeekConfig::default();
    // May 2026: Mon 4 May → Sun 31 May fits in 5 display weeks
    let weeks = month_weeks(2026, 5, cfg);
    assert!(weeks.len() >= 4 && weeks.len() <= 6);
    // Every week has 7 days
    for w in &weeks {
        assert_eq!(w.len(), 7);
    }
    // At least one day per week is in the target month
    for w in &weeks {
        assert!(w.iter().any(|d| d.month() == 5));
    }
}

// ── Further cases ────────────────────────────────────────────────────────────

#[test]
fn date_construction_rejects_invalid_days() {
    assert!(Date::from_ymd_opt(2023, 2, 29).is_none());
    assert!(Date::from_ymd_opt(2024, 2, 29).is_some());
    assert!(Date::from_ymd_opt(2024, 13, 1).is_none());
    assert!(Date::from_ymd_opt(2024, 4, 31).is_none());
    assert!(Date::from_ymd_opt(2024, 1, 0).is_none());
    assert!(Date::from_ymd_opt(400000, 1, 1).is_none());
    assert!(Date::from_ymd_opt(262142, 12, 31).is_some());
    assert!(Date::from_ymd_opt(-262143, 1, 1).is_some());
    let x = d(-4, 2, 29);
    assert_eq!((x.year(), x.month(), x.day()), (-4, 2, 29));
}

#[test]
fn iso_style_general_rule_matches_iso_weeks() {
    // first_day 8 is Monday too, so this runs the general ISO-style rule
    // instead of chrono's ISO week, and must agree with it.
    let iso = WeekConfig::default();
    let general = WeekConfig { first_day: 8, min_days: 4 };
    for y in [2015, 2016, 2020, 2021, 2023, 2024, 2025, 2026, 2027] {
        for (m, day) in [(1, 1), (1, 2), (1, 3), (1, 4), (1, 5), (6, 15), (12, 28), (12, 29), (12, 30), (12, 31)] {
            let date = d(y, m, day);
            assert_eq!(compute_week_number(date, general), compute_week_number(date, iso));
        }
    }
}

#[test]
fn iso_sunday_weeks() {
    let cfg = WeekConfig { first_day: 7, min_days: 4 };
    // 2023-01-01 is a Sunday: the Sunday-started week holds 7 days of 2023.
    assert_eq!(compute_week_number(d(2023, 1, 1), cfg), 1);
    assert_eq!(compute_week_number(d(2023, 1, 7), cfg), 1);
    assert_eq!(compute_week_number(d(2023, 1, 8), cfg), 2);
    // 2022-01-01 is a Saturday: its fragment has one day, so it belongs to
    // the last week of 2021.
    assert_eq!(compute_week_number(d(2022, 1, 1), cfg), 52);
    assert_eq!(compute_week_number(d(2021, 12, 31), cfg), 52);
    assert_eq!(compute_week_number(d(2022, 1, 2), cfg), 1);
    // 2024-12-29 is a Sunday and the week holds Jan 1-4 of 2025: week 1.
    assert_eq!(compute_week_number(d(2024, 12, 29), cfg), 1);
}

#[test]
fn simple_mode_january_first_is_week_one() {
    for fd in 1..=7u8 {
        let cfg = WeekConfig { first_day: fd, min_days: 1 };
        for y in 2018..2030 {
            assert_eq!(compute_week_number(d(y, 1, 1), cfg), 1);
        }
    }
}

#[test]
fn simple_mode_reaches_week_54() {
    // 2000 is a leap year starting on a Saturday; with Sunday-started weeks
    // January 1 is the last day of its week.
    let cfg = WeekConfig { first_day: 7, min_days: 1 };
    assert_eq!(compute_week_number(d(2000, 12, 31), cfg), 54);
}

#[test]
fn week_numbers_stay_in_range() {
    for fd in 1..=7u8 {
        for md in 1..=7u8 {
            let cfg = WeekConfig { first_day: fd, min_days: md };
            for y in [1999, 2000, 2001, 2024] {
                for (m, day) in [(1, 1), (1, 7), (6, 30), (12, 25), (12, 31)] {
                    let w = compute_week_number(d(y, m, day), cfg);
                    assert!(w >= 1 && w <= 54);
                }
            }
        }
    }
}

#[test]
fn month_weeks_cover_the_month() {
    let cfg = WeekConfig { first_day: 7, min_days: 1 };
    let weeks = month_weeks(2024, 2, cfg);
    // February 2024 starts on a Thursday: the grid starts on Sunday Jan 28.
    assert_eq!(weeks.len(), 5);
    let first = weeks[0][0];
    assert_eq!((first.year(), first.month(), first.day()), (2024, 1, 28));
    let mut in_month = Vec::new();
    for w in &weeks {
        for c in w.iter() {
            if c.month() == 2 {
                in_month.push(c.day());
            }
        }
    }
    assert_eq!(in_month, (1..=29).collect::<Vec<u32>>());
    // December of one year spills into January of the next.
    let dec = month_weeks(2025, 12, WeekConfig::default());
    assert_eq!(dec.len(), 5);
    let last = dec[4][6];
    assert_eq!((last.year(), last.month(), last.day()), (2026, 1, 4));
    // A month that needs six display weeks.
    assert_eq!(month_weeks(2026, 8, WeekConfig::default()).len(), 6);
    // February 2021 fills exactly four Monday-started weeks.
    assert_eq!(month_weeks(2021, 2, WeekConfig::default()).len(), 4);
}

#[test]
fn day_names_rotate() {
    assert_eq!(day_names(1), ["Mo", "Tu", "We", "Th", "Fr", "Sa", "Su"]);
    assert_eq!(day_names(7), ["Su", "Mo", "Tu", "We", "Th", "Fr", "Sa"]);
    assert_eq!(day_names(3), ["We", "Th", "Fr", "Sa", "Su", "Mo", "Tu"]);
    assert_eq!(day_names(8), day_names(1));
}

#[test]
fn view_labels() {
    assert_eq!(view_label(WeekConfig::default()), "ISO Week");
    assert_eq!(view_label(WeekConfig { first_day: 7, min_days: 1 }), "Sunday Simple");
    assert_eq!(view_label(WeekConfig { first_day: 7, min_days: 4 }), "Sunday ISO-like");
    assert_eq!(view_label(WeekConfig { first_day: 3, min_days: 1 }), "Wednesday Simple");
    assert_eq!(view_label(WeekConfig { first_day: 1, min_days: 1 }), "Monday Simple");
    assert_eq!(view_label(WeekConfig { first_day: 9, min_days: 2 }), "Unknown ISO-like");
}

#[test]
fn month_navigation() {
    assert_eq!(prev_month(2024, 1), (2023, 12));
    assert_eq!(prev_month(2024, 5), (2024, 4));
    assert_eq!(next_month(2024, 12), (2025, 1));
    assert_eq!(next_month(2024, 5), (2024, 6));
    for m in 1..=12u32 {
        let (py, pm) = prev_month(2024, m);
        assert_eq!(next_month(py, pm), (2024, m));
        let (ny, nm) = next_month(2024, m);
        assert_eq!(prev_month(ny, nm), (2024, m));
    }
}

fn next_day(x: Date) -> Date {
    let n = chrono::NaiveDate::from_ymd_opt(x.year(), x.month(), x.day()).unwrap().succ_opt().unwrap();
    d(n.year(), n.month(), n.day())
}

fn weekday_from_monday(x: Date) -> u32 {
    chrono::NaiveDate::from_ymd_opt(x.year(), x.month(), x.day()).unwrap().weekday().num_days_from_monday()
}

#[test]
fn week_numbers_name_display_weeks() {
    for fd in 1..=7u8 {
        for md in [2u8, 3, 4, 5, 6, 7] {
            let cfg = WeekConfig { first_day: fd, min_days: md };
            let mut x = d(2019, 12, 1);
            while x.year() < 2022 {
                let y = next_day(x);
                let (a, b) = (compute_week_number(x, cfg), compute_week_number(y, cfg));
                if weekday_from_monday(y) == (fd as u32 - 1) % 7 {
                    // a new display week: the next number, or week 1 again
                    assert!(b == a + 1 || b == 1, "{:?} {:?} {} {}", x, cfg, a, b);
                } else {
                    assert_eq!(a, b, "{:?} {:?}", x, cfg);
                }
                x = y;
            }
        }
    }
}

#[test]
fn month_grid_rows_start_on_first_day() {
    for fd in 1..=7u8 {
        let cfg = WeekConfig { first_day: fd, min_days: 4 };
        for m in 1..=12u32 {
            for w in month_weeks(2026, m, cfg) {
                assert_eq!(weekday_from_monday(w[0]), (fd as u32 - 1) % 7);
                for k in 1..7 {
                    assert_eq!(next_day(w[k - 1]).day(), w[k].day());
                }
            }
        }
    }
}
