use calx::calendar::{compute_week_number, WeekConfig};
use calx::cli::{
    month_renderable_check, render_view, resolve_shortcut, show_config, view_renderable_check,
    week_number_in_range_check, ConfigError,
};
use calx::date::Date;
use calx::display::{render_three_months, render_year};

fn d(y: i32, m: u32, day: u32) -> Date {
    Date::from_ymd_opt(y, m, day).unwrap()
}

fn same(a: WeekConfig, first_day: u8, min_days: u8) -> bool {
    a.first_day == first_day && a.min_days == min_days
}

#[test]
fn shortcut_flags() {
    assert!(same(resolve_shortcut(false, false, false).unwrap(), 1, 4));
    assert!(same(resolve_shortcut(true, false, false).unwrap(), 7, 1));
    assert!(same(resolve_shortcut(false, true, false).unwrap(), 7, 4));
    assert!(same(resolve_shortcut(false, false, true).unwrap(), 1, 1));
    assert_eq!(resolve_shortcut(true, true, false).unwrap_err(), ConfigError::ShortcutConflict);
    assert_eq!(resolve_shortcut(true, false, true).unwrap_err(), ConfigError::ShortcutConflict);
    assert_eq!(resolve_shortcut(true, true, true).unwrap_err(), ConfigError::ShortcutConflict);
}

#[test]
fn show_flags() {
    assert!(same(show_config(3, true, false).unwrap(), 3, 1));
    assert!(same(show_config(7, false, true).unwrap(), 7, 4));
    assert!(same(show_config(1, false, false).unwrap(), 1, 4));
    assert_eq!(show_config(2, true, true).unwrap_err(), ConfigError::SimpleIsoConflict);
}

#[test]
fn error_messages() {
    assert_eq!(
        ConfigError::ShortcutConflict.message(),
        "Error: only one shortcut flag (--simple-sunday / --iso-sunday / --simple-monday) may be used at a time"
    );
    assert_eq!(ConfigError::SimpleIsoConflict.message(), "Error: --simple and --iso are mutually exclusive");
}

#[test]
fn views_by_flag() {
    let today = d(2026, 5, 18);
    let cfg = WeekConfig::default();
    assert_eq!(render_view(today, cfg, false, true), render_year(2026, Some(today), cfg));
    assert_eq!(render_view(today, cfg, true, false), render_three_months(2026, 5, Some(today), cfg));
    assert_eq!(render_view(today, cfg, true, true), render_year(2026, Some(today), cfg));
    let default_view = render_view(today, cfg, false, false);
    assert!(default_view.contains("May 2026"));
}

#[test]
fn range_checks() {
    let cfg = WeekConfig { first_day: 7, min_days: 4 };
    assert!(view_renderable_check(d(2026, 5, 18), cfg, false, false));
    assert!(view_renderable_check(d(2026, 5, 18), cfg, true, false));
    assert!(view_renderable_check(d(2026, 5, 18), cfg, false, true));
    // The last year chrono knows has no next year to look at.
    assert!(!week_number_in_range_check(d(262142, 6, 1), cfg));
    assert!(week_number_in_range_check(d(262142, 6, 1), WeekConfig::default()));
    assert!(!month_renderable_check(262142, 12, WeekConfig::default()));
    assert!(month_renderable_check(262142, 11, WeekConfig::default()));
    assert!(!month_renderable_check(2026, 13, cfg));
    assert!(!month_renderable_check(2026, 1, WeekConfig { first_day: 0, min_days: 4 }));
    // January of the first year: the grid would start before chrono's first day
    // unless that day starts the week.
    assert!(!month_renderable_check(-262143, 1, WeekConfig { first_day: 1, min_days: 1 }));
}

#[test]
fn last_year_leading_fragment() {
    // 262142-01-01 is a Monday: with Tuesday-first, four-day weeks it is a
    // one-day fragment counted in the last week of the previous year.
    let cfg = WeekConfig { first_day: 2, min_days: 4 };
    assert!(week_number_in_range_check(d(262142, 1, 1), cfg));
    assert_eq!(compute_week_number(d(262142, 1, 1), cfg), 52);
    assert_eq!(compute_week_number(d(262141, 12, 31), cfg), 52);
    assert!(!week_number_in_range_check(d(262142, 1, 2), cfg));
    // Its month still has days that look at the following year.
    assert!(!month_renderable_check(262142, 1, cfg));
    assert!(!view_renderable_check(d(262142, 1, 1), cfg, false, false));
}
