//! The choices a command line makes: the week configuration selected by flags,
//! which view to show, and whether a view can be shown for a given day.

use vstd::prelude::*;
use crate::date::{Date, MAX_YEAR, MIN_YEAR, chrono_days_between, chrono_weekday_from_monday, representable};
use crate::calendar::{
    WeekConfig, first_weekday_index, lemma_week_one_start_value, month_grid_start, next_month,
    offset_in_week, prev_month, view_label_of, week_number_in_range, week_one_start,
};
use crate::display::{
    comfy_plain_table_of, compose_default_view, default_view_of, info_rows_of, month_renderable,
    render_info_table, render_three_months, render_year, three_months_of, three_months_renderable,
    year_renderable, year_view_of,
};
use crate::text::visible_text_of;

verus! {

// ── Week configuration from flags ────────────────────────────────────────────

/// Flags that cannot be combined.
#[derive(Clone, Copy, Debug, PartialEq, Eq, Structural)]
pub enum ConfigError {
    /// More than one of the shortcut flags was given.
    ShortcutConflict,
    /// Both simple and ISO-style numbering were asked for.
    SimpleIsoConflict,
}

impl ConfigError {
    /// The message reported for the error.
    pub fn message(&self) -> (r: &'static str)
        ensures
            *self == ConfigError::ShortcutConflict ==> r@
                == "Error: only one shortcut flag (--simple-sunday / --iso-sunday / --simple-monday) may be used at a time"@,
            *self == ConfigError::SimpleIsoConflict ==> r@
                == "Error: --simple and --iso are mutually exclusive"@,
    {
        match self {
            ConfigError::ShortcutConflict =>
                "Error: only one shortcut flag (--simple-sunday / --iso-sunday / --simple-monday) may be used at a time",
            ConfigError::SimpleIsoConflict => "Error: --simple and --iso are mutually exclusive",
        }
    }
}

/// Number of shortcut flags set.
pub open spec fn flags_set(a: bool, b: bool, c: bool) -> int {
    (if a { 1int } else { 0int }) + (if b { 1int } else { 0int }) + (if c { 1int } else { 0int })
}

/// The configuration a single shortcut flag selects; ISO Monday without one.
pub open spec fn shortcut_config_of(simple_sunday: bool, iso_sunday: bool, simple_monday: bool) -> WeekConfig {
    if simple_sunday {
        WeekConfig { first_day: 7, min_days: 1 }
    } else if iso_sunday {
        WeekConfig { first_day: 7, min_days: 4 }
    } else if simple_monday {
        WeekConfig { first_day: 1, min_days: 1 }
    } else {
        WeekConfig { first_day: 1, min_days: 4 }
    }
}

/// Turn shortcut flags into a `WeekConfig`; the flags are mutually exclusive.
pub fn resolve_shortcut(simple_sunday: bool, iso_sunday: bool, simple_monday: bool) -> (r: Result<WeekConfig, ConfigError>)
    ensures
        r is Err <==> flags_set(simple_sunday, iso_sunday, simple_monday) > 1,
        r matches Err(e) ==> e == ConfigError::ShortcutConflict,
        r matches Ok(cfg) ==> cfg == shortcut_config_of(simple_sunday, iso_sunday, simple_monday),
{
    let count: u32 = (if simple_sunday { 1u32 } else { 0 }) + (if iso_sunday { 1u32 } else { 0 })
        + (if simple_monday { 1u32 } else { 0 });
    if count > 1 {
        return Err(ConfigError::ShortcutConflict);
    }
    if simple_sunday {
        return Ok(WeekConfig { first_day: 7, min_days: 1 });
    }
    if iso_sunday {
        return Ok(WeekConfig { first_day: 7, min_days: 4 });
    }
    if simple_monday {
        return Ok(WeekConfig { first_day: 1, min_days: 1 });
    }
    Ok(WeekConfig::default())
}

/// The configuration of a custom view: weeks start on `day`, numbering is
/// simple when `simple` is set and ISO-style otherwise; `simple` and `iso`
/// exclude each other.
pub fn show_config(day: u8, simple: bool, iso: bool) -> (r: Result<WeekConfig, ConfigError>)
    ensures
        r is Err <==> simple && iso,
        r matches Err(e) ==> e == ConfigError::SimpleIsoConflict,
        r matches Ok(cfg) ==> cfg.first_day == day && cfg.min_days == (if simple { 1u8 } else { 4u8 }),
{
    if simple && iso {
        return Err(ConfigError::SimpleIsoConflict);
    }
    let min_days: u8 = if simple { 1 } else { 4 };
    Ok(WeekConfig { first_day: day, min_days })
}

// ── Views ────────────────────────────────────────────────────────────────────

/// The view for `today` can be rendered: the whole year for `show_year`, three
/// months for `show_month`, otherwise today's info table and month.
pub open spec fn view_renderable(today: Date, cfg: WeekConfig, show_month: bool, show_year: bool) -> bool {
    if show_year {
        year_renderable(today.year() as int, cfg)
    } else if show_month {
        three_months_renderable(today.year() as int, today.month() as int, cfg)
    } else {
        month_renderable(today.year() as int, today.month() as int, cfg) && week_number_in_range(today, cfg)
    }
}

/// The view selected by `show_month` / `show_year` for `today`: the whole year
/// takes precedence over three months, which take precedence over the default
/// view of the info table beside the current month.
pub fn render_view(today: Date, cfg: WeekConfig, show_month: bool, show_year: bool) -> (r: String)
    requires
        view_renderable(today, cfg, show_month, show_year),
    ensures
        show_year ==> r@ == year_view_of(today.year() as int, Some(today), cfg),
        !show_year && show_month ==> r@ == three_months_of(today.year() as int, today.month() as int,
            Some(today), cfg),
        !show_year && !show_month ==> exists|info: Seq<char>|
            visible_text_of(info) == comfy_plain_table_of(view_label_of(cfg), info_rows_of(today, cfg))
                && r@ == default_view_of(info, today, cfg),
{
    if show_year {
        render_year(today.year(), Some(today), cfg)
    } else if show_month {
        render_three_months(today.year(), today.month(), Some(today), cfg)
    } else {
        let info = render_info_table(today, cfg);
        let r = compose_default_view(&info, today, cfg);
        proof { assert(r@ == default_view_of(info@, today, cfg)); }
        r
    }
}

/// Whether the week number of `date` stays within chrono's range.
pub fn week_number_in_range_check(date: Date, cfg: WeekConfig) -> (r: bool)
    ensures
        r == week_number_in_range(date, cfg),
{
    if (cfg.first_day == 1 && cfg.min_days == 4) || cfg.min_days == 1 {
        return true;
    }
    proof { use_type_invariant(&date); }
    let year = date.year();
    let jan1 = Date::from_ymd_opt(year, 1, 1).unwrap();
    let fi = first_weekday_index(cfg);
    let off = (chrono_weekday_from_monday(jan1) as i64 + 7 - fi) % 7;
    let adj: i64 = if 7 - off >= cfg.min_days as i64 { 0 } else { 7 };
    let before_week_one = chrono_days_between(date, jan1) < adj - off;
    proof {
        lemma_week_one_start_value(year as int, cfg);
        assert(before_week_one == (date.day_number() < week_one_start(year as int, cfg)));
    }
    if before_week_one { year > MIN_YEAR } else { year < MAX_YEAR }
}

/// Whether the calendar of `year-month` can be rendered.
pub fn month_renderable_check(year: i32, month: u32, cfg: WeekConfig) -> (r: bool)
    ensures
        r == month_renderable(year as int, month as int, cfg),
{
    if cfg.first_day < 1 {
        return false;
    }
    match Date::from_ymd_opt(year, month, 1) {
        None => false,
        Some(first) => {
            if month == 12 && year >= MAX_YEAR {
                return false;
            }
            proof {
                use_type_invariant(&first);
                if year < MAX_YEAR || month < 12 {
                    crate::date::lemma_day_number_lex(year as int, month as int, 1, MAX_YEAR as int, 12, 31);
                }
            }
            let min_date = Date::from_ymd_opt(MIN_YEAR, 1, 1).unwrap();
            let fi = first_weekday_index(cfg);
            let off = (chrono_weekday_from_monday(first) as i64 + 7 - fi) % 7;
            let room = chrono_days_between(first, min_date);
            proof {
                assert(off == offset_in_week(first.day_number(), cfg));
                assert((room >= off) == representable(month_grid_start(year as int, month as int, cfg)));
            }
            if room < off {
                return false;
            }
            if !(cfg.first_day == 1 && cfg.min_days == 4) && cfg.min_days != 1 && year >= MAX_YEAR {
                return false;
            }
            week_number_in_range_check(first, cfg)
        },
    }
}

/// Whether the view selected by `show_month` / `show_year` can be rendered for `today`.
pub fn view_renderable_check(today: Date, cfg: WeekConfig, show_month: bool, show_year: bool) -> (r: bool)
    ensures
        r == view_renderable(today, cfg, show_month, show_year),
{
    proof { use_type_invariant(&today); }
    let year = today.year();
    let month = today.month();
    if show_year {
        let mut m: u32 = 1;
        while m <= 12
            invariant
                1 <= m <= 13,
                show_year,
                year == today.year(),
                forall|k: int| 1 <= k < m ==> #[trigger] month_renderable(year as int, k, cfg),
            decreases 13 - m,
        {
            if !month_renderable_check(year, m, cfg) {
                proof {
                    assert(!month_renderable(year as int, m as int, cfg));
                    assert(!year_renderable(year as int, cfg));
                    assert(!view_renderable(today, cfg, show_month, show_year));
                }
                return false;
            }
            m += 1;
        }
        true
    } else if show_month {
        let (py, pm) = prev_month(year, month);
        let (ny, nm) = next_month(year, month);
        month_renderable_check(py, pm, cfg) && month_renderable_check(year, month, cfg)
            && month_renderable_check(ny, nm, cfg)
    } else {
        month_renderable_check(year, month, cfg) && week_number_in_range_check(today, cfg)
    }
}

} // verus!
