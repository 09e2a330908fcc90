//! Laws of week numbering: week numbers name whole display weeks.

use vstd::prelude::*;
use crate::date::{
    day_number_of, days_in_year, lemma_day_number_injective, lemma_day_number_lex,
    lemma_days_before_month_step, lemma_year_boundary, valid_ymd,
};
use crate::calendar::{
    WeekConfig, first_weekday, lemma_offset_back_to_start, lemma_week_one_start_value,
    lemma_week_start_aligned, offset_in_week, week_number_of, week_one_start,
};

verus! {

/// Relative to the start of a display week, a day's offset is its distance
/// modulo 7.
proof fn lemma_offset_from_start(w: int, n: int, cfg: WeekConfig)
    requires
        offset_in_week(w, cfg) == 0,
    ensures
        offset_in_week(n, cfg) == (n - w) % 7,
{
    let fw = first_weekday(cfg);
    assert(0 <= fw < 7);
    assert(w % 7 == fw);
    vstd::arithmetic::div_mod::lemma_sub_mod_noop(n, w, 7);
    vstd::arithmetic::div_mod::lemma_sub_mod_noop(n, fw, 7);
}

/// Week 1 of every year starts a display week.
proof fn lemma_week_one_aligned(y: int, cfg: WeekConfig)
    ensures
        offset_in_week(week_one_start(y, cfg), cfg) == 0,
        day_number_of(y, 1, 1) - 6 <= week_one_start(y, cfg) <= day_number_of(y, 1, 1) + 7,
{
    lemma_week_one_start_value(y, cfg);
    let j = day_number_of(y, 1, 1);
    lemma_offset_back_to_start(j, cfg);
    lemma_week_start_aligned(j - offset_in_week(j, cfg), cfg);
    assert(offset_in_week(j - offset_in_week(j, cfg) + 7 * 1, cfg) == 0);
}

/// A valid day lies between January 1 and December 31 of its year.
proof fn lemma_within_year(y: int, m: int, d: int)
    requires
        valid_ymd(y, m, d),
    ensures
        day_number_of(y, 1, 1) <= day_number_of(y, m, d) <= day_number_of(y, 12, 31),
        day_number_of(y, 12, 31) == day_number_of(y, 1, 1) + days_in_year(y) - 1,
{
    lemma_year_boundary(y);
    lemma_days_before_month_step(y, 1);
    lemma_days_before_month_step(y, m);
    if !(m == 1 && d == 1) {
        lemma_day_number_lex(y, 1, 1, y, m, d);
    }
    if !(m == 12 && d == 31) {
        lemma_day_number_lex(y, m, d, y, 12, 31);
    }
}

/// The day after `(y1, m1, d1)` lies in the same year, or it is January 1 of
/// the next year and `(y1, m1, d1)` is December 31.
proof fn lemma_next_day_year(y1: int, m1: int, d1: int, y2: int, m2: int, d2: int)
    requires
        valid_ymd(y1, m1, d1),
        valid_ymd(y2, m2, d2),
        day_number_of(y2, m2, d2) == day_number_of(y1, m1, d1) + 1,
    ensures
        y2 == y1 || (y2 == y1 + 1 && m1 == 12 && d1 == 31 && m2 == 1 && d2 == 1),
{
    lemma_within_year(y1, m1, d1);
    lemma_within_year(y2, m2, d2);
    if y2 < y1 {
        lemma_day_number_lex(y2, 12, 31, y1, 1, 1);
    } else if y2 > y1 {
        lemma_year_boundary(y1);
        if y2 > y1 + 1 {
            lemma_year_boundary(y1 + 1);
            lemma_day_number_lex(y1 + 1, 12, 31, y2, 1, 1);
        }
        lemma_day_number_injective(y2, m2, d2, y1 + 1, 1, 1);
        lemma_day_number_injective(y1, m1, d1, y1, 12, 31);
    }
}

/// Outside simple mode, consecutive days in the same display week carry the
/// same week number, also across the turn of the year.
pub proof fn lemma_same_display_week_same_number(
    y1: int, m1: int, d1: int, y2: int, m2: int, d2: int, cfg: WeekConfig,
)
    requires
        valid_ymd(y1, m1, d1),
        valid_ymd(y2, m2, d2),
        day_number_of(y2, m2, d2) == day_number_of(y1, m1, d1) + 1,
        offset_in_week(day_number_of(y2, m2, d2), cfg) != 0,
        cfg.min_days != 1,
    ensures
        week_number_of(y1, day_number_of(y1, m1, d1), cfg) == week_number_of(y2, day_number_of(y2, m2, d2), cfg),
{
    let n = day_number_of(y1, m1, d1);
    lemma_next_day_year(y1, m1, d1, y2, m2, d2);
    lemma_within_year(y1, m1, d1);
    lemma_within_year(y2, m2, d2);
    lemma_week_one_aligned(y1 - 1, cfg);
    lemma_week_one_aligned(y1, cfg);
    lemma_week_one_aligned(y1 + 1, cfg);
    lemma_week_one_aligned(y1 + 2, cfg);
    lemma_week_one_start_value(y1 + 1, cfg);
    lemma_year_boundary(y1 + 1);
    lemma_year_boundary(y1);
    lemma_offset_from_start(week_one_start(y1, cfg), n + 1, cfg);
    lemma_offset_from_start(week_one_start(y1 + 1, cfg), n + 1, cfg);
}

/// When `min_days` is at most 7, the first day of a display week carries the
/// number after that of the day before, or starts again at 1.
pub proof fn lemma_new_display_week_next_number(
    y1: int, m1: int, d1: int, y2: int, m2: int, d2: int, cfg: WeekConfig,
)
    requires
        valid_ymd(y1, m1, d1),
        valid_ymd(y2, m2, d2),
        day_number_of(y2, m2, d2) == day_number_of(y1, m1, d1) + 1,
        offset_in_week(day_number_of(y2, m2, d2), cfg) == 0,
        cfg.min_days <= 7,
    ensures
        week_number_of(y2, day_number_of(y2, m2, d2), cfg) == week_number_of(y1, day_number_of(y1, m1, d1), cfg) + 1
            || week_number_of(y2, day_number_of(y2, m2, d2), cfg) == 1,
{
    let n = day_number_of(y1, m1, d1);
    lemma_next_day_year(y1, m1, d1, y2, m2, d2);
    lemma_within_year(y1, m1, d1);
    lemma_within_year(y2, m2, d2);
    lemma_week_one_aligned(y1 - 1, cfg);
    lemma_week_one_aligned(y1, cfg);
    lemma_week_one_aligned(y1 + 1, cfg);
    lemma_week_one_aligned(y1 + 2, cfg);
    lemma_week_one_start_value(y1, cfg);
    lemma_week_one_start_value(y1 + 1, cfg);
    lemma_year_boundary(y1 + 1);
    lemma_year_boundary(y1);
    let j = day_number_of(y1, 1, 1);
    lemma_offset_from_start(j - offset_in_week(j, cfg), n + 1, cfg);
    lemma_offset_back_to_start(j, cfg);
    lemma_offset_from_start(week_one_start(y1, cfg), n + 1, cfg);
    lemma_offset_from_start(week_one_start(y1 + 1, cfg), n + 1, cfg);
}

} // verus!
