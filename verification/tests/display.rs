use calx::calendar::WeekConfig;
use calx::date::Date;
use calx::display::{
    compose_default_view, info_rows, month_name, render_info_table, render_month_calendar,
    render_month_with_title, render_three_months, render_year,
};
use calx::text::{bold_reverse, cyan, i32_to_decimal, magenta, side_by_side, split_lines, u32_to_decimal, visible_len, yellow};

fn d(y: i32, m: u32, day: u32) -> Date {
    Date::from_ymd_opt(y, m, day).unwrap()
}

fn strip_ansi(s: &str) -> String {
    let mut out = String::new();
    let mut esc = false;
    for ch in s.chars() {
        if ch == '\x1b' {
            esc = true;
        } else if esc {
            if ch == 'm' {
                esc = false;
            }
        } else {
            out.push(ch);
        }
    }
    out
}

#[test]
fn colour_helpers() {
    assert_eq!(cyan("Mo"), "\x1b[36mMo\x1b[0m");
    assert_eq!(yellow("W5"), "\x1b[33mW5\x1b[0m");
    assert_eq!(magenta("B3"), "\x1b[35mB3\x1b[0m");
    assert_eq!(bold_reverse(" 9"), "\x1b[1;7m 9\x1b[0m");
}

#[test]
fn visible_length_skips_escapes() {
    assert_eq!(visible_len(""), 0);
    assert_eq!(visible_len("abc"), 3);
    assert_eq!(visible_len("\x1b[36mMo\x1b[0m"), 2);
    assert_eq!(visible_len("x\x1b[1;7m 9\x1b[0my"), 4);
    assert_eq!(visible_len("héllo"), 5);
}

#[test]
fn decimal_formatting() {
    assert_eq!(u32_to_decimal(0), "0");
    assert_eq!(u32_to_decimal(7), "7");
    assert_eq!(u32_to_decimal(1234567890), "1234567890");
    assert_eq!(u32_to_decimal(u32::MAX), u32::MAX.to_string());
    assert_eq!(i32_to_decimal(-2024), "-2024");
    assert_eq!(i32_to_decimal(i32::MIN), i32::MIN.to_string());
    assert_eq!(i32_to_decimal(2026), "2026");
}

#[test]
fn line_splitting_follows_str_lines() {
    for s in ["", "a", "a\n", "a\nb", "a\r\nb\r\n", "\n\n", "x\r", "a\rb\n", "\r\n"] {
        let mine: Vec<&str> = split_lines(s);
        let std_lines: Vec<&str> = s.lines().collect();
        assert_eq!(mine, std_lines, "input {:?}", s);
    }
}

#[test]
fn side_by_side_pads_blocks() {
    let blocks = vec!["ab\ncd".to_string(), "x".to_string()];
    assert_eq!(side_by_side(&blocks, 2), "ab  x\ncd  \n");
    let coloured = vec!["\x1b[36mab\x1b[0m\nc".to_string(), "y\nz".to_string()];
    assert_eq!(side_by_side(&coloured, 1), "\x1b[36mab\x1b[0m y\nc  z\n");
    assert_eq!(side_by_side(&[], 3), "");
}

#[test]
fn month_names() {
    assert_eq!(month_name(1), "January");
    assert_eq!(month_name(9), "September");
    assert_eq!(month_name(12), "December");
    assert_eq!(month_name(13), "Unknown");
}

#[test]
fn month_calendar_layout() {
    let cal = render_month_calendar(2026, 2, Some(d(2026, 2, 9)), true, WeekConfig::default());
    let expected = "    \x1b[36mMo\x1b[0m \x1b[36mTu\x1b[0m \x1b[36mWe\x1b[0m \x1b[36mTh\x1b[0m \x1b[36mFr\x1b[0m \x1b[36mSa\x1b[0m \x1b[36mSu\x1b[0m    \n\x1b[33mW5\x1b[0m                     1 \x1b[35mB3\x1b[0m \n\x1b[33mW6\x1b[0m   2  3  4  5  6  7  8    \n\x1b[33mW7\x1b[0m  \x1b[1;7m 9\x1b[0m 10 11 12 13 14 15 \x1b[35mB4\x1b[0m \n\x1b[33mW8\x1b[0m  16 17 18 19 20 21 22    \n\x1b[33mW9\x1b[0m  23 24 25 26 27 28    \x1b[35mB5\x1b[0m ";
    assert_eq!(cal, expected);
    // Every line is 28 columns wide once colour codes are skipped.
    for line in cal.lines() {
        assert_eq!(visible_len(line), 28);
    }
}

#[test]
fn month_calendar_without_week_numbers() {
    let cal = render_month_calendar(2024, 1, None, false, WeekConfig { first_day: 7, min_days: 1 });
    let expected = "\x1b[36mSu\x1b[0m \x1b[36mMo\x1b[0m \x1b[36mTu\x1b[0m \x1b[36mWe\x1b[0m \x1b[36mTh\x1b[0m \x1b[36mFr\x1b[0m \x1b[36mSa\x1b[0m\n    1  2  3  4  5  6\n 7  8  9 10 11 12 13\n14 15 16 17 18 19 20\n21 22 23 24 25 26 27\n28 29 30 31         ";
    assert_eq!(cal, expected);
}

#[test]
fn titled_month_is_centred() {
    let t = render_month_with_title(2026, 2, None, true, WeekConfig::default());
    assert!(t.starts_with("       February 2026\n"));
    assert_eq!(&t["       February 2026\n".len()..], render_month_calendar(2026, 2, None, true, WeekConfig::default()));
}

#[test]
fn three_months_side_by_side() {
    let cfg = WeekConfig::default();
    let view = render_three_months(2026, 1, None, cfg);
    let first_line = strip_ansi(view.lines().next().unwrap());
    assert!(first_line.contains("December 2025"));
    assert!(first_line.contains("January 2026"));
    assert!(first_line.contains("February 2026"));
    let blocks = vec![
        render_month_with_title(2025, 12, None, true, cfg),
        render_month_with_title(2026, 1, None, true, cfg),
        render_month_with_title(2026, 2, None, true, cfg),
    ];
    assert_eq!(view, side_by_side(&blocks, 2));
}

#[test]
fn year_view_structure() {
    let cfg = WeekConfig::default();
    let view = render_year(2026, Some(d(2026, 5, 18)), cfg);
    assert!(view.starts_with("  2026\n\n"));
    let plain = strip_ansi(&view);
    for name in ["January", "April", "July", "October", "December"] {
        assert!(plain.contains(&format!("{} 2026", name)));
    }
    assert!(view.contains("\x1b[1;7m18\x1b[0m"));
    assert!(view.ends_with("\n\n"));
}

#[test]
fn info_table_rows() {
    let rows = info_rows(d(2026, 2, 2), WeekConfig::default());
    let expected = [
        ("Week", "6"),
        ("Biweek", "3"),
        ("Year", "2026"),
        ("Day", "Monday"),
        ("Day of Year", "33"),
    ];
    assert_eq!(rows.len(), 5);
    for (row, (k, v)) in rows.iter().zip(expected.iter()) {
        assert_eq!(row.0, *k);
        assert_eq!(row.1, *v);
    }
    let rows = info_rows(d(2024, 12, 29), WeekConfig { first_day: 7, min_days: 1 });
    assert_eq!(rows[0].1, "53");
    assert_eq!(rows[1].1, "27");
    assert_eq!(rows[3].1, "Sunday");
    assert_eq!(rows[4].1, "364");
}

#[test]
fn info_table_mentions_values() {
    let table = render_info_table(d(2026, 2, 2), WeekConfig::default());
    let plain = strip_ansi(&table);
    for word in ["ISO Week", "Week", "Biweek", "2026", "Monday", "33"] {
        assert!(plain.contains(word), "missing {}", word);
    }
}

#[test]
fn info_table_layout() {
    let table = render_info_table(d(2026, 2, 2), WeekConfig::default());
    let expected = [
        "┌─────────────┬────────┐",
        "│ ISO Week    ┆        │",
        "╞═════════════╪════════╡",
        "│ Week        ┆ 6      │",
        "│ Biweek      ┆ 3      │",
        "│ Year        ┆ 2026   │",
        "│ Day         ┆ Monday │",
        "│ Day of Year ┆ 33     │",
        "└─────────────┴────────┘",
    ]
    .join("\n");
    assert_eq!(strip_ansi(&table), expected);
    let simple = render_info_table(d(2024, 12, 29), WeekConfig { first_day: 7, min_days: 1 });
    let plain = strip_ansi(&simple);
    assert!(plain.lines().nth(1).unwrap().starts_with("│ Sunday Simple ┆"));
    assert!(plain.contains("│ Week          ┆ 53     │"));
}

#[test]
fn default_view_places_table_beside_month() {
    let today = d(2026, 2, 9);
    let cfg = WeekConfig::default();
    let info = "INFO\nTABLE".to_string();
    let view = compose_default_view(&info, today, cfg);
    let month = render_month_with_title(2026, 2, Some(today), true, cfg);
    assert_eq!(view, side_by_side(&[info, month], 4));
}

#[test]
fn month_lines_have_fixed_width() {
    for fd in [1u8, 3, 7] {
        for m in 1..=12u32 {
            let cfg = WeekConfig { first_day: fd, min_days: 1 };
            let with = render_month_calendar(2024, m, Some(d(2024, m, 10)), true, cfg);
            assert!(with.lines().all(|l| visible_len(l) == 28));
            let without = render_month_calendar(2024, m, None, false, cfg);
            assert!(without.lines().all(|l| visible_len(l) == 20));
        }
    }
}

#[test]
fn joined_lines_split_back() {
    let lines = vec!["ab".to_string(), "".to_string(), "c d".to_string()];
    let joined = calx::text::join_lines(&lines);
    assert_eq!(joined, "ab\n\nc d");
    assert_eq!(split_lines(&joined), vec!["ab", "", "c d"]);
}

#[test]
fn titles_are_centred() {
    let cfg = WeekConfig::default();
    let t = render_month_with_title(2026, 5, None, true, cfg);
    // "May 2026" leaves 20 of 28 columns: 10 on the left.
    assert!(t.starts_with("          May 2026\n"));
    let t = render_month_with_title(2026, 5, None, false, cfg);
    // 12 of 20 columns free: 6 on the left.
    assert!(t.starts_with("      May 2026\n"));
}
