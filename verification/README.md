# calx

Calendar Expanded: calendar information in the terminal — ISO and simple week
numbers with a configurable first day of the week, biweeks, day of year, and
month, three-month and year views with week numbers beside each week.

The library in `src/` is written in Verus and verified:

- `date.rs` — a model of the proleptic Gregorian calendar (day numbers,
  weekdays, ISO 8601 weeks), the `Date` type, and the trusted bridge to
  `chrono`, which does the date arithmetic.
- `calendar.rs` — week configurations, week numbers, biweeks, month grids,
  day names, labels and month navigation.
- `week_laws.rs` — proofs that week numbers name whole display weeks.
- `text.rs` — ANSI colouring, visible width, decimal numbers, lines and the
  side-by-side layout.
- `display.rs` — month calendars as text, titles, three-month and year views,
  and the info table (drawn by `comfy-table`).
- `cli.rs` — the week configuration chosen by command-line flags and the view
  to render.

`app/main.rs` is the command-line program: argument parsing with `clap`, the
current date, and printing.
