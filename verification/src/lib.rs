//! Calendar computations for a terminal calendar: week numbering under
//! configurable week rules, month grids, and the text layout of calendars.

pub mod date;
pub mod calendar;
pub mod week_laws;
pub mod text;
pub mod display;
pub mod cli;
