//! A business-calendar library: working-day calendars built from a
//! working-weekday mask and a list of recurring holiday rules, with
//! observance adjustment (moving a holiday that falls on an off day to a
//! nearby working day) and enumeration of working days over a date range.

pub mod date;
pub mod calendar;
pub mod date_range;
pub mod laws;
pub mod schedule;
