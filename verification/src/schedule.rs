//! Intraday schedules: spans of time within one day and their
//! intersection. This utility stands beside the holiday engine and is not
//! wired into it.

use crate::date::Date;
use vstd::prelude::*;
use vstd::string::StringExecFns;

verus! {

/// A time of day, held as seconds since midnight.
#[derive(Clone, Copy, Debug, PartialEq, Eq, Structural, PartialOrd, Ord, Hash)]
pub struct TimeOfDay {
    pub secs: u32,
}

impl TimeOfDay {
    pub open spec fn wf(self) -> bool {
        self.secs < 86400
    }

    /// Build a time of day from hours, minutes and seconds; `None` when a
    /// part is out of range.
    pub fn from_hms(h: u32, m: u32, s: u32) -> (r: Option<TimeOfDay>)
        ensures
            r is Some <==> (h < 24 && m < 60 && s < 60),
            r matches Some(t) ==> t.wf() && t.secs == h * 3600 + m * 60 + s,
    {
        if h < 24 && m < 60 && s < 60 {
            Some(TimeOfDay { secs: h * 3600 + m * 60 + s })
        } else {
            None
        }
    }
}

/// A span of time within one day, with a free-form description.
#[derive(Clone, Debug)]
pub struct TimeSpan {
    pub start: TimeOfDay,
    pub end: TimeOfDay,
    pub description: String,
}

impl TimeSpan {
    /// Overlap of two spans: the later start and the earlier end. The guard
    /// is one-sided: only a span that ends before `other` starts gives
    /// `None`; for one that starts after `other` ends the result is an
    /// inverted (empty) span.
    pub fn intersection(&self, other: &TimeSpan) -> (r: Option<TimeSpan>)
        ensures
            (r is None) == (self.end.secs < other.start.secs),
            r matches Some(t) ==> t.start == (if self.start.secs < other.start.secs {
                other.start
            } else {
                self.start
            }) && t.end == (if self.end.secs < other.end.secs {
                self.end
            } else {
                other.end
            }) && t.description@ == "Intersection of "@ + self.description@ + " and "@
                + other.description@,
    {
        if self.end.secs < other.start.secs {
            None
        } else {
            let mut desc: String = String::new();
            desc.append("Intersection of ");
            desc.append(self.description.as_str());
            desc.append(" and ");
            desc.append(other.description.as_str());
            Some(
                TimeSpan {
                    start: if self.start.secs < other.start.secs {
                        other.start
                    } else {
                        self.start
                    },
                    end: if self.end.secs < other.end.secs {
                        self.end
                    } else {
                        other.end
                    },
                    description: desc,
                },
            )
        }
    }
}

impl PartialEq for TimeSpan {
    /// Two spans are equal when their starts and ends agree; the
    /// description does not count.
    fn eq(&self, other: &TimeSpan) -> (r: bool) {
        self.start.secs == other.start.secs && self.end.secs == other.end.secs
    }
}

impl vstd::std_specs::cmp::PartialEqSpecImpl for TimeSpan {
    open spec fn obeys_eq_spec() -> bool {
        true
    }

    open spec fn eq_spec(&self, other: &TimeSpan) -> bool {
        self.start.secs == other.start.secs && self.end.secs == other.end.secs
    }
}

/// A run of days on which the default schedule is replaced.
#[derive(Clone, Debug)]
pub struct ScheduleOverride {
    pub start_date: Date,
    pub end_date: Option<Date>,
    pub schedule: Vec<TimeSpan>,
    pub description: String,
}

/// A default intraday schedule together with dated overrides.
#[derive(Clone, Debug)]
pub struct Schedule {
    pub default: Vec<TimeSpan>,
    pub overrides: Vec<ScheduleOverride>,
}

} // verus!
