//! Half-open spans of calendar dates, with a restartable forward iterator
//! over every date from the start (inclusive) to the end (exclusive).

use crate::date::Date;
use crate::date::MAX_DAY_NUMBER;
use vstd::prelude::*;

verus! {

/// A half-open span of dates: `start` inclusive, `end` exclusive.
pub struct DateRange {
    start: Date,
    end: Date,
}

impl DateRange {
    pub closed spec fn start_spec(self) -> int {
        self.start@
    }

    pub closed spec fn end_spec(self) -> int {
        self.end@
    }

    pub open spec fn wf(self) -> bool {
        0 <= self.start_spec() <= MAX_DAY_NUMBER as int && 0 <= self.end_spec()
            <= MAX_DAY_NUMBER as int
    }

    pub fn new(start: Date, end: Date) -> (r: DateRange)
        ensures
            r.start_spec() == start@,
            r.end_spec() == end@,
            start.wf() && end.wf() ==> r.wf(),
    {
        DateRange { start, end }
    }

    /// A date lies in the span when it is at or past the start and strictly
    /// before the end.
    pub fn contains(&self, date: Date) -> (r: bool)
        ensures
            r == (self.start_spec() <= date@ < self.end_spec()),
    {
        self.start.days <= date.days && date.days < self.end.days
    }

    pub fn is_empty(&self) -> (r: bool)
        ensures
            r == (self.start_spec() == self.end_spec()),
    {
        self.start.days == self.end.days
    }

    /// Start a forward walk over the dates of the span.
    pub fn into_iter(self) -> (r: DateRangeIterator)
        ensures
            r.cur_spec() == self.start_spec(),
            r.end_spec() == self.end_spec(),
            self.wf() ==> r.wf(),
    {
        DateRangeIterator { cur: self.start, end: self.end }
    }

    /// Start a forward walk without giving the span up.
    pub fn iter(&self) -> (r: DateRangeIterator)
        ensures
            r.cur_spec() == self.start_spec(),
            r.end_spec() == self.end_spec(),
            self.wf() ==> r.wf(),
    {
        DateRangeIterator { cur: self.start, end: self.end }
    }
}

/// Walks the dates of a `DateRange` in ascending order. A walk whose current
/// date is at or past the end yields nothing, so a span built with
/// `start > end` gives the empty sequence.
pub struct DateRangeIterator {
    cur: Date,
    end: Date,
}

impl DateRangeIterator {
    pub closed spec fn cur_spec(self) -> int {
        self.cur@
    }

    pub closed spec fn end_spec(self) -> int {
        self.end@
    }

    pub open spec fn wf(self) -> bool {
        0 <= self.cur_spec() <= MAX_DAY_NUMBER as int && 0 <= self.end_spec()
            <= MAX_DAY_NUMBER as int
    }

    /// Yield the current date and step forward, or yield `None` once the
    /// current date has reached the end.
    pub fn next(&mut self) -> (r: Option<Date>)
        requires
            old(self).wf(),
        ensures
            final(self).wf(),
            final(self).end_spec() == old(self).end_spec(),
            old(self).cur_spec() >= old(self).end_spec() ==> r is None && final(self).cur_spec()
                == old(self).cur_spec(),
            old(self).cur_spec() < old(self).end_spec() ==> (r matches Some(d) && d@ == old(
                self,
            ).cur_spec() && d.wf() && final(self).cur_spec() == old(self).cur_spec() + 1),
    {
        if self.cur.days >= self.end.days {
            None
        } else {
            let ret = self.cur;
            self.cur = self.cur.succ();
            Some(ret)
        }
    }
}

} // verus!
