//! Business calendars: a working-weekday mask plus an ordered list of
//! holiday rules. Each rule resolves, for a query window, into raw holiday
//! dates and an adjustment policy; the observance resolver then folds the
//! raw dates in rule order into the set of observed off days.

use crate::date::day_number_of_ymd;
use crate::date::days_in_month;
use crate::date::days_in_month_exec;
use crate::date::representable_ymd;
use crate::date::year_of_day;
use crate::date::Date;
use crate::date::Month;
use crate::date::Weekday;
use crate::date::MAX_DAY_NUMBER;
use vstd::prelude::*;

verus! {

/// How a holiday that falls on a blocked day moves to its observed date.
#[derive(Copy, Clone, Debug, PartialEq, Eq, Structural)]
pub enum AdjustmentPolicy {
    Prev,
    Next,
    Closest,
    NoAdjustment,
}

impl Default for AdjustmentPolicy {
    fn default() -> (r: AdjustmentPolicy)
        ensures
            r == AdjustmentPolicy::NoAdjustment,
    {
        AdjustmentPolicy::NoAdjustment
    }
}

/// Earliest representable date, the default lower end of a rule's validity
/// window.
pub fn default_earliest_date() -> (r: Date)
    ensures
        r.wf(),
        r@ == 0,
{
    Date { days: 0 }
}

/// Latest representable date, the default upper end of a rule's validity
/// window.
pub fn default_latest_date() -> (r: Date)
    ensures
        r.wf(),
        r@ == MAX_DAY_NUMBER as int,
{
    Date { days: MAX_DAY_NUMBER }
}

/// The set of weekdays a calendar treats as potential working days.
#[derive(Clone, Copy, Debug, Default, PartialEq, Eq, Structural)]
pub struct WeekdayMask {
    pub mon: bool,
    pub tue: bool,
    pub wed: bool,
    pub thu: bool,
    pub fri: bool,
    pub sat: bool,
    pub sun: bool,
}

impl WeekdayMask {
    /// Whether the weekday with index `wd` (Monday = 0) is in the mask.
    pub open spec fn allows(self, wd: int) -> bool {
        if wd == 0 {
            self.mon
        } else if wd == 1 {
            self.tue
        } else if wd == 2 {
            self.wed
        } else if wd == 3 {
            self.thu
        } else if wd == 4 {
            self.fri
        } else if wd == 5 {
            self.sat
        } else if wd == 6 {
            self.sun
        } else {
            false
        }
    }

    pub open spec fn is_empty_spec(self) -> bool {
        !self.mon && !self.tue && !self.wed && !self.thu && !self.fri && !self.sat && !self.sun
    }

    pub fn contains(&self, w: Weekday) -> (r: bool)
        ensures
            r == self.allows(w.index_spec()),
    {
        match w {
            Weekday::Mon => self.mon,
            Weekday::Tue => self.tue,
            Weekday::Wed => self.wed,
            Weekday::Thu => self.thu,
            Weekday::Fri => self.fri,
            Weekday::Sat => self.sat,
            Weekday::Sun => self.sun,
        }
    }

    pub fn is_empty(&self) -> (r: bool)
        ensures
            r == self.is_empty_spec(),
    {
        !self.mon && !self.tue && !self.wed && !self.thu && !self.fri && !self.sat && !self.sun
    }

    /// This mask with the weekday `w` added.
    pub fn with_day(self, w: Weekday) -> (r: WeekdayMask)
        ensures
            forall|wd: int| #![trigger r.allows(wd)] r.allows(wd) <==> (self.allows(wd) || wd == w.index_spec()),
    {
        match w {
            Weekday::Mon => WeekdayMask { mon: true, ..self },
            Weekday::Tue => WeekdayMask { tue: true, ..self },
            Weekday::Wed => WeekdayMask { wed: true, ..self },
            Weekday::Thu => WeekdayMask { thu: true, ..self },
            Weekday::Fri => WeekdayMask { fri: true, ..self },
            Weekday::Sat => WeekdayMask { sat: true, ..self },
            Weekday::Sun => WeekdayMask { sun: true, ..self },
        }
    }

    /// Build a mask holding exactly the listed weekdays.
    pub fn from_days(days: &Vec<Weekday>) -> (r: WeekdayMask)
        ensures
            forall|wd: int|
                0 <= wd < 7 ==> (r.allows(wd) <==> exists|i: int|
                    0 <= i < days@.len() && (#[trigger] days@[i]).index_spec() == wd),
    {
        let mut r = WeekdayMask {
            mon: false,
            tue: false,
            wed: false,
            thu: false,
            fri: false,
            sat: false,
            sun: false,
        };
        let mut k: usize = 0;
        while k < days.len()
            invariant
                0 <= k <= days@.len(),
                forall|wd: int|
                    0 <= wd < 7 ==> (r.allows(wd) <==> exists|i: int|
                        0 <= i < k && (#[trigger] days@[i]).index_spec() == wd),
            decreases days@.len() - k,
        {
            let w = days[k];
            let ghost old_r = r;
            r = r.with_day(w);
            k = k + 1;
            proof {
                assert forall|wd: int| 0 <= wd < 7 implies (r.allows(wd) <==> exists|i: int|
                    0 <= i < k && (#[trigger] days@[i]).index_spec() == wd) by {
                    if r.allows(wd) {
                        if old_r.allows(wd) {
                            let i = choose|i: int|
                                0 <= i < k - 1 && (#[trigger] days@[i]).index_spec() == wd;
                            assert(0 <= i < k && days@[i].index_spec() == wd);
                        } else {
                            assert(days@[k - 1].index_spec() == wd);
                        }
                    }
                    if exists|i: int| 0 <= i < k && (#[trigger] days@[i]).index_spec() == wd {
                        let i = choose|i: int|
                            0 <= i < k && (#[trigger] days@[i]).index_spec() == wd;
                        if i < k - 1 {
                            assert(old_r.allows(wd));
                        } else {
                            assert(days@[k - 1].index_spec() == w.index_spec());
                        }
                    }
                }
            }
        }
        r
    }
}

/// The default working weekdays: Monday through Friday.
pub fn default_dow_set() -> (r: WeekdayMask)
    ensures
        r.allows(0) && r.allows(1) && r.allows(2) && r.allows(3) && r.allows(4),
        !r.allows(5) && !r.allows(6),
{
    WeekdayMask { mon: true, tue: true, wed: true, thu: true, fri: true, sat: false, sun: false }
}

/// A set of concrete dates, viewed as the set of their day numbers. Used for
/// the observed off days of one resolution window.
pub struct DateSet {
    items: Vec<Date>,
}

impl View for DateSet {
    type V = Set<int>;

    closed spec fn view(&self) -> Set<int> {
        Set::new(
            |x: int|
                exists|i: int| 0 <= i < self.items@.len() && (#[trigger] self.items@[i])@ == x,
        )
    }
}

impl DateSet {
    pub closed spec fn wf(self) -> bool {
        forall|i: int| 0 <= i < self.items@.len() ==> (#[trigger] self.items@[i]).wf()
    }

    pub fn new() -> (r: DateSet)
        ensures
            r@ == Set::<int>::empty(),
            r.wf(),
    {
        let r = DateSet { items: Vec::new() };
        proof {
            assert(r@ =~= Set::<int>::empty());
        }
        r
    }

    pub fn contains(&self, d: Date) -> (r: bool)
        ensures
            r == self@.contains(d@),
    {
        let mut k: usize = 0;
        while k < self.items.len()
            invariant
                0 <= k <= self.items@.len(),
                forall|i: int| 0 <= i < k ==> #[trigger] self.items@[i]@ != d@,
            decreases self.items@.len() - k,
        {
            if self.items[k].days == d.days {
                return true;
            }
            k = k + 1;
        }
        false
    }

    pub fn insert(&mut self, d: Date)
        requires
            old(self).wf(),
            d.wf(),
        ensures
            final(self)@ == old(self)@.insert(d@),
            final(self).wf(),
    {
        if !self.contains(d) {
            self.items.push(d);
            proof {
                let n = old(self).items@.len() as int;
                assert(self.items@[n] == d);
                assert forall|x: int| self@.contains(x) implies old(self)@.insert(d@).contains(
                    x,
                ) by {
                    let i = choose|i: int|
                        0 <= i < self.items@.len() && (#[trigger] self.items@[i])@ == x;
                    if i < n {
                        assert(old(self).items@[i]@ == x);
                    }
                }
                assert forall|x: int| old(self)@.insert(d@).contains(x) implies self@.contains(
                    x,
                ) by {
                    if x == d@ {
                        assert(self.items@[n]@ == x);
                    } else {
                        let i = choose|i: int|
                            0 <= i < old(self).items@.len() && (#[trigger] old(self).items@[i])@
                                == x;
                        assert(self.items@[i]@ == x);
                    }
                }
                assert(self@ =~= old(self)@.insert(d@));
            }
        } else {
            proof {
                assert(old(self)@.contains(d@));
                assert(self@ =~= old(self)@.insert(d@));
            }
        }
    }

}

/// View of an optional date as an optional day number.
pub open spec fn opt_view(r: Option<Date>) -> Option<int> {
    match r {
        Option::Some(d) => Option::Some(d@),
        Option::None => Option::None,
    }
}

/// A day number is blocked when its weekday is outside the working mask or
/// it is already an observed off day.
pub open spec fn blocked(mask: WeekdayMask, obs: Set<int>, dn: int) -> bool {
    !mask.allows(dn % 7) || obs.contains(dn)
}

/// First unblocked day number at or after `dn`, or `None` when every day
/// number up to the end of the representable range is blocked.
pub open spec fn scan_next(mask: WeekdayMask, obs: Set<int>, dn: int) -> Option<int>
    decreases MAX_DAY_NUMBER as int + 1 - dn,
{
    if dn > MAX_DAY_NUMBER as int {
        Option::None
    } else if !blocked(mask, obs, dn) {
        Option::Some(dn)
    } else {
        scan_next(mask, obs, dn + 1)
    }
}

/// Last unblocked day number at or before `dn`, or `None` when every day
/// number down to the start of the representable range is blocked.
pub open spec fn scan_prev(mask: WeekdayMask, obs: Set<int>, dn: int) -> Option<int>
    decreases dn + 1,
{
    if dn < 0 {
        Option::None
    } else if !blocked(mask, obs, dn) {
        Option::Some(dn)
    } else {
        scan_prev(mask, obs, dn - 1)
    }
}

/// Observed date of a raw holiday at day number `dn` under `policy`, given
/// the already-observed off days `obs`:
/// - `Next` and `Prev` take the nearest unblocked day scanning forward or
///   backward (the raw date itself when it is unblocked);
/// - `Closest` takes whichever of the two scans lies fewer days from the raw
///   date, ties going to the forward scan;
/// - `NoAdjustment` keeps the raw date when it is unblocked and otherwise
///   yields nothing: the holiday is absorbed by the existing off day.
/// An empty mask yields nothing at once, and a scan that runs off the
/// representable range yields nothing for that side.
pub open spec fn adjust_spec(
    mask: WeekdayMask,
    obs: Set<int>,
    dn: int,
    policy: AdjustmentPolicy,
) -> Option<int> {
    if mask.is_empty_spec() {
        Option::None
    } else {
        match policy {
            AdjustmentPolicy::Next => scan_next(mask, obs, dn),
            AdjustmentPolicy::Prev => scan_prev(mask, obs, dn),
            AdjustmentPolicy::Closest => match (scan_prev(mask, obs, dn), scan_next(
                mask,
                obs,
                dn,
            )) {
                (Option::Some(p), Option::Some(n)) => if dn - p < n - dn {
                    Option::Some(p)
                } else {
                    Option::Some(n)
                },
                (Option::Some(p), Option::None) => Option::Some(p),
                (Option::None, Option::Some(n)) => Option::Some(n),
                (Option::None, Option::None) => Option::None,
            },
            AdjustmentPolicy::NoAdjustment => if blocked(mask, obs, dn) {
                Option::None
            } else {
                Option::Some(dn)
            },
        }
    }
}

fn scan_next_from(mask: &WeekdayMask, offdays: &DateSet, start: Date) -> (r: Option<Date>)
    requires
        start.wf(),
    ensures
        opt_view(r) == scan_next(*mask, offdays@, start@),
        r matches Some(d) ==> d.wf() && start@ <= d@,
{
    let mut cur: Date = start;
    loop
        invariant
            cur.wf(),
            start@ <= cur@,
            scan_next(*mask, offdays@, cur@) == scan_next(*mask, offdays@, start@),
        decreases MAX_DAY_NUMBER as int + 1 - cur@,
    {
        let wd = cur.weekday();
        let is_blocked = !mask.contains(wd) || offdays.contains(cur);
        if !is_blocked {
            return Some(cur);
        }
        if cur.days == MAX_DAY_NUMBER {
            proof {
                reveal_with_fuel(scan_next, 2);
            }
            return None;
        }
        cur = cur.succ();
    }
}

fn scan_prev_from(mask: &WeekdayMask, offdays: &DateSet, start: Date) -> (r: Option<Date>)
    requires
        start.wf(),
    ensures
        opt_view(r) == scan_prev(*mask, offdays@, start@),
        r matches Some(d) ==> d.wf() && d@ <= start@,
{
    let mut cur: Date = start;
    loop
        invariant
            cur.wf(),
            cur@ <= start@,
            scan_prev(*mask, offdays@, cur@) == scan_prev(*mask, offdays@, start@),
        decreases cur@ + 1,
    {
        let wd = cur.weekday();
        let is_blocked = !mask.contains(wd) || offdays.contains(cur);
        if !is_blocked {
            return Some(cur);
        }
        if cur.days == 0 {
            proof {
                reveal_with_fuel(scan_prev, 2);
            }
            return None;
        }
        cur = cur.pred();
    }
}

/// Day numbers of a sequence of dates.
pub open spec fn date_seq_view(s: Seq<Date>) -> Seq<int> {
    s.map_values(|x: Date| x@)
}

pub open spec fn date_seq_wf(s: Seq<Date>) -> bool {
    forall|i: int| 0 <= i < s.len() ==> (#[trigger] s[i]).wf()
}

pub proof fn lemma_date_seq_view_push(s: Seq<Date>, d: Date)
    ensures
        date_seq_view(s.push(d)) =~= date_seq_view(s).push(d@),
{
}

/// The occurrence of a day-of-month rule in year `y`: the date `y`-`m`-`d`
/// when that is a representable calendar date, and nothing otherwise (a
/// February 29 outside a leap year, or a date past the representable range).
pub open spec fn dom_occurrence(y: int, m: int, d: int) -> Option<int> {
    if representable_ymd(y, m, d) {
        Option::Some(day_number_of_ymd(y, m, d))
    } else {
        Option::None
    }
}

/// Occurrences of a day-of-month rule for the years `s` through `e`, in
/// ascending year order, years without an occurrence skipped.
pub open spec fn day_of_month_dates(m: int, d: int, s: int, e: int) -> Seq<int>
    decreases e + 1 - s,
{
    if s > e {
        Seq::empty()
    } else {
        (match dom_occurrence(s, m, d) {
            Option::Some(dn) => seq![dn],
            Option::None => Seq::empty(),
        }) + day_of_month_dates(m, d, s + 1, e)
    }
}

/// Day number of the first day with weekday index `dow` at or after day
/// number `dn`.
pub open spec fn forward_to_weekday(dn: int, dow: int) -> int {
    if dow >= dn % 7 {
        dn + dow - dn % 7
    } else {
        dn + dow + 7 - dn % 7
    }
}

/// Day number of the last day with weekday index `dow` at or before day
/// number `dn`.
pub open spec fn backward_to_weekday(dn: int, dow: int) -> int {
    if dn % 7 >= dow {
        dn - (dn % 7 - dow)
    } else {
        dn - (dn % 7 + 7 - dow)
    }
}

/// Day number picked by an nth-weekday-of-month rule in year `y`: for a
/// positive offset, the first day with the wanted weekday in the month, then
/// `offset - 1` weeks forward; for a negative offset, the last such day in
/// the month, then `-offset - 1` weeks back. An offset of zero acts like 1.
/// Large offsets may leave the month; that is the caller's affair.
pub open spec fn nth_dow_day(y: int, m: int, dow: int, off: int) -> int {
    if off < 0 {
        backward_to_weekday(day_number_of_ymd(y, m, days_in_month(y, m)), dow) - 7 * (-off - 1)
    } else if off > 1 {
        forward_to_weekday(day_number_of_ymd(y, m, 1), dow) + 7 * (off - 1)
    } else {
        forward_to_weekday(day_number_of_ymd(y, m, 1), dow)
    }
}

/// The occurrence of an nth-weekday rule in year `y`, or nothing when the
/// anchor day of the month or the picked day lies outside the representable
/// range.
pub open spec fn nth_occurrence(y: int, m: int, dow: int, off: int) -> Option<int> {
    let anchor_ok = if off < 0 {
        representable_ymd(y, m, days_in_month(y, m))
    } else {
        representable_ymd(y, m, 1)
    };
    if anchor_ok && 0 <= nth_dow_day(y, m, dow, off) <= MAX_DAY_NUMBER as int {
        Option::Some(nth_dow_day(y, m, dow, off))
    } else {
        Option::None
    }
}

/// Occurrences of an nth-weekday rule for the years `s` through `e`, in
/// ascending year order, years without an occurrence skipped.
pub open spec fn nth_dow_dates(m: int, dow: int, off: int, s: int, e: int) -> Seq<int>
    decreases e + 1 - s,
{
    if s > e {
        Seq::empty()
    } else {
        (match nth_occurrence(s, m, dow, off) {
            Option::Some(dn) => seq![dn],
            Option::None => Seq::empty(),
        }) + nth_dow_dates(m, dow, off, s + 1, e)
    }
}

/// Larger of a validity-window start and a query-window start.
pub open spec fn clip_low(valid_since: int, start: int) -> int {
    if valid_since < start {
        start
    } else {
        valid_since
    }
}

/// Smaller of a validity-window end and a query-window end.
pub open spec fn clip_high(valid_until: int, end: int) -> int {
    if valid_until < end {
        valid_until
    } else {
        end
    }
}

/// A holiday rule: an abstract description of a recurring or one-off
/// holiday, together with the adjustment policy of its occurrences and the
/// inclusive validity window `[valid_since, valid_until]` in which the rule
/// is active.
#[derive(Clone, Debug)]
pub enum DateSpec {
    /// A single literal date; its policy is fixed to `NoAdjustment`.
    SpecificDate { date: Date, description: String },
    /// The same month and day of every year in the validity window. A day
    /// that does not exist in some year (February 29 outside leap years)
    /// resolves to no occurrence for that year.
    DayOfMonth {
        month: Month,
        day: u32,
        observed: AdjustmentPolicy,
        description: String,
        valid_since: Date,
        valid_until: Date,
    },
    /// The `offset`-th occurrence of weekday `dow` in `month` of every year
    /// in the validity window: a positive offset counts from the start of
    /// the month, a negative offset counts backward from its end.
    NthDayOccurance {
        month: Month,
        dow: Weekday,
        offset: i8,
        observed: AdjustmentPolicy,
        description: String,
        valid_since: Date,
        valid_until: Date,
    },
}

/// Raw dates and adjustment policy that a rule resolves to against the query
/// window `[start, end]`: nothing when the rule's validity window misses the
/// query window entirely, and otherwise one occurrence per year of the
/// overlap (or the single literal date) with the rule's policy.
pub open spec fn resolve_spec(rule: DateSpec, start: int, end: int) -> Option<
    (Seq<int>, AdjustmentPolicy),
> {
    match rule {
        DateSpec::SpecificDate { date, .. } => if date@ < start || end < date@ {
            Option::None
        } else {
            Option::Some((seq![date@], AdjustmentPolicy::NoAdjustment))
        },
        DateSpec::DayOfMonth { month, day, observed, valid_since, valid_until, .. } => if
        valid_since@ > end || valid_until@ < start {
            Option::None
        } else {
            Option::Some(
                (
                    day_of_month_dates(
                        month.number_spec(),
                        day as int,
                        year_of_day(clip_low(valid_since@, start)),
                        year_of_day(clip_high(valid_until@, end)),
                    ),
                    observed,
                ),
            )
        },
        DateSpec::NthDayOccurance {
            month,
            dow,
            offset,
            observed,
            valid_since,
            valid_until,
            ..
        } => if valid_since@ > end || valid_until@ < start {
            Option::None
        } else {
            Option::Some(
                (
                    nth_dow_dates(
                        month.number_spec(),
                        dow.index_spec(),
                        offset as int,
                        year_of_day(clip_low(valid_since@, start)),
                        year_of_day(clip_high(valid_until@, end)),
                    ),
                    observed,
                ),
            )
        },
    }
}

/// The occurrence of an nth-weekday rule in one year, as a date.
fn nth_dow_exec(year: i32, month: u32, dow: Weekday, offset: i8) -> (r: Option<Date>)
    requires
        year >= 1,
        1 <= month <= 12,
    ensures
        opt_view(r) == nth_occurrence(year as int, month as int, dow.index_spec(), offset as int),
        r matches Some(d) ==> d.wf(),
{
    let dim: u32 = days_in_month_exec(year, month);
    if offset < 0 {
        match Date::from_ymd(year, month, dim) {
            None => None,
            Some(last) => {
                let wd: u8 = last.weekday().index();
                let dw: u8 = dow.index();
                let back: i32 = if wd >= dw {
                    (wd - dw) as i32
                } else {
                    (wd + 7 - dw) as i32
                };
                let steps: i32 = (-(offset as i32)) - 1;
                let target: i32 = last.days - back - 7 * steps;
                if 0 <= target {
                    Some(Date { days: target })
                } else {
                    None
                }
            },
        }
    } else {
        match Date::from_ymd(year, month, 1) {
            None => None,
            Some(first) => {
                let wd: u8 = first.weekday().index();
                let dw: u8 = dow.index();
                let fwd: i32 = if dw >= wd {
                    (dw - wd) as i32
                } else {
                    (dw + 7 - wd) as i32
                };
                let steps: i32 = if offset > 1 {
                    offset as i32 - 1
                } else {
                    0
                };
                let target: i32 = first.days + fwd + 7 * steps;
                if target <= MAX_DAY_NUMBER {
                    Some(Date { days: target })
                } else {
                    None
                }
            },
        }
    }
}

impl DateSpec {
    pub open spec fn wf(self) -> bool {
        match self {
            DateSpec::SpecificDate { date, .. } => date.wf(),
            DateSpec::DayOfMonth { valid_since, valid_until, .. } => valid_since.wf()
                && valid_until.wf(),
            DateSpec::NthDayOccurance { valid_since, valid_until, .. } => valid_since.wf()
                && valid_until.wf(),
        }
    }

    /// Resolve this rule against the query window `[start, end]` into its
    /// raw holiday dates and their adjustment policy. `None` means the
    /// rule's validity window does not meet the query window at all;
    /// otherwise the dates hold one occurrence per year of the overlap (the
    /// single literal date for a specific-date rule), years whose occurrence
    /// does not exist or is not representable skipped.
    pub fn resolve(&self, start: Date, end: Date) -> (r: Option<(Vec<Date>, AdjustmentPolicy)>)
        requires
            self.wf(),
            start.wf(),
            end.wf(),
        ensures
            (r is None) == (resolve_spec(*self, start@, end@) is None),
            r matches Some(p) ==> (resolve_spec(*self, start@, end@) matches Some(sp)
                && date_seq_view(p.0@) == sp.0 && p.1 == sp.1 && date_seq_wf(p.0@)),
    {
        match self {
            DateSpec::SpecificDate { date, .. } => {
                if date.days < start.days || end.days < date.days {
                    None
                } else {
                    let mut v: Vec<Date> = Vec::new();
                    v.push(*date);
                    proof {
                        assert(date_seq_view(v@) =~= seq![date@]);
                    }
                    Some((v, AdjustmentPolicy::NoAdjustment))
                }
            },
            DateSpec::DayOfMonth { month, day, observed, valid_since, valid_until, .. } => {
                if valid_since.days > end.days || valid_until.days < start.days {
                    return None;
                }
                let cs: Date = if valid_since.days < start.days {
                    start
                } else {
                    *valid_since
                };
                let ce: Date = if valid_until.days < end.days {
                    *valid_until
                } else {
                    end
                };
                let s: i32 = cs.year();
                let e: i32 = ce.year();
                let month_num: u32 = month.number_from_month();
                let ghost mn: int = month.number_spec();
                let ghost dd: int = *day as int;
                let mut result: Vec<Date> = Vec::new();
                let mut year: i32 = s;
                while year <= e
                    invariant
                        s <= year,
                        year <= e + 1 || year == s,
                        1 <= s,
                        e <= MAX_DAY_NUMBER as int + 1,
                        1 <= month_num <= 12,
                        mn == month_num as int,
                        dd == *day as int,
                        date_seq_wf(result@),
                        date_seq_view(result@) + day_of_month_dates(mn, dd, year as int, e as int)
                            == day_of_month_dates(mn, dd, s as int, e as int),
                    decreases e + 1 - year,
                {
                    let ghost prev = result@;
                    match Date::from_ymd(year, month_num, *day) {
                        Some(d) => {
                            result.push(d);
                            proof {
                                lemma_date_seq_view_push(prev, d);
                            }
                        },
                        None => {},
                    }
                    proof {
                        assert(day_of_month_dates(mn, dd, year as int, e as int) == (match
                        dom_occurrence(year as int, mn, dd) {
                            Option::Some(dn) => seq![dn],
                            Option::None => Seq::<int>::empty(),
                        }) + day_of_month_dates(mn, dd, year as int + 1, e as int));
                        assert(date_seq_view(result@) + day_of_month_dates(
                            mn,
                            dd,
                            year as int + 1,
                            e as int,
                        ) =~= date_seq_view(prev) + day_of_month_dates(mn, dd, year as int, e as int));
                    }
                    year = year + 1;
                }
                proof {
                    if s as int > e as int {
                        assert(day_of_month_dates(mn, dd, s as int, e as int) =~= Seq::<
                            int,
                        >::empty());
                    }
                    assert(date_seq_view(result@) =~= day_of_month_dates(
                        mn,
                        dd,
                        s as int,
                        e as int,
                    ));
                }
                Some((result, *observed))
            },
            DateSpec::NthDayOccurance {
                month,
                dow,
                offset,
                observed,
                valid_since,
                valid_until,
                ..
            } => {
                if valid_since.days > end.days || valid_until.days < start.days {
                    return None;
                }
                let cs: Date = if valid_since.days < start.days {
                    start
                } else {
                    *valid_since
                };
                let ce: Date = if valid_until.days < end.days {
                    *valid_until
                } else {
                    end
                };
                let s: i32 = cs.year();
                let e: i32 = ce.year();
                let month_num: u32 = month.number_from_month();
                let ghost mn: int = month.number_spec();
                let ghost dw: int = dow.index_spec();
                let ghost off: int = *offset as int;
                let mut result: Vec<Date> = Vec::new();
                let mut year: i32 = s;
                while year <= e
                    invariant
                        s <= year,
                        year <= e + 1 || year == s,
                        1 <= s,
                        e <= MAX_DAY_NUMBER as int + 1,
                        1 <= month_num <= 12,
                        mn == month_num as int,
                        dw == dow.index_spec(),
                        off == *offset as int,
                        date_seq_wf(result@),
                        date_seq_view(result@) + nth_dow_dates(mn, dw, off, year as int, e as int)
                            == nth_dow_dates(mn, dw, off, s as int, e as int),
                    decreases e + 1 - year,
                {
                    let ghost prev = result@;
                    match nth_dow_exec(year, month_num, *dow, *offset) {
                        Some(d) => {
                            result.push(d);
                            proof {
                                lemma_date_seq_view_push(prev, d);
                            }
                        },
                        None => {},
                    }
                    proof {
                        assert(nth_dow_dates(mn, dw, off, year as int, e as int) == (match
                        nth_occurrence(year as int, mn, dw, off) {
                            Option::Some(dn) => seq![dn],
                            Option::None => Seq::<int>::empty(),
                        }) + nth_dow_dates(mn, dw, off, year as int + 1, e as int));
                        assert(date_seq_view(result@) + nth_dow_dates(
                            mn,
                            dw,
                            off,
                            year as int + 1,
                            e as int,
                        ) =~= date_seq_view(prev) + nth_dow_dates(mn, dw, off, year as int, e as int));
                    }
                    year = year + 1;
                }
                proof {
                    if s as int > e as int {
                        assert(nth_dow_dates(mn, dw, off, s as int, e as int) =~= Seq::<
                            int,
                        >::empty());
                    }
                    assert(date_seq_view(result@) =~= nth_dow_dates(mn, dw, off, s as int, e as int));
                }
                Some((result, *observed))
            },
        }
    }
}

/// The occurrences of one resolved rule: each raw date paired with the
/// rule's policy, in the rule's own order.
pub open spec fn pair_occs(p: (Seq<int>, AdjustmentPolicy)) -> Seq<(int, AdjustmentPolicy)> {
    Seq::new(p.0.len(), |i: int| (p.0[i], p.1))
}

/// All occurrences of a list of resolved rules, in rule order.
pub open spec fn flatten_resolved(pairs: Seq<(Seq<int>, AdjustmentPolicy)>) -> Seq<
    (int, AdjustmentPolicy),
>
    decreases pairs.len(),
{
    if pairs.len() == 0 {
        Seq::empty()
    } else {
        pair_occs(pairs[0]) + flatten_resolved(pairs.drop_first())
    }
}

/// Fold one occurrence into the observed set: insert its observed date, or
/// leave the set as it is when the occurrence resolves to nothing.
pub open spec fn fold_step(mask: WeekdayMask, obs: Set<int>, occ: (int, AdjustmentPolicy)) -> Set<
    int,
> {
    match adjust_spec(mask, obs, occ.0, occ.1) {
        Option::Some(d) => obs.insert(d),
        Option::None => obs,
    }
}

/// Fold a list of occurrences into the observed set, in order; each
/// occurrence's adjustment sees exactly the occurrences committed before it.
pub open spec fn fold_occurrences(
    mask: WeekdayMask,
    occs: Seq<(int, AdjustmentPolicy)>,
    obs: Set<int>,
) -> Set<int>
    decreases occs.len(),
{
    if occs.len() == 0 {
        obs
    } else {
        fold_occurrences(mask, occs.drop_first(), fold_step(mask, obs, occs[0]))
    }
}

/// Resolved (dates, policy) pairs of a rule list against a query window, in
/// rule order, rules that resolve to nothing skipped.
pub open spec fn resolved_pairs(rules: Seq<DateSpec>, start: int, end: int) -> Seq<
    (Seq<int>, AdjustmentPolicy),
>
    decreases rules.len(),
{
    if rules.len() == 0 {
        Seq::empty()
    } else {
        (match resolve_spec(rules[0], start, end) {
            Option::Some(p) => seq![p],
            Option::None => Seq::empty(),
        }) + resolved_pairs(rules.drop_first(), start, end)
    }
}

/// View of a vector of resolved pairs as sequences of day numbers.
pub open spec fn pairs_view(v: Seq<(Vec<Date>, AdjustmentPolicy)>) -> Seq<
    (Seq<int>, AdjustmentPolicy),
> {
    v.map_values(|p: (Vec<Date>, AdjustmentPolicy)| (date_seq_view(p.0@), p.1))
}

pub proof fn lemma_fold_push(
    mask: WeekdayMask,
    occs: Seq<(int, AdjustmentPolicy)>,
    obs: Set<int>,
    occ: (int, AdjustmentPolicy),
)
    ensures
        fold_occurrences(mask, occs.push(occ), obs) == fold_step(
            mask,
            fold_occurrences(mask, occs, obs),
            occ,
        ),
    decreases occs.len(),
{
    if occs.len() == 0 {
        assert(occs.push(occ)[0] == occ);
        assert(occs.push(occ).drop_first() =~= Seq::<(int, AdjustmentPolicy)>::empty());
        assert(fold_occurrences(mask, occs.push(occ), obs) == fold_occurrences(
            mask,
            Seq::<(int, AdjustmentPolicy)>::empty(),
            fold_step(mask, obs, occ),
        ));
    } else {
        assert(occs.push(occ)[0] == occs[0]);
        assert(occs.push(occ).drop_first() =~= occs.drop_first().push(occ));
        lemma_fold_push(mask, occs.drop_first(), fold_step(mask, obs, occs[0]), occ);
    }
}

pub proof fn lemma_flatten_push(
    pairs: Seq<(Seq<int>, AdjustmentPolicy)>,
    p: (Seq<int>, AdjustmentPolicy),
)
    ensures
        flatten_resolved(pairs.push(p)) =~= flatten_resolved(pairs) + pair_occs(p),
    decreases pairs.len(),
{
    if pairs.len() == 0 {
        assert(pairs.push(p)[0] == p);
        assert(pairs.push(p).drop_first() =~= Seq::<(Seq<int>, AdjustmentPolicy)>::empty());
        assert(flatten_resolved(pairs.push(p)) == pair_occs(p) + flatten_resolved(
            Seq::<(Seq<int>, AdjustmentPolicy)>::empty(),
        ));
    } else {
        assert(pairs.push(p)[0] == pairs[0]);
        assert(pairs.push(p).drop_first() =~= pairs.drop_first().push(p));
        lemma_flatten_push(pairs.drop_first(), p);
    }
}

/// A business calendar: its working-weekday mask `dow` and the ordered list
/// `exclude` of holiday rules. Rule order is significant: earlier rules'
/// observed dates block later rules' adjustments.
#[derive(Clone, Debug, Default)]
pub struct Calendar {
    pub description: String,
    pub dow: WeekdayMask,
    pub public: bool,
    pub exclude: Vec<DateSpec>,
    pub inherits: Vec<String>,
}

/// The observed off-day set of a calendar for the query window
/// `[start, end]`: every rule resolved against the window, then all
/// occurrences folded, in rule order and within a rule in its own emission
/// order, into the set.
pub open spec fn offdays_spec(cal: Calendar, start: int, end: int) -> Set<int> {
    fold_occurrences(
        cal.dow,
        flatten_resolved(resolved_pairs(cal.exclude@, start, end)),
        Set::empty(),
    )
}

/// A date is an off day when its weekday is outside the working mask or it
/// is an observed off day of the single-date window around it.
pub open spec fn is_offday_spec(cal: Calendar, dn: int) -> bool {
    !cal.dow.allows(dn % 7) || offdays_spec(cal, dn, dn).contains(dn)
}

/// A day number belongs to the working days of the window `[from, to]` when
/// its weekday is in the mask, it is not an observed off day of the window,
/// and it is not before `from`.
pub open spec fn working_in_window(cal: Calendar, from: int, to: int, dn: int) -> bool {
    cal.dow.allows(dn % 7) && !offdays_spec(cal, from, to).contains(dn) && from <= dn
}

/// Working days of the window, from day number `dn` up to `to`, ascending.
pub open spec fn range_spec_from(cal: Calendar, from: int, to: int, dn: int) -> Seq<int>
    decreases to + 1 - dn,
{
    if dn > to {
        Seq::empty()
    } else {
        (if working_in_window(cal, from, to, dn) {
            seq![dn]
        } else {
            Seq::empty()
        }) + range_spec_from(cal, from, to, dn + 1)
    }
}

/// Working days of the window `[from, to]`, ascending.
pub open spec fn range_spec(cal: Calendar, from: int, to: int) -> Seq<int> {
    range_spec_from(cal, from, to, from)
}

/// Walking up to `from` from below adds no working day: every day before
/// `from` is outside the window.
pub proof fn lemma_range_spec_low(cal: Calendar, from: int, to: int, dn: int)
    requires
        dn <= from,
    ensures
        range_spec_from(cal, from, to, dn) == range_spec(cal, from, to),
    decreases from - dn,
{
    if dn < from {
        lemma_range_spec_low(cal, from, to, dn + 1);
        if dn <= to {
            assert(range_spec_from(cal, from, to, dn) =~= range_spec_from(cal, from, to, dn + 1));
        } else {
            assert(range_spec_from(cal, from, to, dn) =~= Seq::<int>::empty());
            assert(range_spec_from(cal, from, to, from) =~= Seq::<int>::empty());
        }
    }
}

/// Every entry of `range_spec_from` lies between `dn` and `to`, is a working
/// day of the window, and the entries ascend strictly.
pub proof fn lemma_range_spec_from_props(cal: Calendar, from: int, to: int, dn: int)
    ensures
        forall|i: int|
            0 <= i < range_spec_from(cal, from, to, dn).len() ==> dn <= #[trigger] range_spec_from(
                cal,
                from,
                to,
                dn,
            )[i] <= to && working_in_window(cal, from, to, range_spec_from(cal, from, to, dn)[i]),
        forall|i: int, j: int|
            0 <= i < j < range_spec_from(cal, from, to, dn).len() ==> range_spec_from(
                cal,
                from,
                to,
                dn,
            )[i] < range_spec_from(cal, from, to, dn)[j],
    decreases to + 1 - dn,
{
    if dn <= to {
        lemma_range_spec_from_props(cal, from, to, dn + 1);
        let head = if working_in_window(cal, from, to, dn) {
            seq![dn]
        } else {
            Seq::<int>::empty()
        };
        let tail = range_spec_from(cal, from, to, dn + 1);
        let s = range_spec_from(cal, from, to, dn);
        assert(s == head + tail);
        assert forall|i: int| 0 <= i < s.len() implies dn <= s[i] <= to && working_in_window(
            cal,
            from,
            to,
            s[i],
        ) by {
            if i < head.len() {
                assert(s[i] == dn);
            } else {
                assert(s[i] == tail[i - head.len()]);
            }
        }
        assert forall|i: int, j: int| 0 <= i < j < s.len() implies s[i] < s[j] by {
            assert(s[j] == tail[j - head.len()]);
            if i < head.len() {
                assert(s[i] == dn);
            } else {
                assert(s[i] == tail[i - head.len()]);
            }
        }
    }
}

impl Calendar {
    pub open spec fn wf(self) -> bool {
        forall|i: int| 0 <= i < self.exclude@.len() ==> (#[trigger] self.exclude@[i]).wf()
    }

    /// Observed date of one raw holiday date under `policy`, given the off
    /// days already observed in this resolution window. `None` means the
    /// holiday produces no new observed date: it was absorbed under
    /// `NoAdjustment`, the weekday mask is empty, or the scans ran off the
    /// representable range.
    pub fn adjust_special_offday(
        &self,
        date: Date,
        policy: &AdjustmentPolicy,
        offdays: &DateSet,
    ) -> (r: Option<Date>)
        requires
            date.wf(),
        ensures
            opt_view(r) == adjust_spec(self.dow, offdays@, date@, *policy),
            r matches Some(d) ==> d.wf(),
    {
        if self.dow.is_empty() {
            return None;
        }
        match policy {
            AdjustmentPolicy::Next => scan_next_from(&self.dow, offdays, date),
            AdjustmentPolicy::Prev => scan_prev_from(&self.dow, offdays, date),
            AdjustmentPolicy::Closest => {
                let prev = scan_prev_from(&self.dow, offdays, date);
                let next = scan_next_from(&self.dow, offdays, date);
                match (prev, next) {
                    (Some(p), Some(n)) => if date.days - p.days < n.days - date.days {
                        Some(p)
                    } else {
                        Some(n)
                    },
                    (Some(p), None) => Some(p),
                    (None, Some(n)) => Some(n),
                    (None, None) => None,
                }
            },
            AdjustmentPolicy::NoAdjustment => {
                let wd = date.weekday();
                if !self.dow.contains(wd) || offdays.contains(date) {
                    None
                } else {
                    Some(date)
                }
            },
        }
    }

    /// Fold the resolved (dates, policy) pairs, in order, into the observed
    /// off-day set, each occurrence's adjustment seeing the occurrences
    /// committed before it.
    pub fn adjust_special_offdays(&self, offdays: &Vec<(Vec<Date>, AdjustmentPolicy)>) -> (r:
        DateSet)
        requires
            forall|i: int| 0 <= i < offdays@.len() ==> date_seq_wf((#[trigger] offdays@[i]).0@),
        ensures
            r@ == fold_occurrences(
                self.dow,
                flatten_resolved(pairs_view(offdays@)),
                Set::<int>::empty(),
            ),
            r.wf(),
    {
        let mut observed = DateSet::new();
        let mut k: usize = 0;
        while k < offdays.len()
            invariant
                0 <= k <= offdays@.len(),
                forall|i: int| 0 <= i < offdays@.len() ==> date_seq_wf((#[trigger] offdays@[i]).0@),
                observed.wf(),
                observed@ == fold_occurrences(
                    self.dow,
                    flatten_resolved(pairs_view(offdays@.take(k as int))),
                    Set::<int>::empty(),
                ),
            decreases offdays@.len() - k,
        {
            let pair = &offdays[k];
            let policy: AdjustmentPolicy = pair.1;
            let ghost pk: (Seq<int>, AdjustmentPolicy) = (date_seq_view(pair.0@), policy);
            let mut j: usize = 0;
            while j < pair.0.len()
                invariant
                    0 <= j <= pair.0@.len(),
                    k < offdays@.len(),
                    pair == &offdays@[k as int],
                    policy == pair.1,
                    pk == (date_seq_view(pair.0@), policy),
                    forall|i: int|
                        0 <= i < offdays@.len() ==> date_seq_wf((#[trigger] offdays@[i]).0@),
                    observed.wf(),
                    observed@ == fold_occurrences(
                        self.dow,
                        flatten_resolved(pairs_view(offdays@.take(k as int))) + pair_occs(pk).take(
                            j as int,
                        ),
                        Set::<int>::empty(),
                    ),
                decreases pair.0@.len() - j,
            {
                let date: Date = pair.0[j];
                let ghost occs_done = flatten_resolved(pairs_view(offdays@.take(k as int)))
                    + pair_occs(pk).take(j as int);
                let ghost pre = observed@;
                assert(date.wf()) by {
                    assert(date_seq_wf(offdays@[k as int].0@));
                }
                match self.adjust_special_offday(date, &policy, &observed) {
                    Some(offday) => {
                        observed.insert(offday);
                    },
                    None => {},
                }
                proof {
                    assert(observed@ == fold_step(self.dow, pre, (date@, policy)));
                    lemma_fold_push(self.dow, occs_done, Set::<int>::empty(), (date@, policy));
                    assert(occs_done.push((date@, policy)) =~= flatten_resolved(
                        pairs_view(offdays@.take(k as int)),
                    ) + pair_occs(pk).take(j as int + 1));
                }
                j = j + 1;
            }
            proof {
                assert(pair_occs(pk).take(pair.0@.len() as int) =~= pair_occs(pk));
                lemma_flatten_push(pairs_view(offdays@.take(k as int)), pk);
                assert(pairs_view(offdays@.take(k as int)).push(pk) =~= pairs_view(
                    offdays@.take(k as int + 1),
                ));
            }
            k = k + 1;
        }
        proof {
            assert(offdays@.take(offdays@.len() as int) =~= offdays@);
        }
        observed
    }

    /// The observed off days of this calendar in the query window
    /// `[start, end]`: every rule resolved against the window and the
    /// occurrences folded, in rule order, through the observance resolver.
    pub fn get_special_offdays(&self, start: Date, end: Date) -> (r: DateSet)
        requires
            self.wf(),
            start.wf(),
            end.wf(),
        ensures
            r@ == offdays_spec(*self, start@, end@),
            r.wf(),
    {
        let mut offdays: Vec<(Vec<Date>, AdjustmentPolicy)> = Vec::new();
        let mut k: usize = 0;
        while k < self.exclude.len()
            invariant
                0 <= k <= self.exclude@.len(),
                self.wf(),
                start.wf(),
                end.wf(),
                forall|i: int| 0 <= i < offdays@.len() ==> date_seq_wf((#[trigger] offdays@[i]).0@),
                pairs_view(offdays@) == resolved_pairs(
                    self.exclude@.take(k as int),
                    start@,
                    end@,
                ),
            decreases self.exclude@.len() - k,
        {
            let ghost prev = offdays@;
            match self.exclude[k].resolve(start, end) {
                Some(pair) => {
                    offdays.push(pair);
                },
                None => {},
            }
            proof {
                lemma_resolved_pairs_push(
                    self.exclude@.take(k as int),
                    self.exclude@[k as int],
                    start@,
                    end@,
                );
                assert(self.exclude@.take(k as int).push(self.exclude@[k as int])
                    =~= self.exclude@.take(k as int + 1));
                assert(pairs_view(offdays@) =~= resolved_pairs(
                    self.exclude@.take(k as int + 1),
                    start@,
                    end@,
                ));
            }
            k = k + 1;
        }
        proof {
            assert(self.exclude@.take(self.exclude@.len() as int) =~= self.exclude@);
        }
        self.adjust_special_offdays(&offdays)
    }

    /// Whether `date` is an off day: its weekday is outside the working
    /// mask, or it is an observed off day of the single-date window around
    /// it. The first clause means a date whose weekday is off is an off day
    /// no matter what the holiday rules say.
    pub fn is_offday(&self, date: Date) -> (r: bool)
        requires
            self.wf(),
            date.wf(),
        ensures
            r == is_offday_spec(*self, date@),
            !self.dow.allows(date@ % 7) ==> r,
    {
        let wd = date.weekday();
        if !self.dow.contains(wd) {
            true
        } else {
            self.get_special_offdays(date, date).contains(date)
        }
    }

    /// The working days in `[from, to]`, both ends inclusive, in strictly
    /// ascending order: the dates of the window whose weekday is in the
    /// working mask and that are not observed off days of the window. The
    /// walk starts a fixed fourteen days before `from` so that its shape
    /// follows the off-day resolution window; the days before `from` are
    /// filtered out of the result.
    pub fn date_range(&self, from: Date, to: Date) -> (r: Vec<Date>)
        requires
            self.wf(),
            from.wf(),
            to.wf(),
        ensures
            date_seq_view(r@) == range_spec(*self, from@, to@),
            date_seq_wf(r@),
            forall|i: int| 0 <= i < r@.len() ==> from@ <= (#[trigger] r@[i])@ <= to@,
            forall|i: int, j: int| 0 <= i < j < r@.len() ==> r@[i]@ < r@[j]@,
            forall|i: int|
                0 <= i < r@.len() ==> working_in_window(*self, from@, to@, (#[trigger] r@[i])@),
    {
        let offdays = self.get_special_offdays(from, to);
        let lo: i32 = if from.days >= 14 {
            from.days - 14
        } else {
            0
        };
        let mut result: Vec<Date> = Vec::new();
        let mut cur: i32 = lo;
        while cur <= to.days
            invariant
                0 <= lo <= cur,
                lo <= from.days,
                cur <= to@ + 1 || cur == lo,
                from.wf(),
                to.wf(),
                offdays@ == offdays_spec(*self, from@, to@),
                date_seq_wf(result@),
                date_seq_view(result@) + range_spec_from(*self, from@, to@, cur as int)
                    == range_spec_from(*self, from@, to@, lo as int),
            decreases to@ + 1 - cur,
        {
            let d = Date { days: cur };
            let wd = d.weekday();
            let ghost prev = result@;
            if self.dow.contains(wd) && !offdays.contains(d) && cur >= from.days {
                result.push(d);
                proof {
                    lemma_date_seq_view_push(prev, d);
                }
            }
            proof {
                assert(date_seq_view(result@) + range_spec_from(*self, from@, to@, cur as int + 1)
                    =~= date_seq_view(prev) + range_spec_from(*self, from@, to@, cur as int));
            }
            cur = cur + 1;
        }
        proof {
            assert(range_spec_from(*self, from@, to@, cur as int) =~= Seq::<int>::empty());
            assert(date_seq_view(result@) =~= range_spec_from(*self, from@, to@, lo as int));
            lemma_range_spec_low(*self, from@, to@, lo as int);
            lemma_range_spec_from_props(*self, from@, to@, from@);
            let s = range_spec(*self, from@, to@);
            assert forall|i: int| 0 <= i < result@.len() implies (#[trigger] result@[i])@
                == s[i] by {
                assert(date_seq_view(result@)[i] == result@[i]@);
            }
        }
        result
    }
}

pub proof fn lemma_resolved_pairs_push(rules: Seq<DateSpec>, rule: DateSpec, start: int, end: int)
    ensures
        resolved_pairs(rules.push(rule), start, end) =~= resolved_pairs(rules, start, end) + (
        match resolve_spec(rule, start, end) {
            Option::Some(p) => seq![p],
            Option::None => Seq::<(Seq<int>, AdjustmentPolicy)>::empty(),
        }),
    decreases rules.len(),
{
    if rules.len() == 0 {
        assert(rules.push(rule)[0] == rule);
        assert(rules.push(rule).drop_first() =~= Seq::<DateSpec>::empty());
        assert(resolved_pairs(Seq::<DateSpec>::empty(), start, end) == Seq::<
            (Seq<int>, AdjustmentPolicy),
        >::empty());
    } else {
        assert(rules.push(rule)[0] == rules[0]);
        assert(rules.push(rule).drop_first() =~= rules.drop_first().push(rule));
        lemma_resolved_pairs_push(rules.drop_first(), rule, start, end);
    }
}

} // verus!
