//! The engine's stated laws, proved over the spec functions of the
//! calendar module: what the observance scans mean, that absorbed holidays
//! observe nothing, that `Closest` really picks the nearer side with ties
//! going forward, that a wider query window only adds observed off days,
//! and that every enumerated working day is no off day.

use crate::calendar::adjust_spec;
use crate::calendar::blocked;
use crate::calendar::clip_high;
use crate::calendar::clip_low;
use crate::calendar::day_of_month_dates;
use crate::calendar::flatten_resolved;
use crate::calendar::fold_occurrences;
use crate::calendar::fold_step;
use crate::calendar::is_offday_spec;
use crate::calendar::lemma_range_spec_from_props;
use crate::calendar::nth_dow_dates;
use crate::calendar::offdays_spec;
use crate::calendar::pair_occs;
use crate::calendar::range_spec;
use crate::calendar::resolve_spec;
use crate::calendar::resolved_pairs;
use crate::calendar::scan_next;
use crate::calendar::scan_prev;
use crate::calendar::working_in_window;
use crate::calendar::AdjustmentPolicy;
use crate::calendar::Calendar;
use crate::calendar::DateSpec;
use crate::calendar::WeekdayMask;
use crate::date::year_of_day;
use crate::date::MAX_DAY_NUMBER;
use vstd::prelude::*;

verus! {

/// Distance in days between two day numbers.
pub open spec fn day_distance(a: int, b: int) -> int {
    if a <= b {
        b - a
    } else {
        a - b
    }
}

/// What a successful forward scan means: the first unblocked day at or
/// after `dn`; and what a failed one means: everything up to the end of the
/// range is blocked.
pub proof fn lemma_scan_next_bounds(mask: WeekdayMask, obs: Set<int>, dn: int)
    ensures
        scan_next(mask, obs, dn) matches Some(y) ==> (dn <= y <= MAX_DAY_NUMBER as int && !blocked(
            mask,
            obs,
            y,
        ) && (forall|d: int| dn <= d < y ==> blocked(mask, obs, d))),
        scan_next(mask, obs, dn) is None ==> (forall|d: int|
            dn <= d <= MAX_DAY_NUMBER as int ==> blocked(mask, obs, d)),
    decreases MAX_DAY_NUMBER as int + 1 - dn,
{
    if dn > MAX_DAY_NUMBER as int {
    } else if !blocked(mask, obs, dn) {
    } else {
        lemma_scan_next_bounds(mask, obs, dn + 1);
    }
}

/// The counterpart of `lemma_scan_next_bounds` for the backward scan.
pub proof fn lemma_scan_prev_bounds(mask: WeekdayMask, obs: Set<int>, dn: int)
    ensures
        scan_prev(mask, obs, dn) matches Some(y) ==> (0 <= y <= dn && !blocked(mask, obs, y) && (
        forall|d: int| y < d <= dn ==> blocked(mask, obs, d))),
        scan_prev(mask, obs, dn) is None ==> (forall|d: int|
            0 <= d <= dn ==> blocked(mask, obs, d)),
    decreases dn + 1,
{
    if dn < 0 {
    } else if !blocked(mask, obs, dn) {
    } else {
        lemma_scan_prev_bounds(mask, obs, dn - 1);
    }
}

/// A day that is unblocked, with everything between it and the start of the
/// scan blocked, is exactly what the forward scan returns.
pub proof fn lemma_scan_next_witness(mask: WeekdayMask, obs: Set<int>, dn: int, y: int)
    requires
        dn <= y <= MAX_DAY_NUMBER as int,
        !blocked(mask, obs, y),
        forall|d: int| dn <= d < y ==> blocked(mask, obs, d),
    ensures
        scan_next(mask, obs, dn) == Option::Some(y),
    decreases y - dn,
{
    if dn < y {
        lemma_scan_next_witness(mask, obs, dn + 1, y);
    }
}

/// The counterpart of `lemma_scan_next_witness` for the backward scan.
pub proof fn lemma_scan_prev_witness(mask: WeekdayMask, obs: Set<int>, dn: int, y: int)
    requires
        0 <= y <= dn,
        !blocked(mask, obs, y),
        forall|d: int| y < d <= dn ==> blocked(mask, obs, d),
    ensures
        scan_prev(mask, obs, dn) == Option::Some(y),
    decreases dn - y,
{
    if y < dn {
        lemma_scan_prev_witness(mask, obs, dn - 1, y);
    }
}

/// A forward scan over nothing but blocked days returns nothing.
pub proof fn lemma_scan_next_none(mask: WeekdayMask, obs: Set<int>, dn: int)
    requires
        forall|d: int| dn <= d <= MAX_DAY_NUMBER as int ==> blocked(mask, obs, d),
    ensures
        scan_next(mask, obs, dn) is None,
    decreases MAX_DAY_NUMBER as int + 1 - dn,
{
    if dn <= MAX_DAY_NUMBER as int {
        lemma_scan_next_none(mask, obs, dn + 1);
    }
}

/// The counterpart of `lemma_scan_next_none` for the backward scan.
pub proof fn lemma_scan_prev_none(mask: WeekdayMask, obs: Set<int>, dn: int)
    requires
        forall|d: int| 0 <= d <= dn ==> blocked(mask, obs, d),
    ensures
        scan_prev(mask, obs, dn) is None,
    decreases dn + 1,
{
    if dn >= 0 {
        lemma_scan_prev_none(mask, obs, dn - 1);
    }
}

/// A holiday under `NoAdjustment` whose raw date falls on a weekday outside
/// the working mask is absorbed by that natural off day: it produces no
/// observed date of its own, and the observed set does not change.
pub proof fn lemma_no_adjustment_absorbed(mask: WeekdayMask, obs: Set<int>, dn: int)
    requires
        !mask.allows(dn % 7),
    ensures
        adjust_spec(mask, obs, dn, AdjustmentPolicy::NoAdjustment) is None,
        fold_step(mask, obs, (dn, AdjustmentPolicy::NoAdjustment)) == obs,
{
}

/// The date picked by `Closest` lies no farther from the raw date than
/// either the backward or the forward scan's result, and a tie between the
/// two sides goes to the forward (`Next`) side.
pub proof fn lemma_closest_is_nearest(mask: WeekdayMask, obs: Set<int>, dn: int)
    ensures
        adjust_spec(mask, obs, dn, AdjustmentPolicy::Closest) matches Some(c) ==> (adjust_spec(
            mask,
            obs,
            dn,
            AdjustmentPolicy::Prev,
        ) matches Some(p) ==> day_distance(dn, c) <= day_distance(dn, p)),
        adjust_spec(mask, obs, dn, AdjustmentPolicy::Closest) matches Some(c) ==> (adjust_spec(
            mask,
            obs,
            dn,
            AdjustmentPolicy::Next,
        ) matches Some(n) ==> day_distance(dn, c) <= day_distance(dn, n)),
        adjust_spec(mask, obs, dn, AdjustmentPolicy::Prev) matches Some(p) ==> (adjust_spec(
            mask,
            obs,
            dn,
            AdjustmentPolicy::Next,
        ) matches Some(n) ==> (day_distance(dn, p) == day_distance(dn, n) ==> adjust_spec(
            mask,
            obs,
            dn,
            AdjustmentPolicy::Closest,
        ) == Option::Some(n))),
{
    if !mask.is_empty_spec() {
        lemma_scan_prev_bounds(mask, obs, dn);
        lemma_scan_next_bounds(mask, obs, dn);
    }
}

/// Growing the already-observed set can only move an observed date onto a
/// date the larger set already holds; on any other raw date the adjustment
/// agrees.
pub proof fn lemma_adjust_monotone(
    mask: WeekdayMask,
    obs1: Set<int>,
    obs2: Set<int>,
    dn: int,
    policy: AdjustmentPolicy,
)
    requires
        obs1.subset_of(obs2),
    ensures
        adjust_spec(mask, obs1, dn, policy) matches Some(y) ==> (obs2.contains(y) || adjust_spec(
            mask,
            obs2,
            dn,
            policy,
        ) == Option::Some(y)),
{
    if !mask.is_empty_spec() {
        lemma_scan_next_bounds(mask, obs1, dn);
        lemma_scan_prev_bounds(mask, obs1, dn);
        lemma_scan_next_bounds(mask, obs2, dn);
        lemma_scan_prev_bounds(mask, obs2, dn);
        match policy {
            AdjustmentPolicy::Next => {
                if scan_next(mask, obs1, dn) is Some {
                    let y = scan_next(mask, obs1, dn)->Some_0;
                    if !obs2.contains(y) {
                        assert forall|d: int| dn <= d < y implies blocked(mask, obs2, d) by {
                            assert(blocked(mask, obs1, d));
                        }
                        lemma_scan_next_witness(mask, obs2, dn, y);
                    }
                }
            },
            AdjustmentPolicy::Prev => {
                if scan_prev(mask, obs1, dn) is Some {
                    let y = scan_prev(mask, obs1, dn)->Some_0;
                    if !obs2.contains(y) {
                        assert forall|d: int| y < d <= dn implies blocked(mask, obs2, d) by {
                            assert(blocked(mask, obs1, d));
                        }
                        lemma_scan_prev_witness(mask, obs2, dn, y);
                    }
                }
            },
            AdjustmentPolicy::NoAdjustment => {},
            AdjustmentPolicy::Closest => {
                lemma_closest_monotone(mask, obs1, obs2, dn);
            },
        }
    }
}

/// The `Closest` case of `lemma_adjust_monotone`.
proof fn lemma_closest_monotone(mask: WeekdayMask, obs1: Set<int>, obs2: Set<int>, dn: int)
    requires
        obs1.subset_of(obs2),
        !mask.is_empty_spec(),
    ensures
        adjust_spec(mask, obs1, dn, AdjustmentPolicy::Closest) matches Some(y) ==> (obs2.contains(
            y,
        ) || adjust_spec(mask, obs2, dn, AdjustmentPolicy::Closest) == Option::Some(y)),
{
    lemma_scan_next_bounds(mask, obs1, dn);
    lemma_scan_prev_bounds(mask, obs1, dn);
    lemma_scan_next_bounds(mask, obs2, dn);
    lemma_scan_prev_bounds(mask, obs2, dn);
    assert forall|d: int| blocked(mask, obs1, d) implies blocked(mask, obs2, d) by {
        if obs1.contains(d) {
            assert(obs2.contains(d));
        }
    }
    if adjust_spec(mask, obs1, dn, AdjustmentPolicy::Closest) is Some {
        let y = adjust_spec(mask, obs1, dn, AdjustmentPolicy::Closest)->Some_0;
        if !obs2.contains(y) {
            let p1 = scan_prev(mask, obs1, dn);
            let n1 = scan_next(mask, obs1, dn);
            // The chosen date is one scan's result; rebuild both scans under
            // the larger set and compare distances again. A scan result that
            // the larger set blocks moves strictly farther away or fails, so
            // the choice cannot swing over to it.
            if n1 is Some && y == n1->Some_0 {
                let n = n1->Some_0;
                lemma_scan_next_witness(mask, obs2, dn, n);
                if p1 is Some {
                    let p = p1->Some_0;
                    if obs2.contains(p) {
                        if scan_prev(mask, obs2, dn) is Some {
                            let q = scan_prev(mask, obs2, dn)->Some_0;
                            assert(!blocked(mask, obs1, q));
                            assert(q < p);
                        }
                    } else {
                        lemma_scan_prev_witness(mask, obs2, dn, p);
                    }
                } else {
                    if scan_prev(mask, obs2, dn) is Some {
                        let q = scan_prev(mask, obs2, dn)->Some_0;
                        assert(!blocked(mask, obs1, q));
                        assert(false);
                    }
                }
            } else {
                assert(p1 is Some && y == p1->Some_0);
                let p = p1->Some_0;
                lemma_scan_prev_witness(mask, obs2, dn, p);
                if n1 is Some {
                    let n = n1->Some_0;
                    if obs2.contains(n) {
                        if scan_next(mask, obs2, dn) is Some {
                            let q = scan_next(mask, obs2, dn)->Some_0;
                            assert(!blocked(mask, obs1, q));
                            assert(q > n);
                        }
                    } else {
                        lemma_scan_next_witness(mask, obs2, dn, n);
                    }
                } else {
                    lemma_scan_next_none(mask, obs2, dn);
                }
            }
        }
    }
}

/// `a` is a subsequence of `b`: the entries of `a` appear in `b`, in order.
pub open spec fn subseq_of<T>(a: Seq<T>, b: Seq<T>) -> bool
    decreases b.len(),
{
    if a.len() == 0 {
        true
    } else if b.len() == 0 {
        false
    } else {
        (a[0] == b[0] && subseq_of(a.drop_first(), b.drop_first())) || subseq_of(
            a,
            b.drop_first(),
        )
    }
}

pub proof fn lemma_subseq_refl<T>(a: Seq<T>)
    ensures
        subseq_of(a, a),
    decreases a.len(),
{
    if a.len() > 0 {
        lemma_subseq_refl(a.drop_first());
    }
}

pub proof fn lemma_subseq_prepend<T>(b: Seq<T>, c: Seq<T>, d: Seq<T>)
    requires
        subseq_of(c, d),
    ensures
        subseq_of(c, b + d),
    decreases b.len(),
{
    if b.len() == 0 {
        assert(b + d =~= d);
    } else {
        lemma_subseq_prepend(b.drop_first(), c, d);
        assert((b + d).drop_first() =~= b.drop_first() + d);
        if c.len() > 0 {
            assert(subseq_of(c, (b + d).drop_first()));
        }
    }
}

pub proof fn lemma_subseq_concat<T>(a: Seq<T>, b: Seq<T>, c: Seq<T>, d: Seq<T>)
    requires
        subseq_of(a, b),
        subseq_of(c, d),
    ensures
        subseq_of(a + c, b + d),
    decreases b.len(),
{
    if b.len() == 0 {
        assert(a.len() == 0);
        assert(a + c =~= c);
        assert(b + d =~= d);
    } else if a.len() == 0 {
        assert(a + c =~= c);
        lemma_subseq_prepend(b, c, d);
    } else {
        assert((a + c).drop_first() =~= a.drop_first() + c);
        assert((b + d).drop_first() =~= b.drop_first() + d);
        assert((a + c)[0] == a[0]);
        assert((b + d)[0] == b[0]);
        if a[0] == b[0] && subseq_of(a.drop_first(), b.drop_first()) {
            lemma_subseq_concat(a.drop_first(), b.drop_first(), c, d);
        } else {
            assert(subseq_of(a, b.drop_first()));
            lemma_subseq_concat(a, b.drop_first(), c, d);
        }
    }
}

pub proof fn lemma_subseq_infix<T>(pre: Seq<T>, mid: Seq<T>, post: Seq<T>)
    ensures
        subseq_of(mid, pre + mid + post),
{
    lemma_subseq_refl(mid);
    lemma_subseq_prepend(pre, mid, mid);
    lemma_subseq_concat(mid, pre + mid, Seq::<T>::empty(), post);
    assert(mid + Seq::<T>::empty() =~= mid);
}

/// A fold only ever adds to the observed set.
pub proof fn lemma_fold_grows(
    mask: WeekdayMask,
    occs: Seq<(int, AdjustmentPolicy)>,
    obs: Set<int>,
)
    ensures
        obs.subset_of(fold_occurrences(mask, occs, obs)),
    decreases occs.len(),
{
    if occs.len() != 0 {
        lemma_fold_grows(mask, occs.drop_first(), fold_step(mask, obs, occs[0]));
        assert(obs.subset_of(fold_step(mask, obs, occs[0])));
    }
}

/// Folding a sub-list of the occurrences, from a smaller starting set,
/// observes nothing outside the full fold's result: each shared occurrence
/// either lands on the same date, or on a date the larger fold already
/// holds.
pub proof fn lemma_fold_subseq(
    mask: WeekdayMask,
    occs1: Seq<(int, AdjustmentPolicy)>,
    occs2: Seq<(int, AdjustmentPolicy)>,
    obs1: Set<int>,
    obs2: Set<int>,
)
    requires
        subseq_of(occs1, occs2),
        obs1.subset_of(obs2),
    ensures
        fold_occurrences(mask, occs1, obs1).subset_of(fold_occurrences(mask, occs2, obs2)),
    decreases occs2.len(),
{
    if occs1.len() == 0 {
        lemma_fold_grows(mask, occs2, obs2);
        assert(fold_occurrences(mask, occs1, obs1) == obs1);
        assert forall|y: int| obs1.contains(y) implies fold_occurrences(
            mask,
            occs2,
            obs2,
        ).contains(y) by {
            assert(obs2.contains(y));
        }
    } else {
        if occs1[0] == occs2[0] && subseq_of(occs1.drop_first(), occs2.drop_first()) {
            let occ = occs1[0];
            lemma_adjust_monotone(mask, obs1, obs2, occ.0, occ.1);
            let o1 = fold_step(mask, obs1, occ);
            let o2 = fold_step(mask, obs2, occ);
            assert(o1.subset_of(o2)) by {
                if adjust_spec(mask, obs1, occ.0, occ.1) is Some {
                    let y = adjust_spec(mask, obs1, occ.0, occ.1)->Some_0;
                    assert(obs2.contains(y) || adjust_spec(mask, obs2, occ.0, occ.1)
                        == Option::Some(y));
                }
            }
            lemma_fold_subseq(mask, occs1.drop_first(), occs2.drop_first(), o1, o2);
        } else {
            assert(subseq_of(occs1, occs2.drop_first()));
            let o2 = fold_step(mask, obs2, occs2[0]);
            assert(obs1.subset_of(o2));
            lemma_fold_subseq(mask, occs1, occs2.drop_first(), obs1, o2);
        }
    }
}

pub proof fn lemma_flatten_concat(
    a: Seq<(Seq<int>, AdjustmentPolicy)>,
    b: Seq<(Seq<int>, AdjustmentPolicy)>,
)
    ensures
        flatten_resolved(a + b) =~= flatten_resolved(a) + flatten_resolved(b),
    decreases a.len(),
{
    if a.len() == 0 {
        assert(a + b =~= b);
    } else {
        assert((a + b).drop_first() =~= a.drop_first() + b);
        assert((a + b)[0] == a[0]);
        lemma_flatten_concat(a.drop_first(), b);
    }
}

/// The flattened occurrences that one rule contributes to a window.
pub open spec fn rule_occs(rule: DateSpec, start: int, end: int) -> Seq<(int, AdjustmentPolicy)> {
    match resolve_spec(rule, start, end) {
        Option::Some(p) => pair_occs(p),
        Option::None => Seq::empty(),
    }
}

pub proof fn lemma_flatten_resolved_unfold(rules: Seq<DateSpec>, start: int, end: int)
    requires
        rules.len() > 0,
    ensures
        flatten_resolved(resolved_pairs(rules, start, end)) =~= rule_occs(rules[0], start, end)
            + flatten_resolved(resolved_pairs(rules.drop_first(), start, end)),
{
    let rest = resolved_pairs(rules.drop_first(), start, end);
    if resolve_spec(rules[0], start, end) is Some {
        let p = resolve_spec(rules[0], start, end)->Some_0;
        assert(resolved_pairs(rules, start, end) == seq![p] + rest);
        lemma_flatten_concat(seq![p], rest);
        assert(seq![p].drop_first() =~= Seq::<(Seq<int>, AdjustmentPolicy)>::empty());
        assert(seq![p][0] == p);
        assert(flatten_resolved(Seq::<(Seq<int>, AdjustmentPolicy)>::empty()) =~= Seq::<
            (int, AdjustmentPolicy),
        >::empty());
        assert(flatten_resolved(seq![p]) =~= pair_occs(p));
    } else {
        assert(resolved_pairs(rules, start, end) == Seq::<(Seq<int>, AdjustmentPolicy)>::empty()
            + rest);
        assert(Seq::<(Seq<int>, AdjustmentPolicy)>::empty() + rest =~= rest);
    }
}

pub proof fn lemma_pair_occs_concat(a: Seq<int>, b: Seq<int>, pol: AdjustmentPolicy)
    ensures
        pair_occs(((a + b), pol)) =~= pair_occs((a, pol)) + pair_occs((b, pol)),
{
}

/// Splitting the year walk of a day-of-month rule at any year splits its
/// occurrence sequence.
pub proof fn lemma_dom_dates_split(m: int, d: int, s: int, mid: int, e: int)
    requires
        s <= mid <= e + 1,
    ensures
        day_of_month_dates(m, d, s, e) =~= day_of_month_dates(m, d, s, mid - 1)
            + day_of_month_dates(m, d, mid, e),
    decreases mid - s,
{
    if mid == s {
        assert(day_of_month_dates(m, d, s, s - 1) =~= Seq::<int>::empty());
    } else {
        lemma_dom_dates_split(m, d, s + 1, mid, e);
    }
}

/// The counterpart of `lemma_dom_dates_split` for nth-weekday rules.
pub proof fn lemma_nth_dates_split(m: int, dow: int, off: int, s: int, mid: int, e: int)
    requires
        s <= mid <= e + 1,
    ensures
        nth_dow_dates(m, dow, off, s, e) =~= nth_dow_dates(m, dow, off, s, mid - 1)
            + nth_dow_dates(m, dow, off, mid, e),
    decreases mid - s,
{
    if mid == s {
        assert(nth_dow_dates(m, dow, off, s, s - 1) =~= Seq::<int>::empty());
    } else {
        lemma_nth_dates_split(m, dow, off, s + 1, mid, e);
    }
}

/// What one rule emits for the single-date window around `x` is a
/// subsequence of what it emits for any window `[from, to]` around it: a
/// recurring rule's clipped year span only widens, and a specific date in
/// the small window lies in the large one.
#[verifier::rlimit(100)]
#[verifier::spinoff_prover]
pub proof fn lemma_rule_occs_subseq(rule: DateSpec, from: int, to: int, x: int)
    requires
        rule.wf(),
        0 <= from <= x <= to,
    ensures
        subseq_of(rule_occs(rule, x, x), rule_occs(rule, from, to)),
{
    match rule {
        DateSpec::SpecificDate { date, .. } => {
            if date@ == x {
                assert(rule_occs(rule, x, x) =~= rule_occs(rule, from, to));
                lemma_subseq_refl(rule_occs(rule, from, to));
            } else {
                assert(rule_occs(rule, x, x) =~= Seq::<(int, AdjustmentPolicy)>::empty());
            }
        },
        DateSpec::DayOfMonth { month, day, observed, valid_since, valid_until, .. } => {
            if valid_since@ > x || valid_until@ < x {
                assert(rule_occs(rule, x, x) =~= Seq::<(int, AdjustmentPolicy)>::empty());
            } else {
                let mn = month.number_spec();
                let dd = day as int;
                let s2 = year_of_day(clip_low(valid_since@, x));
                let e2 = year_of_day(clip_high(valid_until@, x));
                let s1 = year_of_day(clip_low(valid_since@, from));
                let e1 = year_of_day(clip_high(valid_until@, to));
                crate::date::lemma_year_of_day_mono(
                    clip_low(valid_since@, from),
                    clip_low(valid_since@, x),
                );
                crate::date::lemma_year_of_day_mono(
                    clip_high(valid_until@, x),
                    clip_high(valid_until@, to),
                );
                assert(s1 <= s2 && e2 <= e1) by {
                    crate::date::lemma_year_of_day_mono(
                        clip_low(valid_since@, x),
                        clip_high(valid_until@, x),
                    );
                }
                if s2 <= e2 {
                    lemma_dom_dates_split(mn, dd, s1, s2, e1);
                    lemma_dom_dates_split(mn, dd, s2, e2 + 1, e1);
                    lemma_pair_occs_concat(
                        day_of_month_dates(mn, dd, s1, s2 - 1),
                        day_of_month_dates(mn, dd, s2, e1),
                        observed,
                    );
                    lemma_pair_occs_concat(
                        day_of_month_dates(mn, dd, s2, e2),
                        day_of_month_dates(mn, dd, e2 + 1, e1),
                        observed,
                    );
                    let pre = pair_occs((day_of_month_dates(mn, dd, s1, s2 - 1), observed));
                    let mid = pair_occs((day_of_month_dates(mn, dd, s2, e2), observed));
                    let post = pair_occs((day_of_month_dates(mn, dd, e2 + 1, e1), observed));
                    lemma_subseq_infix(pre, mid, post);
                    assert(rule_occs(rule, from, to) =~= pre + mid + post);
                    assert(rule_occs(rule, x, x) =~= mid);
                } else {
                    assert(day_of_month_dates(mn, dd, s2, e2) =~= Seq::<int>::empty());
                    assert(rule_occs(rule, x, x) =~= Seq::<(int, AdjustmentPolicy)>::empty());
                }
            }
        },
        DateSpec::NthDayOccurance {
            month,
            dow,
            offset,
            observed,
            valid_since,
            valid_until,
            ..
        } => {
            if valid_since@ > x || valid_until@ < x {
                assert(rule_occs(rule, x, x) =~= Seq::<(int, AdjustmentPolicy)>::empty());
            } else {
                let mn = month.number_spec();
                let dw = dow.index_spec();
                let off = offset as int;
                let s2 = year_of_day(clip_low(valid_since@, x));
                let e2 = year_of_day(clip_high(valid_until@, x));
                let s1 = year_of_day(clip_low(valid_since@, from));
                let e1 = year_of_day(clip_high(valid_until@, to));
                crate::date::lemma_year_of_day_mono(
                    clip_low(valid_since@, from),
                    clip_low(valid_since@, x),
                );
                crate::date::lemma_year_of_day_mono(
                    clip_high(valid_until@, x),
                    clip_high(valid_until@, to),
                );
                assert(s1 <= s2 && e2 <= e1) by {
                    crate::date::lemma_year_of_day_mono(
                        clip_low(valid_since@, x),
                        clip_high(valid_until@, x),
                    );
                }
                if s2 <= e2 {
                    lemma_nth_dates_split(mn, dw, off, s1, s2, e1);
                    lemma_nth_dates_split(mn, dw, off, s2, e2 + 1, e1);
                    lemma_pair_occs_concat(
                        nth_dow_dates(mn, dw, off, s1, s2 - 1),
                        nth_dow_dates(mn, dw, off, s2, e1),
                        observed,
                    );
                    lemma_pair_occs_concat(
                        nth_dow_dates(mn, dw, off, s2, e2),
                        nth_dow_dates(mn, dw, off, e2 + 1, e1),
                        observed,
                    );
                    let pre = pair_occs((nth_dow_dates(mn, dw, off, s1, s2 - 1), observed));
                    let mid = pair_occs((nth_dow_dates(mn, dw, off, s2, e2), observed));
                    let post = pair_occs((nth_dow_dates(mn, dw, off, e2 + 1, e1), observed));
                    lemma_subseq_infix(pre, mid, post);
                    assert(rule_occs(rule, from, to) =~= pre + mid + post);
                    assert(rule_occs(rule, x, x) =~= mid);
                } else {
                    assert(nth_dow_dates(mn, dw, off, s2, e2) =~= Seq::<int>::empty());
                    assert(rule_occs(rule, x, x) =~= Seq::<(int, AdjustmentPolicy)>::empty());
                }
            }
        },
    }
}

/// What a rule list emits for the single-date window is a subsequence of
/// what it emits for the surrounding window, rule by rule.
pub proof fn lemma_resolved_flat_subseq(rules: Seq<DateSpec>, from: int, to: int, x: int)
    requires
        forall|i: int| 0 <= i < rules.len() ==> (#[trigger] rules[i]).wf(),
        0 <= from <= x <= to,
    ensures
        subseq_of(
            flatten_resolved(resolved_pairs(rules, x, x)),
            flatten_resolved(resolved_pairs(rules, from, to)),
        ),
    decreases rules.len(),
{
    if rules.len() == 0 {
        assert(flatten_resolved(resolved_pairs(rules, x, x)).len() == 0);
    } else {
        lemma_flatten_resolved_unfold(rules, x, x);
        lemma_flatten_resolved_unfold(rules, from, to);
        assert(rules[0].wf());
        lemma_rule_occs_subseq(rules[0], from, to, x);
        assert(forall|i: int|
            0 <= i < rules.drop_first().len() ==> (#[trigger] rules.drop_first()[i]).wf());
        lemma_resolved_flat_subseq(rules.drop_first(), from, to, x);
        lemma_subseq_concat(
            rule_occs(rules[0], x, x),
            rule_occs(rules[0], from, to),
            flatten_resolved(resolved_pairs(rules.drop_first(), x, x)),
            flatten_resolved(resolved_pairs(rules.drop_first(), from, to)),
        );
    }
}

/// Off days observed for the single-date window around a date inside
/// `[from, to]` are observed off days of the whole window too: widening the
/// window only adds occurrences, and extra blockers only push an observed
/// date onto a date the wider fold already holds.
pub proof fn lemma_offdays_window_mono(cal: Calendar, from: int, to: int, x: int)
    requires
        cal.wf(),
        0 <= from <= x <= to,
    ensures
        offdays_spec(cal, x, x).subset_of(offdays_spec(cal, from, to)),
{
    lemma_resolved_flat_subseq(cal.exclude@, from, to, x);
    lemma_fold_subseq(
        cal.dow,
        flatten_resolved(resolved_pairs(cal.exclude@, x, x)),
        flatten_resolved(resolved_pairs(cal.exclude@, from, to)),
        Set::<int>::empty(),
        Set::<int>::empty(),
    );
}

/// Two runs of `date_range` over the same calendar and window return the
/// same dates: the contract of `date_range` pins each result to
/// `range_spec` of the arguments alone, so the results coincide.
pub proof fn lemma_range_deterministic(
    cal: Calendar,
    from: int,
    to: int,
    r1: Seq<int>,
    r2: Seq<int>,
)
    requires
        r1 == range_spec(cal, from, to),
        r2 == range_spec(cal, from, to),
    ensures
        r1 == r2,
{
}

/// Every date that `date_range` returns for the window `[from, to]` is a
/// working day of the calendar outright: its weekday is in the mask and its
/// own single-date resolution does not observe it either.
pub proof fn lemma_working_day_not_offday(cal: Calendar, from: int, to: int, dn: int)
    requires
        cal.wf(),
        0 <= from,
        range_spec(cal, from, to).contains(dn),
    ensures
        !is_offday_spec(cal, dn),
{
    lemma_range_spec_from_props(cal, from, to, from);
    let i = choose|i: int|
        0 <= i < range_spec(cal, from, to).len() && range_spec(cal, from, to)[i] == dn;
    assert(working_in_window(cal, from, to, dn));
    assert(from <= dn <= to);
    lemma_offdays_window_mono(cal, from, to, dn);
}

} // verus!
