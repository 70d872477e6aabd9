use bizcal::calendar::{
    default_dow_set, default_earliest_date, default_latest_date, AdjustmentPolicy, Calendar,
    DateSpec, WeekdayMask,
};
use bizcal::date::{Date, Month, Weekday};

fn ymd(y: i32, m: u32, d: u32) -> Date {
    Date::from_ymd(y, m, d).unwrap()
}

fn weekday_mask_mon_fri() -> WeekdayMask {
    WeekdayMask::from_days(&vec![
        Weekday::Mon,
        Weekday::Tue,
        Weekday::Wed,
        Weekday::Thu,
        Weekday::Fri,
    ])
}

fn day_of_month(month: Month, day: u32, observed: AdjustmentPolicy, description: &str) -> DateSpec {
    DateSpec::DayOfMonth {
        month,
        day,
        observed,
        description: description.to_owned(),
        valid_since: default_earliest_date(),
        valid_until: default_latest_date(),
    }
}

#[test]
fn check_double_observed() {
    let cal = Calendar {
        description: "Test description".to_owned(),
        dow: weekday_mask_mon_fri(),
        public: false,
        exclude: vec![
            day_of_month(Month::December, 25u32, AdjustmentPolicy::Next, "Christmas"),
            day_of_month(Month::December, 26u32, AdjustmentPolicy::Next, "Boxing Day"),
        ],
        inherits: vec![],
    };

    // Christmas falls on a Saturday, observed was Monday
    assert!(cal.is_offday(ymd(2021, 12, 27)));

    // Boxing Day falls on a Sunday, observed is a Tuesday
    assert!(cal.is_offday(ymd(2021, 12, 28)));

    assert!(!cal.is_offday(ymd(2021, 12, 24)));
}

#[test]
fn check_crossing_years() {
    let cal = Calendar {
        description: "Test description".to_owned(),
        dow: weekday_mask_mon_fri(),
        public: false,
        exclude: vec![
            day_of_month(Month::December, 25u32, AdjustmentPolicy::Next, "Christmas"),
            day_of_month(Month::December, 26u32, AdjustmentPolicy::Next, "Boxing Day"),
            day_of_month(Month::January, 1u32, AdjustmentPolicy::Next, "New Years Day"),
        ],
        inherits: vec![],
    };

    assert!(cal.is_offday(ymd(2021, 12, 25)));

    let myrange = cal.date_range(ymd(2021, 12, 15), ymd(2022, 01, 15));
    assert_eq!(myrange.len(), 20);
}

#[test]
fn weekday_off_is_always_off() {
    // A date whose weekday is outside the mask is an off day no matter what
    // the rules say.
    let no_rules = Calendar {
        description: String::new(),
        dow: weekday_mask_mon_fri(),
        public: false,
        exclude: vec![],
        inherits: vec![],
    };
    let with_rules = Calendar {
        exclude: vec![day_of_month(
            Month::July,
            4u32,
            AdjustmentPolicy::Closest,
            "Independence Day",
        )],
        ..no_rules.clone()
    };
    // 2021-12-25 is a Saturday, 2021-12-26 a Sunday.
    assert_eq!(ymd(2021, 12, 25).weekday(), Weekday::Sat);
    assert!(no_rules.is_offday(ymd(2021, 12, 25)));
    assert!(no_rules.is_offday(ymd(2021, 12, 26)));
    assert!(with_rules.is_offday(ymd(2021, 12, 25)));
    assert!(with_rules.is_offday(ymd(2021, 12, 26)));
    assert!(!no_rules.is_offday(ymd(2021, 12, 24)));
}

#[test]
fn no_adjustment_absorbed_by_weekend() {
    // A NoAdjustment holiday on a Saturday produces no observed date of its
    // own: the observed set of the window stays empty and the working days
    // are untouched.
    let cal = Calendar {
        description: String::new(),
        dow: weekday_mask_mon_fri(),
        public: false,
        exclude: vec![DateSpec::SpecificDate {
            date: ymd(2021, 12, 25),
            description: "Christmas".to_owned(),
        }],
        inherits: vec![],
    };
    let offdays = cal.get_special_offdays(ymd(2021, 12, 20), ymd(2021, 12, 31));
    assert!(!offdays.contains(ymd(2021, 12, 25)));
    assert!(!offdays.contains(ymd(2021, 12, 27)));
    // All five weekdays of the following week are working days.
    let days = cal.date_range(ymd(2021, 12, 27), ymd(2021, 12, 31));
    assert_eq!(days.len(), 5);
}

#[test]
fn closest_picks_nearer_side() {
    // 2021-08-01 is a Sunday: Prev lands on Friday (two days away), Next on
    // Monday (one day away), so Closest observes the Monday.
    let cal = Calendar {
        description: String::new(),
        dow: weekday_mask_mon_fri(),
        public: false,
        exclude: vec![day_of_month(
            Month::August,
            1u32,
            AdjustmentPolicy::Closest,
            "August Day",
        )],
        inherits: vec![],
    };
    assert_eq!(ymd(2021, 8, 1).weekday(), Weekday::Sun);
    assert!(cal.is_offday(ymd(2021, 8, 2)));
    assert!(!cal.is_offday(ymd(2021, 7, 30)));
}

#[test]
fn closest_tie_goes_next() {
    // 2021-12-25 is a Saturday: Prev lands on Friday, Next on Monday, both
    // one scan step... with the Friday already observed by an earlier rule,
    // both sides sit two days away and the tie goes to the Next side.
    let cal = Calendar {
        description: String::new(),
        dow: weekday_mask_mon_fri(),
        public: false,
        exclude: vec![
            DateSpec::SpecificDate {
                date: ymd(2021, 12, 24),
                description: "Christmas Eve".to_owned(),
            },
            day_of_month(Month::December, 25u32, AdjustmentPolicy::Closest, "Christmas"),
        ],
        inherits: vec![],
    };
    let offdays = cal.get_special_offdays(ymd(2021, 12, 20), ymd(2021, 12, 31));
    assert!(offdays.contains(ymd(2021, 12, 24)));
    // Prev would reach Thursday the 23rd, Next reaches Monday the 27th:
    // both are two days from the raw date, so Monday is observed.
    assert!(offdays.contains(ymd(2021, 12, 27)));
    assert!(!offdays.contains(ymd(2021, 12, 23)));
}

#[test]
fn prev_policy_moves_backward() {
    // 2021-12-25 is a Saturday; under Prev the holiday is observed on the
    // Friday before it.
    let cal = Calendar {
        description: String::new(),
        dow: weekday_mask_mon_fri(),
        public: false,
        exclude: vec![day_of_month(Month::December, 25u32, AdjustmentPolicy::Prev, "Christmas")],
        inherits: vec![],
    };
    assert!(cal.is_offday(ymd(2021, 12, 24)));
    assert!(!cal.is_offday(ymd(2021, 12, 27)));
}

#[test]
fn range_is_ascending_working_days() {
    let cal = Calendar {
        description: String::new(),
        dow: weekday_mask_mon_fri(),
        public: false,
        exclude: vec![
            day_of_month(Month::December, 25u32, AdjustmentPolicy::Next, "Christmas"),
            day_of_month(Month::December, 26u32, AdjustmentPolicy::Next, "Boxing Day"),
            day_of_month(Month::January, 1u32, AdjustmentPolicy::Next, "New Years Day"),
        ],
        inherits: vec![],
    };
    let from = ymd(2021, 12, 15);
    let to = ymd(2022, 1, 15);
    let days = cal.date_range(from, to);
    for i in 0..days.len() {
        assert!(from <= days[i] && days[i] <= to);
        if i + 1 < days.len() {
            assert!(days[i] < days[i + 1]);
        }
        assert!(!cal.is_offday(days[i]));
    }
}

#[test]
fn range_idempotent() {
    let cal = Calendar {
        description: String::new(),
        dow: weekday_mask_mon_fri(),
        public: false,
        exclude: vec![day_of_month(Month::December, 25u32, AdjustmentPolicy::Next, "Christmas")],
        inherits: vec![],
    };
    let a = cal.date_range(ymd(2021, 12, 1), ymd(2022, 1, 31));
    let b = cal.date_range(ymd(2021, 12, 1), ymd(2022, 1, 31));
    assert_eq!(a, b);
}

#[test]
fn nth_weekday_last_monday() {
    // The last Monday of January 2024 is January 29.
    let rule = DateSpec::NthDayOccurance {
        month: Month::January,
        dow: Weekday::Mon,
        offset: -1,
        observed: AdjustmentPolicy::NoAdjustment,
        description: "Final Monday".to_owned(),
        valid_since: default_earliest_date(),
        valid_until: default_latest_date(),
    };
    let resolved = rule.resolve(ymd(2024, 1, 1), ymd(2024, 12, 31));
    let (dates, _policy) = resolved.unwrap();
    assert_eq!(dates, vec![ymd(2024, 1, 29)]);
}

#[test]
fn nth_weekday_forward() {
    // The third Thursday of November 2021 is November 18.
    let rule = DateSpec::NthDayOccurance {
        month: Month::November,
        dow: Weekday::Thu,
        offset: 3,
        observed: AdjustmentPolicy::NoAdjustment,
        description: "Thanksgiving-ish".to_owned(),
        valid_since: default_earliest_date(),
        valid_until: default_latest_date(),
    };
    let resolved = rule.resolve(ymd(2021, 1, 1), ymd(2021, 12, 31));
    let (dates, _policy) = resolved.unwrap();
    assert_eq!(dates, vec![ymd(2021, 11, 18)]);
}

#[test]
fn validity_window_clips_years() {
    // A rule valid 2020-01-01 through 2021-12-31, resolved against
    // [2019-01-01, 2022-12-31], gives exactly the 2020 and 2021 occurrences.
    let rule = DateSpec::DayOfMonth {
        month: Month::March,
        day: 15u32,
        observed: AdjustmentPolicy::NoAdjustment,
        description: String::new(),
        valid_since: ymd(2020, 1, 1),
        valid_until: ymd(2021, 12, 31),
    };
    let resolved = rule.resolve(ymd(2019, 1, 1), ymd(2022, 12, 31));
    let (dates, _policy) = resolved.unwrap();
    assert_eq!(dates, vec![ymd(2020, 3, 15), ymd(2021, 3, 15)]);
}

#[test]
fn validity_window_miss_gives_none() {
    let rule = DateSpec::DayOfMonth {
        month: Month::March,
        day: 15u32,
        observed: AdjustmentPolicy::NoAdjustment,
        description: String::new(),
        valid_since: ymd(2020, 1, 1),
        valid_until: ymd(2021, 12, 31),
    };
    assert!(rule.resolve(ymd(2022, 1, 1), ymd(2023, 12, 31)).is_none());
    assert!(rule.resolve(ymd(2018, 1, 1), ymd(2019, 12, 31)).is_none());
}

#[test]
fn specific_date_window() {
    let rule = DateSpec::SpecificDate {
        date: ymd(2021, 6, 1),
        description: String::new(),
    };
    assert!(rule.resolve(ymd(2021, 6, 2), ymd(2021, 6, 30)).is_none());
    let (dates, policy) = rule.resolve(ymd(2021, 5, 1), ymd(2021, 6, 30)).unwrap();
    assert_eq!(dates, vec![ymd(2021, 6, 1)]);
    assert!(matches!(policy, AdjustmentPolicy::NoAdjustment));
}

#[test]
fn leap_day_rule_skips_common_years() {
    // A February 29 rule resolves only in leap years.
    let rule = DateSpec::DayOfMonth {
        month: Month::February,
        day: 29u32,
        observed: AdjustmentPolicy::NoAdjustment,
        description: String::new(),
        valid_since: default_earliest_date(),
        valid_until: default_latest_date(),
    };
    let (dates, _policy) = rule.resolve(ymd(2023, 1, 1), ymd(2024, 12, 31)).unwrap();
    assert_eq!(dates, vec![ymd(2024, 2, 29)]);
}

#[test]
fn empty_mask_fails_fast() {
    // With no working weekday at all, every date is an off day and no
    // holiday is ever observed; the scans must not run away.
    let cal = Calendar {
        description: String::new(),
        dow: WeekdayMask::from_days(&vec![]),
        public: false,
        exclude: vec![day_of_month(Month::December, 25u32, AdjustmentPolicy::Next, "Christmas")],
        inherits: vec![],
    };
    assert!(cal.is_offday(ymd(2021, 12, 27)));
    let offdays = cal.get_special_offdays(ymd(2021, 12, 1), ymd(2021, 12, 31));
    assert!(!offdays.contains(ymd(2021, 12, 25)));
    assert_eq!(cal.date_range(ymd(2021, 12, 1), ymd(2021, 12, 31)).len(), 0);
}

#[test]
fn default_policy_is_no_adjustment() {
    assert!(matches!(AdjustmentPolicy::default(), AdjustmentPolicy::NoAdjustment));
}

#[test]
fn default_dates_span_representable_range() {
    assert_eq!(default_earliest_date(), ymd(1, 1, 1));
    assert_eq!(default_latest_date(), ymd(9999, 12, 31));
}

#[test]
fn default_dow_set_is_mon_fri() {
    let mask = default_dow_set();
    assert!(mask.contains(Weekday::Mon));
    assert!(mask.contains(Weekday::Fri));
    assert!(!mask.contains(Weekday::Sat));
    assert!(!mask.contains(Weekday::Sun));
}
