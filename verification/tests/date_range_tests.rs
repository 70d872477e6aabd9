use bizcal::date::Date;
use bizcal::date_range::DateRange;

fn ymd(y: i32, m: u32, d: u32) -> Date {
    Date::from_ymd(y, m, d).unwrap()
}

#[test]
fn test_range_bounds() {
    let dr = DateRange::new(ymd(2021, 1, 1), ymd(2021, 2, 1));

    assert!(!dr.is_empty());
    assert!(dr.contains(ymd(2021, 1, 1)));
    assert!(dr.contains(ymd(2021, 1, 15)));
    assert!(!dr.contains(ymd(2021, 2, 1)));
}

#[test]
fn test_range_iteration() {
    let dr = DateRange::new(ymd(2021, 1, 1), ymd(2021, 2, 1));

    let mut cnt = 0;
    let mut it = dr.into_iter();
    while let Some(_) = it.next() {
        cnt += 1;
    }
    assert_eq!(cnt, 31);
}

#[test]
fn range_iterates_in_order() {
    let dr = DateRange::new(ymd(2021, 12, 30), ymd(2022, 1, 3));
    let mut it = dr.into_iter();
    assert_eq!(it.next(), Some(ymd(2021, 12, 30)));
    assert_eq!(it.next(), Some(ymd(2021, 12, 31)));
    assert_eq!(it.next(), Some(ymd(2022, 1, 1)));
    assert_eq!(it.next(), Some(ymd(2022, 1, 2)));
    assert_eq!(it.next(), None);
    assert_eq!(it.next(), None);
}

#[test]
fn iter_leaves_range_usable() {
    let dr = DateRange::new(ymd(2021, 1, 1), ymd(2021, 1, 3));
    let mut first = dr.iter();
    assert_eq!(first.next(), Some(ymd(2021, 1, 1)));
    let mut again = dr.iter();
    assert_eq!(again.next(), Some(ymd(2021, 1, 1)));
    assert_eq!(again.next(), Some(ymd(2021, 1, 2)));
    assert_eq!(again.next(), None);
}

#[test]
fn inverted_range_yields_nothing() {
    // A span whose start lies after its end iterates as the empty sequence.
    let dr = DateRange::new(ymd(2021, 2, 1), ymd(2021, 1, 1));
    let mut it = dr.into_iter();
    assert_eq!(it.next(), None);
}

#[test]
fn empty_range_is_empty() {
    let dr = DateRange::new(ymd(2021, 1, 1), ymd(2021, 1, 1));
    assert!(dr.is_empty());
    assert!(!dr.contains(ymd(2021, 1, 1)));
    let mut it = dr.into_iter();
    assert_eq!(it.next(), None);
}

#[test]
fn from_ymd_rejects_bad_dates() {
    assert!(Date::from_ymd(2021, 2, 29).is_none());
    assert!(Date::from_ymd(2024, 2, 29).is_some());
    assert!(Date::from_ymd(2021, 13, 1).is_none());
    assert!(Date::from_ymd(2021, 0, 1).is_none());
    assert!(Date::from_ymd(2021, 4, 31).is_none());
    assert!(Date::from_ymd(0, 1, 1).is_none());
    assert!(Date::from_ymd(10000, 1, 1).is_none());
}

#[test]
fn date_components_round_trip() {
    let d = ymd(2021, 12, 25);
    assert_eq!(d.year(), 2021);
    let leap = ymd(2024, 2, 29);
    assert_eq!(leap.year(), 2024);
    assert_eq!(leap.succ(), ymd(2024, 3, 1));
    assert_eq!(ymd(2022, 1, 1).pred(), ymd(2021, 12, 31));
}
