use bizcal::schedule::{TimeOfDay, TimeSpan};

fn hms(h: u32, m: u32, s: u32) -> TimeOfDay {
    TimeOfDay::from_hms(h, m, s).unwrap()
}

#[test]
fn test_timespan_intersections() {
    {
        let a = TimeSpan {
            start: hms(0, 0, 0),
            end: hms(2, 0, 0),
            description: "".to_owned(),
        };

        let b = TimeSpan {
            start: hms(1, 0, 0),
            end: hms(3, 0, 0),
            description: "".to_owned(),
        };

        let c = TimeSpan {
            start: hms(1, 0, 0),
            end: hms(2, 0, 0),
            description: "".to_owned(),
        };

        assert_eq!(a.intersection(&b), Some(c));
    }
}

#[test]
fn disjoint_spans_give_none() {
    let a = TimeSpan {
        start: hms(0, 0, 0),
        end: hms(1, 0, 0),
        description: "a".to_owned(),
    };
    let b = TimeSpan {
        start: hms(2, 0, 0),
        end: hms(3, 0, 0),
        description: "b".to_owned(),
    };
    assert!(a.intersection(&b).is_none());
}

#[test]
fn intersection_description_names_both() {
    let a = TimeSpan {
        start: hms(9, 0, 0),
        end: hms(12, 0, 0),
        description: "morning".to_owned(),
    };
    let b = TimeSpan {
        start: hms(10, 0, 0),
        end: hms(17, 0, 0),
        description: "office".to_owned(),
    };
    let c = a.intersection(&b).unwrap();
    assert_eq!(c.start, hms(10, 0, 0));
    assert_eq!(c.end, hms(12, 0, 0));
    assert_eq!(c.description, "Intersection of morning and office".to_owned());
}

#[test]
fn from_hms_rejects_out_of_range() {
    assert!(TimeOfDay::from_hms(24, 0, 0).is_none());
    assert!(TimeOfDay::from_hms(0, 60, 0).is_none());
    assert!(TimeOfDay::from_hms(0, 0, 60).is_none());
    assert_eq!(hms(23, 59, 59).secs, 86399);
}
