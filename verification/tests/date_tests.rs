use buscal::Date;
use chrono::{Datelike, NaiveDate};

fn d(y: i32, m: u8, day: u8) -> Date {
    Date::new(y, m, day).unwrap()
}

#[test]
fn test_date_new_validation() {
    assert!(Date::new(2026, 2, 5).is_some());
    assert!(Date::new(2024, 2, 29).is_some());
    assert!(Date::new(2023, 2, 29).is_none());
    assert!(Date::new(1900, 2, 29).is_none());
    assert!(Date::new(2000, 2, 29).is_some());
    assert!(Date::new(2026, 4, 31).is_none());
    assert!(Date::new(2026, 13, 1).is_none());
    assert!(Date::new(2026, 0, 1).is_none());
    assert!(Date::new(2026, 1, 0).is_none());
    assert!(Date::new(0, 1, 1).is_none());
    assert!(Date::new(10000, 1, 1).is_none());
    assert!(Date::new(9999, 12, 31).is_some());
    assert!(Date::new(1, 1, 1).is_some());
}

#[test]
fn test_weekday_known_values() {
    // Monday = 0 ... Sunday = 6
    assert_eq!(d(2026, 2, 5).weekday(), 3); // a Thursday
    assert_eq!(d(2026, 2, 2).weekday(), 0); // a Monday
    assert_eq!(d(2026, 2, 8).weekday(), 6); // a Sunday
    assert_eq!(d(2019, 1, 1).weekday(), 1); // a Tuesday
    assert_eq!(d(2000, 1, 1).weekday(), 5); // a Saturday
}

#[test]
fn test_weekday_matches_chrono() {
    // walk a year and a half across a leap boundary and compare every day
    let mut ours = d(2023, 12, 1);
    let mut theirs = NaiveDate::from_ymd_opt(2023, 12, 1).unwrap();
    for _ in 0..550 {
        assert_eq!(
            u32::from(ours.weekday()),
            theirs.weekday().num_days_from_monday(),
            "weekday mismatch at {:?}",
            ours
        );
        ours = ours.next_day();
        theirs = theirs.succ_opt().unwrap();
        assert_eq!(i32::from(ours.month), theirs.month() as i32);
        assert_eq!(i32::from(ours.day), theirs.day() as i32);
        assert_eq!(ours.year, theirs.year());
    }
}

#[test]
fn test_next_prev_day() {
    assert_eq!(d(2026, 2, 28).next_day(), d(2026, 3, 1));
    assert_eq!(d(2024, 2, 28).next_day(), d(2024, 2, 29));
    assert_eq!(d(2026, 12, 31).next_day(), d(2027, 1, 1));
    assert_eq!(d(2026, 3, 1).prev_day(), d(2026, 2, 28));
    assert_eq!(d(2027, 1, 1).prev_day(), d(2026, 12, 31));
    assert_eq!(d(2026, 2, 5).next_day().prev_day(), d(2026, 2, 5));
}

#[test]
fn test_day_number_is_strictly_increasing() {
    let samples = [
        d(1, 1, 1),
        d(1999, 12, 31),
        d(2000, 2, 29),
        d(2000, 3, 1),
        d(2026, 2, 5),
        d(2026, 2, 6),
        d(9999, 12, 31),
    ];
    for w in samples.windows(2) {
        assert!(w[0].day_number() < w[1].day_number());
    }
    assert_eq!(d(2026, 2, 5).day_number() + 1, d(2026, 2, 6).day_number());
}
