use buscal::{BusdayConvention, BusinessCalendar, Date, Error};

fn d(y: i32, m: u8, day: u8) -> Date {
    Date::new(y, m, day).unwrap()
}

fn holidays() -> Vec<Date> {
    vec![
        d(2026, 1, 1),
        d(2026, 1, 19),
        d(2026, 2, 16),
        d(2026, 5, 25),
        d(2026, 6, 19),
        d(2026, 7, 3),
        d(2026, 9, 7),
        d(2026, 10, 12),
        d(2026, 11, 11),
        d(2026, 11, 26),
        d(2026, 12, 25),
    ]
}

fn get_calendar() -> BusinessCalendar {
    BusinessCalendar::new(Some(holidays()), "1111100").unwrap()
}

#[test]
fn test_is_holiday() {
    let cal = get_calendar();
    let rslt = holidays()
        .iter()
        .map(|dt| cal.is_holiday(*dt))
        .reduce(|acc, e| acc & e)
        .unwrap();
    assert!(rslt)
}

#[test]
fn test_is_weekday() {
    let cal = get_calendar();
    let dates = (0..6).map(|x| d(2026, 2, 2 + x));
    let expected = [true, true, true, true, true, false, false];
    let rslt = dates
        .enumerate()
        .map(|(i, dt)| cal.is_weekday(dt) == expected[i])
        .reduce(|acc, e| acc & e)
        .unwrap();
    assert!(rslt)
}

#[test]
fn test_is_weekend() {
    let cal = get_calendar();
    let dates = (0..6).map(|x| d(2026, 2, 2 + x));
    let expected = [false, false, false, false, false, true, true];
    let rslt = dates
        .enumerate()
        .map(|(i, dt)| cal.is_weekend(dt) == expected[i])
        .reduce(|acc, e| acc & e)
        .unwrap();
    assert!(rslt)
}

#[test]
fn test_succ() {
    let cal = get_calendar();
    // next calendar day is a business day
    assert_eq!(cal.succ(d(2026, 2, 5)), d(2026, 2, 6));
    // next calendar day is Saturday
    assert_eq!(cal.succ(d(2026, 2, 6)), d(2026, 2, 9));
    // next calendar day is a holiday
    assert_eq!(cal.succ(d(2026, 11, 10)), d(2026, 11, 12));
    // next calendar day is Saturday, Monday a holiday
    assert_eq!(cal.succ(d(2026, 2, 13)), d(2026, 2, 17));
}

#[test]
fn test_adjust() {
    let cal = get_calendar();
    // following
    assert_eq!(
        cal.adjust(d(2026, 2, 7), BusdayConvention::Following),
        d(2026, 2, 9)
    );
    // preceding
    assert_eq!(
        cal.adjust(d(2026, 2, 7), BusdayConvention::Preceding),
        d(2026, 2, 6)
    );
    // modified following
    assert_eq!(
        cal.adjust(d(2026, 1, 31), BusdayConvention::ModifiedFollowing),
        d(2026, 1, 30)
    );
    // modified preceding
    assert_eq!(
        cal.adjust(d(2026, 2, 1), BusdayConvention::ModifiedPreceding),
        d(2026, 2, 2)
    );
}

#[test]
fn test_bom_bus() {
    let cal = get_calendar();
    assert_eq!(cal.bom_bus(d(2026, 2, 6)), d(2026, 2, 2));
}

#[test]
fn test_eom_bus() {
    let cal = get_calendar();
    assert_eq!(cal.eom_bus(d(2026, 2, 6)), d(2026, 2, 27));
}

#[test]
fn test_pred() {
    let cal = get_calendar();
    // previous calendar day is a business day
    assert_eq!(cal.pred(d(2026, 2, 6)), d(2026, 2, 5));
    // back over a weekend
    assert_eq!(cal.pred(d(2026, 2, 9)), d(2026, 2, 6));
    // back over a holiday
    assert_eq!(cal.pred(d(2026, 11, 12)), d(2026, 11, 10));
}

#[test]
fn test_is_busday_is_weekday_and_not_holiday() {
    let cal = get_calendar();
    // a plain weekday, a weekend day, a weekday holiday, and a redundant
    // weekend holiday all satisfy the defining equation
    let cal2 = BusinessCalendar::new(Some(vec![d(2026, 2, 7), d(2026, 2, 16)]), "1111100").unwrap();
    for dt in [
        d(2026, 2, 5),
        d(2026, 2, 7),
        d(2026, 2, 16),
        d(2026, 11, 11),
    ] {
        assert_eq!(
            cal.is_busday(dt),
            cal.is_weekday(dt) && !cal.is_holiday(dt)
        );
        assert_eq!(
            cal2.is_busday(dt),
            cal2.is_weekday(dt) && !cal2.is_holiday(dt)
        );
    }
    // a holiday on a weekend is legal but redundant
    assert!(!cal2.is_busday(d(2026, 2, 7)));
    assert!(cal2.is_holiday(d(2026, 2, 7)));
    assert!(!cal2.is_weekday(d(2026, 2, 7)));
}

#[test]
fn test_is_weekend_negates_is_weekday() {
    let cal = get_calendar();
    for day in 1..=28 {
        let dt = d(2026, 2, day);
        assert_eq!(cal.is_weekend(dt), !cal.is_weekday(dt));
    }
}

#[test]
fn test_succ_pred_always_business_days() {
    let cal = get_calendar();
    for day in 1..=28 {
        let dt = d(2026, 2, day);
        assert!(cal.is_busday(cal.succ(dt)));
        assert!(cal.is_busday(cal.pred(dt)));
    }
}

#[test]
fn test_adjust_unadjusted_is_identity() {
    let cal = get_calendar();
    for dt in [d(2026, 2, 5), d(2026, 2, 7), d(2026, 11, 11), d(2026, 1, 1)] {
        assert_eq!(cal.adjust(dt, BusdayConvention::Unadjusted), dt);
    }
}

#[test]
fn test_add_busdays_zero_is_adjust() {
    let cal = get_calendar();
    for conv in [
        BusdayConvention::Following,
        BusdayConvention::Preceding,
        BusdayConvention::ModifiedFollowing,
        BusdayConvention::ModifiedPreceding,
        BusdayConvention::Unadjusted,
    ] {
        for dt in [d(2026, 2, 7), d(2026, 1, 31), d(2026, 2, 1), d(2026, 2, 5)] {
            assert_eq!(cal.add_busdays(dt, 0, conv), cal.adjust(dt, conv));
            assert_eq!(cal.sub_busdays(dt, 0, conv), cal.adjust(dt, conv));
        }
    }
}

#[test]
fn test_add_sub_busdays() {
    let cal = get_calendar();
    assert_eq!(
        cal.add_busdays(d(2026, 2, 6), 3, BusdayConvention::Following),
        d(2026, 2, 11)
    );
    // the walk skips the Veterans Day holiday
    assert_eq!(
        cal.add_busdays(d(2026, 11, 10), 1, BusdayConvention::Following),
        d(2026, 11, 12)
    );
    assert_eq!(
        cal.sub_busdays(d(2026, 2, 9), 1, BusdayConvention::Following),
        d(2026, 2, 6)
    );
    assert_eq!(
        cal.sub_busdays(d(2026, 2, 18), 2, BusdayConvention::Following),
        d(2026, 2, 13)
    );
}

#[test]
fn test_modified_conventions_stay_in_month() {
    let cal = get_calendar();
    for day in 1..=31 {
        let dt = d(2026, 1, day);
        let mf = cal.adjust(dt, BusdayConvention::ModifiedFollowing);
        let mp = cal.adjust(dt, BusdayConvention::ModifiedPreceding);
        assert_eq!((mf.year, mf.month), (2026, 1));
        assert_eq!((mp.year, mp.month), (2026, 1));
    }
}

#[test]
fn test_busday_count_brazil() {
    // Brazilian-style 2019 holidays: New Year, Carnival Monday and Tuesday,
    // Good Friday, Tiradentes (a Sunday that year), Labour Day, Corpus
    // Christi
    let hols = vec![
        d(2019, 1, 1),
        d(2019, 3, 4),
        d(2019, 3, 5),
        d(2019, 4, 19),
        d(2019, 4, 21),
        d(2019, 5, 1),
        d(2019, 6, 20),
    ];
    let cal = BusinessCalendar::new(Some(hols), "1111100").unwrap();
    assert_eq!(cal.busday_count(d(2019, 1, 1), d(2019, 6, 30)), 123);
}

#[test]
fn test_busday_count_edges() {
    let cal = get_calendar();
    // empty and reversed ranges count zero
    assert_eq!(cal.busday_count(d(2026, 2, 5), d(2026, 2, 5)), 0);
    assert_eq!(cal.busday_count(d(2026, 2, 9), d(2026, 2, 5)), 0);
    // a full week of Mon-Fri
    assert_eq!(cal.busday_count(d(2026, 2, 2), d(2026, 2, 9)), 5);
    // a weekend only
    assert_eq!(cal.busday_count(d(2026, 2, 7), d(2026, 2, 9)), 0);
}

#[test]
fn test_custom_weekmask() {
    // weekend-only business days: "weekend" means the pattern's complement
    let cal = BusinessCalendar::new(None, "0000011").unwrap();
    assert!(cal.is_busday(d(2026, 2, 7)));
    assert!(cal.is_busday(d(2026, 2, 8)));
    assert!(!cal.is_busday(d(2026, 2, 9)));
    assert!(cal.is_weekend(d(2026, 2, 9)));
    assert_eq!(cal.succ(d(2026, 2, 8)), d(2026, 2, 14));
}

#[test]
fn test_new_rejects_bad_weekmask() {
    assert_eq!(
        BusinessCalendar::new(None, "11111").unwrap_err(),
        Error::InvalidWeekmask
    );
    assert_eq!(
        BusinessCalendar::new(None, "11111000").unwrap_err(),
        Error::InvalidWeekmask
    );
    assert_eq!(
        BusinessCalendar::new(None, "11111a0").unwrap_err(),
        Error::InvalidWeekmask
    );
    // an all-zero pattern would make every walk run forever, so it is
    // rejected at construction
    assert_eq!(
        BusinessCalendar::new(None, "0000000").unwrap_err(),
        Error::InvalidWeekmask
    );
}

#[test]
fn test_new_dedups_holidays() {
    let cal =
        BusinessCalendar::new(Some(vec![d(2026, 1, 1), d(2026, 1, 1)]), "1111100").unwrap();
    assert_eq!(cal.holidays(), vec![d(2026, 1, 1)]);
}

#[test]
fn test_getters() {
    let cal = get_calendar();
    assert_eq!(cal.holidays(), holidays());
    assert_eq!(cal.weekmask(), "1111100");
}
