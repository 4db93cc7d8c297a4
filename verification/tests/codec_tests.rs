use buscal::{BusinessCalendar, Date, Error};

fn d(y: i32, m: u8, day: u8) -> Date {
    Date::new(y, m, day).unwrap()
}

#[test]
fn test_to_json_str_exact() {
    let cal = BusinessCalendar::new(Some(vec![d(2026, 1, 1)]), "1111100").unwrap();
    assert_eq!(
        cal.to_json_str().unwrap(),
        "{\"holidays\":[\"2026-01-01\"],\"weekmask\":\"1111100\"}"
    );
    let empty = BusinessCalendar::new(None, "1111100").unwrap();
    assert_eq!(
        empty.to_json_str().unwrap(),
        "{\"holidays\":[],\"weekmask\":\"1111100\"}"
    );
}

#[test]
fn test_from_json_str_basic() {
    let cal = BusinessCalendar::from_json_str(
        "{\"holidays\":[\"2026-01-01\",\"2026-11-26\"],\"weekmask\":\"1111100\"}",
    )
    .unwrap();
    assert_eq!(cal.holidays(), vec![d(2026, 1, 1), d(2026, 11, 26)]);
    assert_eq!(cal.weekmask(), "1111100");
    assert!(cal.is_holiday(d(2026, 11, 26)));
    assert!(!cal.is_busday(d(2026, 1, 1)));
}

#[test]
fn test_json_round_trip() {
    let cal = BusinessCalendar::new(
        Some(vec![d(2026, 1, 1), d(2026, 1, 19), d(2026, 11, 26)]),
        "1111110",
    )
    .unwrap();
    let text = cal.to_json_str().unwrap();
    let back = BusinessCalendar::from_json_str(&text).unwrap();
    assert_eq!(back.holidays(), cal.holidays());
    assert_eq!(back.weekmask(), cal.weekmask());
}

#[test]
fn test_json_round_trip_no_holidays() {
    let cal = BusinessCalendar::new(None, "0011100").unwrap();
    let text = cal.to_json_str().unwrap();
    let back = BusinessCalendar::from_json_str(&text).unwrap();
    assert_eq!(back.holidays(), Vec::<Date>::new());
    assert_eq!(back.weekmask(), "0011100");
}

#[test]
fn test_from_json_str_eof() {
    assert_eq!(
        BusinessCalendar::from_json_str("").unwrap_err(),
        Error::Eof
    );
    assert_eq!(
        BusinessCalendar::from_json_str("{\"holidays\":[").unwrap_err(),
        Error::Eof
    );
}

#[test]
fn test_from_json_str_syntax() {
    // a wrong field name
    assert_eq!(
        BusinessCalendar::from_json_str("{\"weekdays\":[],\"weekmask\":\"1111100\"}")
            .unwrap_err(),
        Error::Syntax
    );
    // a length no document can have
    assert_eq!(
        BusinessCalendar::from_json_str("{ \"holidays\": [], \"weekmask\": \"1111100\" }")
            .unwrap_err(),
        Error::Syntax
    );
    // an unquoted entry in the holiday list
    assert_eq!(
        BusinessCalendar::from_json_str("{\"holidays\":[20260101x01],\"weekmask\":\"1111100\"}")
            .unwrap_err(),
        Error::Syntax
    );
}

#[test]
fn test_from_json_str_bad_date() {
    assert_eq!(
        BusinessCalendar::from_json_str("{\"holidays\":[\"2026-02-30\"],\"weekmask\":\"1111100\"}")
            .unwrap_err(),
        Error::Data
    );
    assert_eq!(
        BusinessCalendar::from_json_str("{\"holidays\":[\"2026/01/01\"],\"weekmask\":\"1111100\"}")
            .unwrap_err(),
        Error::Data
    );
}

#[test]
fn test_from_json_str_bad_mask() {
    assert_eq!(
        BusinessCalendar::from_json_str("{\"holidays\":[],\"weekmask\":\"11121OO\"}")
            .unwrap_err(),
        Error::Data
    );
    assert_eq!(
        BusinessCalendar::from_json_str("{\"holidays\":[],\"weekmask\":\"0000000\"}")
            .unwrap_err(),
        Error::InvalidWeekmask
    );
}
