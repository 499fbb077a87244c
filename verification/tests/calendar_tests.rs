use std::str::FromStr;

use calendar_puzzle::calendar::{Day, Month, MonthDay, MonthDayError, Weekday};

#[test]
fn test_monthday_from_str() {
    assert_eq!(MonthDay::from_str("1").unwrap(), MonthDay(1));
    assert_eq!(MonthDay::from_str("31").unwrap(), MonthDay(31));
    assert!(MonthDay::from_str("0").is_err());
    assert!(MonthDay::from_str("32").is_err());
    assert!(MonthDay::from_str("a").is_err());
}

#[test]
fn test_weekday_from_str() {
    assert_eq!(Weekday::from_str("Monday").unwrap(), Weekday::Monday);
    assert_eq!(Weekday::from_str("Tuesday").unwrap(), Weekday::Tuesday);
    assert_eq!(Weekday::from_str("Wednesday").unwrap(), Weekday::Wednesday);
    assert_eq!(Weekday::from_str("Thursday").unwrap(), Weekday::Thursday);
    assert_eq!(Weekday::from_str("Friday").unwrap(), Weekday::Friday);
    assert_eq!(Weekday::from_str("Saturday").unwrap(), Weekday::Saturday);
    assert_eq!(Weekday::from_str("Sunday").unwrap(), Weekday::Sunday);
    assert!(Weekday::from_str("Foo").is_err());
}

#[test]
fn test_month_from_str_and_names() {
    assert!(matches!(Month::from_str("January"), Ok(Month::January)));
    assert!(matches!(Month::from_str("December"), Ok(Month::December)));
    assert!(Month::from_str("Smarch").is_err());
    assert_eq!(Month::February.name(), "February".to_string());
    assert_eq!(Weekday::Sunday.name(), "Sunday".to_string());
}

#[test]
fn test_monthday_errors_by_kind() {
    assert!(matches!(
        MonthDay::from_str("abc"),
        Err(MonthDayError::InvalidFormat)
    ));
    assert!(matches!(
        MonthDay::from_str(""),
        Err(MonthDayError::InvalidFormat)
    ));
    assert!(matches!(
        MonthDay::from_str("32"),
        Err(MonthDayError::OutOfRange)
    ));
    assert!(matches!(
        MonthDay::from_str("0"),
        Err(MonthDayError::OutOfRange)
    ));
}

#[test]
fn test_monthday_parse_reads_byte_numerals() {
    // the grammar of unsigned-byte parsing: optional plus sign, digits of
    // any length, values above a byte are a format error
    assert_eq!(MonthDay::from_str("+31").unwrap(), MonthDay(31));
    assert_eq!(MonthDay::from_str("+5").unwrap(), MonthDay(5));
    assert_eq!(MonthDay::from_str("0031").unwrap(), MonthDay(31));
    assert!(matches!(
        MonthDay::from_str("300"),
        Err(MonthDayError::InvalidFormat)
    ));
    assert!(matches!(
        MonthDay::from_str("256"),
        Err(MonthDayError::InvalidFormat)
    ));
    assert!(matches!(
        MonthDay::from_str("255"),
        Err(MonthDayError::OutOfRange)
    ));
    assert!(matches!(
        MonthDay::from_str("+"),
        Err(MonthDayError::InvalidFormat)
    ));
    assert!(matches!(
        MonthDay::from_str("-1"),
        Err(MonthDayError::InvalidFormat)
    ));
    assert!(matches!(
        MonthDay::from_str("032"),
        Err(MonthDayError::OutOfRange)
    ));
}

#[test]
fn test_monthday_new_bounds() {
    assert!(MonthDay::new(0).is_none());
    assert!(MonthDay::new(32).is_none());
    assert_eq!(MonthDay::new(1).unwrap(), MonthDay(1));
    assert_eq!(MonthDay::new(31).unwrap(), MonthDay(31));
}

#[test]
fn test_day_new_validates_month_length() {
    let d30 = MonthDay::new(30).unwrap();
    let d31 = MonthDay::new(31).unwrap();
    let d29 = MonthDay::new(29).unwrap();
    assert!(Day::new(Month::April, d31, Weekday::Monday).is_err());
    assert!(Day::new(Month::April, d30, Weekday::Monday).is_ok());
    assert!(Day::new(Month::February, d30, Weekday::Monday).is_err());
    assert!(Day::new(Month::February, d29, Weekday::Monday).is_ok());
    assert!(Day::new(Month::January, d31, Weekday::Monday).is_ok());
}

#[test]
fn test_day_count() {
    assert_eq!(Month::January.day_count(), 31);
    assert_eq!(Month::February.day_count(), 29);
    assert_eq!(Month::April.day_count(), 30);
    assert_eq!(Month::December.day_count(), 31);
}

#[test]
fn test_coordinates_of_date_parts() {
    assert_eq!(Month::January.to_coordinates(), (0, 0));
    assert_eq!(Month::December.to_coordinates(), (3, 5));
    assert_eq!(Weekday::Monday.to_coordinates(), (7, 0));
    assert_eq!(Weekday::Sunday.to_coordinates(), (8, 4));
    assert_eq!(MonthDay::new(1).unwrap().to_coordinates(), (4, 0));
    // days 14 and 31 sit apart from the row-major layout
    assert_eq!(MonthDay::new(14).unwrap().to_coordinates(), (7, 5));
    assert_eq!(MonthDay::new(31).unwrap().to_coordinates(), (5, 2));
    assert_eq!(MonthDay::new(30).unwrap().to_coordinates(), (6, 5));
}

#[test]
fn test_today_is_a_valid_day() {
    let day = Day::today();
    assert!(day.day.0 >= 1);
    assert!(day.day.0 <= day.month.day_count());
}
