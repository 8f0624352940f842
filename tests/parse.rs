use chrono::Datelike;
use kit::{parse_date, parse_date_at, parse_interval, parse_unsigned, same_text, Date, ParseError};

fn ymd(y: i32, m: u32, d: u32) -> Date {
    Date::from_ymd(y, m, d).unwrap()
}

#[test]
fn test_parse_date_now() {
    let today = chrono::Utc::now().date_naive();
    let parsed = parse_date("now").unwrap();
    assert_eq!(
        (today.year(), today.month(), today.day()),
        (parsed.year(), parsed.month(), parsed.day())
    );
}

#[test]
fn test_parse_date_fail_short_date() {
    assert!(parse_date("2002-05").is_err());
}

#[test]
fn test_parse_date_fail_wrong_format() {
    assert!(parse_date("baba-05-02").is_err());
}

#[test]
fn test_parse_date_custom_date() {
    assert_eq!(ymd(2020, 5, 2), parse_date("2020-05-02").unwrap());
}

#[test]
fn parse_date_at_now_gives_the_day_handed_in() {
    let today = ymd(2021, 7, 9);
    assert_eq!(parse_date_at("now", today), Ok(today));
}

#[test]
fn parse_date_rejects_invalid_calendar_days() {
    assert_eq!(parse_date("2021-02-29"), Err(ParseError::InvalidDateFormat));
    assert_eq!(parse_date("2021-13-01"), Err(ParseError::InvalidDateFormat));
    assert_eq!(parse_date("2021-00-10"), Err(ParseError::InvalidDateFormat));
    assert_eq!(parse_date("2021-04-31"), Err(ParseError::InvalidDateFormat));
    assert_eq!(parse_date("300000-01-01"), Err(ParseError::InvalidDateFormat));
    assert_eq!(parse_date("2020-02-29"), Ok(ymd(2020, 2, 29)));
}

#[test]
fn parse_date_rejects_empty_and_odd_fields() {
    assert_eq!(parse_date(""), Err(ParseError::InvalidDateFormat));
    assert_eq!(parse_date("2020--05-02"), Err(ParseError::InvalidDateFormat));
    assert_eq!(parse_date("20baba"), Err(ParseError::InvalidDateFormat));
    assert_eq!(parse_date("Now"), Err(ParseError::InvalidDateFormat));
    assert_eq!(parse_date("2020-5-2x"), Err(ParseError::InvalidDateFormat));
}

#[test]
fn parse_date_ignores_fields_after_the_third() {
    assert_eq!(parse_date("2000-5-4-7"), Ok(ymd(2000, 5, 4)));
    assert_eq!(parse_date("+2000-05-04"), Ok(ymd(2000, 5, 4)));
}

#[test]
fn parse_interval_values() {
    assert_eq!(parse_interval("30"), Ok(30));
    assert_eq!(parse_interval("0"), Ok(0));
    assert_eq!(parse_interval("+7"), Ok(7));
    assert_eq!(parse_interval("007"), Ok(7));
    assert_eq!(parse_interval("18446744073709551615"), Ok(usize::MAX));
}

#[test]
fn parse_interval_errors() {
    assert_eq!(parse_interval("bubu"), Err(ParseError::InvalidInterval));
    assert_eq!(parse_interval(""), Err(ParseError::InvalidInterval));
    assert_eq!(parse_interval("+"), Err(ParseError::InvalidInterval));
    assert_eq!(parse_interval("-3"), Err(ParseError::InvalidInterval));
    assert_eq!(parse_interval("1 2"), Err(ParseError::InvalidInterval));
    assert_eq!(parse_interval("18446744073709551616"), Err(ParseError::InvalidInterval));
}

#[test]
fn parse_unsigned_bounds() {
    assert_eq!(parse_unsigned("4294967295", u32::MAX as u64), Some(4294967295));
    assert_eq!(parse_unsigned("4294967296", u32::MAX as u64), None);
    assert_eq!(parse_unsigned("99999999999999999999x", 1000), None);
    assert_eq!(parse_unsigned("12", 12), Some(12));
    assert_eq!(parse_unsigned("13", 12), None);
}

#[test]
fn same_text_compares_characters() {
    assert!(same_text("name", "name"));
    assert!(!same_text("name", "names"));
    assert!(!same_text("last", "lost"));
    assert!(same_text("", ""));
}

#[test]
fn dates_from_ymd() {
    assert!(Date::from_ymd(2019, 2, 29).is_none());
    assert!(Date::from_ymd(2000, 2, 29).is_some());
    assert!(Date::from_ymd(1900, 2, 29).is_none());
    assert!(Date::from_ymd(kit::MAX_YEAR, 12, 31).is_some());
    assert!(Date::from_ymd(kit::MAX_YEAR + 1, 1, 1).is_none());
    assert!(Date::from_ymd(kit::MIN_YEAR, 1, 1).is_some());
    assert!(Date::from_ymd(kit::MIN_YEAR - 1, 12, 31).is_none());
}

#[test]
fn days_between_dates() {
    assert_eq!(ymd(2020, 3, 25).days_since(&ymd(2020, 3, 20)), 5);
    assert_eq!(ymd(2020, 3, 20).days_since(&ymd(2020, 3, 25)), -5);
    assert_eq!(ymd(2021, 1, 1).days_since(&ymd(2020, 1, 1)), 366);
    assert_eq!(ymd(2020, 3, 1).days_since(&ymd(2020, 2, 28)), 2);
}

#[test]
fn date_text_is_iso() {
    assert_eq!(ymd(2020, 3, 5).to_text(), "2020-03-05");
    assert_eq!(ymd(33, 12, 31).to_text(), "0033-12-31");
    assert_eq!(ymd(12345, 1, 2).to_text(), "+12345-01-02");
    assert_eq!(ymd(-4, 1, 2).to_text(), "-0004-01-02");
}
