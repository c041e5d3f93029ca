use ledr::input::quick::{day_from_lowered, parse_day};
use ledr::util::date::Date;

fn today() -> Date {
    Date::from_str("2024-03-13").unwrap() // a Wednesday
}

#[test]
fn test_days() {
    let t = today();
    assert_eq!(parse_day("yesterday", t, false).unwrap().text(), "2024-03-12");
    assert_eq!(parse_day("mon", t, false).unwrap().text(), "2024-03-11");
    assert_eq!(parse_day("wednesday", t, false).unwrap().text(), "2024-03-13");
    assert_eq!(parse_day("thu", t, false).unwrap().text(), "2024-03-07");
    assert_eq!(parse_day("03-01", t, false).unwrap().text(), "2024-03-01");
    assert_eq!(parse_day("-2", t, true).unwrap().text(), "2024-03-11");
    assert_eq!(parse_day("-2", t, false), None);
    assert_eq!(parse_day("pizza", t, false), None);
    assert_eq!(parse_day("su", t, false), None, "too short to be a weekday");
}

#[test]
fn test_days_in_other_forms() {
    let t = today();
    assert_eq!(parse_day(" T ", t, false), Some(t));
    assert_eq!(parse_day("Tomorrow", t, false).unwrap().text(), "2024-03-14");
    assert_eq!(parse_day("2023-12-31", t, false).unwrap().text(), "2023-12-31");
    assert_eq!(parse_day("2023-02-29", t, false), None);
    assert_eq!(parse_day("123-01-01", t, false), None);
    assert_eq!(parse_day("SUNDAY", t, false).unwrap().text(), "2024-03-10");
    assert_eq!(parse_day("12-258", t, false), None, "no month has a 258th day");
    assert_eq!(parse_day("2024-259-02", t, false), None, "no year has a 259th month");
}

#[test]
fn lowered_days_read_as_typed_ones() {
    let t = today();
    assert_eq!(day_from_lowered("monday", t, false), parse_day("  Monday ", t, false));
    assert_eq!(day_from_lowered("12-25", t, false).unwrap().text(), "2024-12-25");
    assert_eq!(day_from_lowered("13-01", t, false), None);
}
