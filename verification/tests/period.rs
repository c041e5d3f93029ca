use ledr::util::date::Date;
use ledr::util::period::{parse_bound, parse_period, period_from_lowered, Edge};

fn d(s: &str) -> Date {
    Date::from_str(s).unwrap()
}

fn period(s: &str) -> (String, String) {
    let (a, b) = parse_period(s, d("2026-05-17")).unwrap();
    (a.text(), b.text())
}

#[test]
fn test_absolute_periods() {
    assert_eq!(period("2024"), ("2024-01-01".into(), "2024-12-31".into()));
    assert_eq!(period("2024-02"), ("2024-02-01".into(), "2024-02-29".into()));
    assert_eq!(period("2023-02"), ("2023-02-01".into(), "2023-02-28".into()));
    assert_eq!(period("2024-3-5"), ("2024-03-05".into(), "2024-03-05".into()));
    assert_eq!(period("2024-Q2"), ("2024-04-01".into(), "2024-06-30".into()));
}

#[test]
fn test_relative_periods() {
    assert_eq!(period("today"), ("2026-05-17".into(), "2026-05-17".into()));
    assert_eq!(period("yesterday").0, "2026-05-16");
    assert_eq!(period("-30").0, "2026-04-17");
    assert_eq!(period("this-month"), ("2026-05-01".into(), "2026-05-31".into()));
    assert_eq!(period("mtd"), ("2026-05-01".into(), "2026-05-17".into()));
    assert_eq!(period("last-month"), ("2026-04-01".into(), "2026-04-30".into()));
    assert_eq!(period("this-quarter"), ("2026-04-01".into(), "2026-06-30".into()));
    assert_eq!(period("last-quarter"), ("2026-01-01".into(), "2026-03-31".into()));
    assert_eq!(period("last-year"), ("2025-01-01".into(), "2025-12-31".into()));
    assert_eq!(period("ytd"), ("2026-01-01".into(), "2026-05-17".into()));
    let jan = parse_period("last-month", d("2026-01-10")).unwrap();
    assert_eq!(jan.0.text(), "2025-12-01");
}

#[test]
fn test_bounds() {
    let today = d("2026-05-17");
    assert_eq!(parse_bound("2024", Edge::Start, today).unwrap(), d("2024-01-01"));
    assert_eq!(parse_bound("2024", Edge::End, today).unwrap(), d("2024-12-31"));
    assert_eq!(parse_bound("2024-11", Edge::End, today).unwrap(), d("2024-11-30"));
    for bad in ["", "soon", "2024-13", "2024-02-30", "2024-Q5", "20x4"] {
        assert!(parse_bound(bad, Edge::Start, today).is_err(), "{bad}");
    }
}

#[test]
fn test_periods_read_case_and_space_loosely() {
    assert_eq!(period("  This-Year "), ("2026-01-01".into(), "2026-12-31".into()));
    assert_eq!(period("tomorrow").1, "2026-05-18");
    assert_eq!(period("-0").0, "2026-05-17");
    assert_eq!(period("--2").0, "2026-05-19");
    let last_quarter = parse_period("lastquarter", d("2026-02-10")).unwrap();
    assert_eq!((last_quarter.0.text(), last_quarter.1.text()), ("2025-10-01".into(), "2025-12-31".into()));
}

#[test]
fn test_period_errors() {
    let today = d("2026-05-17");
    assert_eq!(parse_period("2024-q0", today).unwrap_err(), "quarters are Q1 to Q4");
    assert_eq!(parse_period("2024-x", today).unwrap_err(), "not a number");
    assert_eq!(parse_period("1-2-3-4", today).unwrap_err(), "unrecognized period `1-2-3-4`");
    assert_eq!(parse_period("2024-300", today).unwrap_err(), "out of range integral type conversion attempted");
    assert_eq!(parse_period("99999999999", today).unwrap_err(), "number too large to fit in target type");
    assert_eq!(
        parse_bound("soon", Edge::End, today).unwrap_err(),
        "`soon` is not a date I understand; try 2024-03-15, 2024-03, 2024, today or yesterday"
    );
}

#[test]
fn test_days_step_across_months_and_years() {
    assert_eq!(d("2024-02-28").add_days(1).unwrap().text(), "2024-02-29");
    assert_eq!(d("2023-12-31").add_days(1).unwrap().text(), "2024-01-01");
    assert_eq!(d("2024-03-01").add_days(-1).unwrap().text(), "2024-02-29");
    assert_eq!(d("2024-01-01").add_days(-366).unwrap().text(), "2022-12-31");
    assert_eq!(Date::new(2023, 2, 29), None);
    assert_eq!(d("2024-04-10").end_of_month().text(), "2024-04-30");
}

#[test]
fn quarters_beyond_four_are_refused() {
    let today = Date::from_str("2026-05-17").unwrap();
    assert_eq!(parse_period("2024-Q260", today).unwrap_err(), "quarters are Q1 to Q4");
    assert_eq!(parse_period("2024-q5", today).unwrap_err(), "quarters are Q1 to Q4");
    assert_eq!(parse_period("2024-Q0", today).unwrap_err(), "quarters are Q1 to Q4");
    let (start, end) = parse_period("2024-Q4", today).unwrap();
    assert_eq!((start.text(), end.text()), ("2024-10-01".to_string(), "2024-12-31".to_string()));
}

#[test]
fn year_zero_has_no_year_before_it() {
    let today = Date { year: 0, month: 1, day: 15 };
    assert!(parse_period("last-year", today).is_err());
    assert!(parse_period("last-month", today).is_err());
    assert!(parse_period("last-quarter", today).is_err());
    assert_eq!(parse_period("this-year", today).unwrap().0.text(), "0000-01-01");
    let later = Date { year: 0, month: 5, day: 15 };
    assert_eq!(parse_period("last-month", later).unwrap().0.text(), "0000-04-01");
}

#[test]
fn lowered_periods_read_as_typed_ones() {
    let today = d("2024-05-17");
    assert_eq!(period_from_lowered("last-month", today), parse_period(" Last-Month ", today));
    assert!(period_from_lowered("2024-q5", today).is_err());
}
