use ledr::input::expr::{parse, try_parse};
use ledr::input::setup::currency_of;
use ledr::util::quant::Quant;

fn value(s: &str) -> String {
    let mut q = parse(s).unwrap().value;
    q.set_render_precision(2, true);
    q.to_string()
}

#[test]
fn test_plain_amounts() {
    assert_eq!(value("12.5"), "12.50");
    assert_eq!(value("1,234.56"), "1,234.56");
    assert_eq!(value("-4"), "-4.00");
    assert!(!parse("12.5").unwrap().computed);
}

#[test]
fn test_arithmetic() {
    assert_eq!(value("12.50 + 3.20 * 2"), "18.90");
    assert_eq!(value("(10 + 2) / 3"), "4.00");
    assert_eq!(value("100/3"), "33.33");
    assert_eq!(value("3x4"), "12.00");
    assert_eq!(value("-(2+3)"), "-5.00");
    assert!(parse("1+2").unwrap().computed);
    assert!(parse("1/0").is_err());
    assert!(parse("(1+2").is_err());
    assert!(parse("12..5").is_err());
    assert!(parse("abc").is_err());
}

#[test]
fn test_currencies() {
    assert_eq!(parse("4.50 CAD").unwrap().currency.as_deref(), Some("CAD"));
    assert_eq!(parse("CAD 4.50").unwrap().currency.as_deref(), Some("CAD"));
    assert_eq!(parse("4.50CAD").unwrap().currency.as_deref(), Some("CAD"));
    assert_eq!(parse("$4.50").unwrap().currency.as_deref(), Some("USD"));
    assert_eq!(parse("€ 3").unwrap().currency.as_deref(), Some("EUR"));
    let t = parse("-$4.50").unwrap();
    assert_eq!(t.currency.as_deref(), Some("USD"));
    assert!(t.value.is_negative());
    assert_eq!(parse("12").unwrap().currency, None);
}

#[test]
fn test_currency_of() {
    let of = |input: &str, main| currency_of(input, &parse(input).unwrap(), main);
    assert_eq!(of("20", "CAD"), "CAD");
    assert_eq!(of("$20", "CAD"), "CAD");
    assert_eq!(of("$20", "EUR"), "USD");
    assert_eq!(of("20 usd", "CAD"), "USD");
    assert_eq!(of("¥500", "CNY"), "CNY");
    assert_eq!(of("€20", "CAD"), "EUR");
}

#[test]
fn parse_errors_say_what_went_wrong() {
    assert_eq!(parse("").unwrap_err(), "no amount given");
    assert_eq!(parse("1/0").unwrap_err(), "cannot divide by zero");
    assert_eq!(parse("(1+2").unwrap_err(), "missing a closing parenthesis");
    assert_eq!(parse("12..5").unwrap_err(), "`12..5` is not a number");
    assert_eq!(parse("2 +").unwrap_err(), "the amount is incomplete");
    assert_eq!(parse("2+?").unwrap_err(), "unexpected `?`");
    assert_eq!(parse("(2)3").unwrap_err(), "`(2)3` is not an amount I understand");
}

#[test]
fn overflowing_arithmetic_is_reported() {
    let huge = format!("{} * {}", "9".repeat(38), "9".repeat(38));
    assert!(try_parse(&huge).is_none());
    assert!(try_parse("2 * 3").unwrap().is_ok());
    assert_eq!(try_parse("2 * 3").unwrap().unwrap().value, Quant::from_i128(6));
}
