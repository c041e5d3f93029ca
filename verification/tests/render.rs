use ledr::render::{account, category_color, dotted, gain, gain_color, money, plural, Mode};
use ledr::ui::palette;
use ledr::ui::style::ColorLevel;
use ledr::util::quant::Quant;

#[test]
fn test_plural() {
    assert_eq!(plural(1, "entry"), "1 entry");
    assert_eq!(plural(2, "lot"), "2 lots");
    assert_eq!(plural(1234567, "lot"), "1,234,567 lots");
    assert_eq!(plural(3, "entry"), "3 entries");
    assert_eq!(plural(3, "day"), "3 days");
}

#[test]
fn categories_have_colors() {
    assert_eq!(category_color("Assets:Cash"), palette::green());
    assert_eq!(category_color("Liabilities"), palette::red());
    assert_eq!(category_color("Expenses:Food"), palette::amber());
    assert_eq!(category_color("Other:Thing"), palette::faint());
    assert_eq!(account("Assets:Bank:Checking").text(), "Assets:Bank:Checking");
}

#[test]
fn money_and_gains_read_as_written() {
    assert_eq!(money("1,234.56", "USD", true).text(), "1,234.56 USD");
    let loss = Quant::from_i128(-56);
    assert_eq!(gain_color(&loss), palette::red());
    assert_eq!(gain("-56.00", &loss, "USD").text(), "▼ 56.00 USD");
    assert_eq!(gain("0.00", &Quant::zero(), "USD").text(), "  0.00 USD");
    assert_eq!(gain("5.00", &Quant::from_i128(5), "USD").text(), "▲ 5.00 USD");
}

#[test]
fn dotted_skips_empty_parts() {
    let parts = vec!["a".to_string(), String::new(), "b".to_string()];
    assert_eq!(dotted(&parts).text(), "a · b");
}

#[test]
fn modes_report_width_and_color() {
    let plain = Mode::Plain;
    assert!(!plain.is_fancy());
    assert_eq!(plain.width(), 80);
    assert_eq!(plain.color(), ColorLevel::NoColor);
    let fancy = Mode::Fancy { color: ColorLevel::TrueColor, width: 100 };
    assert!(fancy.is_fancy());
    assert_eq!(fancy.width(), 100);
    assert_eq!(fancy.color(), ColorLevel::TrueColor);
}
