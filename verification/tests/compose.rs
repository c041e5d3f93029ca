use ledr::input::compose::{amount_text, detect_style, Draft, DraftPosting, Target};
use ledr::input::history::History;
use ledr::tidy::FileStyle;
use ledr::util::date::Date;
use ledr::util::quant::Quant;

fn draft() -> Draft {
    Draft {
        date: Date::from_str("2024-03-01").unwrap(),
        description: "Tim Hortons".into(),
        postings: vec![
            DraftPosting::new("Expenses:Food:Coffee", Some((Quant::from_str("4.5").unwrap(), "CAD"))),
            DraftPosting::new("Liabilities:Visa", None),
        ],
        notes: vec![],
    }
}

#[test]
fn test_balance() {
    let mut d = draft();
    assert!(d.is_balanced());
    d.postings[1].amount = Some((Quant::from_str("-4.5").unwrap(), "CAD".into()));
    assert!(d.is_balanced());
    assert!(d.imbalance().is_empty());
    d.postings[1].amount = Some((Quant::from_str("-4").unwrap(), "CAD".into()));
    assert!(!d.is_balanced());
    d.postings[1].amount = Some((Quant::from_str("-3").unwrap(), "USD".into()));
    assert!(d.is_balanced(), "two currencies convert implicitly");
}

#[test]
fn test_typed_precision_is_kept() {
    let value = Quant::from_str("0.123456789012345678").unwrap();
    assert_eq!(amount_text(value, "ETH", &|_: &str| 2), "0.123456789012345678");
    assert_eq!(amount_text(Quant::from_frac(100, 3), "USD", &|_: &str| 2), "33.33");
}

#[test]
fn test_windows_line_endings_are_kept() {
    let target = Target {
        path: "x".into(),
        original: "a\r\n".into(),
        style: FileStyle::default(),
    };
    let appendix = target.appendix("B\nC\n");
    assert_eq!(appendix, "\r\nB\r\nC\r\n");
    assert_eq!(target.first_new_line(&appendix), 3);
    let blank = Target {
        original: "a\r\n\r\n".into(),
        ..target
    };
    assert_eq!(blank.appendix("B\n"), "B\r\n");
}

#[test]
fn test_appendix_separates_with_a_blank_line() {
    let target = |original: &str| Target {
        path: "x".into(),
        original: original.into(),
        style: FileStyle::default(),
    };
    assert_eq!(target("a\n").appendix("B\n"), "\nB\n");
    assert_eq!(target("a").appendix("B\n"), "\n\nB\n");
    assert_eq!(target("a\n\n").appendix("B\n"), "B\n");
    assert_eq!(target("").appendix("B\n"), "B\n");
    assert_eq!(target("a\n").first_new_line("\nB\n"), 3);
    assert_eq!(target("a").first_new_line("\n\nB\n"), 3);
    assert_eq!(target("").first_new_line("B\n"), 1);
}

#[test]
fn imbalance_sums_by_currency_leaving_out_zeros() {
    let mut d = draft();
    d.postings[1].amount = Some((Quant::from_str("-4").unwrap(), "CAD".into()));
    d.postings.push(DraftPosting::new("Assets:Cash", Some((Quant::from_str("3").unwrap(), "USD"))));
    d.postings.push(DraftPosting::new("Assets:Bank", Some((Quant::from_str("-3").unwrap(), "USD"))));
    let sums = d.imbalance();
    assert_eq!(sums.len(), 1);
    assert_eq!(sums[0].0, "CAD");
    assert_eq!(sums[0].1.to_string(), "0.5");
    assert!(!d.has_blank());
}

#[test]
fn new_names_are_those_the_history_lacks() {
    let history = ledr::input::history::History::build(&[]);
    let d = draft();
    let (accounts, currencies) = d.new_names(&history);
    assert_eq!(accounts, vec!["Expenses:Food:Coffee", "Liabilities:Visa"]);
    assert_eq!(currencies, vec!["CAD"]);
}

#[test]
fn test_text_matches_the_file() {
    let style = detect_style("2024-01-01 X\n\tAssets:A    1,000.00 CAD\n\tAssets:B\n");
    let text = draft().to_text(&style, &History::build(&[]), &|_: &str| 2);
    assert_eq!(
        text,
        "2024-03-01 Tim Hortons\n\tExpenses:Food:Coffee      4.50 CAD\n\tLiabilities:Visa\n"
    );
}

#[test]
fn test_reads_back() {
    let d = draft();
    let text = d.to_text(&FileStyle::default(), &History::build(&[]), &|_: &str| 2);
    assert!(d.reads_back(&text).is_ok());

    let mut hashed = draft();
    hashed.description = "Order #1234".into();
    let text = hashed.to_text(&FileStyle::default(), &History::build(&[]), &|_: &str| 2);
    assert!(hashed.reads_back(&text).unwrap_err().message.contains('#'));
}
