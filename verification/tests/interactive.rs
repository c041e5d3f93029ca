use ledr::input::compose::{Draft, DraftPosting};
use ledr::input::interactive::{
    account_problem, amount_currency, amount_problem, description_problem, entry_complete, offered,
};
use ledr::util::date::Date;
use ledr::util::quant::Quant;

#[test]
fn descriptions_must_say_something_without_a_comment() {
    assert_eq!(description_problem("   "), Some("Describe the entry, e.g. who was paid".to_string()));
    assert_eq!(description_problem("Cafe #3"), Some("`#` starts a comment, so it can't be in a description".to_string()));
    assert_eq!(description_problem(" Cafe "), None);
}

#[test]
fn account_lines_finish_only_balanced_entries() {
    assert_eq!(account_problem("  ", false), Some("The entry doesn't balance yet".to_string()));
    assert_eq!(account_problem("", true), None);
    assert_eq!(account_problem("Assets:My Bank", true), Some("Account names can't contain spaces or `#`".to_string()));
    assert_eq!(account_problem("Assets:#1", false), Some("Account names can't contain spaces or `#`".to_string()));
    assert_eq!(account_problem(" Assets:Bank ", false), None);
}

#[test]
fn amounts_are_blank_once_or_readable() {
    assert_eq!(amount_problem(" ", true), None);
    assert_eq!(amount_problem(" ", false), Some("Only one line can be left blank".to_string()));
    assert_eq!(amount_problem("12.50+3.20", false), None);
    assert!(amount_problem("12..5", true).is_some());
}

#[test]
fn offers_come_from_the_last_entry_then_the_hints() {
    let template = vec!["Expenses:Food".to_string(), "Assets:Cash".to_string()];
    let hints = vec!["A".to_string(), "B".to_string(), "C".to_string()];
    assert_eq!(offered(&template, &hints, 1, false), Some("Expenses:Food".to_string()));
    assert_eq!(offered(&template, &hints, 3, false), Some("C".to_string()));
    assert_eq!(offered(&template, &hints, 4, false), None);
    assert_eq!(offered(&template, &hints, 1, true), None);
}

#[test]
fn currencies_come_from_what_was_typed_then_the_account_then_the_rest() {
    assert_eq!(amount_currency(Some("EUR"), Some("CAD"), Some("GBP")), "EUR");
    assert_eq!(amount_currency(None, Some("CAD"), Some("GBP")), "CAD");
    assert_eq!(amount_currency(None, None, Some("GBP")), "GBP");
    assert_eq!(amount_currency(None, None, None), "USD");
}

#[test]
fn entries_complete_when_balanced_or_a_line_is_blank() {
    let date = Date::from_str("2024-03-13").unwrap();
    let one = Quant::from_str("10").unwrap();
    let minus = Quant::from_str("-10").unwrap();
    let mut draft = Draft { date, description: "Cafe".to_string(), postings: vec![], notes: vec![] };
    draft.postings.push(DraftPosting::new("Expenses:Food", Some((one, "USD"))));
    assert!(!entry_complete(&draft, false));
    assert!(entry_complete(&draft, true));
    draft.postings.push(DraftPosting::new("Assets:Cash", Some((minus, "USD"))));
    assert!(entry_complete(&draft, false));
}
