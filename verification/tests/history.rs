use ledr::input::fuzzy::{rank, Score};
use ledr::input::history::{History, Usage};
use ledr::parsing::loader::{Found, Loader, Need};
use ledr::syntax::source::SourceMap;
use ledr::util::date::Date;

/// The history of a ledger held in one file.
fn history(text: &str) -> History {
    let (mut loader, need) = Loader::new(SourceMap::new(), "h.ledr", None, None);
    assert!(matches!(need, Need::Root(_)));
    let found = Found::File {
        path: "h.ledr".to_string(),
        canonical: "/d/h.ledr".to_string(),
        name: "h.ledr".to_string(),
        text: text.to_string(),
    };
    match loader.step(found) {
        Need::Done(Ok(items)) => History::build(&items),
        _ => panic!("the ledger should load"),
    }
}

const LEDGER: &str = "\
! 2024-01-01 account Assets:Checking
! 2024-01-01 account Liabilities:Visa

2024-01-02 Tim Hortons
    Expenses:Coffee   4.50 CAD
    Liabilities:Visa

2024-02-02 Tim Hortons
    Expenses:Coffee   5.25 CAD
    Liabilities:Visa

2024-01-15 Paycheck
    Assets:Checking   2,000.00 USD
    Income:Salary
";

/// Names matching a query, best first, every name weighing the same.
fn best<'a>(query: &str, names: &[&'a str]) -> Vec<&'a str> {
    let candidates: Vec<(&str, Score)> = names.iter().map(|n| (*n, 0)).collect();
    rank(query, &candidates).into_iter().map(|(i, _)| names[i]).collect()
}

#[test]
fn test_templates_come_from_the_latest_entry() {
    let h = history(LEDGER);
    let tim = h.payee("Tim Hortons").unwrap();
    assert_eq!(tim.usage.count, 2);
    assert_eq!(tim.template_date.text(), "2024-02-02");
    assert_eq!(tim.template[0].amount.as_ref().unwrap().value_text, "5.25");
    assert!(tim.is_simple());
    assert_eq!(h.entries, 3);
}

#[test]
fn test_usage() {
    let h = history(LEDGER);
    assert_eq!(h.currency_for("Expenses:Coffee"), Some("CAD"));
    assert_eq!(h.currency_for("Assets:Checking"), Some("USD"));
    assert_eq!(h.usual_partner("Expenses:Coffee"), Some("Liabilities:Visa"));
    assert!(h.uses_declarations());
    assert!(h.is_known_account("Income:Salary"));
    assert!(!h.is_known_account("Income:Bonus"));
    let today = Date::from_str("2024-03-01").unwrap();
    assert_eq!(today.text(), "2024-03-01");
    let accounts = h.all_accounts();
    assert_eq!(best("cof", &accounts)[0], "Expenses:Coffee");
    let payees: Vec<&str> = h.payees().iter().map(|p| p.name.as_str()).collect();
    assert_eq!(best("tim", &payees)[0], "Tim Hortons");
}

#[test]
fn accounts_come_in_dictionary_order_once_each() {
    let h = history(LEDGER);
    assert_eq!(
        h.all_accounts(),
        vec![
            "Assets:Checking",
            "Expenses:Coffee",
            "Income:Salary",
            "Liabilities:Visa"
        ]
    );
}

#[test]
fn usage_counts_and_dates() {
    let h = history(LEDGER);
    let coffee: Usage = h.account_usage("Expenses:Coffee").unwrap();
    assert_eq!(coffee.count, 2);
    assert_eq!(coffee.last.text(), "2024-02-02");
    assert!(h.account_usage("Assets:Savings").is_none());
    assert_eq!(h.main_currency(), Some("CAD"));
    assert!(h.is_known_currency("USD"));
    assert!(!h.is_known_currency("EUR"));
    let (_, latest) = h.latest.unwrap();
    assert_eq!(latest.text(), "2024-02-02");
}

#[test]
fn ties_go_to_the_last_name_in_order() {
    let h = history(
        "2024-01-01 A\n    Assets:X   1 USD\n    Assets:Y   1 EUR\n\n2024-01-02 B\n    Assets:X   1 EUR\n    Assets:Z   2 USD\n",
    );
    assert_eq!(h.main_currency(), Some("USD"));
    assert_eq!(h.currency_for("Assets:X"), Some("USD"));
    assert_eq!(h.usual_partner("Assets:X"), Some("Assets:Z"));
    assert_eq!(h.currency_for("Assets:Q"), Some("USD"));
}

#[test]
fn an_entry_without_postings_is_not_counted() {
    let h = history("2024-01-01 Nothing\n\n2024-01-02 Something\n    Assets:A   1 USD\n    Assets:B\n");
    assert_eq!(h.entries, 1);
    assert!(h.payee("Nothing").is_none());
    assert!(h.payee("Something").is_some());
    assert!(!h.uses_declarations());
}

#[test]
fn a_priced_template_is_not_simple() {
    let h = history("2024-01-01 Swap\n    Assets:A   1 USD @ 1.3 CAD\n    Assets:B\n");
    assert!(!h.payee("Swap").unwrap().is_simple());
    let h = history("2024-01-01 Mixed\n    Assets:A   1 USD\n    Assets:B   -1 CAD\n");
    assert!(!h.payee("Mixed").unwrap().is_simple());
}

#[test]
fn partners_can_be_filtered() {
    let h = history(LEDGER);
    assert_eq!(
        h.usual_partner_where("Expenses:Coffee", |a| a.starts_with("Liabilities")),
        Some("Liabilities:Visa")
    );
    assert_eq!(h.usual_partner_where("Expenses:Coffee", |a| a.starts_with("Assets")), None);
    assert_eq!(h.usual_partner("Income:Bonus"), None);
}
