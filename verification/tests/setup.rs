use ledr::input::setup::{
    account_name, check_currency, currency_codes, currency_for_region, decimals, holdings, region_of,
    Opening, Setup,
};
use ledr::util::quant::Quant;
use ledr::util::date::Date;

#[test]
fn test_account_name() {
    let name = |typed| account_name("Assets", typed);
    assert_eq!(name("Checking").unwrap(), "Assets:Checking");
    assert_eq!(name(" emergency fund ").unwrap(), "Assets:EmergencyFund");
    assert_eq!(name("chase:checking").unwrap(), "Assets:Chase:Checking");
    assert_eq!(name("RBC Chequing").unwrap(), "Assets:RBCChequing");
    assert_eq!(name("assets:Cash").unwrap(), "Assets:Cash");
    assert_eq!(name("401k").unwrap(), "Assets:401k");
    assert!(name("Liabilities:Visa").unwrap_err().contains("Assets"));
    assert!(name("Assets").is_err());
    assert!(name("Bank::Checking").is_err());
    assert!(name("Visa #2").unwrap_err().contains('#'));
    assert!(name("").is_err());
}

#[test]
fn test_locales() {
    assert_eq!(region_of("en_CA.UTF-8").as_deref(), Some("CA"));
    assert_eq!(region_of("de_DE@euro").as_deref(), Some("DE"));
    assert_eq!(region_of("en-gb").as_deref(), Some("GB"));
    assert_eq!(region_of("C"), None);
    assert_eq!(region_of("C.UTF-8"), None);
    assert_eq!(currency_for_region("CA"), Some("CAD"));
    assert_eq!(currency_for_region("FR"), Some("EUR"));
    assert_eq!(currency_for_region("ZZ"), None);
}

#[test]
fn test_check_currency() {
    assert_eq!(check_currency(" cad ").unwrap(), "CAD");
    assert!(check_currency("US D").is_err());
    assert!(check_currency("12").is_err());
    assert!(check_currency("").is_err());
}

#[test]
fn currency_errors_name_the_problem() {
    assert_eq!(check_currency("U$D{").unwrap_err(), "A currency can't contain `{`");
    assert_eq!(check_currency("-100.5").unwrap_err(), "That's a number; name a currency, like USD");
    assert_eq!(check_currency("eur").unwrap(), "EUR");
}

#[test]
fn suggestions_follow_the_region() {
    assert_eq!(holdings(Some("CA"))[0], "Chequing");
    assert_eq!(holdings(Some("XX")), vec!["Checking", "Savings", "Cash", "Brokerage", "Retirement"]);
    assert_eq!(holdings(None).len(), 5);
    assert_eq!(currency_codes()[0], "USD");
    assert_eq!(currency_codes().len(), 42);
    assert_eq!(decimals("JPY"), 0);
    assert_eq!(decimals("CAD"), 2);
}

#[test]
fn openings_keep_their_balance() {
    let o = Opening::new("Assets:Cash", Some((Quant::from_i128(5), "CAD")));
    assert_eq!(o.account, "Assets:Cash");
    assert_eq!(o.balance.as_ref().map(|(_, c)| c.as_str()), Some("CAD"));
    assert!(Opening::new("Assets:Bank", None).balance.is_none());
}

#[test]
fn account_names_must_match_their_category() {
    assert_eq!(
        account_name("Assets", "Liabilities:Visa").unwrap_err(),
        "This is for Assets accounts, not Liabilities"
    );
    assert_eq!(account_name("Liabilities", "visa").unwrap(), "Liabilities:Visa");
}

fn q(s: &str) -> Quant {
    Quant::from_str(s).unwrap()
}

fn example() -> Setup {
    Setup {
        date: Date::from_str("2026-09-24").unwrap(),
        currency: "CAD".into(),
        accounts: vec![
            Opening::new("Assets:Chequing", Some((q("2340.12"), "CAD"))),
            Opening::new("Assets:Savings", Some((q("10000"), "CAD"))),
            Opening::new("Assets:Brokerage", Some((q("1500"), "USD"))),
            Opening::new("Assets:Cash", None),
            Opening::new("Liabilities:Visa", Some((q("-512.3"), "CAD"))),
        ],
        categories: vec![
            "Income:Salary".into(),
            "Expenses:Food:Groceries".into(),
            "Expenses:Housing:Rent".into(),
        ],
    }
}

#[test]
fn test_net_worth() {
    let worth = example().net_worth();
    let get = |c: &str| worth.iter().find(|(k, _)| k == c).unwrap().1;
    assert_eq!(get("CAD"), q("11827.82"));
    assert_eq!(get("USD"), q("1500"));
}

#[test]
fn the_usual_setup_opens_nothing() {
    let setup = Setup::usual(Date::from_str("2026-01-01").unwrap(), "USD", Some("US"));
    assert!(setup.opening().is_none());
    let names: Vec<&str> = setup.accounts.iter().map(|a| a.account.as_str()).collect();
    assert_eq!(names, vec!["Assets:Checking", "Assets:Savings", "Assets:Cash", "Liabilities:CreditCard"]);
    assert_eq!(setup.categories[0], "Income:Salary");
    assert!(setup.categories.contains(&"Expenses:Food:Groceries".to_string()));
    assert!(!setup.categories.contains(&"Expenses:Pets".to_string()));
}

#[test]
fn opening_balances_skip_empty_accounts() {
    let setup = example();
    let entry = setup.opening().unwrap();
    assert_eq!(entry.description, "Opening balances");
    let names: Vec<&str> = entry.postings.iter().map(|p| p.account.as_str()).collect();
    assert_eq!(
        names,
        vec!["Assets:Chequing", "Assets:Savings", "Assets:Brokerage", "Liabilities:Visa", "Equity:OpeningBalances"]
    );
    assert_eq!(setup.currencies(), vec!["CAD", "USD"]);
}

#[test]
fn test_to_text() {
    assert_eq!(
        example().to_text(),
        "\
# Started with `ledr init` on 2026-09-24.
#
# Add entries with `ledr add`, or write them here yourself.
# `man 5 ledr` describes the format, and `ledr check` finds
# mistakes.

! 2026-09-24 currency CAD
! 2026-09-24 currency USD

! 2026-09-24 account Assets:Chequing
! 2026-09-24 account Assets:Savings
! 2026-09-24 account Assets:Brokerage
! 2026-09-24 account Assets:Cash
! 2026-09-24 account Liabilities:Visa
! 2026-09-24 account Equity:OpeningBalances

! 2026-09-24 account Income:Salary

! 2026-09-24 account Expenses:Food:Groceries
! 2026-09-24 account Expenses:Housing:Rent

2026-09-24 Opening balances
    Assets:Chequing    2,340.12 CAD
    Assets:Savings    10,000.00 CAD
    Assets:Brokerage   1,500.00 USD
    Liabilities:Visa    -512.30 CAD
    Equity:OpeningBalances
"
    );
}

#[test]
fn test_nothing_to_open_means_no_entry() {
    let setup = Setup::usual(Date::from_str("2026-01-01").unwrap(), "USD", Some("US"));
    assert!(setup.opening().is_none());
    assert!(!setup.to_text().contains("Opening balances"));
    // The account is still there for a balance added later
    assert!(setup.to_text().contains("account Equity:OpeningBalances"));
}
