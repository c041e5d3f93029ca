use ledr::diagnostics::Diagnostic;
use ledr::syntax::lexer::{lex_line, Cols, Directive, LineKind, Posting};
use ledr::syntax::source::{FileId, SourceFile, SourceMap};
use ledr::util::date::Date;
use ledr::util::quant::Quant;

fn file() -> FileId {
    SourceMap::new().add(SourceFile::new("test".into(), String::new()))
}

fn lex(s: &str) -> LineKind {
    lex_line(s, file(), 1).unwrap().kind
}

fn lex_err(s: &str) -> Diagnostic {
    lex_line(s, file(), 1).unwrap_err()
}

fn posting(s: &str) -> Posting {
    match lex(s) {
        LineKind::Posting(p) => *p,
        other => panic!("expected a posting, got {other:?}"),
    }
}

#[test]
fn test_blank_and_comments() {
    assert_eq!(lex(""), LineKind::Blank);
    assert_eq!(lex("   \t "), LineKind::Blank);
    assert_eq!(lex("# hello"), LineKind::CommentOnly);
    assert_eq!(lex("    # hello"), LineKind::CommentOnly);
    let line = lex_line("  Assets:Cash  # note", file(), 1).unwrap();
    assert_eq!(line.comment.as_deref(), Some("# note"));
}

#[test]
fn test_header_keeps_punctuation() {
    match lex("2024-11-24 Paycheck, Google, Inc.") {
        LineKind::Header(h) => {
            assert_eq!(h.description, "Paycheck, Google, Inc.");
        },
        other => panic!("{other:?}"),
    }
    match lex("2024-11-24\tTabbed") {
        LineKind::Header(h) => assert_eq!(h.description, "Tabbed"),
        other => panic!("{other:?}"),
    }
}

#[test]
fn test_header_errors() {
    let e = lex_err("2024-13-01 Nope");
    assert!(e.message.contains("not a valid date"));
    assert_eq!(e.span.unwrap().start, 0);
    assert_eq!(e.span.unwrap().end, 10);
    assert!(lex_err("2024-01-01").message.contains("no description"));
}

#[test]
fn test_postings() {
    let p = posting("    Assets:Cash   1,000.00 USD");
    assert_eq!(p.account, "Assets:Cash");
    assert_eq!(p.account_cols, Cols { start: 4, end: 15 });
    let amount = p.amount.unwrap();
    assert_eq!(amount.value, Quant::from_i128(1000));
    assert_eq!(amount.value_text, "1,000.00");
    assert_eq!(amount.currency, "USD");

    assert!(posting("  Income:Salary").amount.is_none());

    let price = posting("Expenses:Hw 12.5 USD @ 1.3 CAD")
        .amount
        .unwrap()
        .price
        .unwrap();
    assert!(!price.is_total);
    assert_eq!(price.currency, "CAD");
    assert!(
        posting("Expenses:Hw 12.5 USD @@ 16.25 CAD")
            .amount
            .unwrap()
            .price
            .unwrap()
            .is_total
    );
}

#[test]
fn test_trailing_comma_after_currency_is_ignored() {
    let amount = posting("Assets:A 10 USD,").amount.unwrap();
    assert_eq!(amount.currency, "USD");
    assert_eq!(amount.cols, Cols { start: 9, end: 15 });
}

#[test]
fn test_lots() {
    for text in [
        r#"Assets:A 30 AAPL { 234.56 USD, "lot A" }"#,
        r#"Assets:A 30 AAPL { 234.56 USD "lot A" }"#,
        r#"Assets:A 30 AAPL {234.56 USD,"lot A"}"#,
    ] {
        let lot = posting(text).amount.unwrap().lot.unwrap();
        assert_eq!(lot.cost, Quant::from_frac(23456, 100), "{text}");
        assert_eq!(lot.currency, "USD", "{text}");
        assert_eq!(lot.name.as_deref(), Some("lot A"), "{text}");
    }
    let lot = posting("Assets:A -3 AAPL { 1,234.56 USD }")
        .amount
        .unwrap()
        .lot
        .unwrap();
    assert_eq!(lot.cost, Quant::from_frac(123456, 100));
    assert_eq!(lot.name, None);
    let named = posting("Assets:A 3 AAPL { 1 USD lotA }");
    assert_eq!(named.amount.unwrap().lot.unwrap().name.unwrap(), "lotA");
}

#[test]
fn test_posting_errors() {
    let e = lex_err("Assets:Cash 100");
    assert!(e.message.contains("Missing a currency"), "{}", e.message);
    let e = lex_err("Assets:Cash USD 100");
    assert!(e.help.unwrap().contains("before their currency"));
    let e = lex_err("Expenses:Eating Out 10 USD");
    assert!(e.help.unwrap().contains("cannot contain spaces"));
    assert!(lex_err("Assets:A 1 X { 2 USD").message.contains("Unclosed"));
    assert!(lex_err("Assets:A 1 X ~").message.contains("Unexpected"));
    assert!(lex_err("Assets:A 0 X @@ 5 USD").message.contains("nonzero"));
}

#[test]
fn test_directives() {
    match lex("! 2024-11-24 rate USD CAD 1,300.5") {
        LineKind::Directive(d) => assert_eq!(
            d.directive,
            Directive::Rate {
                base: "USD".into(),
                quote: "CAD".into(),
                rate: Quant::from_frac(26010, 20),
                rate_text: "1,300.5".into(),
            }
        ),
        other => panic!("{other:?}"),
    }
    match lex("!2024-11-24 account Assets:Cash") {
        LineKind::Directive(d) => {
            assert_eq!(d.directive, Directive::Account("Assets:Cash".into()));
        },
        other => panic!("{other:?}"),
    }
    assert!(lex_err("! 2024-11-24 account Assets").message.contains("Top level"));
    let e = lex_err("! 2024-11-24 acount Assets:Cash");
    assert_eq!(e.help.unwrap(), "did you mean `account`?");
    assert!(lex_err("! 2024-11-24 rate USD").message.contains("Invalid"));
}

#[test]
fn test_includes_and_references() {
    match lex(r#"include "my file.ledr""#) {
        LineKind::Include(i) => assert_eq!(i.path, "my file.ledr"),
        other => panic!("{other:?}"),
    }
    match lex("include 2024.ledr  # comment") {
        LineKind::Include(i) => assert_eq!(i.path, "2024.ledr"),
        other => panic!("{other:?}"),
    }
    assert!(lex_err("include").message.contains("missing"));
    assert_eq!(lex("// INV-1, paid"), LineKind::Reference("INV-1, paid".into()));
    assert_eq!(lex("//"), LineKind::Reference(String::new()));
}

#[test]
fn test_columns_count_bytes() {
    let p = posting("  Dépenses:Café 2 EUR");
    assert_eq!(p.account_cols, Cols { start: 2, end: 17 });
    let amount = p.amount.unwrap();
    assert_eq!(amount.cols, Cols { start: 18, end: 23 });
    let e = lex_err("Café:Au 1 X @ ");
    assert_eq!(e.message, "Missing a price");
    let span = e.span.unwrap();
    assert_eq!((span.start, span.end), (14, 15));
}

#[test]
fn test_messages_name_what_was_wrong() {
    let e = lex_err("2024-02-30 Leap");
    assert_eq!(e.message, "`2024-02-30` is not a valid date");
    assert_eq!(e.help.as_deref(), Some("dates are written YYYY-MM-DD, like 2024-11-24"));
    let e = lex_err("2024-1-5");
    assert_eq!(e.message, "Entry dated 2024-01-05 has no description");
    let e = lex_err("! 2024-11-24");
    assert_eq!(e.message, "Directive on 2024-11-24 has no keyword");
    let span = e.span.unwrap();
    assert_eq!((span.start, span.end), (0, 12));
    let e = lex_err("! 2024-11-24 currency");
    assert_eq!(e.message, "Invalid `currency` directive");
    assert_eq!(e.help.as_deref(), Some("write it like `! 2024-11-24 currency USD`"));
    let e = lex_err("! 2024-11-24 rate USD CAD x");
    assert_eq!(e.message, "Invalid number: x");
    let e = lex_err("! 2024-11-24 zzzzzzzz");
    assert_eq!(
        e.help.as_deref(),
        Some("expected one of: account, open, close, currency, clear, worthless, rate")
    );
    let e = lex_err("Assets:A 1 USD { 1 USD } x");
    assert_eq!(e.message, "Unexpected text after the lot");
    let e = lex_err("Assets:A 99999999999999999999999999999999999999999 USD");
    assert!(e.message.starts_with("Number is too large or too precise: "));
}

#[test]
fn test_directive_words_and_arguments() {
    match lex("! 2024-11-24 clear  CAD") {
        LineKind::Directive(d) => {
            assert_eq!(d.directive.keyword(), "clear");
            assert_eq!(d.directive.args(), "CAD");
            assert_eq!(d.args, Cols { start: 20, end: 23 });
            assert_eq!(d.date, Date::from_str("2024-11-24").unwrap());
        },
        other => panic!("{other:?}"),
    }
    match lex("! 2024-11-24 rate USD CAD 1.3") {
        LineKind::Directive(d) => assert_eq!(d.directive.args(), "USD CAD 1.3"),
        other => panic!("{other:?}"),
    }
}

#[test]
fn test_dates_are_written_with_padding() {
    assert_eq!(Date::from_str("2024-1-5").unwrap().text(), "2024-01-05");
    assert_eq!(Date::from_str("0099-12-31").unwrap().text(), "0099-12-31");
    assert!(Date::from_str("2023-02-29").is_none());
    assert_eq!(Date { year: 12345, month: 6, day: 7 }.text(), "+12345-06-07");
    assert_eq!(Date { year: -1, month: 1, day: 1 }.text(), "-0001-01-01");
}

#[test]
fn directives_written_back_read_the_same() {
    for raw in [
        "!   2024-11-24   open   Assets:Cash   # opened",
        "! 2024-1-5 rate USD CAD 1.30",
        "! 2024-11-24 worthless XYZ",
        "! +12345-6-7 account Liabilities:Visa",
    ] {
        match lex(raw) {
            LineKind::Directive(d) => {
                let text = format!("! {} {} {}", d.date.text(), d.directive.keyword(), d.directive.args());
                let again = lex_line(&text, file(), 1).unwrap();
                assert!(again.comment.is_none());
                match again.kind {
                    LineKind::Directive(d2) => {
                        assert_eq!(d2.date, d.date);
                        assert_eq!(d2.directive, d.directive);
                    },
                    other => panic!("{other:?}"),
                }
            },
            other => panic!("{other:?}"),
        }
    }
}
