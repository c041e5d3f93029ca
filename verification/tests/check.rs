use ledr::diagnostics::Diagnostic;
use ledr::reports::check::{check_report, count_problems, verdict_line, check_problems, missing_declarations};
use ledr::util::date::Date;
use ledr::ui::style::ColorLevel;

#[test]
fn check_fails_on_errors_and_strictly_on_warnings() {
    assert_eq!(check_report(0, 0, true), (false, "No problems found".to_string()));
    assert_eq!(check_report(0, 2, false), (false, "2 warnings".to_string()));
    assert_eq!(check_report(0, 1, true), (true, "1 warning".to_string()));
    assert_eq!(check_report(3, 0, false), (true, "3 errors".to_string()));
    assert_eq!(check_report(1, 1, false), (true, "1 error, 1 warning".to_string()));
    assert_eq!(check_report(1200, 0, false).1, "1,200 errors");
}

#[test]
fn problems_are_counted_by_severity() {
    let problems = vec![
        Diagnostic::error("a"),
        Diagnostic::warning("b"),
        Diagnostic::error("c"),
    ];
    assert_eq!(count_problems(&problems), (2, 1));
    assert_eq!(count_problems(&[]), (0, 0));
}

#[test]
fn the_verdict_line_marks_the_outcome() {
    assert_eq!(verdict_line(0, 0).render(ColorLevel::NoColor), "✓ No problems found");
    assert_eq!(verdict_line(0, 3).render(ColorLevel::NoColor), "⚠ 3 warnings");
    assert_eq!(verdict_line(2, 3).render(ColorLevel::NoColor), "✗ 2 errors, 3 warnings");
}

#[test]
fn missing_declarations_skip_likely_typos() {
    let d = Date::from_str("2024-11-24").unwrap();
    let currencies = vec![("USD".to_string(), d), ("CAF".to_string(), d)];
    let accounts = vec![("Assets:Chekcing".to_string(), d), ("Expenses:Food".to_string(), d)];
    let found = missing_declarations(&currencies, &accounts, &["CAD"], &["Assets:Checking"]);
    assert_eq!(found, vec!["! 2024-11-24 currency USD".to_string(), "! 2024-11-24 account Expenses:Food".to_string()]);
    assert!(missing_declarations(&[], &[], &[], &[]).is_empty());
}

#[test]
fn check_reports_loading_problems_then_warnings() {
    let all = check_problems(vec![Diagnostic::error("bad line")], vec![Diagnostic::warning("odd rate")]);
    assert_eq!(all.len(), 2);
    assert_eq!(all[0].message, "bad line");
    assert_eq!(all[1].message, "odd rate");
    let (errors, warnings) = count_problems(&all);
    assert_eq!((errors, warnings), (1, 1));
}
