use ledr::diagnostics::{closest, edit_distance, Diagnostic, Failure, Locate, Severity};
use ledr::syntax::source::{FileId, Span};

#[test]
fn test_edit_distance() {
    assert_eq!(edit_distance("", ""), 0);
    assert_eq!(edit_distance("abc", "abc"), 0);
    assert_eq!(edit_distance("abc", "abd"), 1);
    assert_eq!(edit_distance("abc", "acb"), 1);
    assert_eq!(edit_distance("kitten", "sitting"), 3);
}

#[test]
fn test_closest_finds_typos() {
    let accounts = ["Assets:Checking", "Assets:Savings", "Expenses:Food"];
    assert_eq!(
        closest("Assets:Chekcing", &accounts),
        Some("Assets:Checking")
    );
    assert_eq!(closest("assets:savings", &accounts), Some("Assets:Savings"));
    assert_eq!(closest("Liabilities:Visa", &accounts), None);
}

#[test]
fn closest_skips_the_input_itself_and_prefers_the_first_tie() {
    assert_eq!(closest("ab", &["ab"]), None);
    assert_eq!(closest("abc", &["abd", "abe"]), Some("abd"));
}

#[test]
fn diagnostics_keep_their_first_place() {
    let first = Span::new(FileId(0), 3, 0, 4);
    let second = Span::new(FileId(0), 9, 0, 4);
    let d = Diagnostic::error("bad")
        .at(first)
        .at(second)
        .label("here")
        .note("one")
        .note("two")
        .help("fix it");
    assert_eq!(d.severity, Severity::Error);
    assert_eq!(d.span, Some(first));
    assert_eq!(d.label.as_deref(), Some("here"));
    assert_eq!(d.notes, vec!["one".to_string(), "two".to_string()]);
    assert_eq!(d.help.as_deref(), Some("fix it"));
    assert_eq!(d.to_string(), "bad");
    let w = Diagnostic::warning("hm").at_opt(None);
    assert_eq!(w.severity, Severity::Warning);
    assert_eq!(w.span, None);
}

#[test]
fn locating_a_failure_pins_it() {
    let span = Span::new(FileId(1), 2, 0, 1);
    let located = Diagnostic::locate(Failure::Other("oops".to_string()), span);
    assert_eq!(located.message, "oops");
    assert_eq!(located.span, Some(span));
    let result: Result<u8, Failure> = Err(Failure::Diagnostic(Diagnostic::warning("w")));
    let err = result.locate(span).unwrap_err();
    assert_eq!(err.severity, Severity::Warning);
    assert_eq!(err.span, Some(span));
}
