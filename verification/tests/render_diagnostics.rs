use ledr::diagnostics::Diagnostic;
use ledr::render::diagnostics::{fancy_width, plain, wrap};
use ledr::syntax::source::{FileId, SourceFile, SourceMap, Span};
use ledr::ui::style::ColorLevel;

fn sources() -> (SourceMap, FileId) {
    let mut map = SourceMap::new();
    let id = map.add(SourceFile::new(
        "money.ledr".into(),
        "2024-01-01 Coffee\n    Assets:Cash   100\n".into(),
    ));
    (map, id)
}

#[test]
fn test_plain() {
    let (map, file) = sources();
    let d = Diagnostic::error("Missing a currency")
        .at(Span::new(file, 2, 18, 19))
        .help("write the currency");
    assert_eq!(
        plain(&d, &map),
        "error: money.ledr:2: Missing a currency\n  help: write the currency\n"
    );
}

#[test]
fn test_fancy_points_at_the_problem() {
    let (map, file) = sources();
    let d = Diagnostic::error("Missing a currency")
        .at(Span::new(file, 2, 14, 17))
        .label("this amount")
        .help("write the currency");
    let text = fancy_width(&d, &map, 80).render(ColorLevel::NoColor);
    assert_eq!(
        text,
        "✗ Missing a currency\n   ╭─ money.ledr:2\n 2 │     Assets:Cash   100\n   │               ^^^ this amount\n   ╰─ help: write the currency\n"
    );
}

#[test]
fn test_long_help_wraps_under_itself() {
    let (map, file) = sources();
    let d = Diagnostic::error("x")
        .at(Span::new(file, 2, 4, 15))
        .help("one two three four five six seven eight nine ten");
    let text = fancy_width(&d, &map, 30).render(ColorLevel::NoColor);
    assert!(text.ends_with("   ╰─ help: one two three four\n            five six seven eight\n            nine ten\n"), "{text}");
}

#[test]
fn test_fancy_shows_whole_entries() {
    let (map, file) = sources();
    let entry = Span::new(file, 1, 0, 0).through(Span::new(file, 2, 0, 0));
    let d = Diagnostic::warning("Looks odd").at(entry);
    let text = fancy_width(&d, &map, 100).render(ColorLevel::NoColor);
    assert!(
        text.contains(
            " 1 │ 2024-01-01 Coffee\n 2 │     Assets:Cash   100\n"
        )
    );
}

#[test]
fn unplaced_diagnostics_list_notes_and_help() {
    let (map, _) = sources();
    let d = Diagnostic::warning("Odd").note("first").help("fix");
    assert_eq!(plain(&d, &map), "warning: Odd\n  note: first\n  help: fix\n");
    let text = fancy_width(&d, &map, 80).render(ColorLevel::NoColor);
    assert_eq!(text, "⚠ Odd\n  note: first\n  help: fix\n");
}

#[test]
fn wrapping_breaks_at_spaces() {
    let lines: Vec<String> = wrap("aa bb cc", 5).into_iter().map(|l| l.into_iter().collect()).collect();
    assert_eq!(lines, vec!["aa bb".to_string(), "cc".to_string()]);
}
