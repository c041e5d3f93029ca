use ledr::syntax::lexer::{lex_line, Line};
use ledr::syntax::source::{FileId, SourceFile, SourceMap};
use ledr::tidy::{tidy, FileStyle};

fn file() -> FileId {
    SourceMap::new().add(SourceFile::new("t".into(), String::new()))
}

fn run(text: &str) -> String {
    tidy(text, file()).unwrap()
}

#[test]
fn test_aligns_on_decimal_points() {
    let messy = "\
2024-1-5 Groceries, and more   # weekly
  Expenses:Food    42.1 USD
  Assets:Checking:Main   -1,042.10  USD
  Equity:Rounding
";
    assert_eq!(
        run(messy),
        "\
2024-01-05 Groceries, and more  # weekly
  Expenses:Food             42.1 USD
  Assets:Checking:Main  -1,042.10 USD
  Equity:Rounding
"
    );
}

#[test]
fn test_keeps_comments_and_structure() {
    let text = "\
# Header comment


! 2024-01-01   account    Assets:Cash # declared



2024-01-02 Thing
\t// ref
\t# inside
\tAssets:Cash\t10 USD @ 1.3   CAD
\tAssets:Cash\t-2 AAPL {5 USD,\"lot A\"}
\tEquity:X
";
    assert_eq!(
        run(text),
        "\
# Header comment


! 2024-01-01 account Assets:Cash  # declared


2024-01-02 Thing
\t// ref
\t# inside
\tAssets:Cash  10 USD @ 1.3 CAD
\tAssets:Cash  -2 AAPL { 5 USD, \"lot A\" }
\tEquity:X
"
    );
}

#[test]
fn test_keeps_windows_line_endings() {
    let text = "2024-1-2 X\r\n  Assets:A  1 USD\r\n  Assets:B\r\n";
    let tidied = run(text);
    assert_eq!(tidied, "2024-01-02 X\r\n  Assets:A  1 USD\r\n  Assets:B\r\n");
    assert_eq!(run(&tidied), tidied);
}

#[test]
fn test_is_idempotent() {
    let text = "2024-01-02 X\n    Assets:A  1 USD\n    Assets:Bbbbb  -1.00 USD\n";
    let once = run(text);
    assert_eq!(run(&once), once);
}

#[test]
fn test_refuses_files_with_syntax_errors() {
    assert!(tidy("2024-13-01 Nope\n", file()).is_err());
}

#[test]
fn test_detects_indentation() {
    let text = "2024-01-02 X\n  Assets:A  1 USD\n  Assets:B\n";
    let lines: Vec<Line> = text
        .lines()
        .enumerate()
        .map(|(i, l)| lex_line(l, file(), i + 1).unwrap())
        .collect();
    let pairs: Vec<(&str, &Line)> = text.lines().zip(&lines).collect();
    let style = FileStyle::detect(&pairs);
    assert_eq!(style.indent, "  ");
    assert_eq!(style.account_width, 8);
    assert_eq!(style.whole_width, 1);
}

#[test]
fn test_tidy_errors_name_the_line() {
    let e = tidy("2024-01-02 X\n  Assets:A 1\n", file()).unwrap_err();
    assert_eq!(e.span.unwrap().line, 2);
    assert!(e.message.contains("Missing a currency"));
}

#[test]
fn test_tabs_win_and_blank_runs_shrink() {
    let text = "\n\n2024-01-02 X\n\tAssets:A 1 USD\n\tAssets:B\n  Assets:C 2 USD\n\n\n\n\n# end\n\n";
    assert_eq!(
        run(text),
        "2024-01-02 X\n\tAssets:A  1 USD\n\tAssets:B\n\tAssets:C  2 USD\n\n\n# end\n"
    );
}

#[test]
fn test_posting_layout() {
    let style = FileStyle { indent: "  ".into(), account_width: 10, whole_width: 3 };
    let line = lex_line("Assets:A 1.5 USD @@ 3 CAD", file(), 1).unwrap();
    match line.kind {
        ledr::syntax::lexer::LineKind::Posting(p) => {
            assert_eq!(style.posting(&p), "Assets:A      1.5 USD @@ 3 CAD");
        },
        other => panic!("{other:?}"),
    }
    assert_eq!(FileStyle::default().indent, "    ");
}

#[test]
fn test_plain_diff_is_a_patch() {
    let diff = ledr::tidy::plain_diff("a.ledr", "x\ny\n", "x\nz\n");
    assert_eq!(diff, "--- a/a.ledr\n+++ b/a.ledr\n@@ -1,2 +1,2 @@\n x\n-y\n+z\n");
}

#[test]
fn test_fancy_diff_numbers_old_lines() {
    let doc = ledr::tidy::fancy_diff("a.ledr", "x\n\ty\n", "x\nz\n");
    let lines: Vec<String> = doc.lines.iter().map(|l| l.text()).collect();
    assert_eq!(lines, vec!["◇ a.ledr", "    1   x", "    2 -     y", "      + z"]);
}
