use ledr::parsing::loader::{Found, Loader, Need};
use ledr::render::entries::entries_matching;
use ledr::syntax::source::SourceMap;
use ledr::render::entries::{find, highlight, search_heading};
use ledr::ui::style::{ColorLevel, Style};

#[test]
fn test_smart_case() {
    assert!(ledr::render::entries::matches("Tim Hortons", "tim"));
    assert!(ledr::render::entries::matches("Tim Hortons", "HORTONS".to_lowercase().as_str()));
    assert!(ledr::render::entries::matches("Tim Hortons", "Tim"));
    assert!(!ledr::render::entries::matches("Tim Hortons", "TIM"));
    assert!(!ledr::render::entries::matches("tim hortons", "Tim"));
    assert_eq!(find("Café Crème", "crème"), Some((6, 12)));
}

#[test]
fn test_find_gives_the_first_match_in_bytes() {
    assert_eq!(find("a-b-b", "b"), Some((2, 3)));
    assert_eq!(find("Crème brûlée", "BRÛ"), None);
    assert_eq!(find("Crème BRÛLÉE", "BRÛ"), Some((7, 11)));
    assert_eq!(find("CAFÉ", "é"), Some((3, 5)));
    assert_eq!(find("abc", "abcd"), None);
}

#[test]
fn test_an_empty_term_matches_nothing() {
    assert_eq!(find("anything", ""), None);
    assert!(!ledr::render::entries::matches("", ""));
}

#[test]
fn test_search_heading() {
    assert_eq!(search_heading(3, "tim").text(), "◇ 3 entries · matching “tim”");
    assert_eq!(search_heading(1, "x").text(), "◇ 1 entry · matching “x”");
    assert_eq!(search_heading(1200, "x").text(), "◇ 1,200 entries · matching “x”");
}

#[test]
fn test_highlight_keeps_text() {
    let text = "! 2024-01-01 account Assets:A\n2024-01-02 Thing  # hi\n    Assets:A   -1.00 USD\n    Expenses:B\n";
    let lines = highlight(text);
    let back: Vec<String> = lines.iter().map(|l| l.text()).collect();
    assert_eq!(back.join("\n") + "\n", text);
}

#[test]
fn test_highlight_keeps_odd_lines_too() {
    let text = "  Dépenses:Café   12,5 EUR @ 1.3 CAD # cher\n not a posting\n! bad\n\t// ref";
    let back: Vec<String> = highlight(text).iter().map(|l| l.text()).collect();
    assert_eq!(back.join("\n"), text);
}

#[test]
fn test_highlight_colors_amounts_by_sign() {
    let lines = highlight("    Assets:A   -1.00 USD");
    let plain = lines[0].render(ColorLevel::NoColor);
    assert_eq!(plain, "    Assets:A   -1.00 USD");
    let colored = lines[0].render(ColorLevel::TrueColor);
    assert!(colored.contains("\u{1b}[38;2;242;80;110m-1.00"), "{colored:?}");
    let _ = Style::new();
}

#[test]
fn matching_entries_are_found_with_their_lines() {
    let text = "# top\n2024-01-02 Tim Hortons\n    Expenses:Coffee   4.50 CAD\n    Liabilities:Visa\n\n2024-01-03 Grocer\n    Expenses:Food   10 CAD\n    Liabilities:Visa\n";
    let (mut loader, _) = Loader::new(SourceMap::new(), "a.ledr", None, None);
    let found = Found::File {
        path: "a.ledr".to_string(),
        canonical: "/d/a.ledr".to_string(),
        name: "a.ledr".to_string(),
        text: text.to_string(),
    };
    let items = match loader.step(found) {
        Need::Done(Ok(items)) => items,
        _ => panic!("the ledger should load"),
    };
    let hits = entries_matching(&items, "tim");
    assert_eq!(hits.len(), 1);
    let numbers: Vec<usize> = hits[0].iter().map(|(_, n)| *n).collect();
    assert_eq!(numbers, vec![2, 3, 4]);
    assert_eq!(entries_matching(&items, "Visa").len(), 0);
    assert_eq!(entries_matching(&items, "o").len(), 2);
}
