use ledr::ui::palette;
use ledr::ui::style::{ColorLevel, Style};
use ledr::ui::text::{space_run, width, Align, Doc, Line};

#[test]
fn test_width_counts_columns() {
    assert_eq!(width("abc"), 3);
    assert_eq!(width("━━"), 2);
    assert_eq!(width("日本"), 4);
    let line = Line::plain("ab").with("cd", Style::faint());
    assert_eq!(line.width(), 4);
    assert_eq!(line.text(), "abcd");
}

#[test]
fn test_fit_and_truncate() {
    let line = Line::plain("hello");
    assert_eq!(line.clone().fit(8, Align::Left).text(), "hello   ");
    assert_eq!(line.clone().fit(8, Align::Right).text(), "   hello");
    assert_eq!(line.clone().fit(9, Align::Center).text(), "  hello  ");
    assert_eq!(line.clone().fit(4, Align::Left).text(), "hel…");
    assert_eq!(line.truncate(1).text(), "…");
}

#[test]
fn test_adjacent_spans_with_one_style_merge() {
    let style = Style::color(palette::green());
    let line = Line::styled("a", style).with("b", style);
    assert_eq!(
        line.render(ColorLevel::TrueColor)
            .matches("\x1b[0m")
            .count(),
        1
    );
}

#[test]
fn truncating_wide_characters_keeps_whole_characters() {
    let line = Line::plain("日本語");
    assert_eq!(line.clone().truncate(4).text(), "日…");
    assert_eq!(line.clone().truncate(6).text(), "日本語");
    assert_eq!(line.truncate(0).text(), "");
}

#[test]
fn empty_text_adds_nothing() {
    let line = Line::new().with("", Style::faint());
    assert!(line.is_empty());
    assert_eq!(line.width(), 0);
    let joined = Line::plain("a").followed_by(Line::faint("b"));
    assert_eq!(joined.text(), "ab");
    assert!(!joined.is_empty());
}

#[test]
fn doc_render_trims_trailing_spaces() {
    let mut doc = Doc::new();
    doc.push(Line::plain("a  "));
    doc.blank();
    doc.extend(vec![Line::plain(" b")]);
    assert_eq!(doc.render(ColorLevel::NoColor), "a\n\n b\n");
    assert_eq!(space_run(3), "   ");
}

#[test]
fn truncation_keeps_the_start_of_the_text() {
    let line = Line::plain("a日").with("bc", Style::new().bold());
    let cut = line.truncate(3);
    assert_eq!(cut.render(ColorLevel::NoColor), "a…");
    assert!(width(&cut.render(ColorLevel::NoColor)) <= 3);
}
