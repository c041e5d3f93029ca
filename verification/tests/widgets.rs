use ledr::ui::palette;
use ledr::ui::text::Line;
use ledr::ui::widgets::{badge, char_run, panel, rule, Column, Decimals, Table};

#[test]
fn test_decimals_align() {
    let d = Decimals::fit(&["1,234.5", "12", "0.001"]);
    assert_eq!(d.align("1,234.5"), "1,234.5  ");
    assert_eq!(d.align("12"), "   12    ");
    assert_eq!(d.align("0.001"), "    0.001");
    assert_eq!(d.width(), 9);
}

#[test]
fn test_panel_is_exactly_as_wide_as_asked() {
    let lines = panel(
        vec![Line::plain("hello")],
        palette::accent(),
        Some(Line::faint("note")),
        30,
    );
    assert!(lines.iter().all(|l| l.width() == 30), "{lines:#?}");
    assert!(lines.last().unwrap().text().contains(" note "));
}

#[test]
fn test_table_shrinks_to_fit() {
    let mut table = Table::new(vec![
        Column::left("Name").shrinking(),
        Column::right("Amount"),
    ]);
    table.row(vec![
        Line::plain("a very long description indeed"),
        Line::plain("1.00"),
    ]);
    let lines = table.render(20);
    assert!(lines.iter().all(|l| l.width() <= 20));
    assert!(lines[1].text().contains('…'));
}

#[test]
fn badge_and_rule_text() {
    assert_eq!(badge("TOTAL", palette::green()).text(), " TOTAL ");
    assert_eq!(rule("Assets", 12).text(), "Assets ────");
    assert_eq!(rule("Assets", 3).text(), "Assets ");
    assert_eq!(char_run('=', 3), "===");
}

#[test]
fn table_without_headers_has_only_rows() {
    let mut table = Table::new(vec![Column::left(""), Column::right("")]);
    assert!(table.is_empty());
    table.row(vec![Line::plain("a"), Line::plain("1")]);
    table.rule_under(vec![1]);
    table.row(vec![Line::plain("bb")]);
    let lines = table.render(80);
    assert_eq!(lines.len(), 3);
    assert_eq!(lines[0].text(), "a   1");
    assert_eq!(lines[1].text(), "    ─");
    assert_eq!(lines[2].text(), "bb   ");
}
