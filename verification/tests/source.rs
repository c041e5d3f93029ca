use ledr::syntax::source::{FileId, SourceFile, SourceMap, Span};

#[test]
fn test_lines() {
    let file = SourceFile::new("x".into(), "a\nbb\r\n\nccc".into());
    assert_eq!(file.line_count(), 4);
    assert_eq!(file.line(1), "a");
    assert_eq!(file.line(2), "bb");
    assert_eq!(file.line(3), "");
    assert_eq!(file.line(4), "ccc");
    assert_eq!(file.line(5), "");
}

#[test]
fn test_trailing_newline_is_not_a_line() {
    let file = SourceFile::new("x".into(), "a\nb\n".into());
    assert_eq!(file.line_count(), 2);
    assert_eq!(file.lines().len(), 2);
}

#[test]
fn line_zero_and_past_the_end_are_empty() {
    let file = SourceFile::new("x".into(), "one\ntwo".into());
    assert_eq!(file.line(0), "");
    assert_eq!(file.line(3), "");
    let lines = file.lines();
    assert_eq!(lines[0], (1, "one".to_string()));
    assert_eq!(lines[1], (2, "two".to_string()));
}

#[test]
fn source_map_describes_a_span() {
    let mut map = SourceMap::new();
    assert!(map.is_empty());
    let first = map.add(SourceFile::new("main.ledger".into(), "x".into()));
    let second = map.add(SourceFile::new("other.ledger".into(), "y".into()));
    assert_eq!(first, FileId(0));
    assert_eq!(second, FileId(1));
    assert_eq!(map.len(), 2);
    assert_eq!(map.path(second), "other.ledger");
    let span = Span::new(second, 12, 3, 5);
    assert_eq!(map.describe(&span), "other.ledger:12");
    assert_eq!(map.files().len(), 2);
}

#[test]
fn span_through_covers_whole_lines() {
    let a = Span::new(FileId(0), 3, 4, 9);
    let b = Span::new(FileId(0), 7, 1, 2);
    let whole = a.through(b);
    assert_eq!(whole.line, 3);
    assert_eq!(whole.last_line, 7);
    assert_eq!((whole.start, whole.end), (0, 0));
    assert!(whole.is_multiline());
    assert!(!a.is_multiline());
    assert_eq!(b.through(a).last_line, 7);
}
