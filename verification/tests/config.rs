use ledr::config::{expand_home, home, ledger, path, span_of, toml_string, with_file, Config};
use ledr::syntax::source::{SourceFile, SourceMap};

#[test]
fn test_with_file_keeps_everything_else() {
    let existing = "# mine\nfile = \"old.ledr\" # was here\n\n# end\n";
    assert_eq!(
        with_file(Some(existing), "new.ledr"),
        "# mine\nfile = 'new.ledr'\n\n# end\n"
    );
    assert_eq!(
        with_file(Some("# nothing yet"), "a.ledr"),
        "# nothing yet\nfile = 'a.ledr'\n"
    );
    let fresh = with_file(None, "a.ledr");
    assert!(fresh.starts_with("# ledr's settings"));
    assert!(fresh.ends_with("file = 'a.ledr'\n"));
    // A setting that merely starts with "file" is left alone
    assert_eq!(
        with_file(Some("filed = 1"), "a.ledr"),
        "filed = 1\nfile = 'a.ledr'\n"
    );
}

#[test]
fn toml_strings_quote_as_needed() {
    assert_eq!(toml_string("~/books/main.ledr"), "'~/books/main.ledr'");
    assert_eq!(toml_string("it's here"), "\"it's here\"");
    assert_eq!(toml_string("tab\there"), "\"tab\\there\"");
    assert_eq!(toml_string("quote \" and 'both' \\"), "\"quote \\\" and 'both' \\\\\"");
    assert_eq!(toml_string("bell\u{7}"), "\"bell\\u0007\"");
}

#[test]
fn home_and_config_paths() {
    assert_eq!(home(Some("/home/me"), None).as_deref(), Some("/home/me"));
    assert_eq!(home(Some("relative"), Some("/users/me")).as_deref(), Some("/users/me"));
    assert_eq!(home(None, None), None);
    assert_eq!(path(None, Some("/home/me"), None).as_deref(), Some("/home/me/.config/ledr/config.toml"));
    assert_eq!(path(Some("/xdg"), Some("/home/me"), None).as_deref(), Some("/xdg/ledr/config.toml"));
    assert_eq!(path(None, None, None), None);
    assert_eq!(expand_home("~/books/main.ledr", Some("/home/me")), "/home/me/books/main.ledr");
    assert_eq!(expand_home("~", Some("/home/me")), "/home/me/");
    assert_eq!(expand_home("~other", Some("/home/me")), "~other");
    assert_eq!(expand_home("~/x", None), "~/x");
}

#[test]
fn configured_ledgers_resolve() {
    let config = Config { file: Some(" books.ledr ".to_string()) };
    assert_eq!(
        ledger(&config, Some("/home/me/.config/ledr/config.toml"), Some("/home/me")).as_deref(),
        Some("/home/me/.config/ledr/books.ledr")
    );
    let config = Config { file: Some("~/b.ledr".to_string()) };
    assert_eq!(ledger(&config, None, Some("/home/me")).as_deref(), Some("/home/me/b.ledr"));
    assert_eq!(ledger(&Config { file: Some("  ".to_string()) }, None, None), None);
    assert_eq!(ledger(&Config { file: None }, None, None), None);
}

#[test]
fn test_span_of_points_at_the_line() {
    let text = "# first\nfiel = 'x'\n";
    let mut map = SourceMap::new();
    let file = map.add(SourceFile::new("config".into(), text.into()));
    let span = span_of(text, file, 8..12);
    assert_eq!((span.line, span.start, span.end), (2, 0, 4));
}

#[test]
fn test_span_of_counts_bytes_and_stays_on_its_line() {
    let text = "é = 1\nab\n";
    let mut map = SourceMap::new();
    let file = map.add(SourceFile::new("config".into(), text.into()));
    // The range runs past the end of its line: it is cut there
    let span = span_of(text, file, 2..40);
    assert_eq!((span.line, span.start, span.end), (1, 2, 6));
    // An empty range is one column wide
    let span = span_of(text, file, 7..7);
    assert_eq!((span.line, span.start, span.end), (2, 0, 1));
    // A start past the end is kept at the end
    let span = span_of(text, file, 99..100);
    assert_eq!((span.line, span.start, span.end), (3, 0, 1));
}

#[test]
fn test_strings_survive_a_round_trip() {
    for value in [
        "~/books/main.ledr",
        r"C:\Users\me\books.ledr",
        "it's here",
        "quote \" and 'both' \\",
        "tab\there",
    ] {
        let text = with_file(None, value);
        let table: toml::Table = text.parse().unwrap();
        assert_eq!(table["file"].as_str(), Some(value));
    }
}
