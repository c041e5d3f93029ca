use ledr::parsing::loader::{resolve, Diagnostics, Found, Item, LoadError, Loader, Need, Overlay};
use ledr::syntax::source::SourceMap;
use std::collections::BTreeMap;
use std::path::{Component, Path, PathBuf};

/// A path with `.` and `..` worked out, as a file system would canonicalize it.
fn normalize(path: &Path) -> PathBuf {
    let mut out = PathBuf::new();
    for part in path.components() {
        match part {
            Component::CurDir => {},
            Component::ParentDir => {
                out.pop();
            },
            other => out.push(other.as_os_str()),
        }
    }
    out
}

/// Loads `root` from the given files, answering the loader as a file system
/// holding just those files would.
fn run(
    files: &[(&str, &str)],
    root: &str,
    overlay: Option<Overlay>,
) -> (Result<Vec<Item>, LoadError>, SourceMap) {
    let fs: BTreeMap<PathBuf, String> = files
        .iter()
        .map(|(p, t)| (normalize(Path::new(p)), t.to_string()))
        .collect();
    let overlay_file = overlay
        .as_ref()
        .map(|o| normalize(Path::new(&o.path)))
        .filter(|p| fs.contains_key(p))
        .map(|p| p.display().to_string());
    let (mut loader, mut need) = Loader::new(SourceMap::new(), root, overlay, overlay_file);
    loop {
        let path = match need {
            Need::Done(result) => return (result, loader.into_sources()),
            Need::Stdin => panic!("no standard input here"),
            Need::Root(p) => PathBuf::from(p),
            Need::Include { including, included, .. } => {
                let included = Path::new(&included);
                if included.is_absolute() {
                    included.to_path_buf()
                } else {
                    Path::new(&including)
                        .parent()
                        .unwrap_or(Path::new(""))
                        .join(included)
                }
            },
        };
        let canonical = normalize(&path);
        let found = match fs.get(&canonical) {
            Some(text) => Found::File {
                path: path.display().to_string(),
                canonical: canonical.display().to_string(),
                name: canonical
                    .file_name()
                    .map(|n| n.to_string_lossy().into_owned())
                    .unwrap_or_default(),
                text: text.clone(),
            },
            None => Found::Unreadable {
                path: path.display().to_string(),
                reason: "no such file".to_string(),
            },
        };
        need = loader.step(found);
    }
}

#[test]
fn test_includes_are_relative_to_including_file() {
    let files = [
        ("/d/main.ledr", "include sub/a.ledr\n"),
        ("/d/sub/a.ledr", "include b.ledr\n"),
        ("/d/sub/b.ledr", "# leaf\n"),
    ];
    let (result, sources) = run(&files, "/d/main.ledr", None);
    let items = result.unwrap();
    assert_eq!(sources.len(), 3);
    let ends = items
        .iter()
        .filter(|i| matches!(i, Item::EndOfFile(_)))
        .count();
    assert_eq!(ends, 3);
}

#[test]
fn test_circular_include_names_the_chain() {
    let files = [("/d/a.ledr", "include b.ledr\n"), ("/d/b.ledr", "include a.ledr\n")];
    let (result, _) = run(&files, "/d/a.ledr", None);
    let diagnostic = match result {
        Err(LoadError::One(d)) => d,
        _ => panic!("expected one diagnostic"),
    };
    assert_eq!(diagnostic.message, "Circular include");
    assert_eq!(diagnostic.notes, vec!["a.ledr → b.ledr → a.ledr"]);
    assert_eq!(diagnostic.span.unwrap().line, 1);
}

#[test]
fn test_diamond_include_is_reported_as_duplicate() {
    let files = [
        ("/d/a.ledr", "include b.ledr\ninclude c.ledr\n"),
        ("/d/b.ledr", "include d.ledr\n"),
        ("/d/c.ledr", "include d.ledr\n"),
        ("/d/d.ledr", "\n"),
    ];
    let (result, _) = run(&files, "/d/a.ledr", None);
    let diagnostic = match result {
        Err(LoadError::One(d)) => d,
        _ => panic!("expected one diagnostic"),
    };
    assert!(diagnostic.message.contains("more than once"));
    assert_eq!(diagnostic.notes, vec!["first included at /d/b.ledr:1"]);
}

#[test]
fn test_missing_file_names_the_file() {
    let (result, _) = run(&[], "/definitely/not/here.ledr", None);
    let error = result.unwrap_err();
    assert!(error.to_string().contains("/definitely/not/here.ledr"));
    assert!(error.to_string().contains("no such file"));
}

#[test]
fn test_collects_every_syntax_error() {
    let files = [("/d/a.ledr", "2024-13-01 x\n\n! 2024-01-01 acount A:B\n")];
    let (result, _) = run(&files, "/d/a.ledr", None);
    let all = match result {
        Err(LoadError::Many(all)) => all,
        _ => panic!("expected every syntax error"),
    };
    assert_eq!(all.0.len(), 2);
}

#[test]
fn test_overlay_is_appended() {
    let files = [("/d/a.ledr", "# no newline at end")];
    let overlay = Overlay {
        path: "/d/a.ledr".to_string(),
        appended: "\n\n2024-01-01 New\n".into(),
    };
    let (result, sources) = run(&files, "/d/a.ledr", Some(overlay));
    assert!(result.is_ok());
    let (_, file) = sources.files()[0];
    assert_eq!(file.text, "# no newline at end\n\n2024-01-01 New\n");
}

#[test]
fn test_overlay_must_land_in_the_ledger() {
    let files = [("/d/a.ledr", "\n"), ("/d/notes.txt", "\n")];
    let overlay = Overlay {
        path: "/d/notes.txt".to_string(),
        appended: "2024-01-01 New\n".into(),
    };
    let (result, _) = run(&files, "/d/a.ledr", Some(overlay));
    let error = result.unwrap_err();
    assert!(
        error.to_string().contains("isn't part of this ledger"),
        "{}",
        error.to_string()
    );
}

#[test]
fn unreadable_include_points_at_the_include() {
    let files = [("/d/a.ledr", "# top\ninclude gone.ledr\n")];
    let (result, _) = run(&files, "/d/a.ledr", None);
    let diagnostic = match result {
        Err(LoadError::One(d)) => d,
        _ => panic!("expected one diagnostic"),
    };
    assert_eq!(diagnostic.message, "Could not read `/d/gone.ledr`: no such file");
    assert_eq!(diagnostic.span.unwrap().line, 2);
    assert_eq!(
        diagnostic.help.as_deref(),
        Some("included paths are relative to the including file")
    );
}

#[test]
fn items_follow_include_order() {
    let files = [
        ("/d/a.ledr", "# one\ninclude b.ledr\n# three\n"),
        ("/d/b.ledr", "# two\n"),
    ];
    let (result, _) = run(&files, "/d/a.ledr", None);
    let items = result.unwrap();
    let shape: Vec<String> = items
        .iter()
        .map(|i| match i {
            Item::Line { file, number, .. } => format!("{}:{}", file.0, number),
            Item::EndOfFile(file) => format!("end {}", file.0),
        })
        .collect();
    assert_eq!(shape, vec!["0:1", "0:2", "1:1", "end 1", "0:3", "end 0"]);
    assert_eq!(items[0].span().unwrap().line, 1);
    assert!(items[3].span().is_none());
}

#[test]
fn errors_stop_at_the_limit() {
    let text = "2024-13-01 x\n".repeat(30);
    let files = [("/d/a.ledr", text.as_str())];
    let (result, _) = run(&files, "/d/a.ledr", None);
    let all = match result {
        Err(LoadError::Many(all)) => all,
        _ => panic!("expected every syntax error"),
    };
    assert_eq!(all.0.len(), 25);
}

#[test]
fn several_diagnostics_read_as_one_line() {
    let all = Diagnostics(vec![
        ledr::diagnostics::Diagnostic::error("first"),
        ledr::diagnostics::Diagnostic::error("second"),
    ]);
    assert_eq!(all.to_string(), "first; second");
}

#[test]
fn standard_input_stands_for_the_root() {
    let (mut loader, need) = Loader::new(SourceMap::new(), "-", None, None);
    assert!(matches!(need, Need::Stdin));
    match loader.step(Found::Stdin("# hi\n".to_string())) {
        Need::Done(Ok(items)) => assert_eq!(items.len(), 2),
        _ => panic!("expected the items"),
    }
    let sources = loader.into_sources();
    assert_eq!(sources.files()[0].1.path, "<stdin>");
}

#[test]
fn resolving_an_include() {
    assert_eq!(resolve("/d/main.ledr", "sub/a.ledr"), "/d/sub/a.ledr");
    assert_eq!(resolve("main.ledr", "a.ledr"), "a.ledr");
    assert_eq!(resolve("/d/main.ledr", "/e/b.ledr"), "/e/b.ledr");
    assert_eq!(resolve("/main.ledr", "b.ledr"), "/b.ledr");
}
