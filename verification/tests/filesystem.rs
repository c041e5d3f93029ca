use ledr::parsing::filesystem::Filesystem;

#[test]
fn test_declare_file() {
    let mut filesystem = Filesystem::new();
    assert!(filesystem.declare_file("path/to/file").is_ok());
    assert!(filesystem.is_declared("path/to/file"));
    assert!(filesystem.declare_file("path/to/file").is_err());
}

#[test]
fn includes_resolve_against_the_including_file() {
    let fs = Filesystem::new();
    assert_eq!(fs.resolve_path("books/main.ledr", "2024.ledr"), "books/2024.ledr");
    assert_eq!(fs.resolve_path("main.ledr", "2024.ledr"), "2024.ledr");
    assert_eq!(fs.resolve_path("books/main.ledr", "/abs/x.ledr"), "/abs/x.ledr");
    assert_eq!(fs.resolve_path("/main.ledr", "x.ledr"), "/x.ledr");
}

#[test]
fn a_circle_of_includes_is_named() {
    let mut fs = Filesystem::new();
    fs.declare_file("a").unwrap();
    assert_eq!(fs.declare_file("a").unwrap_err(), "Circular file includes: a");
}
