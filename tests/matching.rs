use pathkit::PathMatcher;

#[test]
fn edge_of_glob() {
    let path = "/work/node_modules";
    let path_matcher = PathMatcher::new(&["**/node_modules/**".to_owned()]).unwrap();
    assert!(
        path_matcher.is_match(path),
        "Path matcher should match {path:?}"
    );
}

#[test]
fn project_search() {
    let path = "/Users/someonetoignore/work/zed/zed.dev/node_modules";
    let path_matcher = PathMatcher::new(&["**/node_modules/**".to_owned()]).unwrap();
    assert!(
        path_matcher.is_match(path),
        "Path matcher should match {path:?}"
    );
}

#[test]
fn directory_pattern_with_and_without_separator() {
    let m = PathMatcher::new(&["**/target/**".to_owned()]).unwrap();
    assert!(m.is_match("/repo/target"));
    assert!(m.is_match("/repo/target/"));
    assert!(m.is_match("/repo/target/debug/x"));
    assert!(!m.is_match("/repo/targets"));
}

#[test]
fn literal_prefix_and_suffix_match() {
    let m = PathMatcher::new(&["src".to_owned()]).unwrap();
    assert!(m.is_match("src/main.rs"));
    assert!(m.is_match("crates/src"));
    assert!(!m.is_match("lib/main.rs"));
}

#[test]
fn glob_matches_extension() {
    let m = PathMatcher::new(&["*.rs".to_owned(), "*.toml".to_owned()]).unwrap();
    assert!(m.is_match("a/b/c.rs"));
    assert!(m.is_match("Cargo.toml"));
    assert!(!m.is_match("README.md"));
}

#[test]
fn invalid_pattern_is_reported() {
    let err = PathMatcher::new(&["*.rs".to_owned(), "a[".to_owned(), "{".to_owned()]).unwrap_err();
    assert_eq!(err.glob, Some("a[".to_string()));
    assert!(!err.description.is_empty());
}

#[test]
fn sources_and_equality() {
    let a = PathMatcher::new(&["*.rs".to_owned(), "docs/**".to_owned()]).unwrap();
    let b = PathMatcher::new(&["*.rs".to_owned(), "docs/**".to_owned()]).unwrap();
    let c = PathMatcher::new(&["*.rs".to_owned()]).unwrap();
    assert_eq!(a.sources(), &["*.rs".to_string(), "docs/**".to_string()]);
    assert!(a == b);
    assert!(a != c);
    assert!(a.clone() == a);
    assert!(a.clone().is_match("docs/readme.md"));
    assert!(!a.clone().is_match("src/readme.md"));
}

#[test]
fn empty_matcher_matches_nothing() {
    let m = PathMatcher::default();
    assert!(m.sources().is_empty());
    assert!(!m.is_match("anything"));
    let n = PathMatcher::new(&[]).unwrap();
    assert!(!n.is_match("x"));
    assert!(m == n);
}
