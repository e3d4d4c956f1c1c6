use pathkit::{compact_path, extension_or_hidden_file_name, SanitizedPath, StripPrefixError};

#[test]
fn test_path_compact() {
    let home = dirs::home_dir().unwrap().to_string_lossy().to_string();
    let path = format!("{home}/some_file.txt");
    assert_eq!(compact_path(&path, &home), "~/some_file.txt");
}

#[test]
fn compact_leaves_other_paths() {
    assert_eq!(compact_path("/etc/hosts", "/home/me"), "/etc/hosts");
    assert_eq!(compact_path("/home/meme/x", "/home/me"), "/home/meme/x");
    assert_eq!(compact_path("/home/me", "/home/me"), "~/");
    assert_eq!(compact_path("/home/me//a/./b/", "/home/me/"), "~/a/./b");
}

#[test]
fn test_extension_or_hidden_file_name() {
    assert_eq!(extension_or_hidden_file_name("/a/b/c/file_name.rs"), Some("rs"));
    assert_eq!(extension_or_hidden_file_name("/a/b/c/file.name.rs"), Some("rs"));
    assert_eq!(extension_or_hidden_file_name("/a/b/c/long.file.name.rs"), Some("rs"));
    assert_eq!(extension_or_hidden_file_name("/a/b/c/.gitignore"), Some("gitignore"));
    assert_eq!(extension_or_hidden_file_name("/a/b/c/.eslintrc.js"), Some("eslintrc.js"));
}

#[test]
fn extension_or_hidden_file_name_edges() {
    assert_eq!(extension_or_hidden_file_name("/a/b/Makefile"), Some("Makefile"));
    assert_eq!(extension_or_hidden_file_name("/"), None);
    assert_eq!(extension_or_hidden_file_name("a/.."), None);
    assert_eq!(extension_or_hidden_file_name(""), None);
    assert_eq!(extension_or_hidden_file_name("dir/file.rs/"), Some("rs"));
}

#[test]
fn sanitized_path_text() {
    let p = SanitizedPath::from("/a/b/c.txt".to_string());
    assert_eq!(p.to_string(), "/a/b/c.txt");
    assert_eq!(p.to_glob_string(), "/a/b/c.txt");
    assert_eq!(p.as_path(), "/a/b/c.txt");
}

#[test]
fn sanitized_path_starts_with_whole_components() {
    let p = SanitizedPath("/a/bc/d".to_string());
    assert!(p.starts_with(&SanitizedPath("/a/bc".to_string())));
    assert!(p.starts_with(&SanitizedPath("/a//bc/".to_string())));
    assert!(!p.starts_with(&SanitizedPath("/a/b".to_string())));
    assert!(!p.starts_with(&SanitizedPath("a/bc".to_string())));
    assert!(p.starts_with(&SanitizedPath("".to_string())));
}

#[test]
fn sanitized_path_join() {
    let base = SanitizedPath("/a/b".to_string());
    assert_eq!(base.join(&SanitizedPath("c.txt".to_string())).0, "/a/b/c.txt");
    assert_eq!(base.join(&SanitizedPath("/etc".to_string())).0, "/etc");
    let slash = SanitizedPath("/a/".to_string());
    assert_eq!(slash.join(&SanitizedPath("c".to_string())).0, "/a/c");
    let empty = SanitizedPath("".to_string());
    assert_eq!(empty.join(&SanitizedPath("c".to_string())).0, "c");
}

#[test]
fn sanitized_path_strip_prefix() {
    let p = SanitizedPath("/a/b/c.txt".to_string());
    assert_eq!(p.strip_prefix(&SanitizedPath("/a".to_string())), Ok("b/c.txt"));
    assert_eq!(p.strip_prefix(&SanitizedPath("/a/b/c.txt".to_string())), Ok(""));
    assert_eq!(p.strip_prefix(&SanitizedPath("/x".to_string())), Err(StripPrefixError));
    assert_eq!(p.strip_prefix(&SanitizedPath("".to_string())), Ok("/a/b/c.txt"));
}
