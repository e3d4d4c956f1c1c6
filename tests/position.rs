use pathkit::PathWithPosition;

fn pwp(path: &str, row: Option<u32>, column: Option<u32>) -> PathWithPosition {
    PathWithPosition {
        path: path.to_string(),
        row,
        column,
    }
}

#[test]
fn path_with_position_parse_posix_path() {
    assert_eq!(
        PathWithPosition::parse_str(" test_file"),
        pwp("test_file", None, None)
    );
    assert_eq!(
        PathWithPosition::parse_str("a:bc:.zip:1"),
        pwp("a:bc:.zip", Some(1), None)
    );
    assert_eq!(
        PathWithPosition::parse_str("one.second.zip:1"),
        pwp("one.second.zip", Some(1), None)
    );
    assert_eq!(
        PathWithPosition::parse_str("test_file:10:1:"),
        pwp("test_file", Some(10), Some(1))
    );
    assert_eq!(
        PathWithPosition::parse_str("test_file.rs:"),
        pwp("test_file.rs", None, None)
    );
    assert_eq!(
        PathWithPosition::parse_str("test_file.rs:1:"),
        pwp("test_file.rs", Some(1), None)
    );
}

#[test]
fn path_with_position_parse_posix_path_with_suffix() {
    assert_eq!(
        PathWithPosition::parse_str("app-editors:zed-0.143.6:20240710-201212.log:34:"),
        pwp("app-editors:zed-0.143.6:20240710-201212.log", Some(34), None)
    );
    assert_eq!(
        PathWithPosition::parse_str("crates/file_finder/src/file_finder.rs:1902:13:"),
        pwp("crates/file_finder/src/file_finder.rs", Some(1902), Some(13))
    );
    assert_eq!(
        PathWithPosition::parse_str("crate/utils/src/test:today.log:34"),
        pwp("crate/utils/src/test:today.log", Some(34), None)
    );
}

#[test]
fn path_with_position_parse_windows_path() {
    assert_eq!(
        PathWithPosition::parse_str("crates\\utils\\paths.rs"),
        pwp("crates\\utils\\paths.rs", None, None)
    );
    assert_eq!(
        PathWithPosition::parse_str("C:\\Users\\someone\\test_file.rs"),
        pwp("C:\\Users\\someone\\test_file.rs", None, None)
    );
}

#[test]
fn parse_row_and_column() {
    assert_eq!(
        PathWithPosition::parse_str("test_file.rs:1:2"),
        pwp("test_file.rs", Some(1), Some(2))
    );
}

#[test]
fn parse_takes_only_the_final_suffix() {
    assert_eq!(
        PathWithPosition::parse_str("test_file.rs:1::2"),
        pwp("test_file.rs:1", Some(2), None)
    );
    assert_eq!(
        PathWithPosition::parse_str("test_file.rs:1:2:3"),
        pwp("test_file.rs:1", Some(2), Some(3))
    );
}

#[test]
fn parse_keeps_inner_colons() {
    assert_eq!(
        PathWithPosition::parse_str("a:bc:.zip:1"),
        pwp("a:bc:.zip", Some(1), None)
    );
}

#[test]
fn parse_documented_examples() {
    assert_eq!(PathWithPosition::parse_str("test_file"), pwp("test_file", None, None));
    assert_eq!(PathWithPosition::parse_str("test_file:10"), pwp("test_file", Some(10), None));
    assert_eq!(PathWithPosition::parse_str("test_file.rs"), pwp("test_file.rs", None, None));
    assert_eq!(PathWithPosition::parse_str("test_file.rs:1"), pwp("test_file.rs", Some(1), None));
    assert_eq!(PathWithPosition::parse_str("test_file.rs:a"), pwp("test_file.rs:a", None, None));
    assert_eq!(PathWithPosition::parse_str("test_file.rs:a:b"), pwp("test_file.rs:a:b", None, None));
    assert_eq!(PathWithPosition::parse_str("test_file.rs::"), pwp("test_file.rs", None, None));
    assert_eq!(PathWithPosition::parse_str("test_file.rs::1"), pwp("test_file.rs", Some(1), None));
    assert_eq!(PathWithPosition::parse_str("test_file.rs:1::"), pwp("test_file.rs", Some(1), None));
    assert_eq!(PathWithPosition::parse_str("test_file.rs::1:2"), pwp("test_file.rs", Some(1), Some(2)));
}

#[test]
fn parse_parenthesized_position() {
    assert_eq!(
        PathWithPosition::parse_str("src/main.rs(12,5)"),
        pwp("src/main.rs", Some(12), Some(5))
    );
    assert_eq!(PathWithPosition::parse_str("main.rs(7)"), pwp("main.rs", Some(7), None));
    assert_eq!(PathWithPosition::parse_str("main.rs(7):"), pwp("main.rs", Some(7), None));
    assert_eq!(PathWithPosition::parse_str("main.rs(x)"), pwp("main.rs(x)", None, None));
}

#[test]
fn parse_without_file_name_keeps_input() {
    assert_eq!(PathWithPosition::parse_str(""), pwp("", None, None));
    assert_eq!(PathWithPosition::parse_str(" / "), pwp(" / ", None, None));
    assert_eq!(PathWithPosition::parse_str("a/.."), pwp("a/..", None, None));
}

#[test]
fn parse_row_too_large_keeps_suffix() {
    assert_eq!(
        PathWithPosition::parse_str("file.rs:4294967296"),
        pwp("file.rs:4294967296", None, None)
    );
    assert_eq!(
        PathWithPosition::parse_str("file.rs:4294967295"),
        pwp("file.rs", Some(4294967295), None)
    );
}

#[test]
fn parse_column_too_large_is_dropped() {
    assert_eq!(
        PathWithPosition::parse_str("file.rs:3:99999999999"),
        pwp("file.rs", Some(3), None)
    );
}

#[test]
fn parse_trims_white_space() {
    assert_eq!(
        PathWithPosition::parse_str("\t main.rs:3 \n"),
        pwp("main.rs", Some(3), None)
    );
}

#[test]
fn round_trip_without_suffix() {
    for p in ["test_file.rs", "dir/sub/file", "a:b.txt", "weird(name).rs", "/abs/path/"] {
        let parsed = PathWithPosition::parse_str(p);
        assert_eq!(parsed, pwp(p, None, None));
        assert_eq!(parsed.to_string(|path: &String| path.clone()), p);
    }
}

#[test]
fn to_string_renders_position() {
    let full = pwp("src/lib.rs", Some(12), Some(5));
    assert_eq!(full.to_string(|p: &String| p.clone()), "src/lib.rs:12:5");
    let row = pwp("src/lib.rs", Some(120), None);
    assert_eq!(row.to_string(|p: &String| p.clone()), "src/lib.rs:120");
    let none = pwp("src/lib.rs", None, None);
    assert_eq!(none.to_string(|p: &String| format!("<{p}>")), "<src/lib.rs>");
    let zero = pwp("x", Some(0), Some(4294967295));
    assert_eq!(zero.to_string(|p: &String| p.clone()), "x:0:4294967295");
}

#[test]
fn from_path_has_no_position() {
    assert_eq!(
        PathWithPosition::from_path("a/b.rs".to_string()),
        pwp("a/b.rs", None, None)
    );
}

#[test]
fn map_path_keeps_position() {
    let p = pwp("a.rs", Some(3), Some(4));
    let mapped: Result<PathWithPosition, String> =
        p.clone().map_path(|path| Ok(format!("root/{path}")));
    assert_eq!(mapped, Ok(pwp("root/a.rs", Some(3), Some(4))));
    let failed: Result<PathWithPosition, String> = p.map_path(|_| Err("no".to_string()));
    assert_eq!(failed, Err("no".to_string()));
}

#[test]
fn delimiter_is_colon() {
    assert_eq!(pathkit::FILE_ROW_COLUMN_DELIMITER, ':');
}

#[test]
fn backslash_paths_with_suffix_under_unix_rules() {
    assert_eq!(
        PathWithPosition::parse_str("crates\\utils\\paths.rs:101"),
        pwp("crates\\utils\\paths.rs", Some(101), None)
    );
    assert_eq!(
        PathWithPosition::parse_str("\\\\?\\C:\\Users\\someone\\test_file.rs:1:20"),
        pwp("\\\\?\\C:\\Users\\someone\\test_file.rs", Some(1), Some(20))
    );
    assert_eq!(
        PathWithPosition::parse_str("C:\\Users\\someone\\test_file.rs(1902,13)"),
        pwp("C:\\Users\\someone\\test_file.rs", Some(1902), Some(13))
    );
    assert_eq!(
        PathWithPosition::parse_str("\\\\?\\C:\\Users\\someone\\test_file.rs:1902:13:15:"),
        pwp("\\\\?\\C:\\Users\\someone\\test_file.rs:1902", Some(13), Some(15))
    );
    assert_eq!(
        PathWithPosition::parse_str("\\\\?\\C:\\Users\\someone\\test_file.rs:1902:::15:"),
        pwp("\\\\?\\C:\\Users\\someone\\test_file.rs:1902", Some(15), None)
    );
    assert_eq!(
        PathWithPosition::parse_str("C:\\Users\\someone\\test_file.rs(1902):"),
        pwp("C:\\Users\\someone\\test_file.rs", Some(1902), None)
    );
}

#[test]
fn line_break_in_name_cuts_before_it() {
    assert_eq!(PathWithPosition::parse_str("x\ny"), pwp("x", None, None));
}
