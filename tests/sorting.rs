use pathkit::{compare_paths_with_strategy, natural_sort, FileSortingSettings, SortStrategy};
use std::cmp::Ordering;

#[test]
fn test_compare_paths_with_sort_strategy() {
    let mut paths = vec![
        ("test_dirs/file10.txt", true),
        ("test_dirs/file2.txt", true),
        ("test_dirs/file1.txt", true),
        ("test_dirs", false),
    ];

    paths.sort_by(|&a, &b| compare_paths_with_strategy(a, b, SortStrategy::Lexicographical));
    assert_eq!(
        paths,
        vec![
            ("test_dirs", false),
            ("test_dirs/file1.txt", true),
            ("test_dirs/file10.txt", true),
            ("test_dirs/file2.txt", true),
        ]
    );

    paths.sort_by(|&a, &b| compare_paths_with_strategy(a, b, SortStrategy::Alphabetical));
    assert_eq!(
        paths,
        vec![
            ("test_dirs", false),
            ("test_dirs/file1.txt", true),
            ("test_dirs/file2.txt", true),
            ("test_dirs/file10.txt", true),
        ]
    );

    let mut complex_paths = vec![
        ("test_dirs/File-1.txt", true),
        ("test_dirs/file-10.txt", true),
        ("test_dirs/File-2.txt", true),
        ("test_dirs/file-20.txt", true),
        ("test_dirs", false),
    ];

    complex_paths
        .sort_by(|&a, &b| compare_paths_with_strategy(a, b, SortStrategy::Lexicographical));
    assert_eq!(
        complex_paths,
        vec![
            ("test_dirs", false),
            ("test_dirs/File-1.txt", true),
            ("test_dirs/file-10.txt", true),
            ("test_dirs/File-2.txt", true),
            ("test_dirs/file-20.txt", true),
        ]
    );

    complex_paths
        .sort_by(|&a, &b| compare_paths_with_strategy(a, b, SortStrategy::Alphabetical));
    assert_eq!(
        complex_paths,
        vec![
            ("test_dirs", false),
            ("test_dirs/File-1.txt", true),
            ("test_dirs/File-2.txt", true),
            ("test_dirs/file-10.txt", true),
            ("test_dirs/file-20.txt", true),
        ]
    );

    let mut nested_paths = vec![
        ("test_dirs/folder2/file.txt", true),
        ("test_dirs/folder10/file.txt", true),
        ("test_dirs/folder1/file.txt", true),
        ("test_dirs", false),
    ];

    nested_paths
        .sort_by(|&a, &b| compare_paths_with_strategy(a, b, SortStrategy::Lexicographical));
    assert_eq!(
        nested_paths,
        vec![
            ("test_dirs", false),
            ("test_dirs/folder1/file.txt", true),
            ("test_dirs/folder10/file.txt", true),
            ("test_dirs/folder2/file.txt", true),
        ]
    );

    nested_paths
        .sort_by(|&a, &b| compare_paths_with_strategy(a, b, SortStrategy::Alphabetical));
    assert_eq!(
        nested_paths,
        vec![
            ("test_dirs", false),
            ("test_dirs/folder1/file.txt", true),
            ("test_dirs/folder2/file.txt", true),
            ("test_dirs/folder10/file.txt", true),
        ]
    );
}

fn sorted(names: &[&'static str], strategy: SortStrategy) -> Vec<&'static str> {
    let mut v: Vec<(&str, bool)> = names.iter().map(|n| (*n, true)).collect();
    v.sort_by(|&a, &b| compare_paths_with_strategy(a, b, strategy));
    v.into_iter().map(|(n, _)| n).collect()
}

#[test]
fn alphabetical_sorts_numbers_by_value() {
    assert_eq!(
        sorted(&["file10.txt", "file2.txt", "file1.txt"], SortStrategy::Alphabetical),
        vec!["file1.txt", "file2.txt", "file10.txt"]
    );
}

#[test]
fn lexicographical_orders_by_numeric_prefix_only() {
    assert_eq!(
        sorted(&["file10.txt", "file2.txt", "file1.txt"], SortStrategy::Lexicographical),
        vec!["file1.txt", "file10.txt", "file2.txt"]
    );
    assert_eq!(
        sorted(&["10-a.txt", "2-b.txt", "1-c.txt"], SortStrategy::Lexicographical),
        vec!["1-c.txt", "2-b.txt", "10-a.txt"]
    );
}

#[test]
fn strategies_diverge_on_case() {
    assert_eq!(
        sorted(&["b.txt", "A.txt", "a.txt"], SortStrategy::Lexicographical),
        vec!["a.txt", "A.txt", "b.txt"]
    );
    assert_eq!(
        sorted(&["b.txt", "A.txt", "a.txt"], SortStrategy::Alphabetical),
        vec!["A.txt", "a.txt", "b.txt"]
    );
}

#[test]
fn directory_precedes_file_at_equal_depth() {
    for s in [SortStrategy::Lexicographical, SortStrategy::Alphabetical] {
        assert_eq!(
            compare_paths_with_strategy(("dir", false), ("dir/file.txt", true), s),
            Ordering::Less
        );
        assert_eq!(
            compare_paths_with_strategy(("a/zzz", false), ("a/aaa", true), s),
            Ordering::Less
        );
        assert_eq!(
            compare_paths_with_strategy(("a/aaa", true), ("a/zzz", false), s),
            Ordering::Greater
        );
    }
}

#[test]
fn compare_is_reflexive_and_antisymmetric() {
    let items = [
        ("a/b.txt", true),
        ("a/b.rs", true),
        ("a/b", false),
        ("a", false),
        ("/", false),
        ("./x", true),
        ("x01", true),
        ("x1", true),
    ];
    for s in [SortStrategy::Lexicographical, SortStrategy::Alphabetical] {
        for a in items {
            assert_eq!(compare_paths_with_strategy(a, a, s), Ordering::Equal);
            for b in items {
                assert_eq!(
                    compare_paths_with_strategy(a, b, s),
                    compare_paths_with_strategy(b, a, s).reverse()
                );
            }
        }
    }
}

#[test]
fn files_with_same_stem_order_by_extension() {
    assert_eq!(
        compare_paths_with_strategy(("a/b.rs", true), ("a/b.txt", true), SortStrategy::Alphabetical),
        Ordering::Less
    );
    assert_eq!(
        compare_paths_with_strategy(("b", true), ("b.c", true), SortStrategy::Lexicographical),
        Ordering::Less
    );
}

#[test]
fn shorter_path_sorts_first() {
    assert_eq!(
        compare_paths_with_strategy(("a/b", false), ("a/b/c", false), SortStrategy::Alphabetical),
        Ordering::Less
    );
    assert_eq!(
        compare_paths_with_strategy(("a//b/", false), ("a/b", false), SortStrategy::Alphabetical),
        Ordering::Equal
    );
}

#[test]
fn natural_sort_compares_digit_runs() {
    assert_eq!(natural_sort("1", "01"), Ordering::Less);
    assert_eq!(natural_sort("a2", "a10"), Ordering::Less);
    assert_eq!(natural_sort("a10b", "a10a"), Ordering::Greater);
    assert_eq!(natural_sort("abc", "abc"), Ordering::Equal);
    assert_eq!(natural_sort("ab", "abc"), Ordering::Less);
    assert_eq!(natural_sort("", ""), Ordering::Equal);
    assert_eq!(natural_sort("a9", "a/"), Ordering::Greater);
    assert_eq!(natural_sort("a9", "a:"), Ordering::Less);
    assert_eq!(
        natural_sort("v123456789012345678901234567890", "v123456789012345678901234567891"),
        Ordering::Less
    );
    assert_eq!(
        natural_sort("v99999999999999999999999", "v100000000000000000000000"),
        Ordering::Less
    );
}

#[test]
fn lexicographical_large_prefix_sorts_after_numbers() {
    assert_eq!(
        compare_paths_with_strategy(
            ("99999999999999999999x", true),
            ("5x", true),
            SortStrategy::Lexicographical
        ),
        Ordering::Greater
    );
}

#[test]
fn default_strategy_is_lexicographical() {
    assert_eq!(SortStrategy::default(), SortStrategy::Lexicographical);
    assert_eq!(
        FileSortingSettings::default(),
        FileSortingSettings {
            strategy: SortStrategy::Lexicographical
        }
    );
}
