//! Path utilities for an editor: positions written after a path
//! (`file.rs:12:5`), matching paths against glob patterns, natural and
//! numeric-prefix ordering of paths, and prefix handling on Unix paths.
pub mod components;
pub mod digits;
pub mod matcher;
pub mod natural;
pub mod order;
pub mod paths;
pub mod position;
pub mod sort;
pub mod text;

pub use matcher::{GlobError, PathMatcher};
pub use natural::natural_sort;
pub use paths::{compact_path, extension_or_hidden_file_name, SanitizedPath, StripPrefixError};
pub use position::{PathWithPosition, FILE_ROW_COLUMN_DELIMITER};
pub use sort::{compare_paths_with_strategy, FileSortingSettings, SortStrategy};
