use chrome_bookmarks::folder::{folder_filter_to_like_pattern, normalize_folder_filter};

#[test]
fn normalize_folder_filter_accepts_all_separators() {
    let segs = normalize_folder_filter("  Work\\Project > Rust | Docs/ ").unwrap();
    assert_eq!(segs, vec!["work", "project", "rust", "docs"]);
}

#[test]
fn normalize_folder_filter_without_segments_is_none() {
    assert!(normalize_folder_filter("").is_none());
    assert!(normalize_folder_filter(" / > | \\ ").is_none());
}

#[test]
fn like_pattern_escapes_wildcards() {
    assert_eq!(folder_filter_to_like_pattern("Work/Project").unwrap(), "%work%project%");
    assert_eq!(folder_filter_to_like_pattern("a_b%c").unwrap(), "%a\\_b\\%c%");
    assert!(folder_filter_to_like_pattern("///").is_none());
}
