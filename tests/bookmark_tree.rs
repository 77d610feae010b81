use chrome_bookmarks::bookmark::{cache_is_current, BookmarkCache, BookmarkNode, BookmarkRoots, ChromeBookmarks};

fn link(id: &str, name: &str, url: &str, date: &str) -> BookmarkNode {
    BookmarkNode {
        node_type: "url".to_string(),
        id: id.to_string(),
        name: name.to_string(),
        url: Some(url.to_string()),
        date_added: Some(date.to_string()),
        children: vec![],
    }
}

fn folder(id: &str, name: &str, children: Vec<BookmarkNode>) -> BookmarkNode {
    BookmarkNode {
        node_type: "folder".to_string(),
        id: id.to_string(),
        name: name.to_string(),
        url: None,
        date_added: None,
        children,
    }
}

#[test]
fn extract_all_bookmarks_builds_paths_and_lowercase() {
    let parsed = ChromeBookmarks {
        roots: BookmarkRoots {
            bookmark_bar: folder(
                "1",
                "Bookmark Bar",
                vec![
                    link("10", "Rust", "https://rust-lang.org", "1"),
                    folder("11", "Sub", vec![link("12", "Example", "https://example.com", "2")]),
                ],
            ),
            other: folder("2", "Other Bookmarks", vec![link("20", "Other", "https://other.com", "3")]),
            synced: None,
        },
    };
    let bookmarks = parsed.extract_all_bookmarks();
    assert_eq!(bookmarks.len(), 3);
    assert_eq!(bookmarks[0].name_lower, "rust");
    assert_eq!(bookmarks[0].url, "https://rust-lang.org");
    assert_eq!(bookmarks[1].folder_path.as_deref(), Some("书签栏/Bookmark Bar/Sub"));
    assert_eq!(bookmarks[1].folder_path_lower.as_deref(), Some("书签栏/bookmark bar/sub"));
    assert_eq!(bookmarks[2].folder_path.as_deref(), Some("其他书签/Other Bookmarks"));
}

#[test]
fn links_without_url_or_date_are_skipped() {
    let mut broken = link("5", "Broken", "https://x.com", "1");
    broken.date_added = None;
    let parsed = ChromeBookmarks {
        roots: BookmarkRoots {
            bookmark_bar: folder("1", "Bar", vec![broken]),
            other: folder("2", "Other", vec![]),
            synced: Some(folder("3", "Mobile", vec![link("30", "M", "https://m.com", "9")])),
        },
    };
    let bookmarks = parsed.extract_all_bookmarks();
    assert_eq!(bookmarks.len(), 1);
    assert_eq!(bookmarks[0].folder_path.as_deref(), Some("同步书签/Mobile"));
}

#[test]
fn bookmark_cache_paths_live_in_data_dir() {
    let cache = BookmarkCache::new("/tmp/data");
    assert_eq!(cache.cache_path, "/tmp/data/bookmarks_cache.json");
    assert_eq!(cache.mtime_path, "/tmp/data/bookmarks_mtime");
}

#[test]
fn cache_is_current_compares_trimmed_fingerprint() {
    assert!(cache_is_current(Some("12-34-/a\n"), "12-34-/a"));
    assert!(!cache_is_current(Some("12-35-/a"), "12-34-/a"));
    assert!(!cache_is_current(None, "12-34-/a"));
}
