use chrome_bookmarks::record::ChromeBookmark;
use chrome_bookmarks::searcher::BookmarkSearcher;
use chrome_bookmarks::store::TagManager;

fn bookmark(id: &str, name: &str, url: &str, folder: Option<&str>) -> ChromeBookmark {
    ChromeBookmark::new(
        id.to_string(),
        name.to_string(),
        url.to_string(),
        "0".to_string(),
        folder.map(|p| p.to_string()),
    )
}

fn result_ids(results: &[chrome_bookmarks::searcher::SearchResult]) -> Vec<String> {
    results.iter().map(|r| r.bookmark.id.clone()).collect()
}

#[test]
fn exact_search_ranks_full_match_first() {
    let manager = TagManager::new(true);
    let searcher = BookmarkSearcher::new();
    let bookmarks = vec![
        bookmark("1", "rust", "https://rust-lang.org", None),
        bookmark("2", "rust-lang", "https://example.com", None),
        bookmark("3", "other", "https://other.com", None),
    ];
    let results = searcher.search(&bookmarks, &manager, "rust", &[], &[], false, 10);
    assert_eq!(results.first().unwrap().bookmark.id, "1");
    assert_eq!(result_ids(&results), vec!["1", "2"]);
}

#[test]
fn search_filters_by_tags_and_limits() {
    let mut manager = TagManager::new(true);
    manager.add_tags("1", &vec!["work".into()]);
    manager.add_tags("2", &vec!["personal".into()]);
    let searcher = BookmarkSearcher::new();
    let bookmarks = vec![
        bookmark("1", "alpha", "https://a.com", None),
        bookmark("2", "beta", "https://b.com", None),
        bookmark("3", "gamma", "https://c.com", None),
    ];
    let results = searcher.search(&bookmarks, &manager, "", &vec!["work".into()], &[], false, 1);
    assert_eq!(results.len(), 1);
    assert_eq!(results[0].bookmark.id, "1");
}

#[test]
fn empty_query_returns_first_n_in_order() {
    let manager = TagManager::new(true);
    let searcher = BookmarkSearcher::new();
    let bookmarks = vec![
        bookmark("1", "one", "https://1.com", None),
        bookmark("2", "two", "https://2.com", None),
        bookmark("3", "three", "https://3.com", None),
    ];
    let results = searcher.search(&bookmarks, &manager, "", &[], &[], false, 2);
    assert_eq!(results.len(), 2);
    assert_eq!(results[0].bookmark.id, "1");
    assert_eq!(results[1].bookmark.id, "2");
}

#[test]
fn folder_filter_supports_hierarchy_matching() {
    let manager = TagManager::new(true);
    let searcher = BookmarkSearcher::new();
    let bookmarks = vec![
        bookmark("1", "rust doc", "https://doc.rust-lang.org", Some("书签栏/Work/Project/Rust")),
        bookmark("2", "music", "https://music.example", Some("书签栏/Play")),
    ];
    let results = searcher.search(&bookmarks, &manager, "", &[], &vec!["work/project".into()], false, 10);
    assert_eq!(results.len(), 1);
    assert_eq!(results[0].bookmark.id, "1");
}

#[test]
fn folder_filter_accepts_partial_segment() {
    let manager = TagManager::new(true);
    let searcher = BookmarkSearcher::new();
    let bookmarks = vec![
        bookmark("1", "rust doc", "https://doc.rust-lang.org", Some("书签栏/Work/Project/Rust")),
        bookmark("2", "music", "https://music.example", Some("书签栏/Play")),
    ];
    let results = searcher.search(&bookmarks, &manager, "", &[], &vec!["proj".into()], false, 10);
    assert_eq!(results.len(), 1);
    assert_eq!(results[0].bookmark.id, "1");
}

#[test]
fn folder_filter_needs_order_of_segments() {
    let manager = TagManager::new(true);
    let searcher = BookmarkSearcher::new();
    let bookmarks = vec![
        bookmark("1", "a", "https://a.com", Some("Root/Work/Project/Rust")),
        bookmark("2", "b", "https://b.com", Some("Root/Play")),
    ];
    let reversed = searcher.search(&bookmarks, &manager, "", &[], &vec!["project/work".into()], false, 10);
    assert!(reversed.is_empty());
    let none = searcher.search(&bookmarks, &manager, "", &[], &vec!["play/work".into()], false, 10);
    assert!(none.is_empty());
    let both = searcher.search(&bookmarks, &manager, "", &[], &vec!["root".into(), "ru".into()], false, 10);
    assert_eq!(result_ids(&both), vec!["1"]);
}

#[test]
fn equal_scores_keep_source_order() {
    let manager = TagManager::new(true);
    let searcher = BookmarkSearcher::new();
    let bookmarks = vec![
        bookmark("1", "zeta", "https://x.com/rust", None),
        bookmark("2", "rust", "https://r.org", None),
        bookmark("3", "alpha", "https://y.com/rust", None),
        bookmark("4", "beta", "https://z.com/rust", None),
    ];
    let results = searcher.search(&bookmarks, &manager, "rust", &[], &[], false, 3);
    assert_eq!(result_ids(&results), vec!["2", "1", "3"]);
    let all = searcher.search(&bookmarks, &manager, "RUST", &[], &[], false, 10);
    assert_eq!(result_ids(&all), vec!["2", "1", "3", "4"]);
}

#[test]
fn exact_scores_add_up_across_fields() {
    let manager = TagManager::new(true);
    let searcher = BookmarkSearcher::new();
    let bookmarks = vec![
        bookmark("1", "x", "https://a.com", Some("Docs/Rust")),
        bookmark("2", "my rust", "https://a.com", None),
        bookmark("3", "x", "https://rust.com", Some("rust")),
    ];
    let results = searcher.search(&bookmarks, &manager, "rust", &[], &[], false, 10);
    assert_eq!(result_ids(&results), vec!["2", "3", "1"]);
}

#[test]
fn zero_limit_returns_nothing() {
    let manager = TagManager::new(true);
    let searcher = BookmarkSearcher::new();
    let bookmarks = vec![bookmark("1", "rust", "https://rust-lang.org", None)];
    assert!(searcher.search(&bookmarks, &manager, "rust", &[], &[], false, 0).is_empty());
    assert!(searcher.search(&bookmarks, &manager, "", &[], &[], true, 0).is_empty());
}

#[test]
fn fuzzy_search_prefers_name_matches() {
    let manager = TagManager::new(true);
    let searcher = BookmarkSearcher::new();
    let bookmarks = vec![
        bookmark("1", "nothing", "https://example.com", None),
        bookmark("2", "rust book", "https://example.org", None),
        bookmark("3", "other", "https://rstbook.com", None),
    ];
    let results = searcher.search(&bookmarks, &manager, "rsbk", &[], &[], true, 10);
    assert_eq!(results.first().unwrap().bookmark.id, "2");
    assert!(result_ids(&results).iter().all(|id| id != "1"));
}
