use chrome_bookmarks::index::BookmarkIndex;
use chrome_bookmarks::record::ChromeBookmark;
use chrome_bookmarks::store::{StoreError, TagManager};

fn sample_bookmark(id: &str, name: &str, url: &str, folder: Option<&str>) -> ChromeBookmark {
    ChromeBookmark::new(
        id.to_string(),
        name.to_string(),
        url.to_string(),
        "0".to_string(),
        folder.map(|p| p.to_string()),
    )
}

fn strings(v: &[&str]) -> Vec<String> {
    v.iter().map(|s| s.to_string()).collect()
}

fn ids(v: &[ChromeBookmark]) -> Vec<String> {
    v.iter().map(|b| b.id.clone()).collect()
}

#[test]
fn add_and_get_tags_normalizes_and_dedupes() {
    let mut manager = TagManager::new(true);
    let inserted = manager.add_tags("id-1", &strings(&[" rust ", "rust", "  ", "cli"]));
    assert_eq!(inserted, 2);
    let tags = manager.get_tags("id-1");
    assert_eq!(tags, vec!["cli".to_string(), "rust".to_string()]);
}

#[test]
fn find_bookmarks_by_tags_and_rename() {
    let mut manager = TagManager::new(true);
    manager.add_tags("id-1", &strings(&["work", "rust"]));
    manager.add_tags("id-2", &strings(&["work"]));
    let matches = manager.find_bookmarks_by_tags(&strings(&[" work ", "rust", "work"]));
    assert_eq!(matches, vec!["id-1".to_string()]);
    let updated = manager.rename_tag("work", "office");
    assert_eq!(updated, 2);
    let tags = manager.get_tags("id-2");
    assert_eq!(tags, vec!["office".to_string()]);
}

#[test]
fn get_tags_for_bookmarks_subset() {
    let mut manager = TagManager::new(true);
    manager.add_tags("id-1", &strings(&["a", "b"]));
    manager.add_tags("id-2", &strings(&["c"]));
    let map = manager.get_tags_for_bookmarks(&strings(&["id-2"]));
    let entry = map.iter().find(|(id, _)| id == "id-2").unwrap();
    assert_eq!(&entry.1, &vec!["c".to_string()]);
    assert!(map.iter().find(|(id, _)| id == "id-1").is_none());
}

#[test]
fn get_tag_count_returns_distinct_total() {
    let mut manager = TagManager::new(true);
    manager.add_tags("id-1", &strings(&["a", "b"]));
    manager.add_tags("id-2", &strings(&["b", "c"]));
    assert_eq!(manager.get_tag_count(), 3);
    assert_eq!(manager.get_bookmark_count(), 2);
    let all = manager.get_all_tags();
    assert_eq!(all, vec![("b".to_string(), 2), ("a".to_string(), 1), ("c".to_string(), 1)]);
    assert_eq!(
        manager.get_tag_counts_by_name(),
        vec![("a".to_string(), 1), ("b".to_string(), 2), ("c".to_string(), 1)]
    );
}

#[test]
fn tag_manager_replace_bookmarks_builds_index_and_searches() {
    let mut manager = TagManager::new(true);
    let bookmarks = vec![
        sample_bookmark("1", "Rust Lang", "https://rust-lang.org", Some("Root")),
        sample_bookmark("2", "Example", "https://example.com", None),
    ];
    manager.replace_bookmarks(&bookmarks, "fp-1").expect("replace");
    assert!(!manager.bookmarks_need_refresh("fp-1"));
    assert_eq!(manager.get_total_bookmarks(), 2);
    if manager.fts_enabled() {
        let results = manager.search_bookmarks_fts("rust", &[], 10).expect("fts results");
        assert_eq!(results.len(), 1);
        assert_eq!(results[0].id, "1");
    }
    let found = manager.get_bookmark_by_id_or_url("https://example.com");
    assert_eq!(found.unwrap().id, "2");
}

#[test]
fn index_db_replace_bookmarks_builds_index_and_searches() {
    let mut index = BookmarkIndex::new(true);
    let bookmarks = vec![
        sample_bookmark("1", "Rust Lang", "https://rust-lang.org", Some("Work/Docs")),
        sample_bookmark("2", "Example", "https://example.com", Some("Play/Read")),
    ];
    index.replace_bookmarks(&bookmarks, "fp-1").expect("replace");
    assert!(!index.bookmarks_need_refresh("fp-1"));
    assert_eq!(index.get_total_bookmarks(), 2);
    let found = index.search_bookmarks_fts("rust", 10).expect("enabled");
    assert_eq!(found.len(), 1);
    assert_eq!(found[0].id, "1");
}

#[test]
fn list_bookmarks_by_folder_filters_supports_hierarchy_like_matching() {
    let mut index = BookmarkIndex::new(true);
    let bookmarks = vec![
        sample_bookmark("1", "Rust", "https://rust-lang.org", Some("Root/Work/Project/Rust")),
        sample_bookmark("2", "Music", "https://music.example", Some("Root/Play")),
    ];
    index.replace_bookmarks(&bookmarks, "fp-1").expect("replace");
    let filtered = index.list_bookmarks_by_folder_filters(&strings(&["work/project"]), 20);
    assert_eq!(filtered.len(), 1);
    assert_eq!(filtered[0].id, "1");
    let partial = index.list_bookmarks_by_folder_filters(&strings(&["proj"]), 20);
    assert_eq!(ids(&partial), vec!["1".to_string()]);
}

#[test]
fn search_bookmarks_fts_with_folders_applies_filter() {
    let mut index = BookmarkIndex::new(true);
    let bookmarks = vec![
        sample_bookmark("1", "Rust Book", "https://doc.rust-lang.org", Some("Root/Work/Docs")),
        sample_bookmark("2", "Rust Game", "https://game.example", Some("Root/Play/Games")),
    ];
    index.replace_bookmarks(&bookmarks, "fp-1").expect("replace");
    let filtered = index.search_bookmarks_fts_with_folders("rust", &strings(&["work"]), 20).expect("enabled");
    assert_eq!(filtered.len(), 1);
    assert_eq!(filtered[0].id, "1");
}

#[test]
fn clear_bookmarks_index_resets_data() {
    let mut index = BookmarkIndex::new(true);
    let bookmarks = vec![sample_bookmark("1", "Rust", "https://rust-lang.org", Some("Root/Work"))];
    index.replace_bookmarks(&bookmarks, "fp-1").expect("replace");
    index.clear_bookmarks_index();
    assert_eq!(index.get_total_bookmarks(), 0);
    assert!(index.bookmarks_need_refresh("fp-1"));
}

#[test]
fn failed_replace_keeps_previous_records_and_fingerprint() {
    let mut manager = TagManager::new(true);
    let first = vec![sample_bookmark("1", "Rust", "https://rust-lang.org", None)];
    manager.replace_bookmarks(&first, "fp-1").expect("replace");
    let broken = vec![
        sample_bookmark("2", "A", "https://a.com", None),
        sample_bookmark("2", "B", "https://b.com", None),
    ];
    assert_eq!(manager.replace_bookmarks(&broken, "fp-2"), Err(StoreError::DuplicateId));
    assert_eq!(ids(&manager.load_all_bookmarks()), vec!["1".to_string()]);
    assert!(!manager.bookmarks_need_refresh("fp-1"));
    assert!(manager.bookmarks_need_refresh("fp-2"));
}

#[test]
fn replace_removes_orphaned_tags() {
    let mut manager = TagManager::new(true);
    let first = vec![
        sample_bookmark("1", "Rust", "https://rust-lang.org", None),
        sample_bookmark("2", "Go", "https://go.dev", None),
    ];
    manager.replace_bookmarks(&first, "fp-1").expect("replace");
    manager.add_tags("1", &strings(&["lang"]));
    manager.add_tags("2", &strings(&["lang"]));
    let second = vec![sample_bookmark("2", "Go", "https://go.dev", None)];
    manager.replace_bookmarks(&second, "fp-2").expect("replace");
    let map = manager.get_tags_for_bookmarks(&strings(&["1", "2"]));
    assert!(map.iter().find(|(id, _)| id == "1").is_none());
    assert_eq!(map.len(), 1);
    assert_eq!(manager.get_tags("2"), vec!["lang".to_string()]);
}

#[test]
fn tag_query_treats_repeats_as_one() {
    let mut manager = TagManager::new(true);
    manager.add_tags("a", &strings(&["work", "rust"]));
    manager.add_tags("b", &strings(&["work"]));
    manager.add_tags("c", &strings(&["rust"]));
    let found = manager.find_bookmarks_by_tags(&strings(&["work", "rust", "work"]));
    assert_eq!(found, vec!["a".to_string()]);
    assert!(manager.find_bookmarks_by_tags(&strings(&["  "])).is_empty());
}

#[test]
fn tagging_twice_adds_nothing_the_second_time() {
    let mut manager = TagManager::new(true);
    assert_eq!(manager.add_tags("x", &strings(&["a", "a", " "])), 1);
    assert_eq!(manager.add_tags("x", &strings(&["a", "a", " "])), 0);
    assert_eq!(manager.get_tags("x"), vec!["a".to_string()]);
}

#[test]
fn text_search_without_text_index_is_unavailable() {
    let mut manager = TagManager::new(false);
    let records = vec![sample_bookmark("1", "Rust", "https://rust-lang.org", None)];
    manager.replace_bookmarks(&records, "fp").expect("replace");
    assert!(manager.search_bookmarks_fts("nothing-matches", &[], 10).is_none());
    assert!(manager.search_bookmarks_fts("rust", &[], 10).is_none());
    let enabled = TagManager::new(true);
    assert_eq!(enabled.search_bookmarks_fts("zzz", &[], 10).map(|v| v.len()), Some(0));
    assert!(enabled.search_bookmarks_fts("  !! ", &[], 10).is_none());
}

#[test]
fn remove_tag_and_list_by_tags() {
    let mut manager = TagManager::new(true);
    let records = vec![
        sample_bookmark("1", "One", "https://1.com", None),
        sample_bookmark("2", "Two", "https://2.com", None),
    ];
    manager.replace_bookmarks(&records, "fp").expect("replace");
    manager.add_tags("1", &strings(&["x", "y"]));
    manager.add_tags("2", &strings(&["x"]));
    assert_eq!(ids(&manager.list_bookmarks_by_tags(&strings(&["x"]), 10)), vec!["1", "2"]);
    assert_eq!(ids(&manager.list_bookmarks_by_tags(&strings(&["x"]), 1)), vec!["1"]);
    manager.remove_tag("1", " x ");
    assert_eq!(manager.get_tags("1"), vec!["y".to_string()]);
    manager.remove_all_tags("1");
    assert!(manager.get_tags("1").is_empty());
    assert_eq!(ids(&manager.list_bookmarks(1)), vec!["1"]);
}
