use chrome_bookmarks::fts::build_fts_query;
use chrome_bookmarks::browser::{
    browser_key_of, browser_sources, find_browser_source, is_chromium_profile_dir, normalize_browser_identifier,
    select_latest_bookmarks, source_cache_file_name,
};
use chrome_bookmarks::lookup::{merge_folder_filters, search_index, tag_list};
use chrome_bookmarks::record::ChromeBookmark;
use chrome_bookmarks::searcher::BookmarkSearcher;
use chrome_bookmarks::store::{RestoreError, TagManager};
use chrome_bookmarks::workflow::{build_subtitle, matching_actions, workflow_actions, AppError};

fn rec(id: &str, name: &str, url: &str, folder: Option<&str>) -> ChromeBookmark {
    ChromeBookmark::new(id.to_string(), name.to_string(), url.to_string(), "0".to_string(), folder.map(|f| f.to_string()))
}

fn strings(v: &[&str]) -> Vec<String> {
    v.iter().map(|s| s.to_string()).collect()
}

fn ids(v: &[ChromeBookmark]) -> Vec<String> {
    v.iter().map(|b| b.id.clone()).collect()
}

#[test]
fn browser_names_normalize_and_resolve() {
    assert_eq!(normalize_browser_identifier("  Google_Chrome "), "google-chrome");
    assert_eq!(normalize_browser_identifier("Opera GX"), "opera-gx");
    let sources = browser_sources();
    assert_eq!(find_browser_source(&sources, "msedge").map(|i| sources[i].key), Some("edge"));
    assert_eq!(find_browser_source(&sources, "netscape"), None);
    assert_eq!(browser_key_of(&sources, "Google_Chrome"), Some("chrome".to_string()));
    assert_eq!(browser_key_of(&sources, "Netscape"), Some("netscape".to_string()));
    assert_eq!(browser_key_of(&sources, " ALL "), None);
    assert_eq!(browser_key_of(&sources, "   "), None);
}

#[test]
fn profile_directories_are_recognised() {
    assert!(is_chromium_profile_dir("Default"));
    assert!(is_chromium_profile_dir("Profile 3"));
    assert!(is_chromium_profile_dir("Person 1"));
    assert!(is_chromium_profile_dir("Guest Profile"));
    assert!(!is_chromium_profile_dir("Crashpad"));
    assert!(!is_chromium_profile_dir("Profile"));
}

#[test]
fn source_cache_file_names_are_safe() {
    assert_eq!(source_cache_file_name(None), "bookmarks_source_path.json");
    assert_eq!(source_cache_file_name(Some("chrome")), "bookmarks_source_path.chrome.json");
    assert_eq!(source_cache_file_name(Some("a b/c")), "bookmarks_source_path.a_b_c.json");
}

#[test]
fn latest_candidate_wins_and_ties_keep_the_first() {
    assert_eq!(select_latest_bookmarks(&vec![]), None);
    assert_eq!(select_latest_bookmarks(&vec![(5, 10), (7, 1), (7, 1), (6, 99)]), Some(1));
    assert_eq!(select_latest_bookmarks(&vec![(5, 10), (5, 11)]), Some(1));
}

#[test]
fn actions_filter_by_keyword() {
    let all = workflow_actions();
    assert_eq!(matching_actions(&all, &[]).len(), 4);
    let refresh = matching_actions(&all, &strings(&[" REFRESH "]));
    assert_eq!(refresh.len(), 1);
    assert_eq!(refresh[0].arg, "action:refresh");
    let readme = matching_actions(&all, &strings(&["open", "readme"]));
    assert_eq!(readme.len(), 1);
    assert_eq!(readme[0].arg, "action:open_readme");
    assert!(matching_actions(&all, &strings(&["zzz"])).is_empty());
}

#[test]
fn subtitles_join_folders_and_domain() {
    assert_eq!(build_subtitle(&Some("Root//Work/".to_string()), "a.com"), "Root · Work  ·  a.com");
    assert_eq!(build_subtitle(&None, "a.com"), "a.com");
    assert_eq!(build_subtitle(&Some("/".to_string()), "a.com"), "a.com");
}

#[test]
fn error_messages_name_the_detail() {
    assert_eq!(AppError::DatabaseError("locked".to_string()).message(), "index database error: locked");
    assert_eq!(AppError::Other("x".to_string()).message(), "error: x");
}

#[test]
fn folder_option_and_inline_filters_merge() {
    let merged = merge_folder_filters(Some(" work, Docs ,work"), &strings(&["WORK", "play"]));
    assert_eq!(merged, vec!["work", "Docs", "play"]);
    assert_eq!(merge_folder_filters(None, &strings(&["a"])), vec!["a"]);
    assert_eq!(tag_list(Some(" a, ,b,a")), vec!["a", "b"]);
    assert!(tag_list(None).is_empty());
}

#[test]
fn search_index_picks_the_path_by_request_shape() {
    let mut store = TagManager::new(true);
    let records = vec![
        rec("1", "Rust Book", "https://doc.rust-lang.org", Some("Root/Work")),
        rec("2", "Trust me", "https://x.com", Some("Root/Play")),
        rec("3", "Go", "https://go.dev", Some("Root/Work")),
    ];
    store.replace_bookmarks(&records, "fp").expect("replace");
    let searcher = BookmarkSearcher::new();
    assert_eq!(ids(&search_index(&store, &searcher, "", &strings(&["work"]), false, 10)), vec!["1", "3"]);
    assert_eq!(ids(&search_index(&store, &searcher, "rust", &[], false, 10)), vec!["1"]);
    let mut plain = TagManager::new(false);
    plain.replace_bookmarks(&records, "fp").expect("replace");
    assert_eq!(ids(&search_index(&plain, &searcher, "rust", &[], false, 10)), vec!["1", "2"]);
}

#[test]
fn restore_checks_stored_contents() {
    let records = vec![rec("1", "A", "https://a.com", None)];
    let ok = TagManager::restore(&records, vec![("1".to_string(), "t".to_string())], Some("fp".to_string()), true)
        .expect("restore");
    assert_eq!(ok.get_tags("1"), vec!["t".to_string()]);
    assert!(!ok.bookmarks_need_refresh("fp"));
    assert_eq!(ok.tag_pairs(), vec![("1".to_string(), "t".to_string())]);
    assert_eq!(ok.fingerprint(), Some("fp".to_string()));
    let dup = vec![rec("1", "A", "https://a.com", None), rec("1", "B", "https://b.com", None)];
    assert_eq!(TagManager::restore(&dup, vec![], None, true).err(), Some(RestoreError::DuplicateId));
    let twice = vec![("1".to_string(), "t".to_string()), ("1".to_string(), "t".to_string())];
    assert_eq!(TagManager::restore(&records, twice, None, true).err(), Some(RestoreError::DuplicateTag));
    let blank = vec![("1".to_string(), String::new())];
    assert_eq!(TagManager::restore(&records, blank, None, true).err(), Some(RestoreError::EmptyTag));
}

#[test]
fn any_tag_query_and_suggestions() {
    let mut store = TagManager::new(true);
    store.add_tags("b", &strings(&["rust", "web"]));
    store.add_tags("a", &strings(&["web"]));
    store.add_tags("c", &strings(&["Rustacean"]));
    assert_eq!(store.find_bookmarks_by_any_tag(&strings(&["web", "none"])), vec!["a", "b"]);
    assert!(store.find_bookmarks_by_any_tag(&[]).is_empty());
    let searcher = BookmarkSearcher::new();
    let all = searcher.get_tag_suggestions(&store, "");
    assert_eq!(all[0], ("web".to_string(), 2));
    assert_eq!(all.len(), 3);
    let rust = searcher.get_tag_suggestions(&store, "RUST");
    assert_eq!(rust, vec![("Rustacean".to_string(), 1), ("rust".to_string(), 1)]);
}

#[test]
fn fts_query_keeps_cleaned_prefix_terms() {
    assert_eq!(build_fts_query("rust  c++ #!"), Some("rust* c*".to_string()));
    assert_eq!(build_fts_query("doc.rs my_lib"), Some("doc.rs* my_lib*".to_string()));
    assert_eq!(build_fts_query(" !! ?? "), None);
    assert_eq!(build_fts_query(""), None);
}

#[test]
fn text_search_matches_word_prefixes_only() {
    let mut store = TagManager::new(true);
    let records = vec![
        rec("1", "Rustacean guide", "https://a.com", None),
        rec("2", "Trusted", "https://b.com", None),
        rec("3", "Other", "https://c.com/rust-lang", Some("Lang")),
    ];
    store.replace_bookmarks(&records, "fp").expect("replace");
    let found = store.search_bookmarks_fts("Rust", &[], 10).expect("available");
    assert_eq!(ids(&found), vec!["1", "3"]);
    let both = store.search_bookmarks_fts("rust lang", &[], 10).expect("available");
    assert_eq!(ids(&both), vec!["3"]);
}
