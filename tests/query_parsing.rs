use chrome_bookmarks::query::{normalize_csv_terms, parse_query_and_folder_filters};
use chrome_bookmarks::workflow::{extract_domain, is_index_check_recent, workflow_actions};

#[test]
fn parse_query_extracts_inline_folder_filters() {
    let (query, folders) = parse_query_and_folder_filters("rust dir:work/project folder:tech");
    assert_eq!(query, "rust");
    assert_eq!(folders, vec!["work/project".to_string(), "tech".to_string()]);
}

#[test]
fn parse_query_keeps_regular_terms() {
    let (query, folders) = parse_query_and_folder_filters("rust async tokio");
    assert_eq!(query, "rust async tokio");
    assert!(folders.is_empty());
}

#[test]
fn normalize_csv_terms_dedupes_and_trims() {
    let terms = normalize_csv_terms(&vec![" work ", "work", "project", " "]);
    assert_eq!(terms, vec!["work".to_string(), "project".to_string()]);
}

#[test]
fn parse_query_extracts_hash_folder_filters() {
    let (query, folders) = parse_query_and_folder_filters("#work #project rust");
    assert_eq!(query, "rust");
    assert_eq!(folders, vec!["work".to_string(), "project".to_string()]);
}

#[test]
fn parse_query_supports_mixed_hash_and_plain_keywords() {
    let (query, folders) = parse_query_and_folder_filters("tokio #backend #docs async");
    assert_eq!(query, "tokio async");
    assert_eq!(folders, vec!["backend".to_string(), "docs".to_string()]);
}

#[test]
fn parse_query_merges_hash_and_inline_folder_filters() {
    let (query, folders) = parse_query_and_folder_filters("rust #work dir:project folder:docs #WORK");
    assert_eq!(query, "rust");
    assert_eq!(
        folders,
        vec!["work".to_string(), "project".to_string(), "docs".to_string()]
    );
}

#[test]
fn parse_query_ignores_empty_hash_token() {
    let (query, folders) = parse_query_and_folder_filters("# rust #");
    assert_eq!(query, "rust");
    assert!(folders.is_empty());
}

#[test]
fn parse_query_accepts_hash_comma_separated_folders() {
    let (query, folders) = parse_query_and_folder_filters("#work,project rust");
    assert_eq!(query, "rust");
    assert_eq!(folders, vec!["work".to_string(), "project".to_string()]);
}

#[test]
fn parse_query_accepts_path_and_in_markers() {
    let (query, folders) = parse_query_and_folder_filters("  path:a, b  in:c  x ");
    assert_eq!(query, "b x");
    assert_eq!(folders, vec!["a".to_string(), "c".to_string()]);
}

#[test]
fn workflow_actions_contains_core_entries() {
    let actions = workflow_actions();
    assert_eq!(actions.len(), 4);
    assert!(actions.iter().any(|action| action.arg == "action:refresh"));
    assert!(actions.iter().any(|action| action.arg == "action:stats"));
}

#[test]
fn index_check_recent_respects_ttl() {
    let now: u64 = 1_000_000;
    assert!(is_index_check_recent(now.saturating_sub(500), now));
    assert!(!is_index_check_recent(now.saturating_sub(10_000), now));
    assert!(is_index_check_recent(now + 5, now));
    assert!(is_index_check_recent(now - 2000, now));
    assert!(!is_index_check_recent(now - 2001, now));
}

#[test]
fn extract_domain_takes_host() {
    assert_eq!(extract_domain("https://rust-lang.org/learn"), "rust-lang.org");
    assert_eq!(extract_domain("example.com/path"), "example.com");
    assert_eq!(extract_domain("https://a.com"), "a.com");
}
