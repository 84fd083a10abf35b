use vive_file_viewer::search::{Entry, FileSearcher, Query, SearchResult, EXACT_SCORE};
use vive_file_viewer::text::split_anchor;

fn entry(display_path: &str, is_dir: bool) -> Entry {
    let name = display_path.rsplit('/').next().unwrap().to_string();
    Entry {
        path: format!("/root/{}", display_path).into_bytes(),
        display_path: display_path.to_string(),
        file_name: Some(name),
        is_dir,
    }
}

fn root_entry() -> Entry {
    Entry {
        path: b"/root".to_vec(),
        display_path: String::new(),
        file_name: Some("root".to_string()),
        is_dir: true,
    }
}

fn tree_a() -> Vec<Entry> {
    vec![
        root_entry(),
        entry("src", true),
        entry("src/search.rs", false),
        entry("src/main.rs", false),
        entry("tests", true),
        entry("tests/search_test.rs", false),
    ]
}

fn tree_d() -> Vec<Entry> {
    vec![
        root_entry(),
        entry("src", true),
        entry("src/config", true),
        entry("src/config.rs", false),
    ]
}

fn paths(rs: &[SearchResult]) -> Vec<&str> {
    rs.iter().map(|r| r.display_path.as_str()).collect()
}

fn non_increasing(rs: &[SearchResult]) -> bool {
    rs.windows(2).all(|w| w[0].score >= w[1].score)
}

#[test]
fn empty_query_finds_nothing() {
    let mut s = FileSearcher::new();
    for exact in [false, true] {
        for dir_only in [false, true] {
            assert!(s.search(&tree_a(), "", 10, dir_only, exact).is_empty());
        }
    }
}

#[test]
fn fuzzy_name_query_ranks_matching_files() {
    let mut s = FileSearcher::new();
    let r = s.search(&tree_a(), "search", 10, false, false);
    let mut found = paths(&r);
    found.sort();
    assert_eq!(found, vec!["src/search.rs", "tests/search_test.rs"]);
    assert!(non_increasing(&r));
    assert!(r.iter().all(|x| x.score > 0));
}

#[test]
fn exact_name_query_needs_whole_name() {
    let mut s = FileSearcher::new();
    assert!(s.search(&tree_a(), "search", 10, false, true).is_empty());
}

#[test]
fn exact_name_query_ignores_case() {
    let mut s = FileSearcher::new();
    let r = s.search(&tree_a(), "SEARCH.RS", 10, false, true);
    assert_eq!(paths(&r), vec!["src/search.rs"]);
    assert_eq!(r[0].score, EXACT_SCORE);
    assert_eq!(r[0].score, 1000);
    assert_eq!(r[0].path, b"/root/src/search.rs".to_vec());
    assert!(!r[0].is_dir);
}

#[test]
fn exact_path_query_checks_path_and_anchor() {
    let mut s = FileSearcher::new();
    let r = s.search(&tree_a(), "Src/Search.rs", 10, false, true);
    assert_eq!(paths(&r), vec!["src/search.rs"]);
    let r = s.search(&tree_a(), "tests/search.rs", 10, false, true);
    assert!(r.is_empty());
}

#[test]
fn fuzzy_path_query_keeps_only_path_hits() {
    let mut s = FileSearcher::new();
    let r = s.search(&tree_a(), "src/search", 10, false, false);
    assert_eq!(paths(&r), vec!["src/search.rs"]);
}

#[test]
fn fuzzy_path_query_anchor_filter() {
    let mut s = FileSearcher::new();
    let r = s.search(&tree_a(), "src/", 10, false, false);
    assert!(!r.is_empty());
    let r = s.search(&tree_a(), "s/main", 10, false, false);
    assert_eq!(paths(&r), vec!["src/main.rs"]);
    let r = s.search(&tree_a(), "src/mn", 10, false, false);
    assert!(r.is_empty());
}

#[test]
fn dir_only_returns_directories() {
    let mut s = FileSearcher::new();
    let r = s.search(&tree_d(), "config", 10, true, false);
    assert_eq!(paths(&r), vec!["src/config"]);
    assert!(r[0].is_dir);
    let r = s.search(&tree_d(), "config", 10, false, false);
    assert_eq!(r.len(), 2);
}

#[test]
fn max_results_keeps_the_best() {
    let mut s = FileSearcher::new();
    let all = s.search(&tree_a(), "search", 10, false, false);
    let one = s.search(&tree_a(), "search", 1, false, false);
    assert_eq!(one.len(), 1);
    assert_eq!(one[0].display_path, all[0].display_path);
    assert_eq!(one[0].score, all.iter().map(|x| x.score).max().unwrap());
    assert!(s.search(&tree_a(), "search", 0, false, false).is_empty());
}

#[test]
fn equal_scores_keep_walk_order() {
    let mut s = FileSearcher::new();
    let tree = vec![entry("a/x.rs", false), entry("b/x.rs", false), entry("c/x.rs", false)];
    let r = s.search(&tree, "x.rs", 10, false, true);
    assert_eq!(paths(&r), vec!["a/x.rs", "b/x.rs", "c/x.rs"]);
    let r = s.search(&tree, "x.rs", 2, false, true);
    assert_eq!(paths(&r), vec!["a/x.rs", "b/x.rs"]);
}

#[test]
fn entries_without_name_are_skipped() {
    let mut s = FileSearcher::new();
    let tree = vec![Entry {
        path: b"/".to_vec(),
        display_path: "x".to_string(),
        file_name: None,
        is_dir: true,
    }];
    assert!(s.search(&tree, "x", 10, false, false).is_empty());
}

#[test]
fn query_parse_splits_anchor() {
    let q = Query::parse("Src/Deep/Name.RS");
    assert!(q.is_path_query);
    assert_eq!(q.last_segment, "Name.RS");
    assert_eq!(q.raw_lower, "src/deep/name.rs");
    assert_eq!(q.last_segment_lower, "name.rs");
    let q = Query::parse("plain");
    assert!(!q.is_path_query);
    assert_eq!(q.last_segment, "plain");
    assert_eq!(split_anchor("a/"), (true, String::new()));
    assert_eq!(split_anchor("/é"), (true, "é".to_string()));
}

#[test]
fn non_utf8_path_is_kept_exactly() {
    let mut s = FileSearcher::new();
    let raw = vec![b'/', b'r', 0xff, b'/', b'n', b'.', b'r', b's'];
    let tree = vec![Entry {
        path: raw.clone(),
        display_path: "\u{fffd}/n.rs".to_string(),
        file_name: Some("n.rs".to_string()),
        is_dir: false,
    }];
    let r = s.search(&tree, "n.rs", 10, false, true);
    assert_eq!(r.len(), 1);
    assert_eq!(r[0].path, raw);
}
