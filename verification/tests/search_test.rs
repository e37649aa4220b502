use project_chooser::search::{pick_response, search_paths, SearchKind};

fn s(x: &str) -> String {
    x.to_string()
}

#[test]
fn full_search_ignores_case() {
    assert!(SearchKind::FULL.search("/home/x/MyCloudProj", "cloud"));
    assert!(SearchKind::FULL.search("/home/x/myproj", "HOME/X"));
    assert!(!SearchKind::FULL.search("/home/x/myproj", "cloudy"));
}

#[test]
fn basename_search_looks_at_last_component_only() {
    assert!(!SearchKind::BASENAME.search("/a/cloud/b", "cloud"));
    assert!(SearchKind::FULL.search("/a/cloud/b", "cloud"));
    assert!(SearchKind::BASENAME.search("/a/b/Cloudy/", "CLOUD"));
}

#[test]
fn empty_query_matches_every_path() {
    assert!(SearchKind::FULL.search("/a", ""));
    assert!(SearchKind::BASENAME.search("/a", ""));
}

#[test]
fn try_search_reports_paths_without_name() {
    assert_eq!(SearchKind::BASENAME.try_search("/", "a"), None);
    assert_eq!(SearchKind::BASENAME.try_search("/a/..", "a"), None);
    assert_eq!(SearchKind::FULL.try_search("/", "/"), Some(true));
    assert_eq!(SearchKind::BASENAME.try_search("/x/abc", "B"), Some(true));
}

#[test]
fn label_shows_full_path_or_name() {
    assert_eq!(SearchKind::FULL.label("/a/b"), Some(s("/a/b")));
    assert_eq!(SearchKind::BASENAME.label("/a/b"), Some(s("b")));
    assert_eq!(SearchKind::BASENAME.label("/"), None);
}

#[test]
fn search_paths_filters_in_order() {
    let paths = vec![s("/p/rust-cloud"), s("/p/web"), s("/cloud/x"), s("/p/Cloud")];
    assert_eq!(
        search_paths(&paths, SearchKind::FULL, "cloud"),
        Some(vec![s("/p/rust-cloud"), s("/cloud/x"), s("/p/Cloud")])
    );
    assert_eq!(
        search_paths(&paths, SearchKind::BASENAME, "cloud"),
        Some(vec![s("/p/rust-cloud"), s("/p/Cloud")])
    );
    assert_eq!(search_paths(&[s("/a"), s("/")], SearchKind::BASENAME, "a"), None);
    assert_eq!(search_paths(&[], SearchKind::BASENAME, "a"), Some(vec![]));
}

#[test]
fn pick_response_full_takes_answer_without_newline() {
    assert_eq!(
        pick_response(&[s("/x")], SearchKind::FULL, "/home/p\n"),
        Some(vec![s("/home/p")])
    );
    assert_eq!(pick_response(&[], SearchKind::FULL, ""), Some(vec![s("")]));
}

#[test]
fn pick_response_basename_finds_all_with_that_name() {
    let paths = vec![s("/a/proj"), s("/b/other"), s("/c/proj/")];
    assert_eq!(
        pick_response(&paths, SearchKind::BASENAME, "proj\n"),
        Some(vec![s("/a/proj"), s("/c/proj/")])
    );
    assert_eq!(pick_response(&[s("/")], SearchKind::BASENAME, "x\n"), None);
}

#[test]
fn search_ignores_ascii_case_of_path_and_query() {
    for (p, q) in [("/Home/Proj", "proj"), ("/home/proj", "PROJ"), ("/HOME/PROJ", "Home/p")] {
        assert!(SearchKind::FULL.search(p, q));
        assert!(SearchKind::BASENAME.search(p, &q.to_lowercase().replace("home/", "")));
    }
    assert!(!SearchKind::FULL.search("/Home/Proj", "PROJX"));
}

#[test]
fn shorter_query_still_matches() {
    assert!(SearchKind::FULL.search("/p/rust-cloud", "rust-cloud"));
    assert!(SearchKind::FULL.search("/p/rust-cloud", "t-cl"));
    assert!(SearchKind::BASENAME.search("/p/rust-cloud", "CLOUD"));
    assert!(SearchKind::BASENAME.search("/p/rust-cloud", "d"));
}

#[test]
fn basename_match_is_full_match() {
    for (p, q) in [("/a/Cloud", "cl"), ("/x/y/z/", "Z"), ("/p/rust-cloud", "ust")] {
        assert!(SearchKind::BASENAME.search(p, q));
        assert!(SearchKind::FULL.search(p, q));
    }
}
