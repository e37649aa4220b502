use project_chooser::cache::Cache;
use project_chooser::format::parse_entries;

fn s(x: &str) -> String {
    x.to_string()
}

fn entries(v: &[(u64, &str)]) -> Vec<(u64, String)> {
    v.iter().map(|&(f, p)| (f, p.to_string())).collect()
}

#[test]
fn cache_update_and_select_scenario() {
    let mut contents: Vec<String> = vec![s("path/1"), s("path/2/"), s("path/3")];
    let mut cache = Cache::new("test.cache");
    assert!(cache.entries.is_empty());

    cache.update(&contents);
    assert_eq!(cache.entries, entries(&[(0, "path/1"), (0, "path/2/"), (0, "path/3")]));

    cache.select(&contents[1]);
    cache.select(&contents[1]);
    cache.select(&contents[1]);
    assert_eq!(cache.entries, entries(&[(3, "path/2/"), (0, "path/1"), (0, "path/3")]));
    cache.select(&contents[0]);
    assert_eq!(cache.entries, entries(&[(1, "path/1"), (3, "path/2/"), (0, "path/3")]));

    contents.pop();
    cache.update(&contents);
    assert_eq!(cache.entries, entries(&[(1, "path/1"), (3, "path/2/")]));

    contents.push(s("path/4"));
    cache.update(&contents);
    assert_eq!(
        cache.entries,
        entries(&[(1, "path/1"), (3, "path/2/"), (0, "path/4")])
    );

    let found = cache.select("/path/to/select");
    assert!(!found);
    assert_eq!(cache.entries[0], (1, s("/path/to/select")));
    assert_eq!(cache.entries.len(), 4);
}

#[test]
fn new_cache_is_empty_and_keeps_its_file() {
    let cache = Cache::new("/tmp/x.cache");
    assert_eq!(cache.file, "/tmp/x.cache");
    assert!(cache.entries.is_empty());
}

#[test]
fn select_reports_whether_path_was_cached() {
    let mut cache = Cache::new("c");
    cache.entries = entries(&[(4, "/a"), (2, "/b")]);
    assert!(cache.select("/b"));
    assert_eq!(cache.entries, entries(&[(3, "/b"), (4, "/a")]));
    assert!(!cache.select("/c"));
    assert_eq!(cache.entries, entries(&[(1, "/c"), (3, "/b"), (4, "/a")]));
}

#[test]
fn select_matches_paths_as_paths() {
    let mut cache = Cache::new("c");
    cache.entries = entries(&[(4, "/a/b/"), (2, "/c")]);
    assert!(cache.select("/a//b"));
    assert_eq!(cache.entries, entries(&[(5, "/a/b/"), (2, "/c")]));
}

#[test]
fn select_only_moves_the_first_match() {
    let mut cache = Cache::new("c");
    cache.entries = entries(&[(1, "/x"), (2, "/a"), (3, "/a")]);
    cache.select("/a");
    assert_eq!(cache.entries, entries(&[(3, "/a"), (1, "/x"), (3, "/a")]));
}

#[test]
fn try_select_refuses_to_overflow() {
    let mut cache = Cache::new("c");
    cache.entries = vec![(u64::MAX, s("/a")), (7, s("/b"))];
    assert_eq!(cache.try_select("/a"), None);
    assert_eq!(cache.entries, vec![(u64::MAX, s("/a")), (7, s("/b"))]);
    assert_eq!(cache.try_select("/b"), Some(true));
    assert_eq!(cache.entries, vec![(8, s("/b")), (u64::MAX, s("/a"))]);
    assert_eq!(cache.try_select("/n"), Some(false));
    assert_eq!(cache.entries[0], (1, s("/n")));
}

#[test]
fn update_keeps_order_and_frequency_and_appends_new() {
    let mut cache = Cache::new("c");
    cache.entries = entries(&[(5, "/b"), (9, "/gone"), (2, "/a")]);
    cache.update(&[s("/a"), s("/new"), s("/b"), s("/new2")]);
    assert_eq!(
        cache.entries,
        entries(&[(5, "/b"), (2, "/a"), (0, "/new"), (0, "/new2")])
    );
}

#[test]
fn update_compares_paths_by_components() {
    let mut cache = Cache::new("c");
    cache.entries = entries(&[(5, "/p/q/")]);
    cache.update(&[s("/p/q")]);
    assert_eq!(cache.entries, entries(&[(5, "/p/q/")]));
}

#[test]
fn update_twice_changes_nothing_more() {
    let mut cache = Cache::new("c");
    cache.entries = entries(&[(5, "/b"), (9, "/gone"), (2, "/a")]);
    let list = vec![s("/a"), s("/new"), s("/b"), s("/new")];
    cache.update(&list);
    let once = cache.entries.clone();
    cache.update(&list);
    assert_eq!(cache.entries, once);
    assert_eq!(once, entries(&[(5, "/b"), (2, "/a"), (0, "/new"), (0, "/new")]));
}

#[test]
fn update_with_empty_list_empties_cache() {
    let mut cache = Cache::new("c");
    cache.entries = entries(&[(5, "/b")]);
    cache.update(&[]);
    assert!(cache.entries.is_empty());
}

#[test]
fn paths_lists_cached_paths_in_order() {
    let mut cache = Cache::new("c");
    cache.entries = entries(&[(5, "/b"), (2, "/a")]);
    assert_eq!(cache.paths(), vec![s("/b"), s("/a")]);
}

#[test]
fn save_text_writes_one_line_per_entry() {
    let mut cache = Cache::new("c");
    cache.entries = entries(&[(3, "/home/u/my project"), (0, "/x"), (18446744073709551615, "/max")]);
    assert_eq!(
        cache.save_text(),
        "3\t/home/u/my project\n0\t/x\n18446744073709551615\t/max\n"
    );
    assert_eq!(cache.entries.len(), 3);
    assert_eq!(Cache::new("c").save_text(), "");
}

#[test]
fn from_text_reads_entries() {
    let c = Cache::from_text("f", "5 /home/a\n 7\t/b c  \r\n010\t\t x\n");
    assert_eq!(c.file, "f");
    assert_eq!(c.entries, entries(&[(5, "/home/a"), (7, "/b c"), (10, "x")]));
}

#[test]
fn from_text_without_final_newline() {
    let c = Cache::from_text("f", "1 /a\n+2 /b");
    assert_eq!(c.entries, entries(&[(1, "/a"), (2, "/b")]));
}

#[test]
fn from_text_of_empty_text_is_empty() {
    let c = Cache::from_text("f", "");
    assert!(c.entries.is_empty());
}

#[test]
fn try_from_text_refuses_bad_lines() {
    assert!(Cache::try_from_text("f", "abc /x\n").is_none());
    assert!(Cache::try_from_text("f", "5\n").is_none());
    assert!(Cache::try_from_text("f", "\n").is_none());
    assert!(Cache::try_from_text("f", "1 /a\n\n2 /b\n").is_none());
    assert!(Cache::try_from_text("f", "-1 /a\n").is_none());
    assert!(Cache::try_from_text("f", "+ /a\n").is_none());
    assert!(Cache::try_from_text("f", "18446744073709551616 /a\n").is_none());
}

#[test]
fn saved_text_reads_back() {
    let mut cache = Cache::new("c");
    cache.entries = entries(&[(3, "/home/u/my project"), (0, "x"), (18446744073709551615, "/max")]);
    let text = cache.save_text();
    let back = Cache::from_text("c", &text);
    assert_eq!(back.entries, cache.entries);
}

#[test]
fn parse_entries_agrees_with_std_number_parsing() {
    for n in ["0", "42", "+9", "007", "18446744073709551615", "18446744073709551616", "1a", "", "+", "-0"] {
        let text = format!("{} /p", n);
        let expected = n.parse::<u64>().ok().map(|v| vec![(v, s("/p"))]);
        assert_eq!(parse_entries(&text), expected, "number {:?}", n);
    }
}

#[test]
fn selecting_a_new_path_k_times_counts_k() {
    let mut cache = Cache::new("c");
    cache.entries = entries(&[(4, "/a"), (2, "/b")]);
    for _ in 0..5 {
        cache.select("/new");
    }
    assert_eq!(cache.entries, entries(&[(5, "/new"), (4, "/a"), (2, "/b")]));
}

#[test]
fn update_with_distinct_paths_has_one_entry_per_listed_path() {
    let mut cache = Cache::new("c");
    cache.entries = entries(&[(5, "/b/"), (9, "/gone"), (2, "/a")]);
    let list = vec![s("/a"), s("/c"), s("/b"), s("/d")];
    cache.update(&list);
    assert_eq!(cache.entries.len(), list.len());
    assert_eq!(cache.entries, entries(&[(5, "/b/"), (2, "/a"), (0, "/c"), (0, "/d")]));
}

#[test]
fn select_keeps_paths_distinct() {
    let mut cache = Cache::new("c");
    cache.entries = entries(&[(4, "/a"), (2, "/b")]);
    cache.select("/b/");
    assert_eq!(cache.entries, entries(&[(3, "/b"), (4, "/a")]));
    cache.select("/c");
    assert_eq!(cache.entries, entries(&[(1, "/c"), (3, "/b"), (4, "/a")]));
}

#[test]
fn try_from_text_reads_good_text() {
    let c = Cache::try_from_text("f", "3 /a\n").unwrap();
    assert_eq!(c.file, "f");
    assert_eq!(c.entries, entries(&[(3, "/a")]));
}

#[test]
fn path_equivalence_accepts_any_paths() {
    project_chooser::cache::path_equivalence(&[s("/a/b/"), s("/a//b"), s("x"), s("")]);
}
