use bit::artifacts::log::path_filter::{PathFilter, SharedTrie};

#[test]
fn trie_insert_and_contains_single_path() {
    let mut trie = SharedTrie::new();
    let path = vec!["src", "main", "rs"];
    trie.insert(&path);

    assert!(trie.contains(&path));
}

#[test]
fn trie_does_not_contain_nonexistent_path() {
    let mut trie = SharedTrie::new();
    let path = vec!["src", "main", "rs"];
    trie.insert(&path);

    assert!(!trie.contains(&["src", "lib", "rs"]));
    assert!(!trie.contains(&["docs", "README", "md"]));
}

#[test]
fn trie_does_not_match_partial_path() {
    let mut trie = SharedTrie::new();
    let path = vec!["src", "main", "rs"];
    trie.insert(&path);

    assert!(!trie.contains(&["src"]));
    assert!(!trie.contains(&["src", "main"]));
}

#[test]
fn trie_contains_multiple_paths() {
    let mut trie = SharedTrie::new();
    trie.insert(&["src", "main", "rs"]);
    trie.insert(&["src", "lib", "rs"]);
    trie.insert(&["tests", "integration", "rs"]);

    assert!(trie.contains(&["src", "main", "rs"]));
    assert!(trie.contains(&["src", "lib", "rs"]));
    assert!(trie.contains(&["tests", "integration", "rs"]));
}

#[test]
fn trie_handles_shared_prefixes() {
    let mut trie = SharedTrie::new();
    trie.insert(&["src", "utils", "helper", "rs"]);
    trie.insert(&["src", "utils", "config", "rs"]);
    trie.insert(&["src", "main", "rs"]);

    assert!(trie.contains(&["src", "utils", "helper", "rs"]));
    assert!(trie.contains(&["src", "utils", "config", "rs"]));
    assert!(trie.contains(&["src", "main", "rs"]));

    assert!(!trie.contains(&["src", "utils"]));
}

#[test]
fn trie_partly_contains_returns_true_when_matching() {
    let trie = SharedTrie::with_matching(true);

    assert!(trie.partly_contains(&"anything"));
    assert!(trie.partly_contains(&"src"));
}

#[test]
fn trie_partly_contains_checks_children() {
    let mut trie = SharedTrie::new();
    trie.insert(&["src", "main"]);

    assert!(trie.partly_contains(&"src"));
    assert!(!trie.partly_contains(&"docs"));
}

#[test]
fn trie_empty_path() {
    let mut trie = SharedTrie::new();
    let empty_path: Vec<&str> = vec![];
    trie.insert(&empty_path);

    assert!(trie.is_root_matching());
    assert!(trie.contains(&empty_path));
}

#[test]
fn trie_with_numeric_types() {
    let mut trie = SharedTrie::new();
    trie.insert(&[1, 2, 3]);
    trie.insert(&[1, 2, 4]);
    trie.insert(&[1, 5, 6]);

    assert!(trie.contains(&[1, 2, 3]));
    assert!(trie.contains(&[1, 2, 4]));
    assert!(trie.contains(&[1, 5, 6]));
    assert!(!trie.contains(&[1, 2]));
    assert!(!trie.contains(&[2, 3, 4]));
}

#[test]
fn path_filter_new_creates_trie_from_paths() {
    let paths = vec!["src/main.rs".to_string(), "src/lib.rs".to_string()];
    let filter = PathFilter::new(paths);

    assert_eq!(filter.path(), "");
}

#[test]
fn path_filter_matches_exact_file() {
    let paths = vec!["src/main.rs".to_string()];
    let filter = PathFilter::new(paths);

    let src = "src".to_string();
    let docs = "docs".to_string();
    let tests = "tests".to_string();
    let entries = vec![(&src, &1), (&docs, &2), (&tests, &3)];

    let filtered: Vec<_> = filter.filter_matching_entries(entries);

    assert_eq!(filtered.len(), 1);
    assert_eq!(filtered[0].0, "src");
}

#[test]
fn path_filter_matches_multiple_files() {
    let paths = vec!["src/main.rs".to_string(), "tests/test.rs".to_string()];
    let filter = PathFilter::new(paths);

    let src = "src".to_string();
    let docs = "docs".to_string();
    let tests = "tests".to_string();
    let entries = vec![(&src, &1), (&docs, &2), (&tests, &3)];

    let filtered: Vec<_> = filter.filter_matching_entries(entries);

    assert_eq!(filtered.len(), 2);
    assert!(filtered.iter().any(|(name, _)| name.as_str() == "src"));
    assert!(filtered.iter().any(|(name, _)| name.as_str() == "tests"));
}

#[test]
fn path_filter_filters_out_non_matching_entries() {
    let paths = vec!["src/main.rs".to_string()];
    let filter = PathFilter::new(paths);

    let docs = "docs".to_string();
    let config = "config".to_string();
    let entries = vec![(&docs, &1), (&config, &2)];

    let filtered: Vec<_> = filter.filter_matching_entries(entries);

    assert_eq!(filtered.len(), 0);
}

#[test]
fn path_filter_join_path_and_advance_updates_root() {
    let paths = vec!["src/utils/helper.rs".to_string()];
    let filter = PathFilter::new(paths);

    let advanced = filter.join_subpath_filter(&"src".to_string());

    assert_eq!(advanced.path(), "src");
}

#[test]
fn path_filter_join_path_and_advance_narrows_trie() {
    let paths = vec!["src/utils/helper.rs".to_string(), "src/main.rs".to_string()];
    let filter = PathFilter::new(paths);

    let filter_src = filter.join_subpath_filter(&"src".to_string());

    let utils = "utils".to_string();
    let main_rs = "main.rs".to_string();
    let lib_rs = "lib.rs".to_string();
    let entries = vec![(&utils, &1), (&main_rs, &2), (&lib_rs, &3)];

    let filtered: Vec<_> = filter_src.filter_matching_entries(entries);

    assert_eq!(filtered.len(), 2);
    assert!(filtered.iter().any(|(name, _)| name.as_str() == "utils"));
    assert!(filtered.iter().any(|(name, _)| name.as_str() == "main.rs"));
}

#[test]
fn path_filter_join_path_preserves_matching_state() {
    let paths = vec!["src".to_string()];
    let filter = PathFilter::new(paths);

    let filter_src = filter.join_subpath_filter(&"src".to_string());

    let main_rs = "main.rs".to_string();
    let lib_rs = "lib.rs".to_string();
    let utils = "utils".to_string();
    let entries = vec![(&main_rs, &1), (&lib_rs, &2), (&utils, &3)];

    let filtered: Vec<_> = filter_src
        .clone()
        .join_subpath_filter(&"anything".to_string())
        .filter_matching_entries(entries);

    assert_eq!(filtered.len(), 3);
}

#[test]
fn path_filter_with_directory_path() {
    let paths = vec!["src/utils".to_string()];
    let filter = PathFilter::new(paths);

    let src = "src".to_string();
    let docs = "docs".to_string();
    let entries = vec![(&src, &1), (&docs, &2)];

    let filtered: Vec<_> = filter.filter_matching_entries(entries);

    assert_eq!(filtered.len(), 1);
    assert_eq!(filtered[0].0, "src");
}

#[test]
fn path_filter_handles_nested_paths() {
    let paths = vec!["a/b/c/d.txt".to_string()];
    let filter = PathFilter::new(paths);

    let filter_a = filter.join_subpath_filter(&"a".to_string());
    assert_eq!(filter_a.path(), "a");

    let filter_b = filter_a.join_subpath_filter(&"b".to_string());
    assert_eq!(filter_b.path(), "a/b");

    let filter_c = filter_b.join_subpath_filter(&"c".to_string());
    assert_eq!(filter_c.path(), "a/b/c");

    let d_txt = "d.txt".to_string();
    let other_txt = "other.txt".to_string();
    let entries = vec![(&d_txt, &1), (&other_txt, &2)];

    let filtered: Vec<_> = filter_c.filter_matching_entries(entries);
    assert_eq!(filtered.len(), 1);
    assert_eq!(filtered[0].0, "d.txt");
}

#[test]
fn path_filter_empty_filter_list() {
    let paths: Vec<String> = vec![];
    let filter = PathFilter::new(paths);

    let src = "src".to_string();
    let docs = "docs".to_string();
    let entries = vec![(&src, &1), (&docs, &2)];

    let filtered: Vec<_> = filter.filter_matching_entries(entries);

    assert_eq!(filtered.len(), 0);
}

#[test]
fn path_filter_join_path_with_non_matching_path() {
    let paths = vec!["src/main.rs".to_string()];
    let filter = PathFilter::new(paths);

    let filter_docs = filter.join_subpath_filter(&"docs".to_string());

    let readme_md = "README.md".to_string();
    let guide_md = "guide.md".to_string();
    let entries = vec![(&readme_md, &1), (&guide_md, &2)];

    let filtered: Vec<_> = filter_docs.filter_matching_entries(entries);

    assert_eq!(filtered.len(), 0);
}

#[test]
fn empty_path_filter_lets_everything_through() {
    let filter = PathFilter::empty();
    let a = "a".to_string();
    let b = "b".to_string();
    let entries = vec![(&a, &1), (&b, &2)];
    assert_eq!(filter.filter_matching_entries(entries).len(), 2);
    assert!(filter.lets_through_exec(&"anything".to_string()));
}

#[test]
fn trie_subtrie_follows_one_key() {
    let mut trie = SharedTrie::new();
    trie.insert(&["a", "b"]);
    let sub = trie.subtrie(&"a");
    assert!(sub.contains(&["b"]));
    assert!(!sub.contains(&["a"]));
    let none = trie.subtrie(&"z");
    assert!(!none.contains(&["b"]));
}
