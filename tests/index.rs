use file_search::entries::collect_entries;
use file_search::rank::{identity, order_by_score};
use file_search::search::FileSearch;
use file_search::walker::{collect_files, order_listing, scan_entries, DirItem, DirListing, RawEntry};

fn raw(path: &str, is_dir: bool) -> RawEntry {
    RawEntry {
        parts: path.split('/').map(|s| s.to_string()).collect(),
        is_dir,
        is_file: !is_dir,
    }
}

fn item(name: &str, is_dir: bool) -> DirItem {
    DirItem { name: name.to_string(), is_dir }
}

fn sample_tree() -> Vec<RawEntry> {
    vec![raw("a", true), raw("a/c.txt", false), raw(".hidden", false), raw("a/b.txt", false)]
}

fn root_items() -> Vec<DirItem> {
    vec![item("a", true), item(".hidden", false)]
}

fn paths(entries: &[file_search::walker::WalkEntry]) -> Vec<String> {
    entries.iter().map(|e| e.path.clone()).collect()
}

#[test]
fn walker_scenario_hidden_off_and_on() {
    let scan = sample_tree();
    let off = scan_entries(&scan, false);
    assert_eq!(paths(&off), vec!["a", "a/b.txt", "a/c.txt"]);
    assert!(off[0].is_dir);
    assert!(!off[1].is_dir);
    let on = scan_entries(&scan, true);
    assert_eq!(paths(&on), vec![".hidden", "a", "a/b.txt", "a/c.txt"]);
}

#[test]
fn walker_excludes_vcs_directory_always() {
    let scan = vec![
        raw(".git", true),
        raw(".git/config", false),
        raw("src/.git/x", false),
        raw("src/main.rs", false),
        raw(".cache/y", false),
    ];
    assert_eq!(collect_files(&scan, true), vec![".cache/y", "src/main.rs"]);
    assert_eq!(collect_files(&scan, false), vec!["src/main.rs"]);
}

#[test]
fn walker_excludes_hidden_components_anywhere() {
    let scan = vec![raw("a/.b/c.txt", false), raw("a/b/.c", false), raw("a/b/c", false)];
    assert_eq!(collect_files(&scan, false), vec!["a/b/c"]);
    assert_eq!(collect_files(&scan, true), vec!["a/.b/c.txt", "a/b/.c", "a/b/c"]);
}

#[test]
fn collect_files_keeps_files_only_sorted_by_path_string() {
    let scan = vec![raw("b", false), raw("a-b", false), raw("a", true), raw("a/b", false), raw("B", false)];
    assert_eq!(collect_files(&scan, false), vec!["B", "a-b", "a/b", "b"]);
}

#[test]
fn collect_files_of_empty_walk_is_empty() {
    assert!(collect_files(&Vec::new(), true).is_empty());
}

#[test]
fn listing_puts_directories_first_case_insensitively() {
    let items = vec![item("b.txt", false), item("Zeta", true), item("alpha", true), item("A.txt", false), item(".git", true)];
    let names: Vec<String> = order_listing(&items, true).into_iter().map(|d| d.name).collect();
    assert_eq!(names, vec!["alpha", "Zeta", "A.txt", "b.txt"]);
}

#[test]
fn listing_order_uses_lower_case_names() {
    // In code-point order "B" comes before "a"; lower-cased it comes after.
    let items = vec![item("B", false), item("a", false)];
    let names: Vec<String> = order_listing(&items, false).into_iter().map(|d| d.name).collect();
    assert_eq!(names, vec!["a", "B"]);
}

#[test]
fn scores_order_descending_and_skip_non_matches() {
    let r = order_by_score(&vec![Some(3), None, Some(7), Some(3), Some(0)]);
    assert_eq!(r.len(), 4);
    assert_eq!(r[0], (2, 7));
    assert!(r[1].1 == 3 && r[2].1 == 3);
    assert_eq!(r[3], (4, 0));
    let mut idx: Vec<usize> = r.iter().map(|m| m.0).collect();
    idx.sort();
    assert_eq!(idx, vec![0, 2, 3, 4]);
}

#[test]
fn scores_all_missing_give_no_matches() {
    assert!(order_by_score(&vec![None, None]).is_empty());
}

#[test]
fn identity_matches_have_score_zero() {
    assert_eq!(identity(3), vec![(0, 0), (1, 0), (2, 0)]);
}

fn scenario_search(show: bool) -> FileSearch {
    let scan = sample_tree();
    let mut s = FileSearch::new("/root".to_string(), &scan, &root_items());
    if !show {
        let listings = vec![DirListing { path: vec![], items: root_items() }];
        s.toggle_hidden(&scan, &listings);
    }
    s
}

#[test]
fn query_b_has_single_match() {
    let mut s = scenario_search(false);
    s.update_query(&"b".to_string());
    assert!(s.search_active);
    assert_eq!(s.match_count(), 1);
    let (p, _) = s.match_path_at(0).unwrap();
    assert_eq!(p, "a/b.txt");
    assert_eq!(s.get_match(0), Some("a/b.txt".to_string()));
    assert!(s.match_path_at(1).is_none());
}

#[test]
fn empty_query_is_identity_in_file_order() {
    let mut s = scenario_search(true);
    s.update_query(&"b".to_string());
    s.update_query(&String::new());
    assert!(!s.search_active);
    let mut got = Vec::new();
    let mut i = 0;
    while let Some((p, score)) = s.match_path_at(i) {
        assert_eq!(score, 0);
        got.push(p.clone());
        i += 1;
    }
    assert_eq!(got, vec![".hidden", "a/b.txt", "a/c.txt"]);
}

#[test]
fn fuzzy_ranking_is_non_increasing() {
    let scan = vec![raw("src/main.rs", false), raw("docs/manual.md", false), raw("mainframe/a", false), raw("zzz", false)];
    let mut s = FileSearch::new("/r".to_string(), &scan, &Vec::new());
    s.update_query(&"main".to_string());
    let n = s.match_count();
    assert!(n >= 2);
    let scores: Vec<u32> = (0..n).map(|i| s.match_path_at(i).unwrap().1).collect();
    for w in scores.windows(2) {
        assert!(w[0] >= w[1]);
    }
    let names: Vec<String> = (0..n).map(|i| s.match_path_at(i).unwrap().0.clone()).collect();
    assert!(!names.contains(&"zzz".to_string()));
}

#[test]
fn deferred_search_takes_index_later() {
    let mut s = FileSearch::new_deferred("/r".to_string(), &root_items());
    assert!(s.indexing);
    assert_eq!(s.match_path_at(0), None);
    s.apply_index(vec!["a/b.txt".to_string(), "a/c.txt".to_string()]);
    assert!(!s.indexing);
    assert_eq!(s.match_path_at(1).map(|(p, sc)| (p.clone(), sc)), Some(("a/c.txt".to_string(), 0)));
}

#[test]
fn refresh_after_rename_replaces_index() {
    let mut s = scenario_search(false);
    let renamed = vec![raw("a", true), raw("a/b.txt", false), raw("a/d.txt", false), raw(".hidden", false)];
    let listings = vec![DirListing { path: vec![], items: root_items() }];
    s.refresh(&renamed, &listings);
    s.update_query(&String::new());
    let files: Vec<String> = (0..2).map(|i| s.match_path_at(i).unwrap().0.clone()).collect();
    assert_eq!(files, vec!["a/b.txt", "a/d.txt"]);
    assert!(s.match_path_at(2).is_none());
}

#[test]
fn outline_adds_parent_directories_once_in_tree_order() {
    let scan = vec![
        raw("a/b.txt", false),
        raw("a/C", true),
        raw("d.txt", false),
        raw("a/C/e.txt", false),
        raw("a/.x/f", false),
    ];
    let (files, entries) = collect_entries(&scan, false);
    assert_eq!(files, vec!["a/C/e.txt", "a/b.txt", "d.txt"]);
    let rows: Vec<(String, bool, usize)> = entries.iter().map(|e| (e.path.join("/"), e.is_dir, e.depth)).collect();
    assert_eq!(
        rows,
        vec![
            ("a".to_string(), true, 0),
            ("a/C".to_string(), true, 1),
            ("a/C/e.txt".to_string(), false, 2),
            ("a/b.txt".to_string(), false, 1),
            ("d.txt".to_string(), false, 0),
        ]
    );
}

#[test]
fn outline_of_hidden_tree_with_hidden_shown() {
    let (_, entries) = collect_entries(&vec![raw(".h/x", false)], true);
    let rows: Vec<String> = entries.iter().map(|e| e.path.join("/")).collect();
    assert_eq!(rows, vec![".h", ".h/x"]);
}

#[test]
fn query_case_is_folded() {
    let mut s = scenario_search(false);
    s.update_query(&"B".to_string());
    assert_eq!(s.match_count(), 1);
    assert_eq!(s.match_path_at(0).unwrap().0, "a/b.txt");
    s.update_query(&"A/C".to_string());
    assert_eq!(s.match_path_at(0).unwrap().0, "a/c.txt");
}
