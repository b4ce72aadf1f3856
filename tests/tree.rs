use file_search::search::FileSearch;
use file_search::tree::LazyTree;
use file_search::walker::{DirItem, DirListing, RawEntry};

fn item(name: &str, is_dir: bool) -> DirItem {
    DirItem { name: name.to_string(), is_dir }
}

fn p(s: &str) -> Vec<String> {
    if s.is_empty() {
        vec![]
    } else {
        s.split('/').map(|c| c.to_string()).collect()
    }
}

fn rows(s: &FileSearch) -> Vec<(String, bool, usize)> {
    (0..s.visible_len())
        .map(|i| {
            let e = s.visible_entry_at(i).unwrap();
            (e.path.join("/"), e.is_dir, e.depth)
        })
        .collect()
}

fn search() -> FileSearch {
    let root = vec![item("a", true), item("z.txt", false), item(".hidden", false)];
    FileSearch::new("/r".to_string(), &Vec::<RawEntry>::new(), &root)
}

#[test]
fn root_children_show_collapsed() {
    let s = search();
    assert_eq!(rows(&s), vec![("a".to_string(), true, 0), (".hidden".to_string(), false, 0), ("z.txt".to_string(), false, 0)]);
    assert!(s.is_expanded(&p("")));
    assert!(!s.is_expanded(&p("a")));
    assert_eq!(s.visible_entry_at(3).map(|e| e.depth), None);
}

#[test]
fn expanding_loads_and_shows_children_with_depth() {
    let mut s = search();
    assert!(s.needs_load(&p("a")));
    s.toggle_expanded(&p("a"), &vec![item("c.txt", false), item("b", true)]);
    assert!(s.is_expanded(&p("a")));
    assert!(!s.needs_load(&p("a")));
    assert_eq!(
        rows(&s),
        vec![
            ("a".to_string(), true, 0),
            ("a/b".to_string(), true, 1),
            ("a/c.txt".to_string(), false, 1),
            (".hidden".to_string(), false, 0),
            ("z.txt".to_string(), false, 0),
        ]
    );
}

#[test]
fn collapsed_directory_hides_descendants_and_keeps_cache() {
    let mut s = search();
    s.toggle_expanded(&p("a"), &vec![item("b", true)]);
    s.toggle_expanded(&p("a/b"), &vec![item("deep.txt", false)]);
    assert_eq!(s.visible_len(), 5);
    s.toggle_expanded(&p("a"), &Vec::new());
    let r = rows(&s);
    assert!(r.iter().all(|(path, _, _)| !path.starts_with("a/")));
    assert!(s.is_expanded(&p("a/b")));
    // Re-expanding needs no listing: the cached children come back.
    assert!(!s.needs_load(&p("a")));
    s.toggle_expanded(&p("a"), &Vec::new());
    assert_eq!(rows(&s)[2], ("a/b/deep.txt".to_string(), false, 2));
}

#[test]
fn load_children_twice_changes_nothing() {
    let mut t = LazyTree::new();
    let listing = vec![item("x", true), item("y.txt", false)];
    t.load_children(&p(""), &listing, true);
    let n = t.len();
    let kids = t.node(0).children.clone();
    t.load_children(&p(""), &listing, true);
    assert_eq!(t.len(), n);
    assert_eq!(t.node(0).children, kids);
    // A changed listing is not read either: the node is loaded.
    t.load_children(&p(""), &vec![item("w", true)], true);
    assert_eq!(t.node(0).children, kids);
}

#[test]
fn reload_replaces_children_and_keeps_known_nodes() {
    let mut t = LazyTree::new();
    t.reload_children(&p(""), &vec![item("x", true), item("y.txt", false)], true);
    let x = t.find_node(&p("x")).unwrap();
    t.reload_children(&p(""), &vec![item("x", true), item("w.txt", false)], true);
    assert_eq!(t.find_node(&p("x")), Some(x));
    let names: Vec<String> = t.node(0).children.iter().map(|&c| t.node(c).path.join("/")).collect();
    assert_eq!(names, vec!["x", "w.txt"]);
    let w = t.find_node(&p("w.txt")).unwrap();
    assert!(t.node(w).children_loaded);
    assert!(!t.node(x).children_loaded);
}

#[test]
fn root_cannot_be_collapsed() {
    let mut s = search();
    let before = rows(&s);
    s.toggle_expanded(&p(""), &Vec::new());
    assert!(s.is_expanded(&p("")));
    assert_eq!(rows(&s), before);
}

#[test]
fn expanded_paths_lists_non_root_expanded_directories() {
    let mut s = search();
    s.toggle_expanded(&p("a"), &vec![item("b", true)]);
    s.toggle_expanded(&p("a/b"), &Vec::new());
    let mut e: Vec<String> = s.expanded_paths().into_iter().map(|x| x.join("/")).collect();
    e.sort();
    assert_eq!(e, vec!["a", "a/b"]);
}

#[test]
fn refresh_reloads_listed_directories() {
    let mut s = search();
    s.toggle_expanded(&p("a"), &vec![item("old.txt", false)]);
    let listings = vec![
        DirListing { path: p(""), items: vec![item("a", true)] },
        DirListing { path: p("a"), items: vec![item("new.txt", false)] },
    ];
    s.refresh(&Vec::new(), &listings);
    assert_eq!(rows(&s), vec![("a".to_string(), true, 0), ("a/new.txt".to_string(), false, 1)]);
}

#[test]
fn get_match_in_tree_mode_skips_directories() {
    let mut s = search();
    s.toggle_expanded(&p("a"), &vec![item("c.txt", false)]);
    assert_eq!(s.get_match(0), None);
    assert_eq!(s.get_match(1), Some("a/c.txt".to_string()));
    assert_eq!(s.get_match(9), None);
}
