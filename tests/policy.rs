use file_search::layout::{split_at_char_count, wrap_position, wrap_spans, wrapped_line_count};
use file_search::schedule::{on_file_signal, FileAction, RefreshScheduler, DEBOUNCE_MS, TICK_MS};
use file_search::search::FileSearch;
use file_search::session::{
    file_change_relevant, parent_of, root_change_relevant, scroll_offset, App, ChangeKind, EnterAction, IndexPoll,
    Mode,
};
use file_search::walker::{DirItem, DirListing, RawEntry};

fn raw(path: &str) -> RawEntry {
    RawEntry { parts: path.split('/').map(|s| s.to_string()).collect(), is_dir: false, is_file: true }
}

#[test]
fn burst_of_signals_triggers_one_refresh() {
    let mut s = RefreshScheduler::new(0);
    let mut refreshes = 0;
    // Five signals inside one debounce interval after the start.
    for t in [10u64, 20, 50, 120, 250] {
        if s.tick(t, true, false) {
            refreshes += 1;
        }
    }
    assert_eq!(refreshes, 0);
    assert!(s.pending);
    for t in [300u64, 400, 500, 600, 700, 800] {
        if s.tick(t, false, false) {
            refreshes += 1;
        }
    }
    assert_eq!(refreshes, 1);
    assert!(!s.pending);
    assert_eq!(s.last_refresh_ms, 300);
}

#[test]
fn refresh_waits_for_indexing() {
    let mut s = RefreshScheduler::new(0);
    assert!(!s.tick(400, true, true));
    assert!(s.pending);
    assert!(s.tick(500, false, false));
}

#[test]
fn no_signal_no_refresh() {
    let mut s = RefreshScheduler::new(0);
    assert!(!s.tick(10_000, false, false));
    assert_eq!(TICK_MS, 100);
    assert_eq!(DEBOUNCE_MS, 300);
}

#[test]
fn unsaved_edits_are_never_reloaded() {
    assert_eq!(on_file_signal(true, true, true), FileAction::MarkConflict);
    assert_eq!(on_file_signal(true, true, false), FileAction::Reload);
    assert_eq!(on_file_signal(false, true, true), FileAction::Nothing);
    assert_eq!(on_file_signal(true, false, false), FileAction::Nothing);
}

fn app() -> App {
    let root = vec![DirItem { name: "a".to_string(), is_dir: true }];
    App::new(FileSearch::new_deferred("/r".to_string(), &root), 0)
}

#[test]
fn conflict_sets_flag_and_status() {
    let mut a = app();
    assert_eq!(a.check_file_changes(true, true, true), FileAction::MarkConflict);
    assert!(a.file_changed_externally);
    assert_eq!(a.status_message.as_deref(), Some("External change detected (unsaved edits)"));
    a.finish_reload(Ok(()));
    assert!(!a.file_changed_externally);
    assert_eq!(a.status_message.as_deref(), Some("File reloaded (external change)"));
    a.finish_reload(Err("gone".to_string()));
    assert_eq!(a.status_message.as_deref(), Some("Reload failed: gone"));
}

#[test]
fn index_result_is_applied_once() {
    let mut a = app();
    assert_eq!(a.mode, Mode::Search);
    assert_eq!(a.status_message.as_deref(), Some("Indexing..."));
    assert!(!a.check_indexing(IndexPoll::Empty));
    assert!(a.check_indexing(IndexPoll::Ready(vec!["a/b.txt".to_string()])));
    assert!(!a.index_pending);
    assert!(!a.search.indexing);
    assert_eq!(a.status_message, None);
    assert!(!a.check_indexing(IndexPoll::Ready(vec![])));
    assert_eq!(a.search.match_path_at(0).map(|m| m.0.clone()), Some("a/b.txt".to_string()));
}

#[test]
fn index_failure_and_disconnect_have_distinct_messages() {
    let mut a = app();
    assert!(a.check_indexing(IndexPoll::Failed("denied".to_string())));
    assert_eq!(a.status_message.as_deref(), Some("Indexing failed: denied"));
    assert!(!a.search.indexing);
    let mut b = app();
    assert!(b.check_indexing(IndexPoll::Disconnected));
    assert_eq!(b.status_message.as_deref(), Some("Indexing failed: worker disconnected"));
}

#[test]
fn rename_then_tick_past_debounce_rebuilds_index() {
    let mut a = app();
    a.check_indexing(IndexPoll::Ready(vec!["a/b.txt".to_string(), "a/c.txt".to_string()]));
    assert!(!a.tick(50, true));
    assert!(a.tick(350, false));
    let scan = vec![raw("a/b.txt"), raw("a/d.txt")];
    let listings = vec![DirListing { path: vec![], items: vec![DirItem { name: "a".to_string(), is_dir: true }] }];
    a.refresh_search(&scan, &listings);
    let files: Vec<String> = (0..2).map(|i| a.search.match_path_at(i).unwrap().0.clone()).collect();
    assert_eq!(files, vec!["a/b.txt", "a/d.txt"]);
    assert!(a.search.match_path_at(2).is_none());
}

#[test]
fn query_and_selection() {
    let mut a = app();
    a.check_indexing(IndexPoll::Ready(vec!["a/b.txt".to_string(), "a/c.txt".to_string()]));
    a.set_query("b".to_string());
    assert_eq!(a.search.match_count(), 1);
    a.select_down(3);
    assert_eq!(a.selected_index, 0);
    match a.enter_action() {
        EnterAction::Open(p) => assert_eq!(p, "a/b.txt"),
        _ => panic!("expected a file"),
    }
    a.set_query(String::new());
    a.select_down(5);
    assert_eq!(a.selected_index, 0);
    match a.enter_action() {
        EnterAction::Toggle(d) => assert_eq!(d, vec!["a".to_string()]),
        _ => panic!("expected a directory"),
    }
    a.selected_index = 7;
    a.clamp_selection();
    assert_eq!(a.selected_index, 0);
    a.select_up(2);
    assert_eq!(a.selected_index, 0);
}

#[test]
fn click_maps_to_row() {
    let a = app();
    // List at (0, 0), 10 wide and 5 high: rows 1..=3 are inside the border.
    assert_eq!(a.row_at(0, 0, 10, 5, 2, 1), Some(0));
    assert_eq!(a.row_at(0, 0, 10, 5, 2, 2), None);
    assert_eq!(a.row_at(0, 0, 10, 5, 2, 0), None);
    assert_eq!(a.row_at(0, 0, 10, 5, 10, 1), None);
    assert_eq!(a.row_at(0, 0, 10, 1, 2, 1), None);
}

#[test]
fn scroll_offset_keeps_selection_visible() {
    assert_eq!(scroll_offset(0, 5), 0);
    assert_eq!(scroll_offset(4, 5), 0);
    assert_eq!(scroll_offset(5, 5), 1);
    assert_eq!(scroll_offset(12, 5), 8);
    assert_eq!(scroll_offset(3, 0), 4);
}

#[test]
fn watcher_event_filters() {
    assert!(root_change_relevant(ChangeKind::Create));
    assert!(root_change_relevant(ChangeKind::Remove));
    assert!(root_change_relevant(ChangeKind::Rename));
    assert!(!root_change_relevant(ChangeKind::Modify));
    assert!(!root_change_relevant(ChangeKind::Other));
    assert!(file_change_relevant(ChangeKind::Modify));
    assert!(file_change_relevant(ChangeKind::Create));
    assert!(file_change_relevant(ChangeKind::Rename));
    assert!(!file_change_relevant(ChangeKind::Remove));
}

#[test]
fn wrapping_arithmetic() {
    assert_eq!(wrapped_line_count(0, 10), 1);
    assert_eq!(wrapped_line_count(10, 0), 1);
    assert_eq!(wrapped_line_count(10, 10), 1);
    assert_eq!(wrapped_line_count(11, 10), 2);
    assert_eq!(wrapped_line_count(25, 10), 3);
    assert_eq!(wrap_position(0, 10), (0, 0));
    assert_eq!(wrap_position(5, 0), (0, 0));
    assert_eq!(wrap_position(10, 10), (0, 10));
    assert_eq!(wrap_position(11, 10), (1, 1));
    assert_eq!(wrap_position(23, 10), (2, 3));
}

#[test]
fn split_counts_characters_not_bytes() {
    assert_eq!(split_at_char_count("héllo", 2), ("hé".to_string(), "llo".to_string()));
    assert_eq!(split_at_char_count("abc", 0), (String::new(), "abc".to_string()));
    assert_eq!(split_at_char_count("abc", 5), ("abc".to_string(), String::new()));
}

#[test]
fn any_rescan_clears_pending_change() {
    let mut a = app();
    assert!(!a.tick(50, true));
    assert!(a.scheduler.pending);
    a.check_indexing(IndexPoll::Ready(vec![]));
    assert!(!a.scheduler.pending);
    assert!(!a.tick(60, true));
    a.refresh_search(&vec![raw("x")], &Vec::new());
    assert!(!a.scheduler.pending);
    assert!(!a.tick(1000, false));
    let mut s = RefreshScheduler::new(5);
    s.pending = true;
    s.clear_pending();
    assert!(!s.pending);
    assert_eq!(s.last_refresh_ms, 5);
}

#[test]
fn spans_wrap_into_rows_of_width() {
    let spans = vec![(1u8, "abcd".to_string()), (2u8, "ef".to_string()), (3u8, "ghijk".to_string())];
    let rows = wrap_spans(&spans, 4);
    let shown: Vec<Vec<(u8, String)>> = rows;
    assert_eq!(
        shown,
        vec![
            vec![(1, "abcd".to_string())],
            vec![(2, "ef".to_string()), (3, "gh".to_string())],
            vec![(3, "ijk".to_string())],
        ]
    );
}

#[test]
fn spans_wrap_edge_cases() {
    let spans = vec![(0u8, "abc".to_string())];
    assert_eq!(wrap_spans(&spans, 0), vec![Vec::new()]);
    assert_eq!(wrap_spans(&Vec::<(u8, String)>::new(), 3), vec![Vec::new()]);
    assert_eq!(wrap_spans(&spans, 3), vec![vec![(0, "abc".to_string())]]);
    assert_eq!(wrap_spans(&vec![(0u8, "é€ab".to_string())], 2), vec![vec![(0, "é€".to_string())], vec![(0, "ab".to_string())]]);
}

#[test]
fn parent_of_paths() {
    assert_eq!(parent_of(&"a/b/c.txt".to_string()), "a/b");
    assert_eq!(parent_of(&"c.txt".to_string()), "");
    assert_eq!(parent_of(&String::new()), "");
}

#[test]
fn base_dir_follows_selection() {
    let mut a = app();
    a.check_indexing(IndexPoll::Ready(vec!["a/b.txt".to_string()]));
    assert_eq!(a.base_dir(), "a");
    a.set_query("b".to_string());
    assert_eq!(a.base_dir(), "a");
    a.set_query(String::new());
    a.search.toggle_expanded(&vec!["a".to_string()], &vec![DirItem { name: "x.txt".to_string(), is_dir: false }]);
    a.selected_index = 1;
    assert_eq!(a.base_dir(), "a");
    a.selected_index = 9;
    assert_eq!(a.base_dir(), "");
}
