use vstd::prelude::*;
use crate::schedule::{FileAction, RefreshScheduler, file_action, on_file_signal, sched_view, tick_step, Tick};
use crate::search::{FileSearch, reloaded_in_turn};
use crate::tree::{expanded_set, flatten, loaded_at};
use crate::walker::{collected, DirListing, RawEntry, join_parts, join_path, str_views};

verus! {

/// Which view has the keyboard.
#[derive(Debug, Clone, Copy, PartialEq, Eq, Structural)]
pub enum Mode {
    Search,
    Edit,
}

/// What a filesystem watcher reported, reduced to what the policy reads.
#[derive(Debug, Clone, Copy, PartialEq, Eq, Structural)]
pub enum ChangeKind {
    Create,
    Remove,
    /// A rename or move.
    Rename,
    /// A change of content or metadata.
    Modify,
    Other,
}

/// Whether the root watcher forwards an event: structural changes only.
pub fn root_change_relevant(k: ChangeKind) -> (r: bool)
    ensures
        r == (k == ChangeKind::Create || k == ChangeKind::Remove || k == ChangeKind::Rename),
{
    match k {
        ChangeKind::Create | ChangeKind::Remove | ChangeKind::Rename => true,
        _ => false,
    }
}

/// Whether the watcher of the open file forwards an event: any
/// modification or creation of it.
pub fn file_change_relevant(k: ChangeKind) -> (r: bool)
    ensures
        r == (k == ChangeKind::Create || k == ChangeKind::Modify || k == ChangeKind::Rename),
{
    match k {
        ChangeKind::Create | ChangeKind::Modify | ChangeKind::Rename => true,
        _ => false,
    }
}

/// What polling the background indexer's completion channel gave.
pub enum IndexPoll {
    /// Nothing yet.
    Empty,
    /// The scan finished with these files.
    Ready(Vec<String>),
    /// The scan failed with this error text.
    Failed(String),
    /// The worker went away without an answer.
    Disconnected,
}

/// What selecting a row asks for.
pub enum EnterAction {
    Nothing,
    /// Open the file at this path relative to the root.
    Open(String),
    /// Toggle the expansion of this directory.
    Toggle(Vec<String>),
}

/// The number of rows scrolled off the top of a list `height` rows high so
/// that row `selected` is visible.
pub open spec fn scroll_offset_spec(selected: usize, height: usize) -> usize {
    if height == 0 {
        sat_add(selected, 1)
    } else if selected >= height {
        (selected - height + 1) as usize
    } else {
        0
    }
}

pub fn scroll_offset(selected: usize, height: usize) -> (r: usize)
    ensures
        r == scroll_offset_spec(selected, height),
{
    if height == 0 {
        if selected < usize::MAX {
            selected + 1
        } else {
            usize::MAX
        }
    } else if selected >= height {
        selected - (height - 1)
    } else {
        0
    }
}

/// The status line shows exactly `text`.
pub open spec fn status_is(status: Option<String>, text: Seq<char>) -> bool {
    status matches Some(m) && m@ == text
}

/// The state of the interactive loop that is not I/O: the file search,
/// the query, the selection, the status line, and the refresh policy.
pub struct App {
    pub mode: Mode,
    pub search: FileSearch,
    pub search_input: String,
    pub selected_index: usize,
    pub should_quit: bool,
    pub status_message: Option<String>,
    pub file_changed_externally: bool,
    /// Whether the background scan has not answered yet.
    pub index_pending: bool,
    pub scheduler: RefreshScheduler,
}

impl App {
    /// The loop's state at start-up, with the background scan under way.
    pub fn new(search: FileSearch, now_ms: u64) -> (r: App)
        ensures
            r.search == search,
            r.mode == Mode::Search,
            r.selected_index == 0,
            !r.should_quit,
            !r.file_changed_externally,
            r.index_pending,
            r.search_input@.len() == 0,
            status_is(r.status_message, "Indexing..."@),
            sched_view(r.scheduler) == (false, now_ms),
    {
        let status = "Indexing...".to_owned();
        App {
            mode: Mode::Search,
            search,
            search_input: String::new(),
            selected_index: 0,
            should_quit: false,
            status_message: Some(status),
            file_changed_externally: false,
            index_pending: true,
            scheduler: RefreshScheduler::new(now_ms),
        }
    }

    /// Keeps the selection on a row that exists (row 0 when there is none).
    pub fn clamp_selection(&mut self)
        requires
            old(self).search.wf(),
        ensures
            final(self).search == old(self).search,
            final(self).selected_index == if old(self).selected_index > max_row(&old(self).search) {
                max_row(&old(self).search)
            } else {
                old(self).selected_index
            },
            final(self).search_input == old(self).search_input,
            final(self).status_message == old(self).status_message,
            final(self).index_pending == old(self).index_pending,
            final(self).file_changed_externally == old(self).file_changed_externally,
            final(self).scheduler == old(self).scheduler,
    {
        let count = self.search.match_count();
        let max = if count > 0 { count - 1 } else { 0 };
        if self.selected_index > max {
            self.selected_index = max;
        }
    }

    /// Reacts to change signals for the open file: a conflict is flagged
    /// when the buffer has unsaved edits, and `Reload` is returned when it
    /// has none; the caller then reloads and reports through
    /// `finish_reload`.
    pub fn check_file_changes(&mut self, changed: bool, file_open: bool, modified: bool) -> (r: FileAction)
        ensures
            r == file_action(changed, file_open, modified),
            r == FileAction::MarkConflict ==> {
                &&& final(self).file_changed_externally
                &&& status_is(final(self).status_message, "External change detected (unsaved edits)"@)
                &&& *final(self) == (App {
                    file_changed_externally: true,
                    status_message: final(self).status_message,
                    ..*old(self)
                })
            },
            r != FileAction::MarkConflict ==> *final(self) == *old(self),
    {
        let action = on_file_signal(changed, file_open, modified);
        match action {
            FileAction::MarkConflict => {
                self.file_changed_externally = true;
                self.status_message = Some("External change detected (unsaved edits)".to_owned());
            },
            _ => {},
        }
        action
    }

    /// Records the outcome of a reload from disk; `Err` carries the error
    /// text.
    pub fn finish_reload(&mut self, result: Result<(), String>)
        ensures
            match result {
                Ok(_) => {
                    &&& !final(self).file_changed_externally
                    &&& status_is(final(self).status_message, "File reloaded (external change)"@)
                },
                Err(e) => {
                    &&& final(self).file_changed_externally == old(self).file_changed_externally
                    &&& status_is(final(self).status_message, "Reload failed: "@ + e@)
                },
            },
            *final(self) == (App {
                file_changed_externally: final(self).file_changed_externally,
                status_message: final(self).status_message,
                ..*old(self)
            }),
    {
        match result {
            Ok(()) => {
                self.file_changed_externally = false;
                self.status_message = Some("File reloaded (external change)".to_owned());
            },
            Err(e) => {
                let mut m = "Reload failed: ".to_owned();
                m.append(e.as_str());
                self.status_message = Some(m);
            },
        }
    }

    /// Takes in what polling the background scan gave; returns whether
    /// anything changed. A result is taken only once.
    pub fn check_indexing(&mut self, poll: IndexPoll) -> (r: bool)
        requires
            old(self).search.wf(),
        ensures
            final(self).search.wf(),
            !old(self).index_pending ==> !r && *final(self) == *old(self),
            old(self).index_pending ==> match poll {
                IndexPoll::Empty => !r && *final(self) == *old(self),
                IndexPoll::Ready(files) => {
                    &&& r
                    &&& !final(self).index_pending
                    &&& final(self).search.files_spec() == files@
                    &&& !final(self).search.indexing_view()
                    &&& final(self).search.matches_query(old(self).search_input@)
                    &&& final(self).search.tree_spec() == old(self).search.tree_spec()
                    &&& final(self).search.rows_spec() == old(self).search.rows_spec()
                    &&& final(self).search_input == old(self).search_input
                    &&& final(self).selected_index == if old(self).selected_index > max_row(&final(self).search) {
                        max_row(&final(self).search)
                    } else {
                        old(self).selected_index
                    }
                    &&& if status_is(old(self).status_message, "Indexing..."@) {
                        final(self).status_message is None
                    } else {
                        final(self).status_message == old(self).status_message
                    }
                    &&& !final(self).scheduler.pending
                    &&& final(self).scheduler.last_refresh_ms == old(self).scheduler.last_refresh_ms
                },
                IndexPoll::Failed(e) => {
                    &&& r
                    &&& !final(self).index_pending
                    &&& !final(self).search.indexing_view()
                    &&& final(self).search.files_spec() == old(self).search.files_spec()
                    &&& final(self).search.matches_spec() == old(self).search.matches_spec()
                    &&& status_is(final(self).status_message, "Indexing failed: "@ + e@)
                    &&& final(self).selected_index == old(self).selected_index
                },
                IndexPoll::Disconnected => {
                    &&& r
                    &&& !final(self).index_pending
                    &&& !final(self).search.indexing_view()
                    &&& final(self).search.files_spec() == old(self).search.files_spec()
                    &&& final(self).search.matches_spec() == old(self).search.matches_spec()
                    &&& status_is(final(self).status_message, "Indexing failed: worker disconnected"@)
                    &&& final(self).selected_index == old(self).selected_index
                },
            },
    {
        if !self.index_pending {
            return false;
        }
        match poll {
            IndexPoll::Empty => false,
            IndexPoll::Ready(files) => {
                self.index_pending = false;
                self.scheduler.clear_pending();
                self.search.apply_index(files);
                self.search.update_query(&self.search_input);
                self.clamp_selection();
                let clear = match &self.status_message {
                    Some(m) => {
                        let t = "Indexing...".to_owned();
                        *m == t
                    },
                    None => false,
                };
                if clear {
                    self.status_message = None;
                }
                true
            },
            IndexPoll::Failed(e) => {
                self.index_pending = false;
                self.search.end_indexing();
                let mut m = "Indexing failed: ".to_owned();
                m.append(e.as_str());
                self.status_message = Some(m);
                true
            },
            IndexPoll::Disconnected => {
                self.index_pending = false;
                self.search.end_indexing();
                self.status_message = Some("Indexing failed: worker disconnected".to_owned());
                true
            },
        }
    }

    /// One tick of the refresh policy; returns whether a full refresh is
    /// due now (the caller then scans and calls `refresh_search`).
    pub fn tick(&mut self, now_ms: u64, root_changed: bool) -> (r: bool)
        ensures
            (sched_view(final(self).scheduler), r) == tick_step(
                sched_view(old(self).scheduler),
                Tick { now_ms, signal: root_changed, indexing: old(self).search.indexing_view() },
            ),
            final(self).search == old(self).search,
    {
        let indexing = self.search.is_indexing();
        self.scheduler.tick(now_ms, root_changed, indexing)
    }

    /// Rebuilds the index and the expanded part of the tree from a new scan,
    /// re-runs the query and keeps the selection in range. The scan covers
    /// every structural change signalled so far, so none stays pending.
    pub fn refresh_search(&mut self, scan: &Vec<RawEntry>, listings: &Vec<DirListing>)
        requires
            old(self).search.wf(),
        ensures
            final(self).search.wf(),
            !final(self).search.indexing_view(),
            final(self).search.show_hidden_view() == old(self).search.show_hidden_view(),
            collected(final(self).search.files_spec(), scan@, final(self).search.show_hidden_view()),
            expanded_set(final(self).search.tree_spec()) == expanded_set(old(self).search.tree_spec()),
            forall|k: int|
                0 <= k < listings@.len() ==> loaded_at(final(self).search.tree_spec(), str_views(#[trigger] listings@[k].path@)),
            reloaded_in_turn(
                old(self).search.tree_spec(),
                final(self).search.tree_spec(),
                listings@,
                old(self).search.show_hidden_view(),
            ),
            final(self).search.matches_query(old(self).search_input@),
            final(self).search.search_active_view() == (final(self).search_input@.len() > 0),
            final(self).search_input == old(self).search_input,
            final(self).selected_index <= max_row(&final(self).search),
            !final(self).scheduler.pending,
            final(self).scheduler.last_refresh_ms == old(self).scheduler.last_refresh_ms,
    {
        self.scheduler.clear_pending();
        self.search.refresh(scan, listings);
        self.search.update_query(&self.search_input);
        self.clamp_selection();
    }

    /// Replaces the query and re-ranks; the selection goes back to the top.
    pub fn set_query(&mut self, query: String)
        requires
            old(self).search.wf(),
        ensures
            final(self).search.wf(),
            final(self).search_input == query,
            final(self).selected_index == 0,
            final(self).search.search_active_view() == (query@.len() > 0),
            final(self).search.matches_query(query@),
            final(self).search.files_spec() == old(self).search.files_spec(),
            final(self).search.tree_spec() == old(self).search.tree_spec(),
            final(self).search.rows_spec() == old(self).search.rows_spec(),
    {
        self.search_input = query;
        self.search.update_query(&self.search_input);
        self.selected_index = 0;
    }

    pub fn select_up(&mut self, n: usize)
        ensures
            final(self).selected_index == if old(self).selected_index >= n {
                old(self).selected_index - n
            } else {
                0
            },
    {
        if self.selected_index >= n {
            self.selected_index = self.selected_index - n;
        } else {
            self.selected_index = 0;
        }
    }

    /// Moves the selection down by `n` rows, not past the last row.
    pub fn select_down(&mut self, n: usize)
        requires
            old(self).search.wf(),
        ensures
            final(self).selected_index == min_usize(
                sat_add(old(self).selected_index, n),
                max_row(&old(self).search),
            ),
    {
        let count = self.search.match_count();
        let max = if count > 0 { count - 1 } else { 0 };
        let next = if self.selected_index <= usize::MAX - n { self.selected_index + n } else { usize::MAX };
        self.selected_index = if next < max { next } else { max };
    }

    /// The row under a click at (`col`, `row`) in a bordered list drawn in
    /// the rectangle (`x`, `y`, `width`, `height`), if there is one.
    pub fn row_at(&self, x: u16, y: u16, width: u16, height: u16, col: u16, row: u16) -> (r: Option<usize>)
        requires
            self.search.wf(),
        ensures
            r matches Some(i) ==> i < max_row(&self.search) + 1 && i < count_rows(&self.search),
            r matches Some(i) ==> {
                &&& x <= col < x + width
                &&& y + 1 <= row < y + height - 1
                &&& i == scroll_offset_spec(self.selected_index, (height - 2) as usize) + (row - y - 1)
            },
            (x <= col < x + width && y + 1 <= row < y + height - 1 && scroll_offset_spec(self.selected_index, (height - 2) as usize) + (row - y - 1) < count_rows(&self.search)) ==> r is Some,
    {
        let (x, y, w, h, c, rw) = (x as u32, y as u32, width as u32, height as u32, col as u32, row as u32);
        if c >= x && c < x + w && rw >= y + 1 && rw + 1 < y + h {
            let list_height = (h - 2) as usize;
            let offset = scroll_offset(self.selected_index, list_height);
            let clicked_row = (rw - y - 1) as usize;
            let count = self.search.match_count();
            if offset < count && clicked_row < count - offset {
                return Some(offset + clicked_row);
            }
        }
        None
    }

    /// The directory, relative to the root and `/`-separated, in which a new
    /// file goes: the selected directory, or the directory of the selected
    /// file; the root when nothing is selected.
    pub fn base_dir(&self) -> (r: String)
        requires
            self.search.wf(),
        ensures
            self.search.search_active_view() ==> r@ == if self.selected_index < self.search.matches_spec().len() {
                parent_text(self.search.files_spec()[self.search.matches_spec()[self.selected_index as int].0 as int]@)
            } else {
                Seq::empty()
            },
            !self.search.search_active_view() ==> r@ == if self.selected_index < flatten(self.search.tree_spec()).len() {
                let row = flatten(self.search.tree_spec())[self.selected_index as int];
                if row.1 {
                    join_parts(row.0)
                } else {
                    join_parts(dir_part(row.0))
                }
            } else {
                Seq::empty()
            },
    {
        if self.search.is_search_active() {
            match self.search.match_path_at(self.selected_index) {
                Some((p, _)) => parent_of(p),
                None => String::new(),
            }
        } else {
            match self.search.get_visible_entry(self.selected_index) {
                Some(e) => {
                    if e.is_dir {
                        join_path(&e.path)
                    } else {
                        let n = e.path.len();
                        let m = if n > 0 { n - 1 } else { 0 };
                        let mut dir: Vec<String> = Vec::new();
                        let mut k: usize = 0;
                        while k < m
                            invariant
                                n == e.path@.len(),
                                m == if n > 0 { n - 1 } else { 0 },
                                k <= m,
                                dir@ == e.path@.take(k as int),
                            decreases m - k,
                        {
                            dir.push(e.path[k].clone());
                            k = k + 1;
                            assert(dir@ =~= e.path@.take(k as int));
                        }
                        assert(str_views(dir@) =~= dir_part(str_views(e.path@)));
                        join_path(&dir)
                    }
                },
                None => String::new(),
            }
        }
    }

    /// What selecting the current row asks for: open a file, or toggle a
    /// directory of the tree.
    pub fn enter_action(&self) -> (r: EnterAction)
        requires
            self.search.wf(),
        ensures
            self.search.search_active_view() ==> match r {
                EnterAction::Open(p) => self.selected_index < self.search.matches_spec().len()
                    && p@ == self.search.files_spec()[self.search.matches_spec()[self.selected_index as int].0 as int]@,
                EnterAction::Nothing => self.selected_index >= self.search.matches_spec().len(),
                EnterAction::Toggle(_) => false,
            },
            !self.search.search_active_view() ==> match r {
                EnterAction::Open(p) => self.selected_index < flatten(self.search.tree_spec()).len()
                    && !flatten(self.search.tree_spec())[self.selected_index as int].1
                    && p@ == join_parts(flatten(self.search.tree_spec())[self.selected_index as int].0),
                EnterAction::Toggle(d) => self.selected_index < flatten(self.search.tree_spec()).len()
                    && flatten(self.search.tree_spec())[self.selected_index as int].1
                    && str_views(d@) == flatten(self.search.tree_spec())[self.selected_index as int].0,
                EnterAction::Nothing => self.selected_index >= flatten(self.search.tree_spec()).len(),
            },
    {
        if self.search.is_search_active() {
            match self.search.get_match(self.selected_index) {
                Some(p) => EnterAction::Open(p),
                None => EnterAction::Nothing,
            }
        } else {
            match self.search.get_visible_entry(self.selected_index) {
                Some(e) => {
                    if e.is_dir {
                        EnterAction::Toggle(crate::tree::clone_path(&e.path))
                    } else {
                        EnterAction::Open(join_path(&e.path))
                    }
                },
                None => EnterAction::Nothing,
            }
        }
    }
}

/// A path without its last component.
pub open spec fn dir_part(p: Seq<Seq<char>>) -> Seq<Seq<char>> {
    if p.len() > 0 {
        p.drop_last()
    } else {
        p
    }
}

/// The text before the last `/` of `s`; empty when there is none.
pub open spec fn parent_text(s: Seq<char>) -> Seq<char>
    decreases s.len(),
{
    if s.len() == 0 {
        Seq::empty()
    } else if s.last() == '/' {
        s.drop_last()
    } else {
        parent_text(s.drop_last())
    }
}

/// The directory part of a `/`-separated relative path.
pub fn parent_of(s: &String) -> (r: String)
    ensures
        r@ == parent_text(s@),
{
    let c = crate::text::chars_of(s.as_str());
    let mut k: usize = c.len();
    assert(s@.take(k as int) =~= s@);
    while k > 0 && c[k - 1] != '/'
        invariant
            k <= c.len(),
            c@ == s@,
            parent_text(s@) == parent_text(s@.take(k as int)),
        decreases k,
    {
        assert(s@.take(k as int).drop_last() =~= s@.take(k as int - 1));
        k = k - 1;
    }
    if k == 0 {
        assert(s@.take(0) =~= Seq::<char>::empty());
        return String::new();
    }
    assert(s@.take(k as int).drop_last() =~= s@.take(k as int - 1));
    let r = s.as_str().substring_char(0, k - 1).to_owned();
    r
}

pub open spec fn count_rows(s: &FileSearch) -> int {
    if s.search_active_view() {
        s.matches_spec().len() as int
    } else {
        flatten(s.tree_spec()).len() as int
    }
}

/// The last row that can be selected (0 when there are none).
pub open spec fn max_row(s: &FileSearch) -> usize {
    if count_rows(s) > 0 {
        (count_rows(s) - 1) as usize
    } else {
        0
    }
}

pub open spec fn sat_add(a: usize, b: usize) -> usize {
    if a + b <= usize::MAX {
        (a + b) as usize
    } else {
        usize::MAX
    }
}

pub open spec fn min_usize(a: usize, b: usize) -> usize {
    if a < b {
        a
    } else {
        b
    }
}

} // verus!
