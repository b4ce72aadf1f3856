use vstd::prelude::*;
use crate::rank::{FuzzyMatcher, identity, identity_matches, rank, ranked_by, scores_of};
use crate::tree::{
    Entry, LazyTree, TreeNode, entries_view, entry_view, expanded_set, flatten, lemma_reload_keeps_expanded,
    lemma_reload_keeps_loaded, loaded_at, reloaded, toggle_post, wf_nodes,
};
use crate::text::lower_of;
use crate::walker::{DirItem, DirListing, RawEntry, collected, collect_files, join_parts, join_path, str_views};

verus! {

/// `new` is `old` after reloading the directories of `listings` one after
/// the other, each from its own listing.
pub open spec fn reloaded_in_turn(
    old: Seq<TreeNode>,
    new: Seq<TreeNode>,
    listings: Seq<DirListing>,
    show_hidden: bool,
) -> bool {
    exists|trace: Seq<Seq<TreeNode>>|
        {
            &&& trace.len() == listings.len() + 1
            &&& trace[0] == old
            &&& trace[listings.len() as int] == new
            &&& forall|k: int|
                0 <= k < listings.len() ==> reloaded(
                    #[trigger] trace[k],
                    trace[k + 1],
                    str_views(listings[k].path@),
                    listings[k].items@,
                    show_hidden,
                )
        }
}

/// A tree that holds only the unloaded root.
pub open spec fn initial_tree(t: Seq<TreeNode>) -> bool {
    wf_nodes(t) && t.len() == 1 && !t[0].children_loaded
}

/// The file index and tree view over one root: the flat list of files for
/// fuzzy search, the current match list, and the lazily loaded tree with
/// its flattened rows.
pub struct FileSearch {
    pub root: String,
    files: Vec<String>,
    matches: Vec<(usize, u32)>,
    matcher: FuzzyMatcher,
    pub search_active: bool,
    pub show_hidden: bool,
    pub indexing: bool,
    tree: LazyTree,
    tree_visible: Vec<Entry>,
}

impl FileSearch {
    pub closed spec fn root_view(&self) -> String {
        self.root
    }

    pub closed spec fn search_active_view(&self) -> bool {
        self.search_active
    }

    pub closed spec fn show_hidden_view(&self) -> bool {
        self.show_hidden
    }

    pub closed spec fn indexing_view(&self) -> bool {
        self.indexing
    }

    /// The indexed files, sorted by path.
    pub closed spec fn files_spec(&self) -> Seq<String> {
        self.files@
    }

    /// The match list: positions in the file list with their scores.
    pub closed spec fn matches_spec(&self) -> Seq<(usize, u32)> {
        self.matches@
    }

    /// The nodes of the tree.
    pub closed spec fn tree_spec(&self) -> Seq<TreeNode> {
        self.tree@
    }

    /// The rows of the flattened tree view.
    pub closed spec fn rows_spec(&self) -> Seq<Entry> {
        self.tree_visible@
    }

    /// The match list is the one for `query`: every file with score 0 for an
    /// empty query, the ranking of the files for the lower-cased query
    /// otherwise.
    pub open spec fn matches_query(&self, query: Seq<char>) -> bool {
        if query.len() == 0 {
            identity_matches(self.matches_spec(), self.files_spec().len())
        } else {
            ranked_by(self.matches_spec(), scores_of(self.files_spec(), lower_of(query)))
        }
    }

    /// The tree is well formed, the rows are its flattening, and every
    /// match refers to a file.
    pub open spec fn wf(&self) -> bool {
        &&& wf_nodes(self.tree_spec())
        &&& entries_view(self.rows_spec()) == flatten(self.tree_spec())
        &&& forall|k: int|
            0 <= k < self.matches_spec().len() ==> (#[trigger] self.matches_spec()[k]).0 < self.files_spec().len()
    }

    fn init(root: String, files: Vec<String>, indexing: bool, root_items: &Vec<DirItem>) -> (s: FileSearch)
        ensures
            s.wf(),
            s.root_view() == root,
            s.files_spec() == files@,
            identity_matches(s.matches_spec(), files@.len()),
            !s.search_active_view(),
            s.show_hidden_view(),
            s.indexing_view() == indexing,
            exists|t0: Seq<TreeNode>| initial_tree(t0) && reloaded(t0, s.tree_spec(), Seq::empty(), root_items@, true),
    {
        let matches = identity(files.len());
        let mut s = FileSearch {
            root,
            files,
            matches,
            matcher: FuzzyMatcher::new(),
            search_active: false,
            show_hidden: true,
            indexing,
            tree: LazyTree::new(),
            tree_visible: Vec::new(),
        };
        let ghost t0 = s.tree@;
        let root_path: Vec<String> = Vec::new();
        assert(str_views(root_path@) =~= Seq::<Seq<char>>::empty());
        s.tree.reload_children(&root_path, root_items, true);
        s.rebuild_tree_visible();
        assert(initial_tree(t0) && reloaded(t0, s.tree_spec(), Seq::empty(), root_items@, true));
        s
    }

    /// A search over `root` whose file index is built from the full scan
    /// `scan` at once; hidden files are shown. `root_items` lists the root
    /// directory.
    pub fn new(root: String, scan: &Vec<RawEntry>, root_items: &Vec<DirItem>) -> (s: FileSearch)
        ensures
            s.wf(),
            s.root_view() == root,
            collected(s.files_spec(), scan@, true),
            identity_matches(s.matches_spec(), s.files_spec().len()),
            !s.search_active_view(),
            s.show_hidden_view(),
            !s.indexing_view(),
            exists|t0: Seq<TreeNode>| initial_tree(t0) && reloaded(t0, s.tree_spec(), Seq::empty(), root_items@, true),
    {
        let files = collect_files(scan, true);
        Self::init(root, files, false, root_items)
    }

    /// A search over `root` whose file index comes later, from a background
    /// scan (see `apply_index`); until then it is empty and `indexing` is
    /// set.
    pub fn new_deferred(root: String, root_items: &Vec<DirItem>) -> (s: FileSearch)
        ensures
            s.wf(),
            s.root_view() == root,
            s.files_spec().len() == 0,
            s.matches_spec().len() == 0,
            !s.search_active_view(),
            s.show_hidden_view(),
            s.indexing_view(),
            exists|t0: Seq<TreeNode>| initial_tree(t0) && reloaded(t0, s.tree_spec(), Seq::empty(), root_items@, true),
    {
        Self::init(root, Vec::new(), true, root_items)
    }

    /// Flips whether hidden files are shown, then refreshes from `scan` and
    /// `listings`, which were taken with the new setting.
    pub fn toggle_hidden(&mut self, scan: &Vec<RawEntry>, listings: &Vec<DirListing>)
        requires
            old(self).wf(),
        ensures
            final(self).show_hidden_view() == !old(self).show_hidden_view(),
            refreshed(&*old(self), &*final(self), scan@, listings@),
    {
        let ghost pre = *self;
        self.show_hidden = !self.show_hidden;
        assert(self.matches_spec() == pre.matches_spec() && self.files_spec() == pre.files_spec());
        assert(self.tree_spec() == pre.tree_spec() && self.rows_spec() == pre.rows_spec());
        self.refresh(scan, listings);
    }

    /// Rebuilds the file index from the full scan `scan`, resets the match
    /// list, ends indexing, and reloads the tree nodes that `listings` list
    /// (the root and the expanded directories).
    pub fn refresh(&mut self, scan: &Vec<RawEntry>, listings: &Vec<DirListing>)
        requires
            old(self).wf(),
        ensures
            refreshed(&*old(self), &*final(self), scan@, listings@),
            final(self).show_hidden_view() == old(self).show_hidden_view(),
    {
        let files = collect_files(scan, self.show_hidden);
        self.matches = identity(files.len());
        self.files = files;
        self.indexing = false;
        self.refresh_tree_for_expanded(listings);
    }

    /// Replaces the file index with the result of a background scan.
    pub fn apply_index(&mut self, files: Vec<String>)
        requires
            old(self).wf(),
        ensures
            final(self).wf(),
            final(self).files_spec() == files@,
            identity_matches(final(self).matches_spec(), files@.len()),
            !final(self).indexing_view(),
            final(self).tree_spec() == old(self).tree_spec(),
            final(self).rows_spec() == old(self).rows_spec(),
            final(self).search_active_view() == old(self).search_active_view(),
            final(self).show_hidden_view() == old(self).show_hidden_view(),
            final(self).root_view() == old(self).root_view(),
    {
        self.matches = identity(files.len());
        self.files = files;
        self.indexing = false;
    }

    fn refresh_tree_for_expanded(&mut self, listings: &Vec<DirListing>)
        requires
            old(self).wf(),
        ensures
            final(self).wf(),
            expanded_set(final(self).tree_spec()) == expanded_set(old(self).tree_spec()),
            forall|k: int| 0 <= k < listings@.len() ==> loaded_at(final(self).tree_spec(), str_views(#[trigger] listings@[k].path@)),
            reloaded_in_turn(old(self).tree_spec(), final(self).tree_spec(), listings@, old(self).show_hidden_view()),
            final(self).files_spec() == old(self).files_spec(),
            final(self).matches_spec() == old(self).matches_spec(),
            final(self).root_view() == old(self).root_view(),
            final(self).search_active_view() == old(self).search_active_view(),
            final(self).show_hidden_view() == old(self).show_hidden_view(),
            final(self).indexing_view() == old(self).indexing_view(),
    {
        assert forall|j: int| 0 <= j < self.matches@.len() implies (#[trigger] self.matches@[j]).0 < self.files@.len() by {
            assert(self.matches_spec()[j] == self.matches@[j]);
        }
        let ghost start = self.tree@;
        let ghost files0 = self.files@;
        let ghost matches0 = self.matches@;
        let ghost flags0 = (self.root, self.search_active, self.show_hidden, self.indexing);
        let ghost mut trace: Seq<Seq<TreeNode>> = seq![start];
        let mut k: usize = 0;
        while k < listings.len()
            invariant
                k <= listings.len(),
                self.files@ == files0,
                self.matches@ == matches0,
                (self.root, self.search_active, self.show_hidden, self.indexing) == flags0,
                forall|j: int| 0 <= j < self.matches@.len() ==> (#[trigger] self.matches@[j]).0 < self.files@.len(),
                wf_nodes(self.tree@),
                expanded_set(self.tree@) == expanded_set(start),
                forall|j: int| 0 <= j < k ==> loaded_at(self.tree@, str_views(#[trigger] listings@[j].path@)),
                trace.len() == k + 1,
                trace[0] == start,
                trace[k as int] == self.tree@,
                forall|j: int|
                    0 <= j < k ==> reloaded(
                        #[trigger] trace[j],
                        trace[j + 1],
                        str_views(listings@[j].path@),
                        listings@[j].items@,
                        self.show_hidden,
                    ),
            decreases listings.len() - k,
        {
            let ghost before = self.tree@;
            let l = &listings[k];
            self.tree.reload_children(&l.path, &l.items, self.show_hidden);
            proof {
                lemma_reload_keeps_expanded(before, self.tree@, str_views(l.path@), l.items@, self.show_hidden);
                assert forall|j: int| 0 <= j < k + 1 implies loaded_at(self.tree@, str_views(#[trigger] listings@[j].path@)) by {
                    lemma_reload_keeps_loaded(
                        before,
                        self.tree@,
                        str_views(l.path@),
                        l.items@,
                        self.show_hidden,
                        str_views(listings@[j].path@),
                    );
                }
            }
            proof {
                let t = trace.push(self.tree@);
                assert forall|j: int|
                    0 <= j < k + 1 implies reloaded(
                        #[trigger] t[j],
                        t[j + 1],
                        str_views(listings@[j].path@),
                        listings@[j].items@,
                        self.show_hidden,
                    ) by {
                    if j < k {
                        assert(t[j] == trace[j] && t[j + 1] == trace[j + 1]);
                    }
                }
                trace = t;
            }
            k = k + 1;
        }
        self.rebuild_tree_visible();
        assert(reloaded_in_turn(start, self.tree@, listings@, self.show_hidden));
    }

    fn rebuild_tree_visible(&mut self)
        requires
            wf_nodes(old(self).tree@),
            forall|k: int| 0 <= k < old(self).matches@.len() ==> (#[trigger] old(self).matches@[k]).0 < old(self).files@.len(),
        ensures
            final(self).wf(),
            final(self).tree@ == old(self).tree@,
            final(self).files@ == old(self).files@,
            final(self).matches@ == old(self).matches@,
            final(self).root_view() == old(self).root_view(),
            final(self).search_active_view() == old(self).search_active_view(),
            final(self).show_hidden_view() == old(self).show_hidden_view(),
            final(self).indexing_view() == old(self).indexing_view(),
    {
        self.tree_visible = self.tree.visible();
    }

    /// Flips the expansion of the directory `path`; `items` is its listing,
    /// used when expanding a directory whose children are not loaded yet.
    pub fn toggle_expanded(&mut self, path: &Vec<String>, items: &Vec<DirItem>)
        requires
            old(self).wf(),
        ensures
            final(self).wf(),
            toggle_post(old(self).tree_spec(), final(self).tree_spec(), str_views(path@), items@, old(self).show_hidden_view()),
            entries_view(final(self).rows_spec()) == flatten(final(self).tree_spec()),
            final(self).files_spec() == old(self).files_spec(),
            final(self).matches_spec() == old(self).matches_spec(),
            final(self).search_active_view() == old(self).search_active_view(),
            final(self).show_hidden_view() == old(self).show_hidden_view(),
            final(self).indexing_view() == old(self).indexing_view(),
    {
        assert forall|j: int| 0 <= j < self.matches@.len() implies (#[trigger] self.matches@[j]).0 < self.files@.len() by {
            assert(self.matches_spec()[j] == self.matches@[j]);
        }
        self.tree.toggle_expanded(path, items, self.show_hidden);
        self.rebuild_tree_visible();
    }

    /// Marks the background scan as over without a result.
    pub fn end_indexing(&mut self)
        requires
            old(self).wf(),
        ensures
            final(self).wf(),
            !final(self).indexing_view(),
            final(self).files_spec() == old(self).files_spec(),
            final(self).matches_spec() == old(self).matches_spec(),
            final(self).tree_spec() == old(self).tree_spec(),
            final(self).rows_spec() == old(self).rows_spec(),
            final(self).search_active_view() == old(self).search_active_view(),
            final(self).show_hidden_view() == old(self).show_hidden_view(),
    {
        let ghost pre = *self;
        self.indexing = false;
        assert(self.matches_spec() == pre.matches_spec() && self.files_spec() == pre.files_spec());
        assert(self.tree_spec() == pre.tree_spec() && self.rows_spec() == pre.rows_spec());
    }

    pub fn is_indexing(&self) -> (r: bool)
        ensures
            r == self.indexing_view(),
    {
        self.indexing
    }

    pub fn is_search_active(&self) -> (r: bool)
        ensures
            r == self.search_active_view(),
    {
        self.search_active
    }

    /// Whether expanding `path` needs its directory listing.
    pub fn needs_load(&self, path: &Vec<String>) -> (r: bool)
        requires
            self.wf(),
        ensures
            r == (!expanded_set(self.tree_spec()).contains(str_views(path@)) && !loaded_at(
                self.tree_spec(),
                str_views(path@),
            )),
    {
        if self.tree.is_expanded(path) {
            return false;
        }
        match self.tree.find_node(path) {
            Some(q) => {
                let loaded = self.tree.node(q).children_loaded;
                proof {
                    if !loaded {
                        assert forall|j: int| #[trigger] crate::tree::has_path(self.tree@, str_views(path@), j) implies !self.tree@[j].children_loaded by {
                            if j != q {
                                assert(crate::tree::npath(self.tree@[j]) != crate::tree::npath(self.tree@[q as int]));
                            }
                        }
                    }
                }
                !loaded
            },
            None => true,
        }
    }

    /// The expanded directories other than the root, whose listings a
    /// refresh needs.
    pub fn expanded_paths(&self) -> (r: Vec<Vec<String>>)
        requires
            self.wf(),
        ensures
            forall|k: int|
                0 <= k < r.len() ==> str_views((#[trigger] r@[k])@).len() > 0 && expanded_set(self.tree_spec()).contains(
                    str_views(r@[k]@),
                ),
            forall|x: Seq<Seq<char>>|
                #[trigger] expanded_set(self.tree_spec()).contains(x) && x.len() > 0 ==> exists|k: int|
                    0 <= k < r.len() && str_views(#[trigger] r@[k]@) == x,
    {
        self.tree.expanded_paths()
    }

    pub fn is_expanded(&self, path: &Vec<String>) -> (r: bool)
        requires
            self.wf(),
        ensures
            r == expanded_set(self.tree_spec()).contains(str_views(path@)),
    {
        self.tree.is_expanded(path)
    }

    pub fn visible_len(&self) -> (r: usize)
        requires
            self.wf(),
        ensures
            r == flatten(self.tree_spec()).len(),
    {
        self.tree_visible.len()
    }

    pub fn visible_entry_at(&self, index: usize) -> (r: Option<&Entry>)
        requires
            self.wf(),
        ensures
            r is None <==> index >= flatten(self.tree_spec()).len(),
            r matches Some(e) ==> entry_view(*e) == flatten(self.tree_spec())[index as int],
    {
        if index < self.tree_visible.len() {
            assert(entries_view(self.tree_visible@)[index as int] == entry_view(self.tree_visible@[index as int]));
            Some(&self.tree_visible[index])
        } else {
            None
        }
    }

    /// Re-ranks the files for `query`; an empty query ends search mode and
    /// restores the identity match list.
    pub fn update_query(&mut self, query: &String)
        requires
            old(self).wf(),
        ensures
            final(self).wf(),
            final(self).search_active_view() == (query@.len() > 0),
            final(self).matches_query(query@),
            final(self).files_spec() == old(self).files_spec(),
            final(self).tree_spec() == old(self).tree_spec(),
            final(self).rows_spec() == old(self).rows_spec(),
            final(self).show_hidden_view() == old(self).show_hidden_view(),
            final(self).indexing_view() == old(self).indexing_view(),
    {
        self.search_active = !query.as_str().is_empty();
        self.matches = rank(&mut self.matcher, &self.files, query);
    }

    /// The number of rows on display: matches in search mode, tree rows
    /// otherwise.
    pub fn match_count(&self) -> (r: usize)
        requires
            self.wf(),
        ensures
            r == if self.search_active_view() {
                self.matches_spec().len()
            } else {
                flatten(self.tree_spec()).len()
            },
    {
        if self.search_active {
            self.matches.len()
        } else {
            self.tree_visible.len()
        }
    }

    pub fn get_visible_entry(&self, index: usize) -> (r: Option<&Entry>)
        requires
            self.wf(),
        ensures
            r is None <==> index >= flatten(self.tree_spec()).len(),
            r matches Some(e) ==> entry_view(*e) == flatten(self.tree_spec())[index as int],
    {
        self.visible_entry_at(index)
    }

    /// The path and score of the match at `index`.
    pub fn match_path_at(&self, index: usize) -> (r: Option<(&String, u32)>)
        requires
            self.wf(),
        ensures
            r is None <==> index >= self.matches_spec().len(),
            r matches Some(m) ==> *m.0 == self.files_spec()[self.matches_spec()[index as int].0 as int]
                && m.1 == self.matches_spec()[index as int].1,
    {
        if index < self.matches.len() {
            assert(self.matches_spec()[index as int].0 < self.files_spec().len());
            let (i, score) = self.matches[index];
            Some((&self.files[i], score))
        } else {
            None
        }
    }

    /// The path, relative to the root, of the file on row `index`: a match
    /// in search mode, a tree row otherwise (none for a directory row).
    pub fn get_match(&self, index: usize) -> (r: Option<String>)
        requires
            self.wf(),
        ensures
            self.search_active_view() ==> {
                &&& r is None <==> index >= self.matches_spec().len()
                &&& r matches Some(p) ==> p@ == self.files_spec()[self.matches_spec()[index as int].0 as int]@
            },
            !self.search_active_view() ==> {
                &&& r is None <==> (index >= flatten(self.tree_spec()).len() || flatten(self.tree_spec())[index as int].1)
                &&& r matches Some(p) ==> p@ == join_parts(flatten(self.tree_spec())[index as int].0)
            },
    {
        if self.search_active {
            if index < self.matches.len() {
                assert(self.matches_spec()[index as int].0 < self.files_spec().len());
                Some(self.files[self.matches[index].0].clone())
            } else {
                None
            }
        } else {
            match self.visible_entry_at(index) {
                Some(e) => {
                    if e.is_dir {
                        None
                    } else {
                        Some(join_path(&e.path))
                    }
                },
                None => None,
            }
        }
    }
}

/// What `refresh` does: the file index is rebuilt from `scan`, the match list
/// reset, indexing ended, and the tree nodes of `listings` reloaded, with the
/// expanded set kept.
pub open spec fn refreshed(old: &FileSearch, new: &FileSearch, scan: Seq<RawEntry>, listings: Seq<DirListing>) -> bool {
    &&& new.wf()
    &&& collected(new.files_spec(), scan, new.show_hidden_view())
    &&& identity_matches(new.matches_spec(), new.files_spec().len())
    &&& !new.indexing_view()
    &&& new.search_active_view() == old.search_active_view()
    &&& new.root_view() == old.root_view()
    &&& expanded_set(new.tree_spec()) == expanded_set(old.tree_spec())
    &&& forall|k: int| 0 <= k < listings.len() ==> loaded_at(new.tree_spec(), str_views(#[trigger] listings[k].path@))
    &&& reloaded_in_turn(old.tree_spec(), new.tree_spec(), listings, new.show_hidden_view())
}

} // verus!
