use vstd::prelude::*;
use crate::order::{SortKey, lex_lt, pair_lt, key_lt, is_permutation, sort_order};
use crate::text::{chars_of, lower_of, lowercase};

verus! {

/// One item of a recursive walk below the root: the components of its path
/// relative to the root, and what kind of filesystem object it is.
#[derive(Debug)]
pub struct RawEntry {
    pub parts: Vec<String>,
    pub is_dir: bool,
    pub is_file: bool,
}

/// One item of a single directory's listing.
#[derive(Debug)]
pub struct DirItem {
    pub name: String,
    pub is_dir: bool,
}

/// The listing of one directory below the root.
#[derive(Debug)]
pub struct DirListing {
    pub path: Vec<String>,
    pub items: Vec<DirItem>,
}

/// A kept item of a full scan: its path relative to the root, `/`-separated.
#[derive(Debug)]
pub struct WalkEntry {
    pub path: String,
    pub is_dir: bool,
}

pub open spec fn str_views(p: Seq<String>) -> Seq<Seq<char>> {
    p.map_values(|s: String| s@)
}

/// A dotfile or dot-directory name.
pub open spec fn is_hidden_name(n: Seq<char>) -> bool {
    n.len() > 0 && n[0] == '.'
}

/// The reserved version-control metadata directory.
pub open spec fn is_vcs_name(n: Seq<char>) -> bool {
    n == seq!['.', 'g', 'i', 't']
}

pub open spec fn visible_name(n: Seq<char>, show_hidden: bool) -> bool {
    !is_vcs_name(n) && (show_hidden || !is_hidden_name(n))
}

/// A path below the root none of whose components is filtered out.
pub open spec fn visible_path(parts: Seq<Seq<char>>, show_hidden: bool) -> bool {
    parts.len() > 0 && forall|i: int| 0 <= i < parts.len() ==> visible_name(#[trigger] parts[i], show_hidden)
}

/// The components joined with `/`.
pub open spec fn join_parts(parts: Seq<Seq<char>>) -> Seq<char>
    decreases parts.len(),
{
    if parts.len() == 0 {
        Seq::empty()
    } else if parts.len() == 1 {
        parts[0]
    } else {
        join_parts(parts.drop_last()) + seq!['/'] + parts.last()
    }
}

pub open spec fn entry_kept(e: RawEntry, show_hidden: bool) -> bool {
    visible_path(str_views(e.parts@), show_hidden)
}

pub open spec fn file_kept(e: RawEntry, show_hidden: bool) -> bool {
    e.is_file && entry_kept(e, show_hidden)
}

/// The paths of the files that a full scan keeps, in walk order.
pub open spec fn kept_files(raw: Seq<RawEntry>, show_hidden: bool) -> Seq<Seq<char>>
    decreases raw.len(),
{
    if raw.len() == 0 {
        Seq::empty()
    } else {
        let rest = kept_files(raw.drop_last(), show_hidden);
        if file_kept(raw.last(), show_hidden) {
            rest.push(join_parts(str_views(raw.last().parts@)))
        } else {
            rest
        }
    }
}

/// The entries (path, is_dir) that a full scan keeps, in walk order.
pub open spec fn kept_entries(raw: Seq<RawEntry>, show_hidden: bool) -> Seq<(Seq<char>, bool)>
    decreases raw.len(),
{
    if raw.len() == 0 {
        Seq::empty()
    } else {
        let rest = kept_entries(raw.drop_last(), show_hidden);
        if entry_kept(raw.last(), show_hidden) {
            rest.push((join_parts(str_views(raw.last().parts@)), raw.last().is_dir))
        } else {
            rest
        }
    }
}

/// Non-decreasing by the strings' lexicographic order.
pub open spec fn texts_sorted(s: Seq<Seq<char>>) -> bool {
    forall|k: int| 0 < k < s.len() ==> !lex_lt(#[trigger] s[k], s[k - 1])
}

/// The order in which a single directory listing is shown: directories
/// first, then by lower-cased name.
pub open spec fn listing_key(name: Seq<char>, is_dir: bool) -> (u32, Seq<char>) {
    (if is_dir { 0u32 } else { 1u32 }, lower_of(name))
}

pub open spec fn item_view(d: DirItem) -> (Seq<char>, bool) {
    (d.name@, d.is_dir)
}

pub open spec fn items_view(s: Seq<DirItem>) -> Seq<(Seq<char>, bool)> {
    s.map_values(|d: DirItem| item_view(d))
}

pub open spec fn listing_sorted(s: Seq<(Seq<char>, bool)>) -> bool {
    forall|k: int|
        0 < k < s.len() ==> !pair_lt(
            listing_key((#[trigger] s[k]).0, s[k].1),
            listing_key(s[k - 1].0, s[k - 1].1),
        )
}

/// The items of a listing that are kept, in listing order.
pub open spec fn kept_items(items: Seq<DirItem>, show_hidden: bool) -> Seq<(Seq<char>, bool)>
    decreases items.len(),
{
    if items.len() == 0 {
        Seq::empty()
    } else {
        let rest = kept_items(items.drop_last(), show_hidden);
        if visible_name(items.last().name@, show_hidden) {
            rest.push((items.last().name@, items.last().is_dir))
        } else {
            rest
        }
    }
}

fn is_vcs(n: &String) -> (r: bool)
    ensures
        r == is_vcs_name(n@),
{
    let c = chars_of(n.as_str());
    let r = c.len() == 4 && c[0] == '.' && c[1] == 'g' && c[2] == 'i' && c[3] == 't';
    assert(r ==> c@ =~= seq!['.', 'g', 'i', 't']);
    r
}

/// Whether a name survives the walk's filters.
pub fn name_visible(n: &String, show_hidden: bool) -> (r: bool)
    ensures
        r == visible_name(n@, show_hidden),
{
    if is_vcs(n) {
        return false;
    }
    if show_hidden {
        return true;
    }
    let c = chars_of(n.as_str());
    !(c.len() > 0 && c[0] == '.')
}

/// Whether a path below the root survives the walk's filters.
pub fn path_visible(parts: &Vec<String>, show_hidden: bool) -> (r: bool)
    ensures
        r == visible_path(str_views(parts@), show_hidden),
{
    if parts.len() == 0 {
        return false;
    }
    let mut i: usize = 0;
    while i < parts.len()
        invariant
            i <= parts.len(),
            forall|j: int| 0 <= j < i ==> visible_name(#[trigger] str_views(parts@)[j], show_hidden),
        decreases parts.len() - i,
    {
        if !name_visible(&parts[i], show_hidden) {
            assert(str_views(parts@)[i as int] == parts@[i as int]@);
            return false;
        }
        i = i + 1;
    }
    true
}

/// The components joined with `/`.
pub fn join_path(parts: &Vec<String>) -> (r: String)
    ensures
        r@ == join_parts(str_views(parts@)),
{
    let mut r = String::new();
    let mut i: usize = 0;
    while i < parts.len()
        invariant
            i <= parts.len(),
            r@ == join_parts(str_views(parts@.take(i as int))),
        decreases parts.len() - i,
    {
        assert(str_views(parts@.take(i as int + 1)).drop_last() =~= str_views(parts@.take(i as int)));
        proof {
            reveal_strlit("/");
        }
        assert(str_views(parts@.take(i as int + 1)).last() == parts@[i as int]@);
        if i > 0 {
            r.append("/");
        }
        r.append(parts[i].as_str());
        i = i + 1;
        assert(r@ =~= join_parts(str_views(parts@.take(i as int))));
    }
    assert(parts@.take(i as int) =~= parts@);
    r
}

/// Orders positions of `texts` lexicographically.
fn sort_texts(texts: &Vec<String>) -> (order: Vec<usize>)
    ensures
        is_permutation(order@, texts@.len()),
        forall|k: int|
            0 < k < order.len() ==> !lex_lt(
                #[trigger] texts@[order@[k] as int]@,
                texts@[order@[k - 1] as int]@,
            ),
{
    let mut keys: Vec<SortKey> = Vec::new();
    let mut i: usize = 0;
    while i < texts.len()
        invariant
            i <= texts.len(),
            keys.len() == i,
            forall|j: int| 0 <= j < i ==> (#[trigger] keys@[j]).rank == 0 && keys@[j].text@ == texts@[j]@,
        decreases texts.len() - i,
    {
        keys.push(SortKey { rank: 0, text: chars_of(texts[i].as_str()) });
        i = i + 1;
    }
    let order = sort_order(&keys);
    assert forall|k: int| 0 < k < order.len() implies !lex_lt(
        #[trigger] texts@[order@[k] as int]@,
        texts@[order@[k - 1] as int]@,
    ) by {
        assert(!key_lt(keys@[order@[k] as int], keys@[order@[k - 1] as int]));
    }
    order
}

/// `r` holds the paths of the kept files of `raw`, sorted.
pub open spec fn collected(r: Seq<String>, raw: Seq<RawEntry>, show_hidden: bool) -> bool {
    &&& r.len() == kept_files(raw, show_hidden).len()
    &&& exists|perm: Seq<usize>|
        is_permutation(perm, r.len() as nat) && forall|k: int|
            0 <= k < r.len() ==> (#[trigger] r[k])@ == kept_files(raw, show_hidden)[perm[k] as int]
    &&& texts_sorted(str_views(r))
}

/// The files of a full scan: kept files only, by path string.
pub fn collect_files(raw: &Vec<RawEntry>, show_hidden: bool) -> (r: Vec<String>)
    ensures
        collected(r@, raw@, show_hidden),
{
    let mut found: Vec<String> = Vec::new();
    let mut i: usize = 0;
    while i < raw.len()
        invariant
            i <= raw.len(),
            str_views(found@) == kept_files(raw@.take(i as int), show_hidden),
        decreases raw.len() - i,
    {
        assert(raw@.take(i as int + 1).drop_last() =~= raw@.take(i as int));
        if raw[i].is_file && path_visible(&raw[i].parts, show_hidden) {
            found.push(join_path(&raw[i].parts));
        }
        i = i + 1;
        assert(str_views(found@) =~= kept_files(raw@.take(i as int), show_hidden));
    }
    assert(raw@.take(i as int) =~= raw@);
    let order = sort_texts(&found);
    let mut r: Vec<String> = Vec::new();
    let mut k: usize = 0;
    while k < order.len()
        invariant
            k <= order.len(),
            is_permutation(order@, found@.len()),
            r.len() == k,
            forall|j: int| 0 <= j < k ==> (#[trigger] r@[j]) == found@[order@[j] as int],
        decreases order.len() - k,
    {
        r.push(found[order[k]].clone());
        k = k + 1;
    }
    assert forall|k: int| 0 <= k < r.len() implies (#[trigger] r@[k])@ == kept_files(raw@, show_hidden)[order@[k] as int] by {
        assert(str_views(found@)[order@[k] as int] == found@[order@[k] as int]@);
    }
    assert forall|k: int| 0 < k < r.len() implies !lex_lt(
        #[trigger] str_views(r@)[k],
        str_views(r@)[k - 1],
    ) by {
        assert(r@[k] == found@[order@[k] as int]);
        assert(r@[k - 1] == found@[order@[k - 1] as int]);
    }
    r
}

/// The entries of a full scan: kept entries, files and directories, by path
/// string.
pub fn scan_entries(raw: &Vec<RawEntry>, show_hidden: bool) -> (r: Vec<WalkEntry>)
    ensures
        r.len() == kept_entries(raw@, show_hidden).len(),
        exists|perm: Seq<usize>|
            is_permutation(perm, r.len() as nat) && forall|k: int|
                0 <= k < r.len() ==> walk_view(#[trigger] r@[k]) == kept_entries(raw@, show_hidden)[perm[k] as int],
        texts_sorted(walk_paths(r@)),
{
    let mut paths: Vec<String> = Vec::new();
    let mut dirs: Vec<bool> = Vec::new();
    let mut i: usize = 0;
    while i < raw.len()
        invariant
            i <= raw.len(),
            paths.len() == dirs.len(),
            paths.len() == kept_entries(raw@.take(i as int), show_hidden).len(),
            forall|j: int| 0 <= j < paths.len() ==> (#[trigger] paths@[j]@, dirs@[j]) == kept_entries(raw@.take(i as int), show_hidden)[j],
        decreases raw.len() - i,
    {
        assert(raw@.take(i as int + 1).drop_last() =~= raw@.take(i as int));
        if path_visible(&raw[i].parts, show_hidden) {
            paths.push(join_path(&raw[i].parts));
            dirs.push(raw[i].is_dir);
        }
        i = i + 1;
    }
    assert(raw@.take(i as int) =~= raw@);
    let order = sort_texts(&paths);
    let mut r: Vec<WalkEntry> = Vec::new();
    let mut k: usize = 0;
    while k < order.len()
        invariant
            k <= order.len(),
            is_permutation(order@, paths@.len()),
            paths.len() == dirs.len(),
            r.len() == k,
            forall|j: int| 0 <= j < k ==> (#[trigger] r@[j]).path == paths@[order@[j] as int] && r@[j].is_dir == dirs@[order@[j] as int],
        decreases order.len() - k,
    {
        r.push(WalkEntry { path: paths[order[k]].clone(), is_dir: dirs[order[k]] });
        k = k + 1;
    }
    assert forall|k: int| 0 < k < r.len() implies !lex_lt(
        #[trigger] walk_paths(r@)[k],
        walk_paths(r@)[k - 1],
    ) by {
        assert(r@[k].path == paths@[order@[k] as int]);
        assert(r@[k - 1].path == paths@[order@[k - 1] as int]);
    }
    r
}

pub open spec fn walk_view(e: WalkEntry) -> (Seq<char>, bool) {
    (e.path@, e.is_dir)
}

pub open spec fn walk_paths(s: Seq<WalkEntry>) -> Seq<Seq<char>> {
    s.map_values(|e: WalkEntry| e.path@)
}

/// A single directory's listing as shown: kept items, directories first, each
/// group by lower-cased name.
pub fn order_listing(items: &Vec<DirItem>, show_hidden: bool) -> (r: Vec<DirItem>)
    ensures
        r.len() == kept_items(items@, show_hidden).len(),
        exists|perm: Seq<usize>|
            is_permutation(perm, r.len() as nat) && forall|k: int|
                0 <= k < r.len() ==> item_view(#[trigger] r@[k]) == kept_items(items@, show_hidden)[perm[k] as int],
        listing_sorted(items_view(r@)),
{
    let mut kept: Vec<DirItem> = Vec::new();
    let mut keys: Vec<SortKey> = Vec::new();
    let mut i: usize = 0;
    while i < items.len()
        invariant
            i <= items.len(),
            kept.len() == keys.len(),
            kept.len() == kept_items(items@.take(i as int), show_hidden).len(),
            forall|j: int| 0 <= j < kept.len() ==> item_view(#[trigger] kept@[j]) == kept_items(items@.take(i as int), show_hidden)[j],
            forall|j: int| 0 <= j < kept.len() ==> (#[trigger] keys@[j]).rank == listing_key(kept@[j].name@, kept@[j].is_dir).0
                && keys@[j].text@ == listing_key(kept@[j].name@, kept@[j].is_dir).1,
        decreases items.len() - i,
    {
        assert(items@.take(i as int + 1).drop_last() =~= items@.take(i as int));
        if name_visible(&items[i].name, show_hidden) {
            let rank: u32 = if items[i].is_dir { 0 } else { 1 };
            let lower = lowercase(items[i].name.as_str());
            keys.push(SortKey { rank, text: chars_of(lower.as_str()) });
            kept.push(DirItem { name: items[i].name.clone(), is_dir: items[i].is_dir });
        }
        i = i + 1;
    }
    assert(items@.take(i as int) =~= items@);
    let order = sort_order(&keys);
    let mut r: Vec<DirItem> = Vec::new();
    let mut k: usize = 0;
    while k < order.len()
        invariant
            k <= order.len(),
            is_permutation(order@, keys@.len()),
            kept.len() == keys.len(),
            r.len() == k,
            forall|j: int| 0 <= j < k ==> item_view(#[trigger] r@[j]) == item_view(kept@[order@[j] as int]),
        decreases order.len() - k,
    {
        let d = &kept[order[k]];
        r.push(DirItem { name: d.name.clone(), is_dir: d.is_dir });
        k = k + 1;
    }
    assert forall|k: int| 0 < k < r.len() implies !pair_lt(
        listing_key((#[trigger] items_view(r@)[k]).0, items_view(r@)[k].1),
        listing_key(items_view(r@)[k - 1].0, items_view(r@)[k - 1].1),
    ) by {
        assert(!key_lt(keys@[order@[k] as int], keys@[order@[k - 1] as int]));
    }
    r
}

/// Every path that a full scan keeps is made of visible components: with
/// `show_hidden` unset no component is a dotfile or dot-directory, and no
/// component is the version-control metadata directory in any case.
pub proof fn lemma_scan_excludes_filtered(raw: Seq<RawEntry>, show_hidden: bool, k: int)
    requires
        0 <= k < kept_entries(raw, show_hidden).len(),
    ensures
        exists|i: int|
            0 <= i < raw.len() && visible_path(str_views(#[trigger] raw[i].parts@), show_hidden)
                && kept_entries(raw, show_hidden)[k] == (join_parts(str_views(raw[i].parts@)), raw[i].is_dir),
    decreases raw.len(),
{
    let rest = kept_entries(raw.drop_last(), show_hidden);
    if k < rest.len() {
        lemma_scan_excludes_filtered(raw.drop_last(), show_hidden, k);
        let i = choose|i: int|
            0 <= i < raw.drop_last().len() && visible_path(str_views(#[trigger] raw.drop_last()[i].parts@), show_hidden)
                && rest[k] == (join_parts(str_views(raw.drop_last()[i].parts@)), raw.drop_last()[i].is_dir);
        assert(raw[i] == raw.drop_last()[i]);
    } else {
        assert(raw[raw.len() - 1] == raw.last());
    }
}

/// Every file path that a full scan keeps is made of visible components
/// (see `lemma_scan_excludes_filtered`).
pub proof fn lemma_files_exclude_filtered(raw: Seq<RawEntry>, show_hidden: bool, k: int)
    requires
        0 <= k < kept_files(raw, show_hidden).len(),
    ensures
        exists|i: int|
            0 <= i < raw.len() && raw[i].is_file && visible_path(str_views(#[trigger] raw[i].parts@), show_hidden)
                && kept_files(raw, show_hidden)[k] == join_parts(str_views(raw[i].parts@)),
    decreases raw.len(),
{
    let rest = kept_files(raw.drop_last(), show_hidden);
    if k < rest.len() {
        lemma_files_exclude_filtered(raw.drop_last(), show_hidden, k);
        let i = choose|i: int|
            0 <= i < raw.drop_last().len() && raw.drop_last()[i].is_file && visible_path(
                str_views(#[trigger] raw.drop_last()[i].parts@),
                show_hidden,
            ) && rest[k] == join_parts(str_views(raw.drop_last()[i].parts@));
        assert(raw[i] == raw.drop_last()[i]);
    } else {
        assert(raw[raw.len() - 1] == raw.last());
    }
}

/// One component of a path typed by the user.
pub enum PathPart {
    /// A root directory or a drive prefix.
    Root,
    /// `.`
    CurDir,
    /// `..`
    ParentDir,
    Normal(String),
}

/// The components left after resolving `.` and `..` from left to right;
/// `None` where the path is absolute or climbs above its start.
pub open spec fn normalized(parts: Seq<PathPart>) -> Option<Seq<Seq<char>>>
    decreases parts.len(),
{
    if parts.len() == 0 {
        Some(Seq::empty())
    } else {
        match normalized(parts.drop_last()) {
            None => None,
            Some(out) => match parts.last() {
                PathPart::Root => None,
                PathPart::CurDir => Some(out),
                PathPart::ParentDir => if out.len() == 0 {
                    None
                } else {
                    Some(out.drop_last())
                },
                PathPart::Normal(n) => Some(out.push(n@)),
            },
        }
    }
}

/// Resolves `.` and `..` in a relative path; `None` where it is absolute or
/// would leave the root.
pub fn normalize_relative(parts: &Vec<PathPart>) -> (r: Option<Vec<String>>)
    ensures
        r is None <==> normalized(parts@) is None,
        r matches Some(v) ==> normalized(parts@) == Some(str_views(v@)),
{
    let mut out: Vec<String> = Vec::new();
    let mut i: usize = 0;
    assert(parts@.take(0) =~= Seq::<PathPart>::empty());
    assert(str_views(out@) =~= Seq::<Seq<char>>::empty());
    while i < parts.len()
        invariant
            i <= parts.len(),
            normalized(parts@.take(i as int)) == Some(str_views(out@)),
        decreases parts.len() - i,
    {
        assert(parts@.take(i as int + 1).drop_last() =~= parts@.take(i as int));
        assert(parts@.take(i as int + 1).last() == parts@[i as int]);
        match &parts[i] {
            PathPart::Root => {
                proof {
                    lemma_normalized_stays_none(parts@, i as int + 1);
                }
                return None;
            },
            PathPart::CurDir => {},
            PathPart::ParentDir => {
                if out.len() == 0 {
                    proof {
                        lemma_normalized_stays_none(parts@, i as int + 1);
                    }
                    return None;
                }
                let ghost before = out@;
                let _ = out.pop();
                assert(str_views(out@) =~= str_views(before).drop_last());
            },
            PathPart::Normal(n) => {
                let ghost before = out@;
                out.push(n.clone());
                assert(str_views(out@) =~= str_views(before).push(n@));
            },
        }
        i = i + 1;
    }
    assert(parts@.take(i as int) =~= parts@);
    Some(out)
}

proof fn lemma_normalized_stays_none(parts: Seq<PathPart>, k: int)
    requires
        0 <= k <= parts.len(),
        normalized(parts.take(k)) is None,
    ensures
        normalized(parts) is None,
    decreases parts.len() - k,
{
    if k < parts.len() {
        assert(parts.take(k + 1).drop_last() =~= parts.take(k));
        lemma_normalized_stays_none(parts, k + 1);
    } else {
        assert(parts.take(k) =~= parts);
    }
}

} // verus!
