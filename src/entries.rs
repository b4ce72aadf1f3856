use vstd::prelude::*;
use crate::order::{SortKey, key_lt, is_permutation, lex_lt, sort_order};
use crate::text::{chars_of, lower_of, lowercase};
use crate::tree::{Entry, clone_path, same_path};
use crate::walker::{RawEntry, collected, collect_files, entry_kept, path_visible, str_views};

verus! {

/// A row of the full outline: its path components and whether it is a
/// directory.
pub type OutlineItem = (Seq<Seq<char>>, bool);

/// The rows that one walk entry contributes: a kept file gives itself and
/// every directory above it, a kept directory gives itself.
pub open spec fn contribution(e: RawEntry, show_hidden: bool) -> Set<OutlineItem> {
    let p = str_views(e.parts@);
    if !entry_kept(e, show_hidden) {
        Set::empty()
    } else if e.is_file {
        Set::new(|x: OutlineItem| x == (p, false) || ancestor_row(x, p, p.len() as int))
    } else if e.is_dir {
        set![(p, true)]
    } else {
        Set::empty()
    }
}

/// `x` is the directory row of one of the first `k - 1` proper prefixes of
/// `p` (the non-empty ones shorter than `k`).
pub open spec fn ancestor_row(x: OutlineItem, p: Seq<Seq<char>>, k: int) -> bool {
    x.1 && 1 <= x.0.len() < k && x.0.len() < p.len() && x.0 == p.take(x.0.len() as int)
}

/// The rows of the full outline of a walk.
pub open spec fn outline_rows(raw: Seq<RawEntry>, show_hidden: bool) -> Set<OutlineItem>
    decreases raw.len(),
{
    if raw.len() == 0 {
        Set::empty()
    } else {
        outline_rows(raw.drop_last(), show_hidden).union(contribution(raw.last(), show_hidden))
    }
}

/// The sort key of an outline row, written out as one string: for each
/// component a marker (`0` for a directory, `1` for the file that ends a
/// file's path), its lower-cased name, and a NUL terminator.
pub open spec fn outline_key(parts: Seq<Seq<char>>, is_dir: bool) -> Seq<char>
    decreases parts.len(),
{
    if parts.len() == 0 {
        Seq::empty()
    } else {
        let marker = if is_dir { '0' } else { '1' };
        outline_key_dirs(parts.drop_last()) + seq![marker] + lower_of(parts.last()) + seq!['\0']
    }
}

/// The key of a run of directory components.
pub open spec fn outline_key_dirs(parts: Seq<Seq<char>>) -> Seq<char>
    decreases parts.len(),
{
    if parts.len() == 0 {
        Seq::empty()
    } else {
        outline_key_dirs(parts.drop_last()) + seq!['0'] + lower_of(parts.last()) + seq!['\0']
    }
}

pub open spec fn outline_view(e: Entry) -> OutlineItem {
    (str_views(e.path@), e.is_dir)
}

pub open spec fn row_views(rows: Seq<Entry>) -> Seq<OutlineItem> {
    rows.map_values(|e: Entry| outline_view(e))
}

/// Rows with distinct contents, each at the depth its path gives.
pub open spec fn rows_ok(rows: Seq<Entry>) -> bool {
    &&& forall|a: int, b: int|
        0 <= a < rows.len() && 0 <= b < rows.len() && a != b ==> outline_view(rows[a]) != outline_view(rows[b])
    &&& forall|k: int|
        0 <= k < rows.len() ==> (#[trigger] rows[k]).path@.len() >= 1 && rows[k].depth == rows[k].path@.len() - 1
}

fn add_row(rows: &mut Vec<Entry>, parts: Vec<String>, is_dir: bool)
    requires
        parts@.len() >= 1,
        rows_ok(old(rows)@),
    ensures
        rows_ok(final(rows)@),
        row_views(final(rows)@).to_set() == row_views(old(rows)@).to_set().insert((str_views(parts@), is_dir)),
{
    let ghost x = (str_views(parts@), is_dir);
    let mut k: usize = 0;
    while k < rows.len()
        invariant
            k <= rows.len(),
            rows_ok(rows@),
            parts@.len() >= 1,
            x == (str_views(parts@), is_dir),
            forall|j: int| 0 <= j < k ==> outline_view(#[trigger] rows@[j]) != x,
        decreases rows.len() - k,
    {
        if rows[k].is_dir == is_dir && same_path(&rows[k].path, &parts) {
            assert(row_views(rows@)[k as int] == x);
            assert(row_views(rows@).to_set().insert(x) =~= row_views(rows@).to_set());
            return;
        }
        k = k + 1;
    }
    let ghost before = rows@;
    let depth = parts.len() - 1;
    rows.push(Entry { path: parts, is_dir, depth });
    assert(row_views(rows@) =~= row_views(before).push(x));
    assert(row_views(rows@).to_set() =~= row_views(before).to_set().insert(x)) by {
        row_views(before).lemma_push_to_set_commute(x);
    }
    assert forall|a: int, b: int|
        0 <= a < rows@.len() && 0 <= b < rows@.len() && a != b implies outline_view(rows@[a]) != outline_view(rows@[b]) by {
        if a < before.len() && b < before.len() {
            assert(rows@[a] == before[a] && rows@[b] == before[b]);
        } else if a < before.len() {
            assert(rows@[a] == before[a]);
        } else {
            assert(rows@[b] == before[b]);
        }
    }
}

fn prefix_path(parts: &Vec<String>, k: usize) -> (r: Vec<String>)
    requires
        k <= parts.len(),
    ensures
        r@ == parts@.take(k as int),
{
    let mut r: Vec<String> = Vec::new();
    let mut j: usize = 0;
    while j < k
        invariant
            j <= k <= parts.len(),
            r@ == parts@.take(j as int),
        decreases k - j,
    {
        r.push(parts[j].clone());
        j = j + 1;
        assert(r@ =~= parts@.take(j as int));
    }
    r
}

fn key_for(parts: &Vec<String>, is_dir: bool) -> (r: Vec<char>)
    requires
        parts.len() > 0,
    ensures
        r@ == outline_key(str_views(parts@), is_dir),
{
    let mut r: Vec<char> = Vec::new();
    let mut j: usize = 0;
    while j + 1 < parts.len()
        invariant
            j + 1 <= parts.len(),
            r@ == outline_key_dirs(str_views(parts@.take(j as int))),
        decreases parts.len() - j,
    {
        assert(str_views(parts@.take(j as int + 1)).drop_last() =~= str_views(parts@.take(j as int)));
        assert(str_views(parts@.take(j as int + 1)).last() == parts@[j as int]@);
        r.push('0');
        let lower = chars_of(lowercase(parts[j].as_str()).as_str());
        let mut c: usize = 0;
        let ghost base = r@;
        while c < lower.len()
            invariant
                c <= lower.len(),
                r@ == base + lower@.take(c as int),
            decreases lower.len() - c,
        {
            r.push(lower[c]);
            c = c + 1;
            assert(r@ =~= base + lower@.take(c as int));
        }
        r.push('\0');
        j = j + 1;
        assert(r@ =~= outline_key_dirs(str_views(parts@.take(j as int))));
    }
    let last = parts.len() - 1;
    assert(str_views(parts@).drop_last() =~= str_views(parts@.take(last as int)));
    r.push(if is_dir { '0' } else { '1' });
    let lower = chars_of(lowercase(parts[last].as_str()).as_str());
    let mut c: usize = 0;
    let ghost base = r@;
    while c < lower.len()
        invariant
            c <= lower.len(),
            r@ == base + lower@.take(c as int),
        decreases lower.len() - c,
    {
        r.push(lower[c]);
        c = c + 1;
        assert(r@ =~= base + lower@.take(c as int));
    }
    r.push('\0');
    assert(lower@.take(c as int) =~= lower@);
    assert(r@ =~= outline_key(str_views(parts@), is_dir));
    r
}

/// The files of a full scan, and its outline: every kept file and
/// directory, and every directory above a kept file, once each, at the
/// depth of its path, ordered level by level with directories before files
/// and names compared lower-cased.
pub fn collect_entries(raw: &Vec<RawEntry>, show_hidden: bool) -> (r: (Vec<String>, Vec<Entry>))
    ensures
        collected(r.0@, raw@, show_hidden),
        rows_ok(r.1@),
        row_views(r.1@).to_set() == outline_rows(raw@, show_hidden),
        forall|k: int|
            0 < k < r.1@.len() ==> !lex_lt(
                outline_key(#[trigger] row_views(r.1@)[k].0, row_views(r.1@)[k].1),
                outline_key(row_views(r.1@)[k - 1].0, row_views(r.1@)[k - 1].1),
            ),
{
    let files = collect_files(raw, show_hidden);
    let mut rows: Vec<Entry> = Vec::new();
    let mut i: usize = 0;
    assert(raw@.take(0) =~= Seq::<RawEntry>::empty());
    assert(row_views(rows@).to_set() =~= Set::<OutlineItem>::empty());
    while i < raw.len()
        invariant
            i <= raw.len(),
            rows_ok(rows@),
            row_views(rows@).to_set() == outline_rows(raw@.take(i as int), show_hidden),
        decreases raw.len() - i,
    {
        assert(raw@.take(i as int + 1).drop_last() =~= raw@.take(i as int));
        assert(raw@.take(i as int + 1).last() == raw@[i as int]);
        let ghost base = row_views(rows@).to_set();
        let e = &raw[i];
        let ghost p = str_views(e.parts@);
        if path_visible(&e.parts, show_hidden) {
            if e.is_file {
                add_row(&mut rows, clone_path(&e.parts), false);
                let mut k: usize = 1;
                assert(Set::new(|x: OutlineItem| ancestor_row(x, p, 1)) =~= Set::<OutlineItem>::empty());
                while k < e.parts.len()
                    invariant
                        1 <= k <= e.parts.len(),
                        p == str_views(e.parts@),
                        rows_ok(rows@),
                        row_views(rows@).to_set() == base.insert((p, false)).union(
                            Set::new(|x: OutlineItem| ancestor_row(x, p, k as int)),
                        ),
                    decreases e.parts.len() - k,
                {
                    let pre = prefix_path(&e.parts, k);
                    assert(str_views(pre@) =~= p.take(k as int));
                    add_row(&mut rows, pre, true);
                    assert(Set::new(|x: OutlineItem| ancestor_row(x, p, k as int + 1)) =~= Set::new(
                        |x: OutlineItem| ancestor_row(x, p, k as int),
                    ).insert((p.take(k as int), true)));
                    k = k + 1;
                    assert(row_views(rows@).to_set() =~= base.insert((p, false)).union(
                        Set::new(|x: OutlineItem| ancestor_row(x, p, k as int)),
                    ));
                }
                assert(contribution(raw@[i as int], show_hidden) =~= set![(p, false)].union(
                    Set::new(|x: OutlineItem| ancestor_row(x, p, k as int)),
                ));
                assert(row_views(rows@).to_set() =~= base.union(contribution(raw@[i as int], show_hidden)));
            } else if e.is_dir {
                add_row(&mut rows, clone_path(&e.parts), true);
                assert(row_views(rows@).to_set() =~= base.union(contribution(raw@[i as int], show_hidden)));
            } else {
                assert(row_views(rows@).to_set() =~= base.union(contribution(raw@[i as int], show_hidden)));
            }
        } else {
            assert(row_views(rows@).to_set() =~= base.union(contribution(raw@[i as int], show_hidden)));
        }
        i = i + 1;
    }
    assert(raw@.take(i as int) =~= raw@);
    let mut keys: Vec<SortKey> = Vec::new();
    let mut j: usize = 0;
    while j < rows.len()
        invariant
            j <= rows.len(),
            rows_ok(rows@),
            keys.len() == j,
            forall|q: int|
                0 <= q < j ==> (#[trigger] keys@[q]).rank == 0 && keys@[q].text@ == outline_key(
                    outline_view(rows@[q]).0,
                    outline_view(rows@[q]).1,
                ),
        decreases rows.len() - j,
    {
        let text = key_for(&rows[j].path, rows[j].is_dir);
        keys.push(SortKey { rank: 0, text });
        j = j + 1;
    }
    let order = sort_order(&keys);
    let mut out: Vec<Entry> = Vec::new();
    let mut k: usize = 0;
    while k < order.len()
        invariant
            k <= order.len(),
            is_permutation(order@, keys@.len()),
            keys.len() == rows.len(),
            out.len() == k,
            forall|q: int|
                0 <= q < k ==> (#[trigger] out@[q]).path@ == rows@[order@[q] as int].path@ && out@[q].is_dir
                    == rows@[order@[q] as int].is_dir && out@[q].depth == rows@[order@[q] as int].depth,
        decreases order.len() - k,
    {
        let src = &rows[order[k]];
        out.push(Entry { path: clone_path(&src.path), is_dir: src.is_dir, depth: src.depth });
        k = k + 1;
    }
    assert forall|q: int| 0 <= q < out@.len() implies #[trigger] row_views(out@)[q] == row_views(rows@)[order@[q] as int] by {}
    assert forall|a: int, b: int|
        0 <= a < out@.len() && 0 <= b < out@.len() && a != b implies outline_view(out@[a]) != outline_view(out@[b]) by {
        assert(outline_view(out@[a]) == outline_view(rows@[order@[a] as int]));
        assert(outline_view(out@[b]) == outline_view(rows@[order@[b] as int]));
    }
    assert forall|x: OutlineItem| row_views(out@).to_set().contains(x) == row_views(rows@).to_set().contains(x) by {
        if row_views(out@).to_set().contains(x) {
            let q = choose|q: int| 0 <= q < row_views(out@).len() && row_views(out@)[q] == x;
            assert(row_views(rows@)[order@[q] as int] == x);
        }
        if row_views(rows@).to_set().contains(x) {
            let q = choose|q: int| 0 <= q < row_views(rows@).len() && row_views(rows@)[q] == x;
            assert(order@.contains(q as usize));
            let m = choose|m: int| 0 <= m < order@.len() && order@[m] == q as usize;
            assert(row_views(out@)[m] == x);
        }
    }
    assert(row_views(out@).to_set() =~= row_views(rows@).to_set());
    assert forall|q: int| 0 < q < out@.len() implies !lex_lt(
        outline_key(#[trigger] row_views(out@)[q].0, row_views(out@)[q].1),
        outline_key(row_views(out@)[q - 1].0, row_views(out@)[q - 1].1),
    ) by {
        assert(!key_lt(keys@[order@[q] as int], keys@[order@[q - 1] as int]));
    }
    (files, out)
}

} // verus!
