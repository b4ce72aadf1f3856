use vstd::prelude::*;
use crate::order::is_permutation;
use crate::walker::{DirItem, visible_name, str_views, kept_items, listing_sorted, items_view, order_listing};

verus! {

/// One node of the lazily loaded tree.
#[derive(Debug)]
pub struct TreeNode {
    /// Components of the path relative to the root; empty for the root.
    pub path: Vec<String>,
    pub is_dir: bool,
    /// Positions of the children in the node arena, in display order.
    pub children: Vec<usize>,
    pub children_loaded: bool,
    pub expanded: bool,
}

/// One row of the flattened tree view.
#[derive(Debug)]
pub struct Entry {
    pub path: Vec<String>,
    pub is_dir: bool,
    pub depth: usize,
}

pub open spec fn npath(n: TreeNode) -> Seq<Seq<char>> {
    str_views(n.path@)
}

/// `c` names an immediate child of `p`.
pub open spec fn is_child_path(c: Seq<Seq<char>>, p: Seq<Seq<char>>) -> bool {
    c.len() == p.len() + 1 && c.take(p.len() as int) == p
}

/// `a` is a proper ancestor of `p` (the root path is an ancestor of every
/// other path).
pub open spec fn is_ancestor(a: Seq<Seq<char>>, p: Seq<Seq<char>>) -> bool {
    a.len() < p.len() && p.take(a.len() as int) == a
}

pub open spec fn unique_paths(nodes: Seq<TreeNode>) -> bool {
    forall|i: int, j: int|
        0 <= i < nodes.len() && 0 <= j < nodes.len() && i != j ==> npath(#[trigger] nodes[i]) != npath(
            #[trigger] nodes[j],
        )
}

pub open spec fn children_ok(nodes: Seq<TreeNode>, i: int) -> bool {
    &&& (!nodes[i].children_loaded ==> nodes[i].children.len() == 0)
    &&& forall|k: int|
        0 <= k < nodes[i].children.len() ==> {
            &&& (#[trigger] nodes[i].children@[k]) < nodes.len()
            &&& is_child_path(npath(nodes[nodes[i].children@[k] as int]), npath(nodes[i]))
        }
}

/// Well-formed arena: the root comes first, is an expanded directory, paths
/// are unique, and children are immediate descendants of their parent.
pub open spec fn wf_nodes(nodes: Seq<TreeNode>) -> bool {
    &&& nodes.len() >= 1
    &&& npath(nodes[0]).len() == 0
    &&& nodes[0].is_dir
    &&& nodes[0].expanded
    &&& unique_paths(nodes)
    &&& forall|i: int| 0 <= i < nodes.len() ==> children_ok(nodes, i)
}

pub open spec fn has_path(nodes: Seq<TreeNode>, p: Seq<Seq<char>>, i: int) -> bool {
    0 <= i < nodes.len() && npath(nodes[i]) == p
}

/// The set of expanded paths.
pub open spec fn expanded_set(nodes: Seq<TreeNode>) -> Set<Seq<Seq<char>>> {
    Set::new(|p: Seq<Seq<char>>| exists|i: int| has_path(nodes, p, i) && nodes[i].expanded)
}

pub open spec fn entry_view(e: Entry) -> (Seq<Seq<char>>, bool, nat) {
    (str_views(e.path@), e.is_dir, e.depth as nat)
}

/// Whether the traversal descends into a node.
pub open spec fn descends(n: TreeNode) -> bool {
    n.is_dir && n.expanded && n.children_loaded
}

/// The rows that the traversal emits for the nodes `ch`, at `depth`; `fuel`
/// bounds the nesting.
pub open spec fn flat_seq(nodes: Seq<TreeNode>, ch: Seq<usize>, depth: nat, fuel: nat) -> Seq<(Seq<Seq<char>>, bool, nat)>
    decreases fuel, ch.len(),
{
    if ch.len() == 0 {
        Seq::empty()
    } else {
        let i = ch.last() as int;
        let before = flat_seq(nodes, ch.drop_last(), depth, fuel);
        if i < nodes.len() {
            let row = seq![(npath(nodes[i]), nodes[i].is_dir, depth)];
            if descends(nodes[i]) && fuel > 0 {
                before + row + flat_seq(nodes, nodes[i].children@, depth + 1, (fuel - 1) as nat)
            } else {
                before + row
            }
        } else {
            before
        }
    }
}

/// The flattened view of the whole tree.
pub open spec fn flatten(nodes: Seq<TreeNode>) -> Seq<(Seq<Seq<char>>, bool, nat)> {
    flat_seq(nodes, nodes[0].children@, 0, nodes.len())
}

pub fn clone_path(p: &Vec<String>) -> (r: Vec<String>)
    ensures
        r@ == p@,
{
    let mut r: Vec<String> = Vec::new();
    let mut i: usize = 0;
    while i < p.len()
        invariant
            i <= p.len(),
            r@ == p@.take(i as int),
        decreases p.len() - i,
    {
        r.push(p[i].clone());
        i = i + 1;
        assert(r@ =~= p@.take(i as int));
    }
    assert(p@.take(i as int) =~= p@);
    r
}

pub fn same_path(a: &Vec<String>, b: &Vec<String>) -> (r: bool)
    ensures
        r == (str_views(a@) == str_views(b@)),
{
    if a.len() != b.len() {
        assert(str_views(a@).len() != str_views(b@).len());
        return false;
    }
    let mut i: usize = 0;
    while i < a.len()
        invariant
            i <= a.len(),
            a.len() == b.len(),
            forall|j: int| 0 <= j < i ==> a@[j]@ == b@[j]@,
        decreases a.len() - i,
    {
        if a[i] != b[i] {
            assert(str_views(a@)[i as int] != str_views(b@)[i as int]);
            return false;
        }
        i = i + 1;
    }
    assert(str_views(a@) =~= str_views(b@));
    true
}

/// `ord` is the kept part of listing `items`, in display order.
pub open spec fn listing_order(items: Seq<DirItem>, show_hidden: bool, ord: Seq<(Seq<char>, bool)>) -> bool {
    &&& ord.len() == kept_items(items, show_hidden).len()
    &&& exists|perm: Seq<usize>|
        is_permutation(perm, ord.len()) && forall|k: int|
            0 <= k < ord.len() ==> #[trigger] ord[k] == kept_items(items, show_hidden)[perm[k] as int]
    &&& listing_sorted(ord)
}

/// A node that a reload of `p` created for a newly discovered child.
pub open spec fn fresh_child(n: TreeNode, p: Seq<Seq<char>>) -> bool {
    &&& is_child_path(npath(n), p)
    &&& !n.expanded
    &&& n.children.len() == 0
    &&& n.children_loaded == !n.is_dir
}

/// A node created for one of the items of `ord`, a listing of `p`.
pub open spec fn fresh_from(n: TreeNode, p: Seq<Seq<char>>, ord: Seq<(Seq<char>, bool)>) -> bool {
    &&& fresh_child(n, p)
    &&& exists|k: int| 0 <= k < ord.len() && npath(n) == p.push(#[trigger] ord[k].0) && n.is_dir == ord[k].1
}

/// The arena `new` is `old` after the node for `p` was reloaded from the
/// directory listing `items`.
pub open spec fn reloaded(
    old: Seq<TreeNode>,
    new: Seq<TreeNode>,
    p: Seq<Seq<char>>,
    items: Seq<DirItem>,
    show_hidden: bool,
) -> bool {
    &&& wf_nodes(new)
    &&& new.len() >= old.len()
    &&& exists|q: int|
        {
            &&& #[trigger] has_path(new, p, q)
            &&& (q < old.len() ==> has_path(old, p, q))
            &&& new[q].is_dir
            &&& new[q].children_loaded
            &&& new[q].expanded == (q < old.len() && old[q].expanded)
            &&& forall|i: int| 0 <= i < old.len() && i != q ==> #[trigger] new[i] == old[i]
            &&& exists|ord: Seq<(Seq<char>, bool)>|
                {
                    &&& listing_order(items, show_hidden, ord)
                    &&& new[q].children.len() == ord.len()
                    &&& forall|k: int|
                        0 <= k < ord.len() ==> npath(new[(#[trigger] new[q].children@[k]) as int]) == p.push(
                            ord[k].0,
                        )
                    &&& forall|i: int|
                        old.len() <= i < new.len() && i != q ==> fresh_from(#[trigger] new[i], p, ord)
                }
        }
}

/// The node for `p` exists and its children are loaded.
pub open spec fn loaded_at(nodes: Seq<TreeNode>, p: Seq<Seq<char>>) -> bool {
    exists|q: int| #[trigger] has_path(nodes, p, q) && nodes[q].children_loaded
}

/// What `load_children` does: nothing where the node is loaded, a reload
/// otherwise.
pub open spec fn load_post(
    old: Seq<TreeNode>,
    new: Seq<TreeNode>,
    p: Seq<Seq<char>>,
    items: Seq<DirItem>,
    show_hidden: bool,
) -> bool {
    if loaded_at(old, p) {
        new == old
    } else {
        reloaded(old, new, p, items, show_hidden)
    }
}

proof fn lemma_push_node(nodes: Seq<TreeNode>, n: TreeNode)
    requires
        wf_nodes(nodes),
        forall|i: int| 0 <= i < nodes.len() ==> npath(#[trigger] nodes[i]) != npath(n),
        n.children.len() == 0,
    ensures
        wf_nodes(nodes.push(n)),
{
    let t = nodes.push(n);
    assert(t[0] == nodes[0]);
    assert forall|i: int, j: int|
        0 <= i < t.len() && 0 <= j < t.len() && i != j implies npath(#[trigger] t[i]) != npath(#[trigger] t[j]) by {
        if i < nodes.len() && j < nodes.len() {
            assert(t[i] == nodes[i] && t[j] == nodes[j]);
        } else if i < nodes.len() {
            assert(t[i] == nodes[i]);
        } else {
            assert(t[j] == nodes[j]);
        }
    }
    assert forall|i: int| 0 <= i < t.len() implies children_ok(t, i) by {
        if i < nodes.len() {
            assert(t[i] == nodes[i]);
            assert(children_ok(nodes, i));
            assert forall|k: int| 0 <= k < t[i].children.len() implies {
                &&& (#[trigger] t[i].children@[k]) < t.len()
                &&& is_child_path(npath(t[t[i].children@[k] as int]), npath(t[i]))
            } by {
                let c = nodes[i].children@[k] as int;
                assert(t[c] == nodes[c]);
            }
        }
    }
}

proof fn lemma_set_node(nodes: Seq<TreeNode>, q: int, m: TreeNode)
    requires
        wf_nodes(nodes),
        0 <= q < nodes.len(),
        npath(m) == npath(nodes[q]),
        m.is_dir,
        m.children_loaded,
        m.expanded == nodes[q].expanded,
        forall|k: int|
            0 <= k < m.children.len() ==> {
                &&& (#[trigger] m.children@[k]) < nodes.len()
                &&& is_child_path(npath(nodes[m.children@[k] as int]), npath(m))
            },
    ensures
        wf_nodes(nodes.update(q, m)),
{
    let t = nodes.update(q, m);
    assert forall|i: int, j: int|
        0 <= i < t.len() && 0 <= j < t.len() && i != j implies npath(#[trigger] t[i]) != npath(#[trigger] t[j]) by {
        assert(npath(t[i]) == npath(nodes[i]));
        assert(npath(t[j]) == npath(nodes[j]));
    }
    assert forall|i: int| 0 <= i < t.len() implies children_ok(t, i) by {
        if i != q {
            assert(t[i] == nodes[i]);
            assert(children_ok(nodes, i));
        }
        assert forall|k: int| 0 <= k < t[i].children.len() implies {
            &&& (#[trigger] t[i].children@[k]) < t.len()
            &&& is_child_path(npath(t[t[i].children@[k] as int]), npath(t[i]))
        } by {
            let c = t[i].children@[k] as int;
            assert(npath(t[c]) == npath(nodes[c]));
        }
    }
}

/// A reload leaves the set of expanded paths as it was.
pub proof fn lemma_reload_keeps_expanded(
    old: Seq<TreeNode>,
    new: Seq<TreeNode>,
    p: Seq<Seq<char>>,
    items: Seq<DirItem>,
    show_hidden: bool,
)
    requires
        wf_nodes(old),
        reloaded(old, new, p, items, show_hidden),
    ensures
        expanded_set(new) == expanded_set(old),
{
    let q = choose|q: int|
        {
            &&& #[trigger] has_path(new, p, q)
            &&& (q < old.len() ==> has_path(old, p, q))
            &&& new[q].is_dir
            &&& new[q].children_loaded
            &&& new[q].expanded == (q < old.len() && old[q].expanded)
            &&& forall|i: int| 0 <= i < old.len() && i != q ==> #[trigger] new[i] == old[i]
            &&& exists|ord: Seq<(Seq<char>, bool)>|
                {
                    &&& listing_order(items, show_hidden, ord)
                    &&& new[q].children.len() == ord.len()
                    &&& forall|k: int|
                        0 <= k < ord.len() ==> npath(new[(#[trigger] new[q].children@[k]) as int]) == p.push(
                            ord[k].0,
                        )
                    &&& forall|i: int|
                        old.len() <= i < new.len() && i != q ==> fresh_from(#[trigger] new[i], p, ord)
                }
        };
    let ord = choose|ord: Seq<(Seq<char>, bool)>|
        {
            &&& listing_order(items, show_hidden, ord)
            &&& new[q].children.len() == ord.len()
            &&& forall|k: int|
                0 <= k < ord.len() ==> npath(new[(#[trigger] new[q].children@[k]) as int]) == p.push(
                    ord[k].0,
                )
            &&& forall|i: int|
                old.len() <= i < new.len() && i != q ==> fresh_from(#[trigger] new[i], p, ord)
        };
    assert forall|x: Seq<Seq<char>>| expanded_set(new).contains(x) implies expanded_set(old).contains(x) by {
        let i = choose|i: int| has_path(new, x, i) && new[i].expanded;
        if i == q {
            assert(has_path(old, x, q) && old[q].expanded);
        } else if i < old.len() {
            assert(new[i] == old[i]);
            assert(has_path(old, x, i) && old[i].expanded);
        } else {
            assert(fresh_from(new[i], p, ord));
        }
    }
    assert forall|x: Seq<Seq<char>>| expanded_set(old).contains(x) implies expanded_set(new).contains(x) by {
        let i = choose|i: int| has_path(old, x, i) && old[i].expanded;
        if i == q {
            assert(has_path(new, x, q) && new[q].expanded);
        } else {
            assert(new[i] == old[i]);
            assert(has_path(new, x, i) && new[i].expanded);
        }
    }
    assert(expanded_set(new) =~= expanded_set(old));
}

/// Loading the children of a path twice with the same listing leaves the
/// tree as the first load left it.
pub proof fn lemma_load_children_idempotent(
    t0: Seq<TreeNode>,
    t1: Seq<TreeNode>,
    t2: Seq<TreeNode>,
    p: Seq<Seq<char>>,
    items: Seq<DirItem>,
    show_hidden: bool,
)
    requires
        wf_nodes(t0),
        load_post(t0, t1, p, items, show_hidden),
        load_post(t1, t2, p, items, show_hidden),
    ensures
        t2 == t1,
{
    if !loaded_at(t0, p) {
        let q = choose|q: int|
            {
                &&& #[trigger] has_path(t1, p, q)
                &&& (q < t0.len() ==> has_path(t0, p, q))
                &&& t1[q].is_dir
                &&& t1[q].children_loaded
                &&& t1[q].expanded == (q < t0.len() && t0[q].expanded)
                &&& forall|i: int| 0 <= i < t0.len() && i != q ==> #[trigger] t1[i] == t0[i]
                &&& exists|ord: Seq<(Seq<char>, bool)>|
                    {
                        &&& listing_order(items, show_hidden, ord)
                        &&& t1[q].children.len() == ord.len()
                        &&& forall|k: int|
                            0 <= k < ord.len() ==> npath(t1[(#[trigger] t1[q].children@[k]) as int])
                                == p.push(ord[k].0)
                        &&& forall|i: int|
                            t0.len() <= i < t1.len() && i != q ==> fresh_from(#[trigger] t1[i], p, ord)
                    }
            };
        assert(has_path(t1, p, q) && t1[q].children_loaded);
        assert(loaded_at(t1, p));
    }
}

/// The arena `new` is `old` with the expansion flag of node `q` set to `flag`.
pub open spec fn expansion_set(old: Seq<TreeNode>, new: Seq<TreeNode>, q: int, flag: bool) -> bool {
    &&& new.len() == old.len()
    &&& forall|i: int| 0 <= i < old.len() && i != q ==> #[trigger] new[i] == old[i]
    &&& new[q].path@ == old[q].path@
    &&& new[q].is_dir == old[q].is_dir
    &&& new[q].children@ == old[q].children@
    &&& new[q].children_loaded == old[q].children_loaded
    &&& new[q].expanded == flag
}

proof fn lemma_expansion_effect(old: Seq<TreeNode>, new: Seq<TreeNode>, q: int, flag: bool)
    requires
        wf_nodes(old),
        0 <= q < old.len(),
        expansion_set(old, new, q, flag),
    ensures
        expanded_set(new) == if flag {
            expanded_set(old).insert(npath(old[q]))
        } else {
            expanded_set(old).remove(npath(old[q]))
        },
{
    let target = if flag {
        expanded_set(old).insert(npath(old[q]))
    } else {
        expanded_set(old).remove(npath(old[q]))
    };
    assert(npath(new[q]) == npath(old[q]));
    assert forall|x: Seq<Seq<char>>| expanded_set(new).contains(x) implies target.contains(x) by {
        let i = choose|i: int| has_path(new, x, i) && new[i].expanded;
        if i != q {
            assert(new[i] == old[i]);
            assert(has_path(old, x, i) && old[i].expanded);
        }
    }
    assert forall|x: Seq<Seq<char>>| target.contains(x) implies expanded_set(new).contains(x) by {
        if x == npath(old[q]) {
            assert(has_path(new, x, q));
        } else {
            let i = choose|i: int| has_path(old, x, i) && old[i].expanded;
            assert(i != q);
            assert(new[i] == old[i]);
            assert(has_path(new, x, i) && new[i].expanded);
        }
    }
    assert(expanded_set(new) =~= target);
}

/// Every ancestor of `x` is expanded.
pub open spec fn ancestors_expanded(nodes: Seq<TreeNode>, x: Seq<Seq<char>>) -> bool {
    forall|a: Seq<Seq<char>>| is_ancestor(a, x) ==> #[trigger] expanded_set(nodes).contains(a)
}

proof fn lemma_child_ancestors(nodes: Seq<TreeNode>, x: Seq<Seq<char>>, base: Seq<Seq<char>>)
    requires
        is_child_path(x, base),
        expanded_set(nodes).contains(base),
        ancestors_expanded(nodes, base),
    ensures
        ancestors_expanded(nodes, x),
{
    assert forall|a: Seq<Seq<char>>| is_ancestor(a, x) implies #[trigger] expanded_set(nodes).contains(a) by {
        if a.len() == base.len() {
            assert(a =~= base);
        } else {
            assert(base.take(a.len() as int) =~= x.take(a.len() as int));
            assert(is_ancestor(a, base));
        }
    }
}

proof fn lemma_flat_seq_ancestors(nodes: Seq<TreeNode>, ch: Seq<usize>, depth: nat, fuel: nat, base: Seq<Seq<char>>)
    requires
        wf_nodes(nodes),
        forall|k: int|
            0 <= k < ch.len() ==> (#[trigger] ch[k]) < nodes.len() && is_child_path(npath(nodes[ch[k] as int]), base),
        expanded_set(nodes).contains(base),
        ancestors_expanded(nodes, base),
    ensures
        forall|m: int|
            0 <= m < flat_seq(nodes, ch, depth, fuel).len() ==> ancestors_expanded(
                nodes,
                (#[trigger] flat_seq(nodes, ch, depth, fuel)[m]).0,
            ),
    decreases fuel, ch.len(),
{
    if ch.len() > 0 {
        let i = ch.last() as int;
        assert(ch.last() == ch[ch.len() - 1]);
        lemma_flat_seq_ancestors(nodes, ch.drop_last(), depth, fuel, base);
        lemma_child_ancestors(nodes, npath(nodes[i]), base);
        let before = flat_seq(nodes, ch.drop_last(), depth, fuel);
        let row = seq![(npath(nodes[i]), nodes[i].is_dir, depth)];
        if descends(nodes[i]) && fuel > 0 {
            assert(children_ok(nodes, i));
            assert(has_path(nodes, npath(nodes[i]), i));
            assert(expanded_set(nodes).contains(npath(nodes[i])));
            lemma_flat_seq_ancestors(nodes, nodes[i].children@, depth + 1, (fuel - 1) as nat, npath(nodes[i]));
            let sub = flat_seq(nodes, nodes[i].children@, depth + 1, (fuel - 1) as nat);
            assert forall|m: int| 0 <= m < (before + row + sub).len() implies ancestors_expanded(
                nodes,
                (#[trigger] (before + row + sub)[m]).0,
            ) by {
                if m < before.len() {
                    assert((before + row + sub)[m] == before[m]);
                } else if m == before.len() {
                    assert((before + row + sub)[m] == row[0]);
                } else {
                    assert((before + row + sub)[m] == sub[m - before.len() - 1]);
                }
            }
        } else {
            assert forall|m: int| 0 <= m < (before + row).len() implies ancestors_expanded(
                nodes,
                (#[trigger] (before + row)[m]).0,
            ) by {
                if m < before.len() {
                    assert((before + row)[m] == before[m]);
                }
            }
        }
    }
}

/// No row of the flattened view has an ancestor that is not expanded.
pub proof fn lemma_flatten_ancestors_expanded(nodes: Seq<TreeNode>, m: int)
    requires
        wf_nodes(nodes),
        0 <= m < flatten(nodes).len(),
    ensures
        forall|a: Seq<Seq<char>>| is_ancestor(a, flatten(nodes)[m].0) ==> #[trigger] expanded_set(nodes).contains(a),
{
    assert(children_ok(nodes, 0));
    assert(has_path(nodes, npath(nodes[0]), 0));
    lemma_flat_seq_ancestors(nodes, nodes[0].children@, 0, nodes.len(), npath(nodes[0]));
    assert(ancestors_expanded(nodes, flatten(nodes)[m].0));
}

pub open spec fn entries_view(s: Seq<Entry>) -> Seq<(Seq<Seq<char>>, bool, nat)> {
    s.map_values(|e: Entry| entry_view(e))
}

proof fn lemma_kept_items_visible(items: Seq<DirItem>, show_hidden: bool, j: int)
    requires
        0 <= j < kept_items(items, show_hidden).len(),
    ensures
        visible_name(kept_items(items, show_hidden)[j].0, show_hidden),
    decreases items.len(),
{
    if j < kept_items(items.drop_last(), show_hidden).len() {
        lemma_kept_items_visible(items.drop_last(), show_hidden, j);
    }
}

/// After a reload of `p`, no child of its node is the version-control
/// metadata directory, and none is a dotfile or dot-directory unless hidden
/// files are shown.
pub proof fn lemma_reload_children_visible(
    old: Seq<TreeNode>,
    new: Seq<TreeNode>,
    p: Seq<Seq<char>>,
    items: Seq<DirItem>,
    show_hidden: bool,
    q: int,
    k: int,
)
    requires
        reloaded(old, new, p, items, show_hidden),
        has_path(new, p, q),
        0 <= k < new[q].children.len(),
    ensures
        visible_name(npath(new[new[q].children@[k] as int]).last(), show_hidden),
{
    let q0 = choose|q: int|
        {
            &&& #[trigger] has_path(new, p, q)
            &&& (q < old.len() ==> has_path(old, p, q))
            &&& new[q].is_dir
            &&& new[q].children_loaded
            &&& new[q].expanded == (q < old.len() && old[q].expanded)
            &&& forall|i: int| 0 <= i < old.len() && i != q ==> #[trigger] new[i] == old[i]
            &&& exists|ord: Seq<(Seq<char>, bool)>|
                {
                    &&& listing_order(items, show_hidden, ord)
                    &&& new[q].children.len() == ord.len()
                    &&& forall|k: int|
                        0 <= k < ord.len() ==> npath(new[(#[trigger] new[q].children@[k]) as int]) == p.push(
                            ord[k].0,
                        )
                    &&& forall|i: int|
                        old.len() <= i < new.len() && i != q ==> fresh_from(#[trigger] new[i], p, ord)
                }
        };
    if q != q0 {
        assert(npath(new[q]) != npath(new[q0]));
    }
    let ord = choose|ord: Seq<(Seq<char>, bool)>|
        {
            &&& listing_order(items, show_hidden, ord)
            &&& new[q0].children.len() == ord.len()
            &&& forall|k: int|
                0 <= k < ord.len() ==> npath(new[(#[trigger] new[q0].children@[k]) as int]) == p.push(ord[k].0)
            &&& forall|i: int| old.len() <= i < new.len() && i != q0 ==> fresh_from(#[trigger] new[i], p, ord)
        };
    let perm = choose|perm: Seq<usize>|
        is_permutation(perm, ord.len()) && forall|k: int|
            0 <= k < ord.len() ==> #[trigger] ord[k] == kept_items(items, show_hidden)[perm[k] as int];
    assert(ord[k] == kept_items(items, show_hidden)[perm[k] as int]);
    lemma_kept_items_visible(items, show_hidden, perm[k] as int);
    assert(npath(new[new[q].children@[k] as int]).last() == ord[k].0);
}

/// What toggling the expansion of `p` does.
pub open spec fn toggle_post(
    old: Seq<TreeNode>,
    new: Seq<TreeNode>,
    p: Seq<Seq<char>>,
    items: Seq<DirItem>,
    show_hidden: bool,
) -> bool {
    &&& wf_nodes(new)
    &&& p.len() == 0 ==> new == old
    &&& p.len() > 0 && expanded_set(old).contains(p) ==> {
        &&& expanded_set(new) == expanded_set(old).remove(p)
        &&& exists|q: int| #[trigger] has_path(old, p, q) && expansion_set(old, new, q, false)
    }
    &&& p.len() > 0 && !expanded_set(old).contains(p) ==> {
        &&& expanded_set(new) == expanded_set(old).insert(p)
        &&& loaded_at(new, p)
        &&& exists|mid: Seq<TreeNode>| #[trigger] flagged_expanded(old, mid, p) && load_post(mid, new, p, items, show_hidden)
    }
}

/// `mid` is `old` with `p` marked expanded: the flag of its node is set, or
/// an unloaded directory node for `p` is added when there is none.
pub open spec fn flagged_expanded(old: Seq<TreeNode>, mid: Seq<TreeNode>, p: Seq<Seq<char>>) -> bool {
    ||| exists|q: int| #[trigger] has_path(old, p, q) && expansion_set(old, mid, q, true)
    ||| {
        &&& forall|i: int| !#[trigger] has_path(old, p, i)
        &&& mid.len() == old.len() + 1
        &&& forall|i: int| 0 <= i < old.len() ==> #[trigger] mid[i] == old[i]
        &&& npath(mid[old.len() as int]) == p
        &&& mid[old.len() as int].is_dir
        &&& !mid[old.len() as int].children_loaded
        &&& mid[old.len() as int].expanded
        &&& mid[old.len() as int].children.len() == 0
    }
}

/// Two nodes that agree on everything the tree reads.
pub open spec fn same_node(a: TreeNode, b: TreeNode) -> bool {
    &&& a.path@ == b.path@
    &&& a.is_dir == b.is_dir
    &&& a.children@ == b.children@
    &&& a.children_loaded == b.children_loaded
    &&& a.expanded == b.expanded
}

pub open spec fn same_nodes(a: Seq<TreeNode>, b: Seq<TreeNode>) -> bool {
    a.len() == b.len() && forall|i: int| 0 <= i < a.len() ==> same_node(#[trigger] a[i], b[i])
}

proof fn lemma_flat_seq_same(a: Seq<TreeNode>, b: Seq<TreeNode>, ch: Seq<usize>, depth: nat, fuel: nat)
    requires
        same_nodes(a, b),
    ensures
        flat_seq(a, ch, depth, fuel) == flat_seq(b, ch, depth, fuel),
    decreases fuel, ch.len(),
{
    if ch.len() > 0 {
        lemma_flat_seq_same(a, b, ch.drop_last(), depth, fuel);
        let i = ch.last() as int;
        if i < a.len() {
            assert(same_node(a[i], b[i]));
            if fuel > 0 {
                lemma_flat_seq_same(a, b, a[i].children@, depth + 1, (fuel - 1) as nat);
            }
        }
    }
}

/// Collapsing a loaded, expanded directory and expanding it again gives
/// back the same tree, expanded set and flattened view: the cached children
/// are kept and no listing is read.
pub proof fn lemma_collapse_expand_restores(
    t0: Seq<TreeNode>,
    t1: Seq<TreeNode>,
    t2: Seq<TreeNode>,
    p: Seq<Seq<char>>,
    items1: Seq<DirItem>,
    items2: Seq<DirItem>,
    show_hidden: bool,
)
    requires
        wf_nodes(t0),
        p.len() > 0,
        expanded_set(t0).contains(p),
        loaded_at(t0, p),
        toggle_post(t0, t1, p, items1, show_hidden),
        toggle_post(t1, t2, p, items2, show_hidden),
    ensures
        same_nodes(t2, t0),
        expanded_set(t2) == expanded_set(t0),
        flatten(t2) == flatten(t0),
{
    let q = choose|q: int| #[trigger] has_path(t0, p, q) && expansion_set(t0, t1, q, false);
    assert forall|j: int| #[trigger] has_path(t0, p, j) implies j == q by {
        if j != q {
            assert(npath(t0[j]) != npath(t0[q]));
        }
    }
    let e = choose|i: int| has_path(t0, p, i) && t0[i].expanded;
    let l = choose|i: int| #[trigger] has_path(t0, p, i) && t0[i].children_loaded;
    assert(e == q && l == q);
    assert(npath(t1[q]) == npath(t0[q]));
    assert(has_path(t1, p, q));
    assert(!expanded_set(t1).contains(p));
    let mid = choose|mid: Seq<TreeNode>| #[trigger] flagged_expanded(t1, mid, p) && load_post(mid, t2, p, items2, show_hidden);
    assert(exists|q2: int| #[trigger] has_path(t1, p, q2) && expansion_set(t1, mid, q2, true));
    let q2 = choose|q2: int| #[trigger] has_path(t1, p, q2) && expansion_set(t1, mid, q2, true);
    if q2 != q {
        assert(npath(t1[q2]) != npath(t1[q]));
    }
    assert(has_path(mid, p, q) && mid[q].children_loaded);
    assert(loaded_at(mid, p));
    assert(t2 == mid);
    assert forall|i: int| 0 <= i < t2.len() implies same_node(#[trigger] t2[i], t0[i]) by {
        if i != q {
            assert(t2[i] == t1[i] && t1[i] == t0[i]);
        }
    }
    assert(same_nodes(t2, t0));
    assert(expanded_set(t2) =~= expanded_set(t0)) by {
        assert forall|x: Seq<Seq<char>>| expanded_set(t2).contains(x) implies expanded_set(t0).contains(x) by {
            let i = choose|i: int| has_path(t2, x, i) && t2[i].expanded;
            assert(same_node(t2[i], t0[i]));
            assert(has_path(t0, x, i));
        }
        assert forall|x: Seq<Seq<char>>| expanded_set(t0).contains(x) implies expanded_set(t2).contains(x) by {
            let i = choose|i: int| has_path(t0, x, i) && t0[i].expanded;
            assert(same_node(t2[i], t0[i]));
            assert(has_path(t2, x, i));
        }
    }
    assert(same_node(t2[0], t0[0]));
    lemma_flat_seq_same(t2, t0, t0[0].children@, 0, t0.len());
}

/// A reload keeps every node that was loaded loaded.
pub proof fn lemma_reload_keeps_loaded(
    old: Seq<TreeNode>,
    new: Seq<TreeNode>,
    p: Seq<Seq<char>>,
    items: Seq<DirItem>,
    show_hidden: bool,
    x: Seq<Seq<char>>,
)
    requires
        reloaded(old, new, p, items, show_hidden),
        loaded_at(old, x) || x == p,
    ensures
        loaded_at(new, x),
{
    let q = choose|q: int|
        {
            &&& #[trigger] has_path(new, p, q)
            &&& (q < old.len() ==> has_path(old, p, q))
            &&& new[q].is_dir
            &&& new[q].children_loaded
            &&& new[q].expanded == (q < old.len() && old[q].expanded)
            &&& forall|i: int| 0 <= i < old.len() && i != q ==> #[trigger] new[i] == old[i]
            &&& exists|ord: Seq<(Seq<char>, bool)>|
                {
                    &&& listing_order(items, show_hidden, ord)
                    &&& new[q].children.len() == ord.len()
                    &&& forall|k: int|
                        0 <= k < ord.len() ==> npath(new[(#[trigger] new[q].children@[k]) as int]) == p.push(
                            ord[k].0,
                        )
                    &&& forall|i: int|
                        old.len() <= i < new.len() && i != q ==> fresh_from(#[trigger] new[i], p, ord)
                }
        };
    if x == p {
        assert(has_path(new, x, q));
    } else {
        let j = choose|j: int| #[trigger] has_path(old, x, j) && old[j].children_loaded;
        if j == q {
            assert(has_path(new, x, q));
        } else {
            assert(new[j] == old[j]);
            assert(has_path(new, x, j));
        }
    }
}

/// The lazily loaded directory tree: an arena of nodes, the root first.
pub struct LazyTree {
    nodes: Vec<TreeNode>,
}

impl View for LazyTree {
    type V = Seq<TreeNode>;

    closed spec fn view(&self) -> Seq<TreeNode> {
        self.nodes@
    }
}

impl LazyTree {
    /// A tree that holds only the root, unloaded.
    pub fn new() -> (t: LazyTree)
        ensures
            wf_nodes(t@),
            t@.len() == 1,
            !t@[0].children_loaded,
    {
        let mut nodes: Vec<TreeNode> = Vec::new();
        nodes.push(TreeNode {
            path: Vec::new(),
            is_dir: true,
            children: Vec::new(),
            children_loaded: false,
            expanded: true,
        });
        let t = LazyTree { nodes };
        assert(npath(t@[0]) =~= Seq::<Seq<char>>::empty());
        t
    }

    pub fn len(&self) -> (r: usize)
        ensures
            r == self@.len(),
    {
        self.nodes.len()
    }

    pub fn node(&self, i: usize) -> (r: &TreeNode)
        requires
            i < self@.len(),
        ensures
            *r == self@[i as int],
    {
        &self.nodes[i]
    }

    /// The position of the node for `path`, if there is one.
    pub fn find_node(&self, path: &Vec<String>) -> (r: Option<usize>)
        ensures
            r matches Some(i) ==> has_path(self@, str_views(path@), i as int),
            r is None ==> forall|i: int| !has_path(self@, str_views(path@), i),
    {
        let mut i: usize = 0;
        while i < self.nodes.len()
            invariant
                i <= self@.len(),
                forall|j: int| 0 <= j < i ==> !has_path(self@, str_views(path@), j),
            decreases self@.len() - i,
        {
            if same_path(&self.nodes[i].path, path) {
                return Some(i);
            }
            i = i + 1;
        }
        None
    }

    /// Loads the children of the node for `path` from its directory listing
    /// `items`, unless they are loaded already.
    pub fn load_children(&mut self, path: &Vec<String>, items: &Vec<DirItem>, show_hidden: bool)
        requires
            wf_nodes(old(self)@),
        ensures
            load_post(old(self)@, final(self)@, str_views(path@), items@, show_hidden),
            wf_nodes(final(self)@),
            loaded_at(final(self)@, str_views(path@)),
    {
        let ghost p = str_views(path@);
        match self.find_node(path) {
            Some(q) => {
                if self.nodes[q].children_loaded {
                    assert(has_path(self@, p, q as int));
                    return;
                }
                assert forall|j: int| #[trigger] has_path(self@, p, j) implies !self@[j].children_loaded by {
                    if j != q {
                        assert(npath(self@[j]) != npath(self@[q as int]));
                    }
                }
            },
            None => {},
        }
        assert(!loaded_at(self@, p));
        self.reload_children(path, items, show_hidden);
    }

    fn set_expanded(&mut self, q: usize, flag: bool)
        requires
            wf_nodes(old(self)@),
            q < old(self)@.len(),
            q == 0 ==> flag,
        ensures
            wf_nodes(final(self)@),
            expansion_set(old(self)@, final(self)@, q as int, flag),
    {
        let ghost before = self.nodes@;
        let n = &self.nodes[q];
        let mut children: Vec<usize> = Vec::new();
        let mut k: usize = 0;
        while k < n.children.len()
            invariant
                k <= n.children.len(),
                children@ == n.children@.take(k as int),
            decreases n.children.len() - k,
        {
            children.push(n.children[k]);
            k = k + 1;
            assert(children@ =~= n.children@.take(k as int));
        }
        assert(n.children@.take(k as int) =~= n.children@);
        let node = TreeNode {
            path: clone_path(&n.path),
            is_dir: n.is_dir,
            children,
            children_loaded: n.children_loaded,
            expanded: flag,
        };
        self.nodes.set(q, node);
        let ghost t = self.nodes@;
        assert(t[0].is_dir && t[0].expanded && npath(t[0]).len() == 0);
        assert forall|i: int, j: int|
            0 <= i < t.len() && 0 <= j < t.len() && i != j implies npath(#[trigger] t[i]) != npath(#[trigger] t[j]) by {
            assert(npath(t[i]) == npath(before[i]));
            assert(npath(t[j]) == npath(before[j]));
        }
        assert forall|i: int| 0 <= i < t.len() implies children_ok(t, i) by {
            assert(children_ok(before, i));
            assert(t[i].children@ == before[i].children@);
            assert forall|k: int| 0 <= k < t[i].children.len() implies {
                &&& (#[trigger] t[i].children@[k]) < t.len()
                &&& is_child_path(npath(t[t[i].children@[k] as int]), npath(t[i]))
            } by {
                let c = t[i].children@[k] as int;
                assert(npath(t[c]) == npath(before[c]));
            }
        }
    }

    /// Whether `path` is expanded.
    pub fn is_expanded(&self, path: &Vec<String>) -> (r: bool)
        requires
            wf_nodes(self@),
        ensures
            r == expanded_set(self@).contains(str_views(path@)),
    {
        let ghost p = str_views(path@);
        match self.find_node(path) {
            Some(q) => {
                assert forall|j: int| #[trigger] has_path(self@, p, j) implies j == q by {
                    if j != q {
                        assert(npath(self@[j]) != npath(self@[q as int]));
                    }
                }
                self.nodes[q].expanded
            },
            None => false,
        }
    }

    /// The paths of the expanded nodes other than the root.
    pub fn expanded_paths(&self) -> (r: Vec<Vec<String>>)
        requires
            wf_nodes(self@),
        ensures
            forall|k: int|
                0 <= k < r.len() ==> str_views((#[trigger] r@[k])@).len() > 0 && expanded_set(self@).contains(
                    str_views(r@[k]@),
                ),
            forall|x: Seq<Seq<char>>|
                #[trigger] expanded_set(self@).contains(x) && x.len() > 0 ==> exists|k: int|
                    0 <= k < r.len() && str_views(#[trigger] r@[k]@) == x,
    {
        let mut r: Vec<Vec<String>> = Vec::new();
        let mut i: usize = 1;
        while i < self.nodes.len()
            invariant
                1 <= i <= self@.len(),
                wf_nodes(self@),
                forall|k: int|
                    0 <= k < r.len() ==> str_views((#[trigger] r@[k])@).len() > 0 && expanded_set(self@).contains(
                        str_views(r@[k]@),
                    ),
                forall|j: int|
                    1 <= j < i && self@[j].expanded ==> exists|k: int|
                        0 <= k < r.len() && str_views(#[trigger] r@[k]@) == npath(#[trigger] self@[j]),
            decreases self@.len() - i,
        {
            if self.nodes[i].expanded {
                let ghost before = r@;
                let cp = clone_path(&self.nodes[i].path);
                assert(has_path(self@, str_views(cp@), i as int));
                assert(npath(self@[0]) != npath(self@[i as int]));
                assert(npath(self@[i as int]).len() > 0) by {
                    if npath(self@[i as int]).len() == 0 {
                        assert(npath(self@[i as int]) =~= npath(self@[0]));
                    }
                }
                assert(str_views(cp@) == npath(self@[i as int]));
                assert(expanded_set(self@).contains(str_views(cp@)));
                r.push(cp);
                assert forall|k: int|
                    0 <= k < r.len() implies str_views((#[trigger] r@[k])@).len() > 0 && expanded_set(self@).contains(
                        str_views(r@[k]@),
                    ) by {
                    if k < before.len() {
                        assert(r@[k] == before[k]);
                    }
                }
                assert forall|j: int|
                    1 <= j < i + 1 && self@[j].expanded implies exists|k: int|
                        0 <= k < r.len() && str_views(#[trigger] r@[k]@) == npath(#[trigger] self@[j]) by {
                    if j < i {
                        let k = choose|k: int| 0 <= k < before.len() && str_views(#[trigger] before[k]@) == npath(self@[j]);
                        assert(r@[k] == before[k]);
                    } else {
                        assert(r@[r.len() - 1] == cp);
                    }
                }
            }
            i = i + 1;
        }
        assert forall|x: Seq<Seq<char>>|
            #[trigger] expanded_set(self@).contains(x) && x.len() > 0 implies exists|k: int|
                0 <= k < r.len() && str_views(#[trigger] r@[k]@) == x by {
            let j = choose|j: int| has_path(self@, x, j) && self@[j].expanded;
            assert(j != 0);
        }
        r
    }

    /// Flips the expansion of `path`. Expanding loads the children from the
    /// directory listing `items` if they are not loaded yet; collapsing keeps
    /// the cached nodes. The root stays expanded.
    pub fn toggle_expanded(&mut self, path: &Vec<String>, items: &Vec<DirItem>, show_hidden: bool)
        requires
            wf_nodes(old(self)@),
        ensures
            toggle_post(old(self)@, final(self)@, str_views(path@), items@, show_hidden),
    {
        let ghost p = str_views(path@);
        let ghost old_nodes = self@;
        if path.len() == 0 {
            return;
        }
        let expanded = self.is_expanded(path);
        match self.find_node(path) {
            Some(q) => {
                assert(q != 0);
                if expanded {
                    assert(self.nodes@[q as int].expanded);
                    self.set_expanded(q, false);
                    proof {
                        lemma_expansion_effect(old_nodes, self@, q as int, false);
                    }
                    return;
                }
                self.set_expanded(q, true);
                proof {
                    lemma_expansion_effect(old_nodes, self@, q as int, true);
                    assert(has_path(old_nodes, p, q as int));
                    assert(flagged_expanded(old_nodes, self@, p));
                }
            },
            None => {
                let node = TreeNode {
                    path: clone_path(path),
                    is_dir: true,
                    children: Vec::new(),
                    children_loaded: false,
                    expanded: true,
                };
                assert forall|i: int| 0 <= i < old_nodes.len() implies npath(#[trigger] old_nodes[i]) != npath(node) by {
                    assert(!has_path(old_nodes, p, i));
                }
                proof {
                    lemma_push_node(old_nodes, node);
                }
                self.nodes.push(node);
                let ghost t = self.nodes@;
                assert forall|x: Seq<Seq<char>>| #[trigger] expanded_set(t).contains(x) implies expanded_set(old_nodes).insert(p).contains(x) by {
                    let i = choose|i: int| has_path(t, x, i) && t[i].expanded;
                    if i < old_nodes.len() {
                        assert(t[i] == old_nodes[i]);
                        assert(has_path(old_nodes, x, i));
                    } else {
                        assert(x == p);
                    }
                }
                assert forall|x: Seq<Seq<char>>| #[trigger] expanded_set(old_nodes).insert(p).contains(x) implies expanded_set(t).contains(x) by {
                    if x == p {
                        assert(has_path(t, x, old_nodes.len() as int));
                    } else {
                        let i = choose|i: int| has_path(old_nodes, x, i) && old_nodes[i].expanded;
                        assert(t[i] == old_nodes[i]);
                        assert(has_path(t, x, i));
                    }
                }
                assert(expanded_set(t) =~= expanded_set(old_nodes).insert(p));
                assert(flagged_expanded(old_nodes, t, p));
            },
        }
        let ghost mid = self@;
        assert(flagged_expanded(old_nodes, mid, p));
        self.load_children(path, items, show_hidden);
        proof {
            if !loaded_at(mid, p) {
                lemma_reload_keeps_expanded(mid, self@, p, items@, show_hidden);
            }
        }
    }

    fn walk(&self, ch: &Vec<usize>, depth: usize, fuel: usize, out: &mut Vec<Entry>)
        requires
            wf_nodes(self@),
            forall|k: int| 0 <= k < ch.len() ==> (#[trigger] ch@[k]) < self@.len(),
            depth + fuel <= self@.len(),
        ensures
            entries_view(final(out)@) == entries_view(old(out)@) + flat_seq(self@, ch@, depth as nat, fuel as nat),
        decreases fuel, 1nat,
    {
        let ghost start = entries_view(out@);
        assert(self@.len() == self.nodes.len());
        let mut k: usize = 0;
        assert(ch@.take(0) =~= Seq::<usize>::empty());
        while k < ch.len()
            invariant
                wf_nodes(self@),
                k <= ch.len(),
                forall|j: int| 0 <= j < ch.len() ==> (#[trigger] ch@[j]) < self@.len(),
                depth + fuel <= self@.len(),
                self@.len() == self.nodes.len(),
                entries_view(out@) == start + flat_seq(self@, ch@.take(k as int), depth as nat, fuel as nat),
            decreases ch.len() - k,
        {
            let i = ch[k];
            assert(ch@.take(k as int + 1).drop_last() =~= ch@.take(k as int));
            assert(ch@.take(k as int + 1).last() == i);
            let node = &self.nodes[i];
            let ghost before = entries_view(out@);
            out.push(Entry { path: clone_path(&node.path), is_dir: node.is_dir, depth });
            assert(entries_view(out@) =~= before + seq![(npath(self@[i as int]), self@[i as int].is_dir, depth as nat)]);
            if node.is_dir && node.expanded && node.children_loaded && fuel > 0 {
                assert(children_ok(self@, i as int));
                self.walk(&node.children, depth + 1, fuel - 1, out);
            }
            k = k + 1;
            assert(entries_view(out@) =~= start + flat_seq(self@, ch@.take(k as int), depth as nat, fuel as nat));
        }
        assert(ch@.take(k as int) =~= ch@);
    }

    /// The flattened view: a depth-first traversal from the root's
    /// children that descends into expanded, loaded directories only.
    pub fn visible(&self) -> (r: Vec<Entry>)
        requires
            wf_nodes(self@),
        ensures
            entries_view(r@) == flatten(self@),
    {
        let mut out: Vec<Entry> = Vec::new();
        assert(children_ok(self@, 0));
        self.walk(&self.nodes[0].children, 0, self.nodes.len(), &mut out);
        assert(entries_view(out@) =~= flatten(self@));
        out
    }

    /// Replaces the children of the node for `path` (created if missing)
    /// with the kept items of its directory listing `items`, in display
    /// order. Children already known keep their nodes; new ones get nodes
    /// that are loaded exactly when they are not directories.
    pub fn reload_children(&mut self, path: &Vec<String>, items: &Vec<DirItem>, show_hidden: bool)
        requires
            wf_nodes(old(self)@),
        ensures
            reloaded(old(self)@, final(self)@, str_views(path@), items@, show_hidden),
    {
        let ghost p = str_views(path@);
        let ghost old_nodes = self.nodes@;
        let ordered = order_listing(items, show_hidden);
        let ghost ord = items_view(ordered@);
        assert(listing_order(items@, show_hidden, ord));
        let mut child_idx: Vec<usize> = Vec::new();
        let mut k: usize = 0;
        while k < ordered.len()
            invariant
                k <= ordered.len(),
                ord == items_view(ordered@),
                p == str_views(path@),
                wf_nodes(self.nodes@),
                self.nodes@.len() >= old_nodes.len(),
                forall|i: int| 0 <= i < old_nodes.len() ==> #[trigger] self.nodes@[i] == old_nodes[i],
                forall|i: int|
                    old_nodes.len() <= i < self.nodes@.len() ==> {
                        &&& fresh_child(#[trigger] self.nodes@[i], p)
                        &&& exists|j: int|
                            0 <= j < k && npath(self.nodes@[i]) == p.push(#[trigger] ord[j].0)
                                && self.nodes@[i].is_dir == ord[j].1
                    },
                child_idx.len() == k,
                forall|j: int|
                    0 <= j < k ==> {
                        let c = (#[trigger] child_idx@[j]) as int;
                        &&& c < self.nodes@.len()
                        &&& npath(self.nodes@[c]) == p.push(ord[j].0)
                        &&& is_child_path(npath(self.nodes@[c]), p)
                    },
            decreases ordered.len() - k,
        {
            let mut cp = clone_path(path);
            cp.push(ordered[k].name.clone());
            assert(str_views(cp@) =~= p.push(ord[k as int].0));
            assert(p.push(ord[k as int].0).take(p.len() as int) =~= p);
            let ghost cpv = str_views(cp@);
            match self.find_node(&cp) {
                Some(i) => {
                    child_idx.push(i);
                },
                None => {
                    let n = self.nodes.len();
                    let is_dir = ordered[k].is_dir;
                    let ghost before = self.nodes@;
                    assert(before == self@);
                    let node = TreeNode {
                        path: cp,
                        is_dir,
                        children: Vec::new(),
                        children_loaded: !is_dir,
                        expanded: false,
                    };
                    assert(npath(node) == cpv);
                    assert forall|i: int| 0 <= i < before.len() implies npath(#[trigger] before[i]) != npath(node) by {
                        assert(!has_path(before, cpv, i));
                    }
                    proof {
                        lemma_push_node(before, node);
                    }
                    self.nodes.push(node);
                    assert forall|i: int| 0 <= i < n implies #[trigger] self.nodes@[i] == before[i] by {}
                    assert(fresh_child(self.nodes@[n as int], p));
                    assert(npath(self.nodes@[n as int]) == p.push(ord[k as int].0));
                    child_idx.push(n);
                },
            }
            k = k + 1;
        }
        let ghost mid = self.nodes@;
        assert(mid == self@);
        match self.find_node(path) {
            Some(q) => {
                let e = self.nodes[q].expanded;
                let np = clone_path(path);
                let node = TreeNode {
                    path: np,
                    is_dir: true,
                    children: child_idx,
                    children_loaded: true,
                    expanded: e,
                };
                proof {
                    lemma_set_node(mid, q as int, node);
                }
                self.nodes.set(q, node);
                assert(has_path(self.nodes@, p, q as int));
            },
            None => {
                let q = self.nodes.len();
                let empty = TreeNode {
                    path: clone_path(path),
                    is_dir: true,
                    children: Vec::new(),
                    children_loaded: false,
                    expanded: false,
                };
                assert forall|i: int| 0 <= i < mid.len() implies npath(#[trigger] mid[i]) != npath(empty) by {
                    assert(!has_path(mid, p, i));
                }
                proof {
                    lemma_push_node(mid, empty);
                }
                self.nodes.push(empty);
                let ghost mid2 = self.nodes@;
                let node = TreeNode {
                    path: clone_path(path),
                    is_dir: true,
                    children: child_idx,
                    children_loaded: true,
                    expanded: false,
                };
                proof {
                    lemma_set_node(mid2, q as int, node);
                }
                self.nodes.set(q, node);
                assert(has_path(self.nodes@, p, q as int));
            },
        }
    }
}

} // verus!
