use vstd::prelude::*;

verus! {

/// Strict lexicographic order on character sequences, by code point.
pub open spec fn lex_lt(a: Seq<char>, b: Seq<char>) -> bool
    decreases a.len(),
{
    if a.len() == 0 {
        b.len() > 0
    } else if b.len() == 0 {
        false
    } else if a[0] != b[0] {
        a[0] < b[0]
    } else {
        lex_lt(a.drop_first(), b.drop_first())
    }
}

/// `lex_lt` is asymmetric.
pub proof fn lemma_lex_lt_asym(a: Seq<char>, b: Seq<char>)
    ensures
        lex_lt(a, b) ==> !lex_lt(b, a),
    decreases a.len(),
{
    if a.len() > 0 && b.len() > 0 && a[0] == b[0] {
        lemma_lex_lt_asym(a.drop_first(), b.drop_first());
    }
}

/// A sort key: a rank compared first, then a text compared lexicographically.
pub struct SortKey {
    pub rank: u32,
    pub text: Vec<char>,
}

/// Strict order on (rank, text) pairs: rank first, then text.
pub open spec fn pair_lt(a: (u32, Seq<char>), b: (u32, Seq<char>)) -> bool {
    a.0 < b.0 || (a.0 == b.0 && lex_lt(a.1, b.1))
}

pub open spec fn key_lt(a: SortKey, b: SortKey) -> bool {
    pair_lt((a.rank, a.text@), (b.rank, b.text@))
}

pub proof fn lemma_key_lt_asym(a: SortKey, b: SortKey)
    ensures
        key_lt(a, b) ==> !key_lt(b, a),
{
    lemma_lex_lt_asym(a.text@, b.text@);
}

/// `order` lists the keys in non-decreasing order: no key is strictly below
/// the one before it.
pub open spec fn ordered_by(keys: Seq<SortKey>, order: Seq<usize>) -> bool {
    forall|j: int|
        0 < j < order.len() ==> !key_lt(
            #[trigger] keys[order[j] as int],
            keys[order[j - 1] as int],
        )
}

/// `order` is a permutation of `0..n`.
pub open spec fn is_permutation(order: Seq<usize>, n: nat) -> bool {
    &&& order.len() == n
    &&& forall|j: int| 0 <= j < order.len() ==> #[trigger] order[j] < n
    &&& forall|i: int, j: int|
        0 <= i < order.len() && 0 <= j < order.len() && i != j ==> order[i] != order[j]
    &&& forall|i: int| 0 <= i < n ==> #[trigger] order.contains(i as usize)
}

/// `s` is a permutation of `lo..hi`.
pub open spec fn range_perm(s: Seq<usize>, lo: int, hi: int) -> bool {
    &&& s.len() == hi - lo
    &&& forall|j: int| 0 <= j < s.len() ==> lo <= #[trigger] s[j] < hi
    &&& forall|i: int, j: int| 0 <= i < s.len() && 0 <= j < s.len() && i != j ==> s[i] != s[j]
    &&& forall|x: int| lo <= x < hi ==> #[trigger] s.contains(x as usize)
}

/// `v` is one of the first `i` items of `a` or of the first `j` of `b`.
pub open spec fn taken_from(a: Seq<usize>, b: Seq<usize>, i: int, j: int, v: usize) -> bool {
    (exists|p: int| 0 <= p < i && #[trigger] a[p] == v) || (exists|q: int| 0 <= q < j && #[trigger] b[q] == v)
}

/// Merges two ordered permutations of the adjacent ranges `lo..mid` and
/// `mid..hi`.
fn merge(keys: &Vec<SortKey>, a: &Vec<usize>, b: &Vec<usize>, lo: usize, mid: usize, hi: usize) -> (r: Vec<usize>)
    requires
        lo <= mid <= hi <= keys.len(),
        range_perm(a@, lo as int, mid as int),
        range_perm(b@, mid as int, hi as int),
        ordered_by(keys@, a@),
        ordered_by(keys@, b@),
    ensures
        range_perm(r@, lo as int, hi as int),
        ordered_by(keys@, r@),
{
    let mut out: Vec<usize> = Vec::new();
    let mut i: usize = 0;
    let mut j: usize = 0;
    while i < a.len() || j < b.len()
        invariant
            lo <= mid <= hi <= keys.len(),
            range_perm(a@, lo as int, mid as int),
            range_perm(b@, mid as int, hi as int),
            ordered_by(keys@, a@),
            ordered_by(keys@, b@),
            i <= a.len(),
            j <= b.len(),
            out.len() == i + j,
            forall|k: int| 0 <= k < out.len() ==> lo <= #[trigger] out@[k] < hi,
            forall|k: int| 0 <= k < out.len() ==> taken_from(a@, b@, i as int, j as int, #[trigger] out@[k]),
            forall|p: int| 0 <= p < i ==> out@.contains(#[trigger] a@[p]),
            forall|q: int| 0 <= q < j ==> out@.contains(#[trigger] b@[q]),
            forall|x: int, y: int| 0 <= x < out.len() && 0 <= y < out.len() && x != y ==> out@[x] != out@[y],
            ordered_by(keys@, out@),
            out.len() > 0 && i < a.len() ==> !key_lt(keys@[a@[i as int] as int], keys@[out@.last() as int]),
            out.len() > 0 && j < b.len() ==> !key_lt(keys@[b@[j as int] as int], keys@[out@.last() as int]),
        decreases a.len() + b.len() - i - j,
    {
        let ghost before = out@;
        let take_a = j >= b.len() || (i < a.len() && !key_less(&keys[b[j]], &keys[a[i]]));
        let v = if take_a { a[i] } else { b[j] };
        proof {
            if !take_a && i < a.len() {
                lemma_key_lt_asym(keys@[b@[j as int] as int], keys@[a@[i as int] as int]);
            }
            assert forall|k: int| 0 <= k < before.len() implies before[k] != v by {
                assert(taken_from(a@, b@, i as int, j as int, before[k]));
                if exists|p: int| 0 <= p < i && #[trigger] a@[p] == before[k] {
                    let p = choose|p: int| 0 <= p < i && #[trigger] a@[p] == before[k];
                    if take_a {
                        assert(a@[p] != a@[i as int]);
                    }
                } else {
                    let q = choose|q: int| 0 <= q < j && #[trigger] b@[q] == before[k];
                    if !take_a {
                        assert(b@[q] != b@[j as int]);
                    }
                }
            }
        }
        out.push(v);
        if take_a {
            i = i + 1;
        } else {
            j = j + 1;
        }
        proof {
            assert(out@[out@.len() - 1] == v);
            assert forall|p: int| 0 <= p < i implies out@.contains(#[trigger] a@[p]) by {
                if take_a && p == i - 1 {
                    assert(out@[out@.len() - 1] == a@[p]);
                } else {
                    let k = choose|k: int| 0 <= k < before.len() && before[k] == a@[p];
                    assert(out@[k] == before[k]);
                }
            }
            assert forall|q: int| 0 <= q < j implies out@.contains(#[trigger] b@[q]) by {
                if !take_a && q == j - 1 {
                    assert(out@[out@.len() - 1] == b@[q]);
                } else {
                    let k = choose|k: int| 0 <= k < before.len() && before[k] == b@[q];
                    assert(out@[k] == before[k]);
                }
            }
            assert forall|k: int| 0 <= k < out.len() implies taken_from(a@, b@, i as int, j as int, #[trigger] out@[k]) by {
                if k < before.len() {
                    assert(out@[k] == before[k]);
                    assert(taken_from(a@, b@, (if take_a { i - 1 } else { i as int }), (if take_a { j as int } else { j - 1 }), before[k]));
                } else if take_a {
                    assert(a@[i - 1] == out@[k]);
                } else {
                    assert(b@[j - 1] == out@[k]);
                }
            }
            assert forall|x: int, y: int|
                0 <= x < out.len() && 0 <= y < out.len() && x != y implies out@[x] != out@[y] by {
                if x < before.len() && y < before.len() {
                    assert(out@[x] == before[x] && out@[y] == before[y]);
                } else if x < before.len() {
                    assert(out@[x] == before[x]);
                } else {
                    assert(out@[y] == before[y]);
                }
            }
            assert forall|k: int| 0 < k < out@.len() implies !key_lt(
                #[trigger] keys@[out@[k] as int],
                keys@[out@[k - 1] as int],
            ) by {
                if k < before.len() {
                    assert(out@[k] == before[k] && out@[k - 1] == before[k - 1]);
                } else {
                    assert(out@[k - 1] == before.last());
                }
            }
            if take_a && i < a.len() {
                assert(!key_lt(keys@[a@[i as int] as int], keys@[a@[i - 1] as int]));
            }
            if !take_a && j < b.len() {
                assert(!key_lt(keys@[b@[j as int] as int], keys@[b@[j - 1] as int]));
            }
        }
    }
    proof {
        assert forall|x: int| lo <= x < hi implies #[trigger] out@.contains(x as usize) by {
            if x < mid {
                assert(a@.contains(x as usize));
                let p = choose|p: int| 0 <= p < a@.len() && a@[p] == x as usize;
                assert(out@.contains(a@[p]));
            } else {
                assert(b@.contains(x as usize));
                let q = choose|q: int| 0 <= q < b@.len() && b@[q] == x as usize;
                assert(out@.contains(b@[q]));
            }
        }
    }
    out
}

/// Orders the positions `lo..hi` of `keys` by key.
fn sort_range(keys: &Vec<SortKey>, lo: usize, hi: usize) -> (r: Vec<usize>)
    requires
        lo <= hi <= keys.len(),
    ensures
        range_perm(r@, lo as int, hi as int),
        ordered_by(keys@, r@),
    decreases hi - lo,
{
    if hi - lo <= 1 {
        let mut r: Vec<usize> = Vec::new();
        if hi > lo {
            r.push(lo);
            assert(r@[0] == lo);
        }
        proof {
            assert forall|x: int| lo <= x < hi implies #[trigger] r@.contains(x as usize) by {
                assert(r@[0] == x as usize);
            }
        }
        r
    } else {
        let mid = lo + (hi - lo) / 2;
        let a = sort_range(keys, lo, mid);
        let b = sort_range(keys, mid, hi);
        merge(keys, &a, &b, lo, mid, hi)
    }
}

pub fn lex_less(a: &Vec<char>, b: &Vec<char>) -> (r: bool)
    ensures
        r == lex_lt(a@, b@),
{
    let mut i: usize = 0;
    assert(a@.skip(0) =~= a@ && b@.skip(0) =~= b@);
    while i < a.len() && i < b.len()
        invariant
            i <= a.len(),
            i <= b.len(),
            lex_lt(a@, b@) == lex_lt(a@.skip(i as int), b@.skip(i as int)),
        decreases a.len() - i,
    {
        if a[i] != b[i] {
            return a[i] < b[i];
        }
        assert(a@.skip(i as int).drop_first() =~= a@.skip(i as int + 1));
        assert(b@.skip(i as int).drop_first() =~= b@.skip(i as int + 1));
        i = i + 1;
    }
    i == a.len() && i < b.len()
}

pub fn key_less(a: &SortKey, b: &SortKey) -> (r: bool)
    ensures
        r == key_lt(*a, *b),
{
    if a.rank != b.rank {
        a.rank < b.rank
    } else {
        lex_less(&a.text, &b.text)
    }
}

/// Orders the positions of `keys` by key.
pub fn sort_order(keys: &Vec<SortKey>) -> (order: Vec<usize>)
    ensures
        is_permutation(order@, keys@.len()),
        ordered_by(keys@, order@),
{
    let order = sort_range(keys, 0, keys.len());
    assert forall|j: int| 0 <= j < order@.len() implies #[trigger] order@[j] < keys@.len() by {}
    order
}

} // verus!
