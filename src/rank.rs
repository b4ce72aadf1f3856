use vstd::prelude::*;
use crate::order::{SortKey, key_lt, is_permutation, sort_order};
use crate::text::{lower_of, lowercase};

verus! {

#[verifier::external_type_specification]
#[verifier::external_body]
pub struct ExMatcher(nucleo::Matcher);

/// The score that nucleo's fuzzy matcher, with configuration
/// `Config::DEFAULT`, gives `needle` in `haystack`; `None` where it does not
/// match.
pub uninterp spec fn fuzzy_score(haystack: Seq<char>, needle: Seq<char>) -> Option<u16>;

/// A nucleo matcher with the default configuration. The matcher sits in a
/// private field and only `FuzzyMatcher::new` builds one, so every matcher
/// of this type has `Config::DEFAULT`.
pub struct FuzzyMatcher {
    inner: nucleo::Matcher,
}

/// Relies on `nucleo::Matcher::new(Config::DEFAULT)`: a matcher with the
/// default configuration.
#[verifier::external_body]
fn new_matcher() -> nucleo::Matcher {
    nucleo::Matcher::new(nucleo::Config::DEFAULT)
}

impl FuzzyMatcher {
    pub fn new() -> FuzzyMatcher {
        FuzzyMatcher { inner: new_matcher() }
    }
}

/// Relies on `nucleo::Matcher::fuzzy_match` on a matcher built by
/// `FuzzyMatcher::new` (configuration `Config::DEFAULT`, never changed): the
/// score depends on the two strings alone, an empty needle scores 0, and
/// haystacks up to `u32::MAX` characters are accepted.
#[verifier::external_body]
fn fuzzy_match(m: &mut FuzzyMatcher, haystack: &str, needle: &str) -> (r: Option<u16>)
    requires
        haystack@.len() <= u32::MAX,
    ensures
        r == fuzzy_score(haystack@, needle@),
        needle@.len() == 0 ==> r == Some(0u16),
{
    let mut hay_buf = Vec::new();
    let mut needle_buf = Vec::new();
    m.inner.fuzzy_match(
        nucleo::Utf32Str::new(haystack, &mut hay_buf),
        nucleo::Utf32Str::new(needle, &mut needle_buf),
    )
}

/// The score of file `i` for `query`: files too long for the matcher do
/// not match.
pub open spec fn score_of(files: Seq<String>, query: Seq<char>, i: int) -> Option<u16> {
    if files[i]@.len() <= u32::MAX {
        fuzzy_score(files[i]@, query)
    } else {
        None
    }
}

/// The match list for an empty query: every file, in index order, score 0.
pub open spec fn identity_matches(m: Seq<(usize, u32)>, n: nat) -> bool {
    &&& m.len() == n
    &&& forall|k: int| 0 <= k < m.len() ==> #[trigger] m[k] == (k as usize, 0u32)
}

/// `m` lists each position whose score is `Some` exactly once, with that
/// score, in non-increasing order of score.
pub open spec fn ranked_by(m: Seq<(usize, u32)>, scores: Seq<Option<u16>>) -> bool {
    &&& forall|k: int|
        0 <= k < m.len() ==> (#[trigger] m[k]).0 < scores.len() && scores[m[k].0 as int] == Some(
            m[k].1 as u16,
        ) && m[k].1 <= u16::MAX
    &&& forall|a: int, b: int| 0 <= a < m.len() && 0 <= b < m.len() && a != b ==> m[a].0 != m[b].0
    &&& forall|i: int|
        0 <= i < scores.len() && (#[trigger] scores[i]) is Some ==> exists|k: int|
            0 <= k < m.len() && (#[trigger] m[k]).0 == i
    &&& forall|k: int| 0 < k < m.len() ==> (#[trigger] m[k]).1 <= m[k - 1].1
}

/// The scores of all files for `query`.
pub open spec fn scores_of(files: Seq<String>, query: Seq<char>) -> Seq<Option<u16>> {
    Seq::new(files.len(), |i: int| score_of(files, query, i))
}

/// The identity match list over `n` files.
pub fn identity(n: usize) -> (r: Vec<(usize, u32)>)
    ensures
        identity_matches(r@, n as nat),
{
    let mut r: Vec<(usize, u32)> = Vec::new();
    let mut i: usize = 0;
    while i < n
        invariant
            i <= n,
            identity_matches(r@, i as nat),
        decreases n - i,
    {
        r.push((i, 0));
        i = i + 1;
    }
    r
}

/// Lists the positions that have a score, by descending score.
pub fn order_by_score(scores: &Vec<Option<u16>>) -> (r: Vec<(usize, u32)>)
    ensures
        ranked_by(r@, scores@),
{
    let mut idx: Vec<usize> = Vec::new();
    let mut vals: Vec<u16> = Vec::new();
    let mut keys: Vec<SortKey> = Vec::new();
    let mut i: usize = 0;
    while i < scores.len()
        invariant
            i <= scores.len(),
            idx.len() == vals.len(),
            idx.len() == keys.len(),
            forall|j: int| 0 <= j < idx.len() ==> (#[trigger] idx@[j]) < i && scores@[idx@[j] as int] == Some(vals@[j]),
            forall|j: int| 0 <= j < idx.len() ==> (#[trigger] keys@[j]).rank == u16::MAX - vals@[j],
            forall|a: int, b: int| 0 <= a < b < idx.len() ==> idx@[a] < idx@[b],
            forall|x: int| 0 <= x < i && (#[trigger] scores@[x]) is Some ==> exists|j: int| 0 <= j < idx.len() && idx@[j] == x,
        decreases scores.len() - i,
    {
        match scores[i] {
            Some(score) => {
                let ghost before = idx@;
                idx.push(i);
                vals.push(score);
                keys.push(SortKey { rank: (65535 - score) as u32, text: Vec::new() });
                assert forall|x: int| 0 <= x < i + 1 && (#[trigger] scores@[x]) is Some implies exists|j: int| 0 <= j < idx.len() && idx@[j] == x by {
                    if x < i {
                        let j = choose|j: int| 0 <= j < before.len() && before[j] == x;
                        assert(idx@[j] == x);
                    } else {
                        assert(idx@[idx.len() - 1] == x);
                    }
                }
            },
            None => {},
        }
        i = i + 1;
    }
    let order = sort_order(&keys);
    let mut r: Vec<(usize, u32)> = Vec::new();
    let mut k: usize = 0;
    while k < order.len()
        invariant
            k <= order.len(),
            is_permutation(order@, keys@.len()),
            idx.len() == vals.len(),
            idx.len() == keys.len(),
            r.len() == k,
            forall|j: int| 0 <= j < k ==> #[trigger] r@[j] == (idx@[order@[j] as int], vals@[order@[j] as int] as u32),
        decreases order.len() - k,
    {
        let o = order[k];
        r.push((idx[o], vals[o] as u32));
        k = k + 1;
    }
    assert forall|a: int, b: int| 0 <= a < r.len() && 0 <= b < r.len() && a != b implies r@[a].0 != r@[b].0 by {
        assert(order@[a] != order@[b]);
        let (x, y) = (order@[a] as int, order@[b] as int);
        if x < y {
            assert(idx@[x] < idx@[y]);
        } else {
            assert(idx@[y] < idx@[x]);
        }
    }
    assert forall|x: int| 0 <= x < scores.len() && (#[trigger] scores@[x]) is Some implies exists|k: int| 0 <= k < r.len() && (#[trigger] r@[k]).0 == x by {
        let j = choose|j: int| 0 <= j < idx.len() && idx@[j] == x;
        assert(order@.contains(j as usize));
        let k = choose|k: int| 0 <= k < order.len() && order@[k] == j as usize;
        assert(r@[k].0 == x);
    }
    assert forall|k: int| 0 < k < r.len() implies (#[trigger] r@[k]).1 <= r@[k - 1].1 by {
        assert(!key_lt(keys@[order@[k] as int], keys@[order@[k - 1] as int]));
    }
    r
}

/// Scores every file against the lower-cased `query` (the matcher folds
/// the case of the paths, the query is folded here) and lists the matches by
/// descending score; for an empty query, every file in order with score 0.
pub fn rank(m: &mut FuzzyMatcher, files: &Vec<String>, query: &String) -> (r: Vec<(usize, u32)>)
    ensures
        query@.len() == 0 ==> identity_matches(r@, files@.len()),
        query@.len() > 0 ==> ranked_by(r@, scores_of(files@, lower_of(query@))),
{
    if query.as_str().is_empty() {
        return identity(files.len());
    }
    let folded = lowercase(query.as_str());
    let query = &folded;
    let mut scores: Vec<Option<u16>> = Vec::new();
    let mut i: usize = 0;
    while i < files.len()
        invariant
            i <= files.len(),
            scores@ == scores_of(files@, query@).take(i as int),
        decreases files.len() - i,
    {
        let len = files[i].as_str().unicode_len();
        let s = if len <= 4294967295 {
            fuzzy_match(m, files[i].as_str(), query.as_str())
        } else {
            None
        };
        scores.push(s);
        i = i + 1;
        assert(scores@ =~= scores_of(files@, query@).take(i as int));
    }
    assert(scores@ =~= scores_of(files@, query@));
    order_by_score(&scores)
}

} // verus!
