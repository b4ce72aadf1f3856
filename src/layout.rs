use vstd::prelude::*;

verus! {

/// The number of screen rows a line of `len` characters takes when wrapped
/// at `width` columns; an empty line, or a zero width, takes one row.
pub fn wrapped_line_count(len: usize, width: usize) -> (r: usize)
    ensures
        width == 0 || len == 0 ==> r == 1,
        width > 0 && len > 0 ==> r == (len - 1) / (width as int) + 1,
        r >= 1,
{
    if width == 0 {
        return 1;
    }
    if len == 0 {
        return 1;
    }
    (len - 1) / width + 1
}

/// The wrapped row and the column within it of the cursor at column `col`
/// of a line wrapped at `width` columns; a cursor past the last character
/// of a full row stays at its end.
pub fn wrap_position(col: usize, width: usize) -> (r: (usize, usize))
    ensures
        width == 0 || col == 0 ==> r == (0usize, 0usize),
        width > 0 && col > 0 ==> r.0 == (col - 1) / (width as int) && r.1 == (col - 1) % (width as int) + 1,
        width > 0 ==> r.1 <= width,
{
    if width == 0 || col == 0 {
        return (0, 0);
    }
    let wrap_row = (col - 1) / width;
    let col_in_wrap = (col - 1) % width + 1;
    (wrap_row, col_in_wrap)
}

/// The text of a run of styled spans.
pub open spec fn text_of<S>(spans: Seq<(S, String)>) -> Seq<char>
    decreases spans.len(),
{
    if spans.len() == 0 {
        Seq::empty()
    } else {
        text_of(spans.drop_last()) + spans.last().1@
    }
}

/// The text of a run of rows, one after the other.
pub open spec fn rows_text<S>(rows: Seq<Seq<(S, String)>>) -> Seq<char>
    decreases rows.len(),
{
    if rows.len() == 0 {
        Seq::empty()
    } else {
        rows_text(rows.drop_last()) + text_of(rows.last())
    }
}

/// A row of pieces: each piece holds some text, and the row fits in
/// `width` characters.
pub open spec fn row_ok<S>(row: Seq<(S, String)>, width: nat) -> bool {
    &&& text_of(row).len() <= width
    &&& forall|k: int| 0 <= k < row.len() ==> (#[trigger] row[k]).1@.len() > 0
}

/// The pieces of all rows, row after row.
pub open spec fn pieces_of<S>(rows: Seq<Vec<(S, String)>>) -> Seq<(S, String)>
    decreases rows.len(),
{
    if rows.len() == 0 {
        Seq::empty()
    } else {
        pieces_of(rows.drop_last()) + rows.last()@
    }
}

/// The text of the pieces whose source, as `src` gives it, is span `i`.
pub open spec fn text_from<S>(pieces: Seq<(S, String)>, src: Seq<int>, i: int) -> Seq<char>
    decreases pieces.len(),
{
    if pieces.len() == 0 || src.len() == 0 {
        Seq::empty()
    } else {
        text_from(pieces.drop_last(), src.drop_last(), i) + if src.last() == i {
            pieces.last().1@
        } else {
            Seq::empty()
        }
    }
}

/// `src` gives each piece the span it was cut from: sources never go back,
/// each piece has the style of its span, and the pieces cut from a span
/// spell out that span's text.
pub open spec fn traced<S>(pieces: Seq<(S, String)>, spans: Seq<(S, String)>, src: Seq<int>) -> bool {
    &&& src.len() == pieces.len()
    &&& forall|k: int| 0 <= k < src.len() ==> 0 <= #[trigger] src[k] < spans.len() && pieces[k].0 == spans[src[k]].0
    &&& forall|k: int| 0 < k < src.len() ==> src[k - 1] <= #[trigger] src[k]
    &&& forall|i: int| 0 <= i < spans.len() ==> #[trigger] text_from(pieces, src, i) == spans[i].1@
}

proof fn lemma_text_from_push<S>(pieces: Seq<(S, String)>, src: Seq<int>, x: (S, String), s: int, i: int)
    requires
        src.len() == pieces.len(),
    ensures
        text_from(pieces.push(x), src.push(s), i) == text_from(pieces, src, i) + if s == i {
            x.1@
        } else {
            Seq::<char>::empty()
        },
{
    assert(pieces.push(x).drop_last() =~= pieces);
    assert(src.push(s).drop_last() =~= src);
}

proof fn lemma_text_from_absent<S>(pieces: Seq<(S, String)>, src: Seq<int>, i: int)
    requires
        src.len() == pieces.len(),
        forall|k: int| 0 <= k < src.len() ==> #[trigger] src[k] != i,
    ensures
        text_from(pieces, src, i) == Seq::<char>::empty(),
    decreases pieces.len(),
{
    if pieces.len() > 0 {
        assert forall|k: int| 0 <= k < src.drop_last().len() implies #[trigger] src.drop_last()[k] != i by {
            assert(src.drop_last()[k] == src[k]);
        }
        lemma_text_from_absent(pieces.drop_last(), src.drop_last(), i);
        assert(src.last() == src[src.len() - 1]);
    }
}

proof fn lemma_text_push<S>(s: Seq<(S, String)>, x: (S, String))
    ensures
        text_of(s.push(x)) == text_of(s) + x.1@,
{
    assert(s.push(x).drop_last() =~= s);
}

proof fn lemma_rows_push<S>(rows: Seq<Seq<(S, String)>>, row: Seq<(S, String)>)
    ensures
        rows_text(rows.push(row)) == rows_text(rows) + text_of(row),
{
    assert(rows.push(row).drop_last() =~= rows);
}

/// Cuts styled spans into rows of at most `width` characters, keeping the
/// text and its order; a zero width gives one empty row.
pub fn wrap_spans<S: Copy>(spans: &Vec<(S, String)>, width: usize) -> (r: Vec<Vec<(S, String)>>)
    ensures
        r@.len() >= 1,
        width == 0 ==> r@.len() == 1 && r@[0].len() == 0,
        width > 0 ==> rows_text(r@.map_values(|row: Vec<(S, String)>| row@)) == text_of(spans@),
        width > 0 ==> forall|j: int| 0 <= j < r@.len() ==> row_ok(#[trigger] r@[j]@, width as nat),
        width > 0 ==> exists|src: Seq<int>| traced(pieces_of(r@), spans@, src),
{
    if width == 0 {
        let mut r: Vec<Vec<(S, String)>> = Vec::new();
        r.push(Vec::new());
        return r;
    }
    let mut rows: Vec<Vec<(S, String)>> = Vec::new();
    let mut cur: Vec<(S, String)> = Vec::new();
    let mut cur_w: usize = 0;
    let mut i: usize = 0;
    let ghost mut src: Seq<int> = Seq::empty();
    proof {
        assert forall|t: int| 0 <= t < spans@.len() implies #[trigger] text_from(pieces_of(rows@) + cur@, src, t)
            == Seq::<char>::empty() by {
            lemma_text_from_absent(pieces_of(rows@) + cur@, src, t);
        }
    }
    assert(spans@.take(0) =~= Seq::<(S, String)>::empty());
    assert(rows@.map_values(|row: Vec<(S, String)>| row@) =~= Seq::<Seq<(S, String)>>::empty());
    while i < spans.len()
        invariant
            width > 0,
            i <= spans.len(),
            cur_w == text_of(cur@).len(),
            row_ok(cur@, width as nat),
            forall|j: int| 0 <= j < rows@.len() ==> row_ok(#[trigger] rows@[j]@, width as nat),
            rows_text(rows@.map_values(|row: Vec<(S, String)>| row@)) + text_of(cur@) == text_of(spans@.take(i as int)),
            src.len() == (pieces_of(rows@) + cur@).len(),
            forall|k: int|
                0 <= k < src.len() ==> 0 <= #[trigger] src[k] < i && (pieces_of(rows@) + cur@)[k].0 == spans@[src[k]].0,
            forall|k: int| 0 < k < src.len() ==> src[k - 1] <= #[trigger] src[k],
            forall|t: int| 0 <= t < i ==> #[trigger] text_from(pieces_of(rows@) + cur@, src, t) == spans@[t].1@,
            forall|t: int|
                i <= t < spans@.len() ==> #[trigger] text_from(pieces_of(rows@) + cur@, src, t) == Seq::<char>::empty(),
        decreases spans.len() - i,
    {
        let style = spans[i].0;
        let mut rest: String = spans[i].1.clone();
        let mut n = rest.as_str().unicode_len();
        assert(spans@.take(i as int + 1).drop_last() =~= spans@.take(i as int));
        assert(spans@.take(i as int + 1).last() == spans@[i as int]);
        assert(text_from(pieces_of(rows@) + cur@, src, i as int) == Seq::<char>::empty());
        assert(text_from(pieces_of(rows@) + cur@, src, i as int) + rest@ =~= spans@[i as int].1@);
        while n > 0
            invariant
                width > 0,
                i < spans.len(),
                style == spans@[i as int].0,
                n == rest@.len(),
                cur_w == text_of(cur@).len(),
                row_ok(cur@, width as nat),
                forall|j: int| 0 <= j < rows@.len() ==> row_ok(#[trigger] rows@[j]@, width as nat),
                rows_text(rows@.map_values(|row: Vec<(S, String)>| row@)) + text_of(cur@) + rest@ == text_of(
                    spans@.take(i as int + 1),
                ),
                src.len() == (pieces_of(rows@) + cur@).len(),
                forall|k: int|
                    0 <= k < src.len() ==> 0 <= #[trigger] src[k] <= i && (pieces_of(rows@) + cur@)[k].0
                        == spans@[src[k]].0,
                forall|k: int| 0 < k < src.len() ==> src[k - 1] <= #[trigger] src[k],
                forall|t: int| 0 <= t < i ==> #[trigger] text_from(pieces_of(rows@) + cur@, src, t) == spans@[t].1@,
                text_from(pieces_of(rows@) + cur@, src, i as int) + rest@ == spans@[i as int].1@,
                forall|t: int|
                    i < t < spans@.len() ==> #[trigger] text_from(pieces_of(rows@) + cur@, src, t) == Seq::<
                        char,
                    >::empty(),
            decreases n,
        {
            if cur_w >= width {
                let ghost old_rows = rows@.map_values(|row: Vec<(S, String)>| row@);
                let ghost old_pieces = pieces_of(rows@) + cur@;
                let ghost old_vec_rows = rows@;
                let full = cur;
                cur = Vec::new();
                cur_w = 0;
                rows.push(full);
                proof {
                    assert(rows@.drop_last() =~= old_vec_rows);
                    assert(pieces_of(rows@) + cur@ =~= old_pieces);
                    assert(rows@.map_values(|row: Vec<(S, String)>| row@) =~= old_rows.push(full@));
                    lemma_rows_push(old_rows, full@);
                    assert(text_of(cur@) =~= Seq::<char>::empty());
                    assert(rows_text(rows@.map_values(|row: Vec<(S, String)>| row@)) + text_of(cur@) + rest@
                        =~= rows_text(old_rows) + text_of(full@) + rest@);
                }
            }
            let avail = width - cur_w;
            let (take, tail) = split_at_char_count(rest.as_str(), avail);
            let ghost before = cur@;
            let ghost old_pieces = pieces_of(rows@) + cur@;
            let ghost old_src = src;
            let k = if n < avail { n } else { avail };
            proof {
                lemma_text_push(before, (style, take));
                assert(take@.len() == k);
            }
            let ghost piece = (style, take);
            cur.push((style, take));
            assert(cur@ == before.push((style, take)));
            proof {
                src = old_src.push(i as int);
                assert(pieces_of(rows@) + cur@ =~= old_pieces.push(piece));
                assert forall|t: int| 0 <= t < spans@.len() implies #[trigger] text_from(pieces_of(rows@) + cur@, src, t)
                    == text_from(old_pieces, old_src, t) + if t == i {
                    piece.1@
                } else {
                    Seq::<char>::empty()
                } by {
                    lemma_text_from_push(old_pieces, old_src, piece, i as int, t);
                }
                assert(text_from(pieces_of(rows@) + cur@, src, i as int) =~= text_from(old_pieces, old_src, i as int) + piece.1@);
                assert forall|t: int| 0 <= t < i implies #[trigger] text_from(pieces_of(rows@) + cur@, src, t) == spans@[t].1@ by {
                    assert(text_from(pieces_of(rows@) + cur@, src, t) =~= text_from(old_pieces, old_src, t));
                }
                assert forall|t: int| i < t < spans@.len() implies #[trigger] text_from(pieces_of(rows@) + cur@, src, t) == Seq::<char>::empty() by {
                    assert(text_from(pieces_of(rows@) + cur@, src, t) =~= text_from(old_pieces, old_src, t));
                }
                assert forall|q: int| 0 <= q < src.len() implies 0 <= #[trigger] src[q] <= i && (pieces_of(rows@) + cur@)[q].0
                    == spans@[src[q]].0 by {
                    if q < old_src.len() {
                        assert(src[q] == old_src[q]);
                        assert((pieces_of(rows@) + cur@)[q] == old_pieces[q]);
                    }
                }
            }
            assert forall|q: int| 0 <= q < cur@.len() implies (#[trigger] cur@[q]).1@.len() > 0 by {
                if q < before.len() {
                    assert(cur@[q] == before[q]);
                }
            }
            cur_w = cur_w + k;
            assert(text_of(cur@) =~= text_of(before) + take@);
            let ghost prefix = rows_text(rows@.map_values(|row: Vec<(S, String)>| row@));
            assert(prefix + text_of(before) + rest@ =~= prefix + text_of(cur@) + tail@);
            assert(text_from(pieces_of(rows@) + cur@, src, i as int) + tail@ =~= spans@[i as int].1@);
            rest = tail;
            n = n - k;
        }
        assert(text_from(pieces_of(rows@) + cur@, src, i as int) =~= spans@[i as int].1@);
        i = i + 1;
    }
    let ghost old_rows = rows@.map_values(|row: Vec<(S, String)>| row@);
    let ghost old_pieces = pieces_of(rows@) + cur@;
    let ghost old_vec_rows = rows@;
    let last = cur;
    rows.push(last);
    assert(rows@.drop_last() =~= old_vec_rows);
    assert(pieces_of(rows@) =~= old_pieces);
    assert(traced(pieces_of(rows@), spans@, src));
    proof {
        assert(rows@.map_values(|row: Vec<(S, String)>| row@) =~= old_rows.push(last@));
        lemma_rows_push(old_rows, last@);
        assert(spans@.take(i as int) =~= spans@);
    }
    rows
}

/// Splits `s` after its first `count` characters (all of them when it has
/// fewer).
pub fn split_at_char_count(s: &str, count: usize) -> (r: (String, String))
    ensures
        count >= s@.len() ==> r.0@ == s@ && r.1@.len() == 0,
        count < s@.len() ==> r.0@ == s@.subrange(0, count as int) && r.1@ == s@.subrange(count as int, s@.len() as int),
        r.0@ + r.1@ == s@,
{
    let n = s.unicode_len();
    let k = if count < n { count } else { n };
    let head = s.substring_char(0, k).to_owned();
    let tail = s.substring_char(k, n).to_owned();
    assert(head@ + tail@ =~= s@);
    (head, tail)
}

} // verus!
