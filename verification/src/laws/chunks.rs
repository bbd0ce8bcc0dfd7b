//! What holds of the pieces that a text is cut into.

use vstd::prelude::*;

use crate::document::chunk::{can_cut, lemma_piece_count, lemma_piece_count_bound, pieces};

verus! {

/// Where a piece starts and ends.
proof fn lemma_piece(text: Seq<char>, size: int, overlap: int, i: int)
    requires
        0 <= overlap,
        can_cut(text.len() as int, size, overlap),
        0 <= i < pieces(text, size, overlap).len(),
    ensures
        ({
            let step = size - overlap;
            let count = pieces(text, size, overlap).len();
            &&& 0 <= i * step < text.len()
            &&& i + 1 < count ==> i * step + size < text.len() && overlap < size
            &&& i + 1 == count ==> i * step + size >= text.len()
            &&& i > 0 ==> overlap < size && (i - 1) * step + size < text.len()
        }),
    decreases i,
{
    let len = text.len() as int;
    let step = size - overlap;
    lemma_piece_count_bound(len, size, overlap);
    if i == 0 {
        assert(0 * step == 0) by (nonlinear_arith);
        lemma_piece_count(len, size, overlap, 0);
    } else {
        lemma_piece(text, size, overlap, i - 1);
        lemma_piece_count(len, size, overlap, i);
        assert(i * step == (i - 1) * step + step) by (nonlinear_arith);
    }
}

/// No piece is empty or longer than the size, and every piece but the last is
/// exactly that long.
pub proof fn law_pieces_have_the_size(text: Seq<char>, size: int, overlap: int, i: int)
    requires
        0 <= overlap,
        can_cut(text.len() as int, size, overlap),
        0 <= i < pieces(text, size, overlap).len(),
    ensures
        0 < pieces(text, size, overlap)[i].len() <= size,
        i + 1 < pieces(text, size, overlap).len() ==> pieces(text, size, overlap)[i].len() == size,
{
    lemma_piece(text, size, overlap, i);
}

/// The end of every piece is the start of the next one.
pub proof fn law_consecutive_pieces_overlap(text: Seq<char>, size: int, overlap: int, i: int)
    requires
        0 <= overlap,
        can_cut(text.len() as int, size, overlap),
        0 <= i,
        i + 1 < pieces(text, size, overlap).len(),
    ensures
        ({
            let a = pieces(text, size, overlap)[i];
            let b = pieces(text, size, overlap)[i + 1];
            &&& overlap < a.len()
            &&& overlap < b.len()
            &&& a.skip(a.len() - overlap) == b.take(overlap)
        }),
{
    let step = size - overlap;
    let a = pieces(text, size, overlap)[i];
    let b = pieces(text, size, overlap)[i + 1];
    lemma_piece(text, size, overlap, i);
    lemma_piece(text, size, overlap, i + 1);
    assert((i + 1) * step == i * step + step) by (nonlinear_arith);
    assert(a.skip(a.len() - overlap) =~= b.take(overlap));
}

/// The text that pieces were cut from: each without what it shares with the one before.
pub open spec fn reassembled(ps: Seq<Seq<char>>, overlap: int) -> Seq<char>
    decreases ps.len(),
{
    if ps.len() == 0 {
        Seq::empty()
    } else if ps.len() == 1 {
        ps[0]
    } else {
        reassembled(ps.drop_last(), overlap) + ps.last().skip(overlap)
    }
}

/// What the first pieces hold of the text.
proof fn lemma_reassembled(text: Seq<char>, size: int, overlap: int, n: int)
    requires
        0 <= overlap,
        can_cut(text.len() as int, size, overlap),
        0 < n <= pieces(text, size, overlap).len(),
    ensures
        reassembled(pieces(text, size, overlap).take(n), overlap) == text.take(
            if n == pieces(text, size, overlap).len() {
                text.len() as int
            } else {
                (n - 1) * (size - overlap) + size
            },
        ),
    decreases n,
{
    let step = size - overlap;
    let all = pieces(text, size, overlap);
    lemma_piece(text, size, overlap, n - 1);
    if n == 1 {
        assert(0 * step == 0) by (nonlinear_arith);
        assert(all.take(1)[0] == all[0]);
        if all.len() == 1 {
            assert(all[0] =~= text.take(text.len() as int));
        } else {
            assert(all[0] =~= text.take(0 * step + size));
        }
    } else {
        lemma_reassembled(text, size, overlap, n - 1);
        lemma_piece(text, size, overlap, n - 2);
        assert(all.take(n).drop_last() =~= all.take(n - 1));
        assert(all.take(n).last() == all[n - 1]);
        assert((n - 1) * step == (n - 2) * step + step) by (nonlinear_arith);
        let end = if n == all.len() {
            text.len() as int
        } else {
            (n - 1) * step + size
        };
        assert(text.take((n - 2) * step + size) + all[n - 1].skip(overlap) =~= text.take(end));
    }
}

/// The pieces hold the whole text: put together again, without what they share,
/// they are the text.
pub proof fn law_pieces_hold_the_whole_text(text: Seq<char>, size: int, overlap: int)
    requires
        0 <= overlap,
        can_cut(text.len() as int, size, overlap),
    ensures
        reassembled(pieces(text, size, overlap), overlap) == text,
{
    let all = pieces(text, size, overlap);
    lemma_piece_count_bound(text.len() as int, size, overlap);
    if text.len() > 0 {
        lemma_piece_count(text.len() as int, size, overlap, 0);
        lemma_reassembled(text, size, overlap, all.len() as int);
        assert(all.take(all.len() as int) =~= all);
        assert(text.take(text.len() as int) =~= text);
    } else {
        assert(reassembled(all, overlap) =~= text);
    }
}

/// A text that fits is one piece.
pub proof fn law_text_that_fits_is_one_piece(text: Seq<char>, size: int, overlap: int)
    requires
        0 < text.len() <= size,
    ensures
        pieces(text, size, overlap) == seq![text],
{
    let step = size - overlap;
    assert(0 * step == 0) by (nonlinear_arith);
    assert(text.subrange(0, text.len() as int) =~= text);
    assert(pieces(text, size, overlap) =~= seq![text]);
}

} // verus!
