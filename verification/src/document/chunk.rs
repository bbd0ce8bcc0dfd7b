//! Fixed-size chunking with overlap, counted in characters.

use vstd::prelude::*;

use crate::text::{chars_of, lemma_texts_push, string_of, texts};

verus! {

/// How many pieces a text of `len` characters makes.
pub open spec fn piece_count(len: int, size: int, overlap: int) -> int {
    let step = size - overlap;
    if len == 0 {
        0
    } else if len <= size {
        1
    } else {
        1 + (len - size + step - 1) / step
    }
}

/// The pieces of a text: each starts `size - overlap` characters after the one
/// before it and holds `size` characters, or what is left of the text.
pub open spec fn pieces(text: Seq<char>, size: int, overlap: int) -> Seq<Seq<char>> {
    let step = size - overlap;
    Seq::new(
        piece_count(text.len() as int, size, overlap) as nat,
        |i: int|
            text.subrange(
                i * step,
                if i * step + size < text.len() {
                    i * step + size
                } else {
                    text.len() as int
                },
            ),
    )
}

/// A text can be cut: it fits in one piece, or every piece goes beyond its overlap.
pub open spec fn can_cut(len: int, size: int, overlap: int) -> bool {
    len <= size || overlap < size
}

/// The last piece is the first one that reaches the end of the text.
pub proof fn lemma_piece_count(len: int, size: int, overlap: int, i: int)
    requires
        0 < len,
        0 <= overlap,
        can_cut(len, size, overlap),
        0 <= i,
        i == 0 || (size < len && (i - 1) * (size - overlap) + size < len),
    ensures
        i < piece_count(len, size, overlap),
        i * (size - overlap) + size >= len <==> i + 1 == piece_count(len, size, overlap),
{
    let step = size - overlap;
    if len > size {
        let q = (len - size + step - 1) / step;
        assert(q * step >= len - size && (q - 1) * step < len - size) by (nonlinear_arith)
            requires
                q == (len - size + step - 1) / step,
                step > 0,
                len > size,
        ;
        if i > 0 {
            assert(i - 1 < q) by (nonlinear_arith)
                requires
                    (i - 1) * step < len - size,
                    q * step >= len - size,
                    step > 0,
            ;
        } else {
            assert(q >= 1) by (nonlinear_arith)
                requires
                    q * step >= len - size,
                    len > size,
                    step > 0,
            ;
        }
        if i * step + size >= len {
            assert(i > q - 1) by (nonlinear_arith)
                requires
                    i * step >= len - size,
                    (q - 1) * step < len - size,
                    step > 0,
            ;
        } else {
            assert(i < q) by (nonlinear_arith)
                requires
                    i * step < len - size,
                    q * step >= len - size,
                    step > 0,
            ;
        }
    } else if i == 0 {
        assert(0 * step == 0) by (nonlinear_arith);
    }
}

/// A text makes no more pieces than it has characters.
pub proof fn lemma_piece_count_bound(len: int, size: int, overlap: int)
    requires
        0 <= len,
        0 <= overlap,
        can_cut(len, size, overlap),
    ensures
        0 <= piece_count(len, size, overlap) <= len,
{
    let step = size - overlap;
    if len > size {
        let a = len - size;
        let q = (a + step - 1) / step;
        assert(0 <= q <= a) by (nonlinear_arith)
            requires
                q == (a + step - 1) / step,
                step > 0,
                a > 0,
        ;
    }
}

/// How a document is cut: the size of a chunk and of the overlap, in characters.
#[derive(Clone, Copy, Debug, PartialEq, Eq, Structural)]
pub struct Chunking {
    pub size: usize,
    pub overlap: usize,
}

/// The pieces that a text is cut into.
pub open spec fn cut(text: Seq<char>, chunking: Chunking) -> Seq<Seq<char>> {
    pieces(text, chunking.size as int, chunking.overlap as int)
}

/// How many pieces a text of `len` characters makes.
pub fn count_pieces(len: usize, chunking: Chunking) -> (r: usize)
    requires
        can_cut(len as int, chunking.size as int, chunking.overlap as int),
    ensures
        r == piece_count(len as int, chunking.size as int, chunking.overlap as int),
{
    proof {
        lemma_piece_count_bound(len as int, chunking.size as int, chunking.overlap as int);
    }
    if len == 0 {
        0
    } else if len <= chunking.size {
        1
    } else {
        let step = (chunking.size - chunking.overlap) as u128;
        let rest = (len - chunking.size) as u128;
        (1 + (rest + step - 1) / step) as usize
    }
}

/// Cuts a text into pieces of `chunk_size` characters, consecutive ones sharing
/// `overlap` characters.
pub fn chunk_text(text: &str, chunk_size: usize, overlap: usize) -> (r: Vec<String>)
    requires
        can_cut(text@.len() as int, chunk_size as int, overlap as int),
    ensures
        texts(r@) == pieces(text@, chunk_size as int, overlap as int),
{
    let chars = chars_of(text);
    let mut chunks: Vec<String> = Vec::new();
    let mut start: usize = 0;
    let ghost mut i: int = 0;
    let ghost step: int = chunk_size - overlap;
    let ghost all = pieces(text@, chunk_size as int, overlap as int);
    proof {
        assert(texts(chunks@) =~= all.take(0));
        assert(0 * step == 0) by (nonlinear_arith);
        if text@.len() == 0 {
            assert(all.take(0) =~= all);
        }
    }
    let mut done: bool = chars.len() == 0;
    while !done
        invariant
            chars@ == text@,
            step == chunk_size - overlap,
            can_cut(text@.len() as int, chunk_size as int, overlap as int),
            all == pieces(text@, chunk_size as int, overlap as int),
            done ==> texts(chunks@) == all,
            !done ==> {
                &&& start < chars@.len()
                &&& 0 <= i
                &&& i == 0 || (chunk_size < chars@.len() && (i - 1) * step + chunk_size < chars@.len())
                &&& start == i * step
                &&& i < all.len()
                &&& texts(chunks@) == all.take(i)
            },
        decreases (if done { 0 } else { 1 + chars@.len() - start }),
    {
        let last = chunk_size >= chars.len() - start;
        let end: usize = if last {
            chars.len()
        } else {
            start + chunk_size
        };
        let chunk = string_of(&chars, start, end);
        proof {
            lemma_piece_count(text@.len() as int, chunk_size as int, overlap as int, i);
            lemma_texts_push(chunks@, chunk);
            assert(all[i] =~= chunk@);
            assert(all.take(i + 1) =~= all.take(i).push(all[i]));
        }
        chunks.push(chunk);
        if last {
            done = true;
            proof {
                assert(all.take(i + 1) =~= all);
            }
        } else {
            proof {
                assert((i + 1) * step == i * step + step) by (nonlinear_arith);
                assert(i + 1 - 1 == i);
                lemma_piece_count(text@.len() as int, chunk_size as int, overlap as int, i + 1);
                i = i + 1;
            }
            start = end - overlap;
        }
    }
    chunks
}

} // verus!
