//! What adding, updating and deleting documents does to the rows, row by row.

use vstd::prelude::*;

use crate::document::chunk::{cut, lemma_piece_count_bound, Chunking};
use crate::document::model::{
    added, blank_identity, can_add, changed_below, declared_as, has_position, id_of_another,
    lemma_free_id, lemma_missing, lemma_reversioned_wf, matched, missing, named, new_id, outdated,
    owned_by, owned_from, rechunked, reversioned, taken, untouched, upserted, without_document,
    Naming,
};
use crate::document::naming;
use crate::error::Error;
use crate::laws::documents::{
    law_chunks_are_the_pieces, law_deletion_takes_what_the_document_owns,
    law_update_purges_what_was_judged_on_old_text, lemma_row_origin, lemma_row_survives,
};
use crate::seqs::{
    first_where, lemma_filter_keeps, lemma_filter_member, lemma_first_absent, lemma_first_at,
    lemma_first_exists, lemma_first_found,
};
use crate::storage::tables::{
    chunk_order, distinct_external_ids, document_order, ChunkRow, DocumentRow, EmbeddingRow,
    RelationRow, Tables,
};
use crate::text::{decimal, is_white};

verus! {

/// What a selection holds.
pub proof fn lemma_filter_contains<A>(s: Seq<A>, p: spec_fn(A) -> bool, x: A)
    ensures
        s.filter(p).contains(x) <==> s.contains(x) && p(x),
{
    if s.contains(x) && p(x) {
        let k = choose|k: int| 0 <= k < s.len() && s[k] == x;
        let i = lemma_filter_keeps(s, p, k);
        assert(s.filter(p)[i] == x);
    }
    if s.filter(p).contains(x) {
        let i = choose|i: int| 0 <= i < s.filter(p).len() && s.filter(p)[i] == x;
        lemma_filter_member(s, p, i);
        let k = choose|k: int| 0 <= k < s.len() && #[trigger] s[k] == s.filter(p)[i];
        assert(s[k] == x);
    }
}

/// The chunk has no text any more that it was judged on: it is one of the document's
/// and lies beyond the new pieces, or the piece in its place reads otherwise.
pub open spec fn outlived(
    chunks: Seq<ChunkRow>,
    document_id: i64,
    pieces: Seq<Seq<char>>,
    chunk_id: i64,
) -> bool {
    exists|i: int|
        0 <= i < chunks.len() && (#[trigger] chunks[i]).id == chunk_id && chunks[i].document_id
            == document_id && (chunks[i].position >= pieces.len() || chunks[i].text
            != pieces[chunks[i].position as int])
}

/// An update keeps a relation where the text of both its chunks stays, and an
/// embedding where its chunk does; it makes none.
pub proof fn law_update_keeps_what_still_applies(
    t: Tables,
    document_id: i64,
    pieces: Seq<Seq<char>>,
    version: i64,
    r: RelationRow,
    e: EmbeddingRow,
)
    ensures
        ({
            let u = upserted(t, document_id, pieces, version);
            &&& u.relations.contains(r) <==> t.relations.contains(r) && !outlived(
                t.chunks,
                document_id,
                pieces,
                r.from_chunk_id,
            ) && !outlived(t.chunks, document_id, pieces, r.to_chunk_id)
            &&& u.embeddings.contains(e) <==> t.embeddings.contains(e) && !(exists|i: int|
                0 <= i < t.chunks.len() && (#[trigger] t.chunks[i]).id == e.chunk_id
                    && t.chunks[i].document_id == document_id && t.chunks[i].position
                    >= pieces.len())
        }),
{
    let n = pieces.len() as int;
    let gone = owned_from(t.chunks, document_id, n);
    law_update_purges_what_was_judged_on_old_text(t, document_id, pieces, version);
    lemma_filter_contains(t.relations, untouched(outdated(t.chunks, document_id, pieces)), r);
    lemma_filter_contains(t.embeddings, |e: EmbeddingRow| !gone(e.chunk_id), e);
    assert forall|x: i64| #[trigger]
        outlived(t.chunks, document_id, pieces, x) == outdated(t.chunks, document_id, pieces)(
            x,
        ) by {
        let below = changed_below(t.chunks, document_id, pieces, n);
        if outlived(t.chunks, document_id, pieces, x) {
            let i = choose|i: int|
                0 <= i < t.chunks.len() && (#[trigger] t.chunks[i]).id == x
                    && t.chunks[i].document_id == document_id && (t.chunks[i].position
                    >= pieces.len() || t.chunks[i].text != pieces[t.chunks[i].position as int]);
            if t.chunks[i].position >= n {
                assert(gone(x));
            } else {
                assert(below(x));
            }
        }
        if below(x) {
            let i = choose|i: int|
                0 <= i < t.chunks.len() && (#[trigger] t.chunks[i]).id == x
                    && t.chunks[i].document_id == document_id && t.chunks[i].position < n
                    && t.chunks[i].text != pieces[t.chunks[i].position as int];
            assert(t.chunks[i].id == x);
        }
        if gone(x) {
            let i = choose|i: int|
                0 <= i < t.chunks.len() && (#[trigger] t.chunks[i]).id == x
                    && t.chunks[i].document_id == document_id && t.chunks[i].position >= n;
            assert(t.chunks[i].id == x);
        }
    }
    assert(outlived(t.chunks, document_id, pieces, r.from_chunk_id) == outdated(
        t.chunks,
        document_id,
        pieces,
    )(r.from_chunk_id));
    assert(outlived(t.chunks, document_id, pieces, r.to_chunk_id) == outdated(
        t.chunks,
        document_id,
        pieces,
    )(r.to_chunk_id));
}

/// A chunk of the document with the given id.
pub open spec fn chunk_of(chunks: Seq<ChunkRow>, document_id: i64, chunk_id: i64) -> bool {
    exists|i: int|
        0 <= i < chunks.len() && (#[trigger] chunks[i]).id == chunk_id && chunks[i].document_id
            == document_id
}

/// A deletion takes the document, its chunks, and every embedding and relation that
/// one of these has, and no other row.
pub proof fn law_deletion_takes_these_rows_only(
    t: Tables,
    document_id: i64,
    d: DocumentRow,
    c: ChunkRow,
    e: EmbeddingRow,
    r: RelationRow,
)
    requires
        t.wf(),
    ensures
        ({
            let u = without_document(t, document_id);
            &&& u.documents.contains(d) <==> t.documents.contains(d) && d.id != document_id
            &&& u.chunks.contains(c) <==> t.chunks.contains(c) && c.document_id != document_id
            &&& u.embeddings.contains(e) <==> t.embeddings.contains(e) && !chunk_of(
                t.chunks,
                document_id,
                e.chunk_id,
            )
            &&& u.relations.contains(r) <==> t.relations.contains(r) && !chunk_of(
                t.chunks,
                document_id,
                r.from_chunk_id,
            ) && !chunk_of(t.chunks, document_id, r.to_chunk_id)
        }),
{
    let gone = owned_by(t.chunks, document_id);
    law_deletion_takes_what_the_document_owns(t, document_id);
    lemma_filter_contains(t.documents, |d: DocumentRow| d.id != document_id, d);
    lemma_filter_contains(t.chunks, |c: ChunkRow| c.document_id != document_id, c);
    lemma_filter_contains(t.embeddings, |e: EmbeddingRow| !gone(e.chunk_id), e);
    lemma_filter_contains(t.relations, untouched(gone), r);
    assert(gone(e.chunk_id) == chunk_of(t.chunks, document_id, e.chunk_id));
    assert(gone(r.from_chunk_id) == chunk_of(t.chunks, document_id, r.from_chunk_id));
    assert(gone(r.to_chunk_id) == chunk_of(t.chunks, document_id, r.to_chunk_id));
}

/// A document that the caller gave an identity is the one that the identity matches,
/// and the one that a deletion by that identity means. A document that was given
/// none is meant by a deletion, and matched by nothing.
pub proof fn law_identity_means_its_document(t: Tables, i: int)
    requires
        t.wf(),
        0 <= i < t.documents.len(),
        t.documents[i].external_id is Some,
    ensures
        first_where(t.documents, named(t.documents[i].external_id->0)) == Some(t.documents[i]),
        t.documents[i].declared ==> matched(t, t.documents[i].external_id) == Some(t.documents[i]),
        !t.documents[i].declared ==> matched(t, t.documents[i].external_id) is None,
        taken(t.documents, t.documents[i].external_id->0),
{
    let s = t.documents;
    let id = s[i].external_id->0;
    assert forall|k: int| 0 <= k < s.len() && k != i implies (#[trigger] s[k]).external_id != Some(
        id,
    ) by {
        if k < i {
            assert(distinct_external_ids()(s[k], s[i]));
        } else {
            assert(distinct_external_ids()(s[i], s[k]));
        }
    }
    lemma_first_at(s, named(id), i);
    if s[i].declared {
        lemma_first_at(s, declared_as(id), i);
    } else {
        lemma_first_absent(s, declared_as(id));
    }
}

/// An identity that no document has matches none and means none, and so does no
/// identity.
pub proof fn law_unknown_identity_means_no_document(t: Tables, external_id: Seq<char>)
    requires
        forall|i: int|
            0 <= i < t.documents.len() ==> (#[trigger] t.documents[i]).external_id != Some(
                external_id,
            ),
    ensures
        first_where(t.documents, named(external_id)) is None,
        matched(t, Some(external_id)) is None,
        matched(t, None) is None,
        !taken(t.documents, external_id),
        !id_of_another(t, Some(external_id)),
        !id_of_another(t, None),
{
    lemma_first_absent(t.documents, named(external_id));
    lemma_first_absent(t.documents, declared_as(external_id));
}

/// An identity is refused as blank where it is given and has no character but white
/// space, and only there.
pub proof fn law_blank_is_no_character_but_white_space(external_id: Option<Seq<char>>)
    ensures
        blank_identity(external_id) <==> external_id is Some && (forall|i: int|
            0 <= i < external_id->0.len() ==> is_white(#[trigger] external_id->0[i])),
{
}

/// A new document with an identity gets the id after the largest, the first one if
/// there is none. Without an identity it gets the smallest id from there on whose
/// decimal no document has as its identity.
pub proof fn law_new_document_gets_the_next_id(t: Tables, external_id: Option<Seq<char>>)
    requires
        t.wf(),
    ensures
        ({
            let first: int = if t.documents.len() == 0 {
                1
            } else {
                t.documents[t.documents.len() - 1].id + 1
            };
            let id = new_id(t, external_id);
            &&& forall|i: int| 0 <= i < t.documents.len() ==> (#[trigger] t.documents[i]).id < id
            &&& external_id is Some ==> id == first
            &&& external_id is None ==> {
                &&& first <= id
                &&& id <= i64::MAX ==> forall|i: int|
                    0 <= i < t.documents.len() ==> (#[trigger] t.documents[i]).external_id != Some(
                        decimal(id),
                    )
                &&& forall|j: int|
                    first <= j < id && j <= i64::MAX ==> exists|i: int|
                        0 <= i < t.documents.len() && (#[trigger] t.documents[i]).external_id
                            == Some(#[trigger] decimal(j))
            }
        }),
{
    let s = t.documents;
    let first: int = if s.len() == 0 {
        1
    } else {
        s[s.len() - 1].id + 1
    };
    let id = new_id(t, external_id);
    lemma_free_id(s, first);
    assert forall|i: int| 0 <= i < s.len() implies (#[trigger] s[i]).id < id by {
        if i < s.len() - 1 {
            assert(document_order()(s[i], s[s.len() - 1]));
        }
    }
    if external_id is None {
        if id <= i64::MAX {
            assert forall|i: int| 0 <= i < s.len() implies (#[trigger] s[i]).external_id != Some(
                decimal(id),
            ) by {
                if s[i].external_id == Some(decimal(id)) {
                    lemma_first_exists(s, named(decimal(id)), i);
                }
            }
        }
        assert forall|j: int| first <= j < id && j <= i64::MAX implies exists|i: int|
            0 <= i < s.len() && (#[trigger] s[i]).external_id == Some(#[trigger] decimal(j)) by {
            assert(taken(s, decimal(j)));
            let i: int = lemma_first_found(s, named(decimal(j)));
            assert(s[i].external_id == Some(decimal(j)));
        }
    }
}

/// The document has a chunk in the given place with the given text.
pub open spec fn chunk_at(
    chunks: Seq<ChunkRow>,
    document_id: i64,
    position: int,
    text: Seq<char>,
) -> bool {
    exists|k: int|
        0 <= k < chunks.len() && (#[trigger] chunks[k]).document_id == document_id
            && chunks[k].position == position && chunks[k].text == text
}

/// A document that is stored with another fingerprint is cut anew: afterwards it has
/// one chunk for every piece of the new content, with its text and at the next
/// version, and no other.
pub proof fn law_changed_content_is_cut_anew(
    t: Tables,
    naming: Naming,
    content: Seq<char>,
    hash: Seq<char>,
    chunking: Chunking,
    clock: Option<i64>,
    d: DocumentRow,
)
    requires
        t.wf(),
        t.documents.contains(d),
        d.declared,
        d.external_id is Some,
        naming.external_id == d.external_id,
        exists|i: int| 0 <= i < d.external_id->0.len() && !is_white(#[trigger] d.external_id->0[i]),
        d.hash != hash,
        can_add(t, naming.external_id, content, hash, chunking),
    ensures
        ({
            let (u, r) = added(t, naming, content, hash, chunking, clock);
            let pieces = cut(content, chunking);
            &&& r == Ok::<i64, Error>(d.id)
            &&& forall|p: int|
                0 <= p < pieces.len() ==> chunk_at(u.chunks, d.id, p, #[trigger] pieces[p])
            &&& forall|k: int|
                0 <= k < u.chunks.len() && (#[trigger] u.chunks[k]).document_id == d.id ==> {
                    &&& 0 <= u.chunks[k].position < pieces.len()
                    &&& u.chunks[k].text == pieces[u.chunks[k].position as int]
                    &&& u.chunks[k].version == d.version + 1
                }
        }),
{
    let i = choose|i: int| 0 <= i < t.documents.len() && t.documents[i] == d;
    law_identity_means_its_document(t, i);
    law_blank_is_no_character_but_white_space(naming.external_id);
    let w = choose|w: int|
        0 <= w < d.external_id->0.len() && !is_white(#[trigger] d.external_id->0[w]);
    assert(!is_white(naming.external_id->0[w]));
    assert(!blank_identity(naming.external_id));
    let (u, r) = added(t, naming, content, hash, chunking, clock);
    let pieces = cut(content, chunking);
    let version = (d.version + 1) as i64;
    assert(d.version < i64::MAX);
    let v = Tables { documents: t.documents.map_values(reversioned(d.id, hash, version)), ..t };
    lemma_reversioned_wf(t, d.id, hash, version);
    law_chunks_are_the_pieces(v, d.id, pieces, version);
    assert(u == upserted(v, d.id, pieces, version));
    assert forall|p: int| 0 <= p < pieces.len() implies chunk_at(
        u.chunks,
        d.id,
        p,
        #[trigger] pieces[p],
    ) by {
        assert(has_position(u.chunks, d.id, p));
        let k = choose|k: int|
            0 <= k < u.chunks.len() && (#[trigger] u.chunks[k]).document_id == d.id
                && u.chunks[k].position == p;
        assert(u.chunks[k].text == pieces[p]);
    }
}

/// What the machine limits leave out is all that cannot be added: a content can be
/// added where its pieces move on, there is an id for every character and one for the
/// document, and the version can be raised.
pub proof fn law_whatever_fits_can_be_added(
    t: Tables,
    external_id: Option<Seq<char>>,
    content: Seq<char>,
    hash: Seq<char>,
    chunking: Chunking,
)
    requires
        content.len() <= chunking.size || chunking.overlap < chunking.size,
        t.chunks.len() > 0 ==> t.chunks.last().id + content.len() <= i64::MAX,
        content.len() < i64::MAX,
        forall|i: int|
            0 <= i < t.documents.len() ==> (#[trigger] t.documents[i]).version < i64::MAX,
        new_id(t, external_id) <= i64::MAX,
    ensures
        can_add(t, external_id, content, hash, chunking),
{
    lemma_piece_count_bound(content.len() as int, chunking.size as int, chunking.overlap as int);
    if matched(t, external_id) is Some {
        let i: int = lemma_first_found(t.documents, declared_as(external_id->0));
        assert(t.documents[i].version < i64::MAX);
    }
}

/// A chunk that was there before keeps its id, its document and its place. The others
/// are numbered on from the largest id, the first one from one, in the order of their
/// places, and no id is left out.
pub proof fn law_new_chunks_get_the_next_ids(
    t: Tables,
    document_id: i64,
    pieces: Seq<Seq<char>>,
    version: i64,
    k: int,
)
    requires
        t.wf(),
        t.chunks.len() > 0 ==> t.chunks.last().id + pieces.len() <= i64::MAX,
        pieces.len() < i64::MAX,
        0 <= k < upserted(t, document_id, pieces, version).chunks.len(),
    ensures
        ({
            let u = upserted(t, document_id, pieces, version);
            let c = u.chunks[k];
            let first: int = if t.chunks.len() == 0 {
                1
            } else {
                t.chunks.last().id + 1
            };
            &&& c.id < first ==> exists|i: int|
                0 <= i < t.chunks.len() && (#[trigger] t.chunks[i]).id == c.id
                    && t.chunks[i].document_id == c.document_id && t.chunks[i].position
                    == c.position
            &&& c.id >= first ==> c.document_id == document_id
            &&& c.id > first ==> exists|j: int|
                0 <= j < u.chunks.len() && (#[trigger] u.chunks[j]).id == c.id - 1
                    && u.chunks[j].document_id == document_id && u.chunks[j].position < c.position
        }),
{
    let n = pieces.len() as int;
    let u = upserted(t, document_id, pieces, version);
    let r = rechunked(t.chunks, document_id, pieces, version, n);
    let m = missing(t.chunks, document_id, n);
    let before = t.chunks.len() as int;
    let j = lemma_row_origin(t, document_id, pieces, version, k);
    lemma_missing(t.chunks, document_id, n);
    if j < before {
        let c = t.chunks[j];
        assert(r[j].id == c.id);
        if j < before - 1 {
            assert(chunk_order()(t.chunks[j], t.chunks[before - 1]));
        }
    } else if j > before {
        assert((|a: int, b: int| a < b)(m[j - 1 - before], m[j - before]));
        assert(r[j - 1].position == m[j - 1 - before]);
        let l = lemma_row_survives(t, document_id, pieces, version, j - 1);
        assert(u.chunks[l].id == u.chunks[k].id - 1);
    }
}

/// An identity that a document has without the caller's having given it is refused,
/// and nothing is stored.
pub proof fn law_identity_of_another_is_refused(
    t: Tables,
    naming: Naming,
    content: Seq<char>,
    hash: Seq<char>,
    chunking: Chunking,
    now: i64,
    i: int,
)
    requires
        t.wf(),
        0 <= i < t.documents.len(),
        !t.documents[i].declared,
        naming.external_id is Some,
        t.documents[i].external_id == naming.external_id,
        exists|w: int|
            0 <= w < naming.external_id->0.len() && !is_white(
                #[trigger] naming.external_id->0[w],
            ),
    ensures
        added(t, naming, content, hash, chunking, Some(now)) == (
            t,
            Err::<i64, Error>(Error::DuplicateExternalId),
        ),
{
    law_identity_means_its_document(t, i);
}

/// A new document is dated, so that without a clock it is refused, and nothing is
/// stored.
pub proof fn law_new_document_wants_a_clock(
    t: Tables,
    naming: Naming,
    content: Seq<char>,
    hash: Seq<char>,
    chunking: Chunking,
)
    requires
        naming.external_id is Some ==> {
            &&& exists|w: int|
                0 <= w < naming.external_id->0.len() && !is_white(
                    #[trigger] naming.external_id->0[w],
                )
            &&& forall|i: int|
                0 <= i < t.documents.len() ==> (#[trigger] t.documents[i]).external_id
                    != naming.external_id
        },
    ensures
        added(t, naming, content, hash, chunking, None) == (
            t,
            Err::<i64, Error>(Error::ClockBeforeEpoch),
        ),
{
    if naming.external_id is Some {
        law_unknown_identity_means_no_document(t, naming.external_id->0);
    }
}

/// A document is called as the caller says: name, metadata, tags and identity are
/// those that were given, and what was not given is left out.
pub proof fn law_documents_are_called_as_given(
    name: &str,
    metadata: &str,
    tags: &str,
    external_id: &str,
)
    ensures
        naming(name, Some(metadata), Some(tags), Some(external_id)) == (Naming {
            name: name@,
            metadata: Some(metadata@),
            tags: Some(tags@),
            external_id: Some(external_id@),
        }),
        naming(name, Some(metadata), None, None) == (Naming {
            name: name@,
            metadata: Some(metadata@),
            tags: None,
            external_id: None,
        }),
        naming(name, None, Some(tags), Some(external_id)) == (Naming {
            name: name@,
            metadata: None,
            tags: Some(tags@),
            external_id: Some(external_id@),
        }),
{
}

} // verus!
