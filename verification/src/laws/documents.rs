//! What holds of adding, updating and deleting documents.

use vstd::prelude::*;

use crate::document::chunk::{cut, Chunking};
use crate::document::model::{
    added, blank_identity, can_add, can_chunk, changed_below, declared_as, has_position,
    id_of_another, inserted, lemma_missing, lemma_new_row, lemma_new_row_wf, lemma_rechunked_wf,
    lemma_reversioned_wf, lemma_wf_delete_document, lemma_wf_without_chunks, matched, missing,
    named, new_id, new_row, outdated, owned, owned_by, owned_from, rechunked, reversioned, room,
    taken, untouched, upserted, without_chunks, without_document, Naming,
};
use crate::error::Error;
use crate::seqs::{
    first_where, lemma_filter_keeps, lemma_filter_member, lemma_filter_pairwise, lemma_filter_same,
    lemma_filter_twice, lemma_first_absent, lemma_first_at, lemma_first_exists, lemma_first_found,
};
use crate::storage::references::{embedding_sound, has_chunk, has_document, relation_sound, sound};
use crate::storage::tables::{
    chunk_order, distinct_external_ids, distinct_pairs, document_order, next_chunk_id,
    next_document_id, ChunkRow, DocumentRow, EmbeddingRow, RelationRow, SettingRow, Tables,
};
use crate::text::{decimal, digit, is_blank, is_white, numeral};

verus! {

/// A position without a chunk is one of those that get a new one.
proof fn lemma_missing_has(chunks: Seq<ChunkRow>, document_id: i64, n: int, p: int) -> (k: int)
    requires
        0 <= p < n,
        !has_position(chunks, document_id, p),
    ensures
        0 <= k < missing(chunks, document_id, n).len(),
        missing(chunks, document_id, n)[k] == p,
    decreases n,
{
    let rest = missing(chunks, document_id, n - 1);
    if p == n - 1 {
        rest.len() as int
    } else {
        lemma_missing_has(chunks, document_id, n - 1, p)
    }
}

/// A chunk row that is not beyond the new pieces survives the update.
pub proof fn lemma_row_survives(
    t: Tables,
    document_id: i64,
    pieces: Seq<Seq<char>>,
    version: i64,
    j: int,
) -> (k: int)
    requires
        t.wf(),
        room(t.chunks, pieces.len()),
        0 <= j < rechunked(t.chunks, document_id, pieces, version, pieces.len() as int).len(),
        ({
            let row = rechunked(t.chunks, document_id, pieces, version, pieces.len() as int)[j];
            row.document_id != document_id || row.position < pieces.len()
        }),
    ensures
        0 <= k < upserted(t, document_id, pieces, version).chunks.len(),
        upserted(t, document_id, pieces, version).chunks[k] == rechunked(
            t.chunks,
            document_id,
            pieces,
            version,
            pieces.len() as int,
        )[j],
{
    let n = pieces.len() as int;
    let r = rechunked(t.chunks, document_id, pieces, version, n);
    let gone = owned_from(t.chunks, document_id, n);
    lemma_rechunked_wf(t.chunks, document_id, pieces, version, n);
    if gone(r[j].id) {
        let i = choose|i: int|
            0 <= i < t.chunks.len() && (#[trigger] t.chunks[i]).id == r[j].id
                && t.chunks[i].document_id == document_id && t.chunks[i].position >= n;
        assert(r[i].id == t.chunks[i].id && r[i].position == t.chunks[i].position);
        if i < j {
            assert(chunk_order()(r[i], r[j]));
        } else if j < i {
            assert(chunk_order()(r[j], r[i]));
        }
    }
    lemma_filter_keeps(r, |c: ChunkRow| !gone(c.id), j)
}

/// Every chunk row after the update is one of the new ones or one that was there.
pub proof fn lemma_row_origin(
    t: Tables,
    document_id: i64,
    pieces: Seq<Seq<char>>,
    version: i64,
    k: int,
) -> (j: int)
    requires
        0 <= k < upserted(t, document_id, pieces, version).chunks.len(),
    ensures
        ({
            let n = pieces.len() as int;
            let r = rechunked(t.chunks, document_id, pieces, version, n);
            &&& 0 <= j < r.len()
            &&& r[j] == upserted(t, document_id, pieces, version).chunks[k]
            &&& !owned_from(t.chunks, document_id, n)(r[j].id)
        }),
{
    let n = pieces.len() as int;
    let r = rechunked(t.chunks, document_id, pieces, version, n);
    let gone = owned_from(t.chunks, document_id, n);
    let p = |c: ChunkRow| !gone(c.id);
    lemma_filter_member(r, p, k);
    choose|j: int| 0 <= j < r.len() && #[trigger] r[j] == r.filter(p)[k]
}

/// An update keeps the tables in order.
pub proof fn lemma_upserted_wf(
    t: Tables,
    document_id: i64,
    pieces: Seq<Seq<char>>,
    version: i64,
)
    requires
        t.wf(),
        room(t.chunks, pieces.len()),
    ensures
        upserted(t, document_id, pieces, version).wf(),
{
    let n = pieces.len() as int;
    let mid = crate::document::model::first_positions(t, document_id, pieces, version, n);
    lemma_rechunked_wf(t.chunks, document_id, pieces, version, n);
    lemma_filter_pairwise(
        t.relations,
        untouched(changed_below(t.chunks, document_id, pieces, n)),
        distinct_pairs(),
    );
    lemma_wf_without_chunks(mid, owned_from(t.chunks, document_id, n));
}

/// Once a document holds the given pieces, it has exactly one chunk for each of
/// them, at its position, with its text and the document's version, and no other.
pub proof fn law_chunks_are_the_pieces(
    t: Tables,
    document_id: i64,
    pieces: Seq<Seq<char>>,
    version: i64,
)
    requires
        t.wf(),
        room(t.chunks, pieces.len()),
    ensures
        ({
            let u = upserted(t, document_id, pieces, version);
            &&& u.wf()
            &&& forall|p: int|
                0 <= p < pieces.len() ==> #[trigger] has_position(u.chunks, document_id, p)
            &&& forall|k: int|
                0 <= k < u.chunks.len() && (#[trigger] u.chunks[k]).document_id == document_id
                    ==> {
                    &&& 0 <= u.chunks[k].position < pieces.len()
                    &&& u.chunks[k].text == pieces[u.chunks[k].position as int]
                    &&& u.chunks[k].version == version
                }
        }),
{
    let n = pieces.len() as int;
    let u = upserted(t, document_id, pieces, version);
    let r = rechunked(t.chunks, document_id, pieces, version, n);
    let m = missing(t.chunks, document_id, n);
    lemma_upserted_wf(t, document_id, pieces, version);
    lemma_missing(t.chunks, document_id, n);
    assert forall|p: int| 0 <= p < n implies #[trigger] has_position(
        u.chunks,
        document_id,
        p,
    ) by {
        let j = if has_position(t.chunks, document_id, p) {
            let i = choose|i: int|
                0 <= i < t.chunks.len() && (#[trigger] t.chunks[i]).document_id == document_id
                    && t.chunks[i].position == p;
            assert(r[i].position == p);
            i
        } else {
            let k = lemma_missing_has(t.chunks, document_id, n, p);
            assert(r[t.chunks.len() + k].position == p);
            t.chunks.len() + k
        };
        let k = lemma_row_survives(t, document_id, pieces, version, j);
        assert(u.chunks[k].document_id == document_id && u.chunks[k].position == p);
    }
    assert forall|k: int|
        0 <= k < u.chunks.len() && (#[trigger] u.chunks[k]).document_id == document_id implies {
        &&& 0 <= u.chunks[k].position < pieces.len()
        &&& u.chunks[k].text == pieces[u.chunks[k].position as int]
        &&& u.chunks[k].version == version
    } by {
        let j = lemma_row_origin(t, document_id, pieces, version, k);
        if j < t.chunks.len() {
            if t.chunks[j].position >= n {
                assert(t.chunks[j].id == r[j].id);
            }
            assert(t.chunks[j].position >= 0);
        } else {
            assert(0 <= m[j - t.chunks.len()] < n);
        }
    }
}

/// A position that a document had and still has keeps its chunk id.
pub proof fn law_surviving_positions_keep_their_chunk(
    t: Tables,
    document_id: i64,
    pieces: Seq<Seq<char>>,
    version: i64,
    i: int,
)
    requires
        t.wf(),
        room(t.chunks, pieces.len()),
        0 <= i < t.chunks.len(),
        t.chunks[i].document_id == document_id,
        t.chunks[i].position < pieces.len(),
    ensures
        upserted(t, document_id, pieces, version).chunks.contains(
            ChunkRow {
                text: pieces[t.chunks[i].position as int],
                version,
                ..t.chunks[i]
            },
        ),
{
    let k = lemma_row_survives(t, document_id, pieces, version, i);
    let u = upserted(t, document_id, pieces, version);
    assert(u.chunks[k] == ChunkRow {
        text: pieces[t.chunks[i].position as int],
        version,
        ..t.chunks[i]
    });
}

/// The chunks of other documents stay as they are, and no chunk appears for them.
pub proof fn law_other_documents_keep_their_chunks(
    t: Tables,
    document_id: i64,
    pieces: Seq<Seq<char>>,
    version: i64,
)
    requires
        t.wf(),
        room(t.chunks, pieces.len()),
    ensures
        ({
            let u = upserted(t, document_id, pieces, version);
            forall|c: ChunkRow|
                c.document_id != document_id ==> #[trigger] u.chunks.contains(c)
                    == t.chunks.contains(c)
        }),
{
    let n = pieces.len() as int;
    let u = upserted(t, document_id, pieces, version);
    let r = rechunked(t.chunks, document_id, pieces, version, n);
    assert forall|c: ChunkRow| c.document_id != document_id implies #[trigger] u.chunks.contains(c)
        == t.chunks.contains(c) by {
        if t.chunks.contains(c) {
            let i = choose|i: int| 0 <= i < t.chunks.len() && t.chunks[i] == c;
            assert(r[i] == c);
            let k = lemma_row_survives(t, document_id, pieces, version, i);
            assert(u.chunks[k] == c);
        }
        if u.chunks.contains(c) {
            let k = choose|k: int| 0 <= k < u.chunks.len() && u.chunks[k] == c;
            let j = lemma_row_origin(t, document_id, pieces, version, k);
            assert(j < t.chunks.len());
            assert(t.chunks[j] == c);
        }
    }
}

/// An update purges every relation that touches a chunk whose text it changes or
/// takes away, and no other: a relation between chunks whose text stays is kept. It
/// drops the embeddings of the chunks that fall out, and no other; and it leaves
/// documents, models, segments and settings alone.
pub proof fn law_update_purges_what_was_judged_on_old_text(
    t: Tables,
    document_id: i64,
    pieces: Seq<Seq<char>>,
    version: i64,
)
    ensures
        ({
            let u = upserted(t, document_id, pieces, version);
            let gone = owned_from(t.chunks, document_id, pieces.len() as int);
            &&& u.relations == t.relations.filter(
                untouched(outdated(t.chunks, document_id, pieces)),
            )
            &&& u.embeddings == t.embeddings.filter(|e: EmbeddingRow| !gone(e.chunk_id))
            &&& u.documents == t.documents
            &&& u.models == t.models
            &&& u.segments == t.segments
            &&& u.settings == t.settings
            &&& u.index == t.index
            &&& u.dumps == t.dumps
        }),
{
    let n = pieces.len() as int;
    let gone = owned_from(t.chunks, document_id, n);
    lemma_filter_twice(
        t.relations,
        untouched(changed_below(t.chunks, document_id, pieces, n)),
        |r: RelationRow| !gone(r.from_chunk_id) && !gone(r.to_chunk_id),
        untouched(outdated(t.chunks, document_id, pieces)),
    );
}

/// A blank identity is refused, and nothing is stored.
pub proof fn law_blank_identity_stores_nothing(
    t: Tables,
    naming: Naming,
    content: Seq<char>,
    hash: Seq<char>,
    chunking: Chunking,
    clock: Option<i64>,
)
    requires
        naming.external_id is Some,
        is_blank(naming.external_id->0),
    ensures
        added(t, naming, content, hash, chunking, clock) == (
            t,
            Err::<i64, Error>(Error::BlankExternalId),
        ),
{
}

/// Adding a document that is stored with the same content changes nothing.
pub proof fn law_unchanged_content_is_left_alone(
    t: Tables,
    naming: Naming,
    content: Seq<char>,
    hash: Seq<char>,
    chunking: Chunking,
    clock: Option<i64>,
)
    requires
        !blank_identity(naming.external_id),
        matched(t, naming.external_id) matches Some(d) && d.hash == hash,
    ensures
        added(t, naming, content, hash, chunking, clock) == (
            t,
            Ok::<i64, Error>(matched(t, naming.external_id)->0.id),
        ),
{
}

/// Adding a document that is stored with another content raises its version by
/// one and keeps its id, name, identity, time, metadata and tags.
pub proof fn law_changed_content_raises_the_version(
    t: Tables,
    naming: Naming,
    content: Seq<char>,
    hash: Seq<char>,
    chunking: Chunking,
    clock: Option<i64>,
)
    requires
        t.wf(),
        !blank_identity(naming.external_id),
        matched(t, naming.external_id) matches Some(d) && d.hash != hash && d.version < i64::MAX,
    ensures
        ({
            let d = matched(t, naming.external_id)->0;
            let (u, r) = added(t, naming, content, hash, chunking, clock);
            &&& r == Ok::<i64, Error>(d.id)
            &&& matched(u, naming.external_id) == Some(
                DocumentRow { hash, version: (d.version + 1) as i64, ..d },
            )
            &&& u.documents.len() == t.documents.len()
            &&& forall|i: int|
                0 <= i < t.documents.len() && (#[trigger] t.documents[i]).id != d.id
                    ==> u.documents[i] == t.documents[i]
        }),
{
    let id = naming.external_id->0;
    let d = matched(t, naming.external_id)->0;
    let (u, r) = added(t, naming, content, hash, chunking, clock);
    let f = reversioned(d.id, hash, (d.version + 1) as i64);
    let i = lemma_first_found(t.documents, declared_as(id));
    assert(u.documents == t.documents.map_values(f));
    assert forall|k: int| 0 <= k < i implies !declared_as(id)(#[trigger] u.documents[k]) by {
        assert(u.documents[k] == f(t.documents[k]));
        assert(!declared_as(id)(t.documents[k]));
    }
    assert(u.documents[i] == f(t.documents[i]));
    lemma_first_at(u.documents, declared_as(id), i);
}

/// A new document is the last one and has version one. With an identity of the
/// caller's it is found again by that; without one it is always stored as new, has
/// its own id in decimal as its identity, and is not found by that.
pub proof fn law_new_document_starts_at_version_one(
    t: Tables,
    naming: Naming,
    content: Seq<char>,
    hash: Seq<char>,
    chunking: Chunking,
    now: i64,
)
    requires
        t.wf(),
        new_id(t, naming.external_id) <= i64::MAX,
        !blank_identity(naming.external_id),
        matched(t, naming.external_id) is None,
        !id_of_another(t, naming.external_id),
    ensures
        ({
            let (u, r) = added(t, naming, content, hash, chunking, Some(now));
            let d = u.documents.last();
            &&& u.documents.drop_last() == t.documents
            &&& r == Ok::<i64, Error>(d.id)
            &&& d.id == new_id(t, naming.external_id)
            &&& next_document_id(t.documents) <= d.id
            &&& d.version == 1
            &&& d.hash == hash
            &&& d.name == naming.name
            &&& d.metadata == naming.metadata
            &&& d.tags == naming.tags
            &&& d.created_at == now
            &&& naming.external_id is Some ==> d.external_id == naming.external_id && matched(
                u,
                naming.external_id,
            ) == Some(d)
            &&& naming.external_id is None ==> d.external_id == Some(decimal(d.id as int))
                && matched(u, d.external_id) is None
        }),
{
    let (u, r) = added(t, naming, content, hash, chunking, Some(now));
    let d = u.documents.last();
    lemma_new_row(t, naming, hash, now);
    assert(u.documents.drop_last() =~= t.documents);
    let p = declared_as(d.external_id->0);
    let i = t.documents.len() as int;
    assert forall|k: int| 0 <= k < i implies !p(#[trigger] u.documents[k]) by {
        assert(u.documents[k] == t.documents[k]);
        if p(t.documents[k]) {
            lemma_first_exists(t.documents, named(d.external_id->0), k);
        }
    }
    if naming.external_id is Some {
        lemma_first_at(u.documents, p, i);
    } else {
        lemma_first_absent(u.documents, p);
    }
}

/// A document that was stored without an identity is never taken for the same one:
/// whatever is added later, under whatever identity, leaves it and its chunks alone.
pub proof fn law_document_without_identity_is_never_matched(
    t: Tables,
    naming: Naming,
    content: Seq<char>,
    hash: Seq<char>,
    chunking: Chunking,
    clock: Option<i64>,
    d: DocumentRow,
)
    requires
        t.wf(),
        can_add(t, naming.external_id, content, hash, chunking),
        t.documents.contains(d),
        !d.declared,
    ensures
        ({
            let (u, r) = added(t, naming, content, hash, chunking, clock);
            &&& u.documents.contains(d)
            &&& r != Ok::<i64, Error>(d.id)
            &&& forall|c: ChunkRow|
                c.document_id == d.id ==> #[trigger] u.chunks.contains(c) == t.chunks.contains(c)
        }),
{
    let (u, r) = added(t, naming, content, hash, chunking, clock);
    let pieces = cut(content, chunking);
    let i = choose|i: int| 0 <= i < t.documents.len() && t.documents[i] == d;
    if !blank_identity(naming.external_id) {
        match matched(t, naming.external_id) {
            Some(m) => {
                let j = lemma_first_found(t.documents, declared_as(naming.external_id->0));
                if i < j {
                    assert(document_order()(t.documents[i], t.documents[j]));
                } else if j < i {
                    assert(document_order()(t.documents[j], t.documents[i]));
                }
                if m.hash != hash {
                    let version = (m.version + 1) as i64;
                    let f = reversioned(m.id, hash, version);
                    let v = Tables { documents: t.documents.map_values(f), ..t };
                    lemma_reversioned_wf(t, m.id, hash, version);
                    law_other_documents_keep_their_chunks(v, m.id, pieces, version);
                    assert(u.documents[i] == f(t.documents[i]));
                }
            },
            None => {
                if clock is Some && !id_of_another(t, naming.external_id) {
                    let row = new_row(t, naming, hash, clock->0);
                    let v = Tables { documents: t.documents.push(row), ..t };
                    lemma_new_row(t, naming, hash, clock->0);
                    lemma_new_row_wf(t, row);
                    assert(document_order()(v.documents[i], v.documents[t.documents.len() as int]));
                    law_other_documents_keep_their_chunks(v, row.id, pieces, 1);
                    assert(u.documents[i] == d);
                }
            },
        }
    }
}

/// Some document has the identity that a row has.
proof fn lemma_taken(s: Seq<DocumentRow>, external_id: Seq<char>)
    requires
        first_where(s, declared_as(external_id)) is Some,
    ensures
        taken(s, external_id),
{
    let k = lemma_first_found(s, declared_as(external_id));
    lemma_first_exists(s, named(external_id), k);
}

/// Adding the same content under the same identity once more changes nothing and
/// gives the same id, whatever the name, the metadata and the tags are then, and
/// however texts are cut and settings stand by then.
pub proof fn law_adding_twice_is_adding_once(
    t: Tables,
    naming: Naming,
    content: Seq<char>,
    hash: Seq<char>,
    chunking: Chunking,
    clock: Option<i64>,
    later_settings: Seq<SettingRow>,
    later_naming: Naming,
    later_chunking: Chunking,
    later_clock: Option<i64>,
)
    requires
        t.wf(),
        can_add(t, naming.external_id, content, hash, chunking),
        naming.external_id is Some,
        later_naming.external_id == naming.external_id,
        added(t, naming, content, hash, chunking, clock).1 is Ok,
    ensures
        ({
            let (u, r) = added(t, naming, content, hash, chunking, clock);
            let v = Tables { settings: later_settings, ..u };
            added(v, later_naming, content, hash, later_chunking, later_clock) == (v, r)
        }),
{
    let (u, r) = added(t, naming, content, hash, chunking, clock);
    let v = Tables { settings: later_settings, ..u };
    if matched(t, naming.external_id) is Some {
        if matched(t, naming.external_id)->0.hash != hash {
            law_changed_content_raises_the_version(t, naming, content, hash, chunking, clock);
        }
    } else {
        law_new_document_starts_at_version_one(t, naming, content, hash, chunking, clock->0);
    }
    assert(matched(v, naming.external_id) == matched(u, naming.external_id));
}

/// A number written out is not blank.
proof fn lemma_decimal_not_blank(i: int)
    ensures
        !is_blank(decimal(i)),
{
    let s = decimal(i);
    if i < 0 {
        assert(s[0] == '-');
        assert(!is_white(s[0]));
    } else {
        let n = i as nat;
        assert(numeral(n, 10).len() > 0 && numeral(n, 10).last() == digit((n % 10) as int)) by {
            if n < 10 {
                assert(numeral(n, 10) =~= seq![digit(n as int)]);
            }
        }
        assert(!is_white(s[s.len() - 1]));
    }
}

/// Every document has an identity, and none is blank.
pub open spec fn all_identified(t: Tables) -> bool {
    forall|i: int|
        0 <= i < t.documents.len() ==> (#[trigger] t.documents[i]).external_id is Some && !is_blank(
            t.documents[i].external_id->0,
        )
}

/// Adding a document, however it ends, keeps every document with an identity that
/// is not blank.
pub proof fn law_every_document_has_an_identity(
    t: Tables,
    naming: Naming,
    content: Seq<char>,
    hash: Seq<char>,
    chunking: Chunking,
    clock: Option<i64>,
)
    requires
        all_identified(t),
    ensures
        all_identified(added(t, naming, content, hash, chunking, clock).0),
{
    let u = added(t, naming, content, hash, chunking, clock).0;
    lemma_decimal_not_blank(new_id(t, naming.external_id) as i64 as int);
    assert forall|i: int| 0 <= i < u.documents.len() implies (
    #[trigger] u.documents[i]).external_id is Some && !is_blank(u.documents[i].external_id->0) by {
        if i < t.documents.len() {
            assert(t.documents[i].external_id is Some);
        }
    }
}

/// Every chunk has the version of its document.
pub open spec fn versions_agree(t: Tables) -> bool {
    forall|i: int, j: int|
        #![trigger t.chunks[i], t.documents[j]]
        0 <= i < t.chunks.len() && 0 <= j < t.documents.len() && t.chunks[i].document_id
            == t.documents[j].id ==> t.chunks[i].version == t.documents[j].version
}

/// Once a document holds its pieces at its version, every chunk has the version of
/// its document, if that was so of all other documents.
proof fn lemma_upserted_versions(
    t: Tables,
    document_id: i64,
    pieces: Seq<Seq<char>>,
    version: i64,
)
    requires
        t.wf(),
        room(t.chunks, pieces.len()),
        forall|j: int|
            0 <= j < t.documents.len() && (#[trigger] t.documents[j]).id == document_id
                ==> t.documents[j].version == version,
        forall|i: int, j: int|
            #![trigger t.chunks[i], t.documents[j]]
            0 <= i < t.chunks.len() && 0 <= j < t.documents.len() && t.chunks[i].document_id
                == t.documents[j].id && t.documents[j].id != document_id ==> t.chunks[i].version
                == t.documents[j].version,
    ensures
        versions_agree(upserted(t, document_id, pieces, version)),
{
    let u = upserted(t, document_id, pieces, version);
    law_chunks_are_the_pieces(t, document_id, pieces, version);
    law_other_documents_keep_their_chunks(t, document_id, pieces, version);
    assert forall|i: int, j: int|
        #![trigger u.chunks[i], u.documents[j]]
        0 <= i < u.chunks.len() && 0 <= j < u.documents.len() && u.chunks[i].document_id
            == u.documents[j].id implies u.chunks[i].version == u.documents[j].version by {
        assert(u.documents[j] == t.documents[j]);
        let c = u.chunks[i];
        if c.document_id != document_id {
            assert(u.chunks.contains(c));
            let k = choose|k: int| 0 <= k < t.chunks.len() && t.chunks[k] == c;
            assert(t.chunks[k].version == t.documents[j].version);
        }
    }
}

/// Adding a document, however it ends, keeps every chunk at the version of its
/// document: a chunk that is reused follows its document to the next version.
pub proof fn law_chunk_versions_follow_their_document(
    t: Tables,
    naming: Naming,
    content: Seq<char>,
    hash: Seq<char>,
    chunking: Chunking,
    clock: Option<i64>,
)
    requires
        t.wf(),
        sound(t),
        versions_agree(t),
        can_add(t, naming.external_id, content, hash, chunking),
    ensures
        versions_agree(added(t, naming, content, hash, chunking, clock).0),
{
    let pieces = cut(content, chunking);
    let u = added(t, naming, content, hash, chunking, clock).0;
    if !blank_identity(naming.external_id) {
        match matched(t, naming.external_id) {
            Some(d) => {
                if d.hash != hash {
                    let version = (d.version + 1) as i64;
                    let f = reversioned(d.id, hash, version);
                    let v = Tables { documents: t.documents.map_values(f), ..t };
                    lemma_reversioned_wf(t, d.id, hash, version);
                    assert forall|i: int, j: int|
                        #![trigger v.chunks[i], v.documents[j]]
                        0 <= i < v.chunks.len() && 0 <= j < v.documents.len()
                            && v.chunks[i].document_id == v.documents[j].id && v.documents[j].id
                            != d.id implies v.chunks[i].version == v.documents[j].version by {
                        assert(v.documents[j] == t.documents[j]);
                        assert(t.chunks[i].version == t.documents[j].version);
                    }
                    lemma_upserted_versions(v, d.id, pieces, version);
                }
            },
            None => {
                if clock is Some && !id_of_another(t, naming.external_id) {
                    lemma_new_document_versions(t, naming, content, hash, chunking, clock->0);
                }
            },
        }
    }
}

/// No chunk belongs to a document that is new.
proof fn lemma_new_id_unused(t: Tables, id: i64)
    requires
        t.wf(),
        sound(t),
        next_document_id(t.documents) <= id,
    ensures
        forall|i: int| 0 <= i < t.chunks.len() ==> (#[trigger] t.chunks[i]).document_id != id,
{
    assert forall|k: int| 0 <= k < t.documents.len() implies (#[trigger] t.documents[k]).id
        < id by {
        if k < t.documents.len() - 1 {
            assert(document_order()(t.documents[k], t.documents[t.documents.len() - 1]));
        }
    }
    assert forall|i: int| 0 <= i < t.chunks.len() implies (#[trigger] t.chunks[i]).document_id
        != id by {
        assert(has_document(t, t.chunks[i].document_id));
    }
}

/// Inserting a document keeps every chunk at the version of its document.
proof fn lemma_new_document_versions(
    t: Tables,
    naming: Naming,
    content: Seq<char>,
    hash: Seq<char>,
    chunking: Chunking,
    now: i64,
)
    requires
        t.wf(),
        sound(t),
        versions_agree(t),
        !id_of_another(t, naming.external_id),
        can_chunk(t, content, chunking),
        new_id(t, naming.external_id) <= i64::MAX,
    ensures
        versions_agree(inserted(t, naming, content, hash, chunking, now).0),
{
    let row = new_row(t, naming, hash, now);
    let v = Tables { documents: t.documents.push(row), ..t };
    lemma_new_row(t, naming, hash, now);
    lemma_new_row_wf(t, row);
    lemma_new_id_unused(t, row.id);
    assert forall|i: int, j: int|
        #![trigger v.chunks[i], v.documents[j]]
        0 <= i < v.chunks.len() && 0 <= j < v.documents.len() && v.chunks[i].document_id
            == v.documents[j].id && v.documents[j].id != row.id implies v.chunks[i].version
        == v.documents[j].version by {
        assert(v.documents[j] == t.documents[j]);
        assert(t.chunks[i].version == t.documents[j].version);
    }
    lemma_upserted_versions(v, row.id, cut(content, chunking), 1);
}

/// No embedding is stored for the chunk, and no relation touches it.
pub open spec fn unjudged(t: Tables, chunk_id: i64) -> bool {
    &&& forall|i: int|
        0 <= i < t.embeddings.len() ==> (#[trigger] t.embeddings[i]).chunk_id != chunk_id
    &&& forall|i: int|
        0 <= i < t.relations.len() ==> (#[trigger] t.relations[i]).from_chunk_id != chunk_id
            && t.relations[i].to_chunk_id != chunk_id
}

/// The chunks of a new document are its pieces, in version one, without embeddings
/// and without relations.
pub proof fn law_new_document_starts_unjudged(
    t: Tables,
    naming: Naming,
    content: Seq<char>,
    hash: Seq<char>,
    chunking: Chunking,
    now: i64,
)
    requires
        t.wf(),
        sound(t),
        !blank_identity(naming.external_id),
        matched(t, naming.external_id) is None,
        !id_of_another(t, naming.external_id),
        can_chunk(t, content, chunking),
        new_id(t, naming.external_id) <= i64::MAX,
    ensures
        ({
            let (u, r) = added(t, naming, content, hash, chunking, Some(now));
            let pieces = cut(content, chunking);
            &&& r is Ok
            &&& forall|p: int|
                0 <= p < pieces.len() ==> #[trigger] has_position(u.chunks, r->Ok_0, p)
            &&& forall|k: int|
                0 <= k < u.chunks.len() && (#[trigger] u.chunks[k]).document_id == r->Ok_0 ==> {
                    &&& 0 <= u.chunks[k].position < pieces.len()
                    &&& u.chunks[k].text == pieces[u.chunks[k].position as int]
                    &&& u.chunks[k].version == 1
                    &&& unjudged(u, u.chunks[k].id)
                }
        }),
{
    let (u, r) = added(t, naming, content, hash, chunking, Some(now));
    let pieces = cut(content, chunking);
    let n = pieces.len() as int;
    let row = new_row(t, naming, hash, now);
    let v = Tables { documents: t.documents.push(row), ..t };
    lemma_new_row(t, naming, hash, now);
    lemma_new_row_wf(t, row);
    lemma_new_id_unused(t, row.id);
    law_chunks_are_the_pieces(v, row.id, pieces, 1);
    law_update_purges_what_was_judged_on_old_text(v, row.id, pieces, 1);
    assert forall|k: int| 0 <= k < u.chunks.len() && (#[trigger] u.chunks[k]).document_id
        == row.id implies unjudged(u, u.chunks[k].id) by {
        let j = lemma_row_origin(v, row.id, pieces, 1, k);
        let id = u.chunks[k].id;
        lemma_missing(t.chunks, row.id, n);
        if j < t.chunks.len() {
            assert(t.chunks[j].document_id != row.id);
        }
        assert(id >= next_chunk_id(t.chunks));
        assert forall|i: int| 0 <= i < t.chunks.len() implies (#[trigger] t.chunks[i]).id
            != id by {
            if i < t.chunks.len() - 1 {
                assert(chunk_order()(t.chunks[i], t.chunks[t.chunks.len() - 1]));
            }
        }
        assert(!has_chunk(t, id));
        assert forall|i: int| 0 <= i < u.embeddings.len() implies (
        #[trigger] u.embeddings[i]).chunk_id != id by {
            let gone = owned_from(v.chunks, row.id, n);
            lemma_filter_member(t.embeddings, |e: EmbeddingRow| !gone(e.chunk_id), i);
            let e = choose|e: int|
                0 <= e < t.embeddings.len() && #[trigger] t.embeddings[e] == u.embeddings[i];
            assert(embedding_sound(t, t.embeddings[e]));
        }
        assert forall|i: int| 0 <= i < u.relations.len() implies (
        #[trigger] u.relations[i]).from_chunk_id != id && u.relations[i].to_chunk_id != id by {
            lemma_filter_member(t.relations, untouched(outdated(v.chunks, row.id, pieces)), i);
            let e = choose|e: int|
                0 <= e < t.relations.len() && #[trigger] t.relations[e] == u.relations[i];
            assert(relation_sound(t, t.relations[e]));
        }
    }
}

/// Deleting a document takes away its row, its chunks, and the embeddings and
/// relations of those, and nothing else.
pub proof fn law_deletion_takes_what_the_document_owns(t: Tables, document_id: i64)
    requires
        t.wf(),
    ensures
        ({
            let u = without_document(t, document_id);
            let gone = owned_by(t.chunks, document_id);
            &&& u.wf()
            &&& u.documents == t.documents.filter(|d: DocumentRow| d.id != document_id)
            &&& u.chunks == t.chunks.filter(|c: ChunkRow| c.document_id != document_id)
            &&& u.embeddings == t.embeddings.filter(|e: EmbeddingRow| !gone(e.chunk_id))
            &&& u.relations == t.relations.filter(untouched(gone))
            &&& u.models == t.models
            &&& u.segments == t.segments
            &&& u.settings == t.settings
            &&& u.index == t.index
            &&& u.dumps == t.dumps
        }),
{
    let gone = owned_by(t.chunks, document_id);
    lemma_wf_without_chunks(t, gone);
    lemma_wf_delete_document(without_chunks(t, gone), document_id);
    let p = |c: ChunkRow| !gone(c.id);
    let q = |c: ChunkRow| c.document_id != document_id;
    assert forall|i: int| 0 <= i < t.chunks.len() implies p(#[trigger] t.chunks[i]) == q(
        t.chunks[i],
    ) by {
        lemma_owner(t, document_id, i);
    }
    lemma_filter_same(t.chunks, p, q);
    lemma_filter_same(
        t.relations,
        |r: RelationRow| !gone(r.from_chunk_id) && !gone(r.to_chunk_id),
        untouched(gone),
    );
}

/// A chunk belongs to one document only.
pub proof fn lemma_owner(t: Tables, document_id: i64, i: int)
    requires
        t.wf(),
        0 <= i < t.chunks.len(),
    ensures
        owned(t.chunks, document_id, t.chunks[i].id) == (t.chunks[i].document_id == document_id),
{
    if owned(t.chunks, document_id, t.chunks[i].id) {
        let k = choose|k: int|
            0 <= k < t.chunks.len() && (#[trigger] t.chunks[k]).id == t.chunks[i].id
                && t.chunks[k].document_id == document_id;
        if k < i {
            assert(chunk_order()(t.chunks[k], t.chunks[i]));
        } else if i < k {
            assert(chunk_order()(t.chunks[i], t.chunks[k]));
        }
    }
}

/// Adding a deleted document again starts over: it is a new document at version
/// one, with the name, metadata and tags given now. Its chunks are the pieces of its
/// content, without embeddings and without relations.
pub proof fn law_readded_document_starts_over(
    t: Tables,
    naming: Naming,
    content: Seq<char>,
    hash: Seq<char>,
    chunking: Chunking,
    now: i64,
)
    requires
        t.wf(),
        sound(t),
        naming.external_id is Some,
        !blank_identity(naming.external_id),
        taken(t.documents, naming.external_id->0),
        ({
            let d = first_where(t.documents, named(naming.external_id->0))->0;
            let u = without_document(t, d.id);
            can_chunk(u, content, chunking) && next_document_id(u.documents) <= i64::MAX
        }),
    ensures
        ({
            let d = first_where(t.documents, named(naming.external_id->0))->0;
            let u = without_document(t, d.id);
            let row = new_row(u, naming, hash, now);
            let pieces = cut(content, chunking);
            let (v, r) = added(u, naming, content, hash, chunking, Some(now));
            &&& r == Ok::<i64, Error>(row.id)
            &&& v.documents == u.documents.push(row)
            &&& row.version == 1 && row.name == naming.name && row.metadata == naming.metadata
                && row.tags == naming.tags
            &&& forall|p: int|
                0 <= p < pieces.len() ==> #[trigger] has_position(v.chunks, row.id, p)
            &&& forall|k: int|
                0 <= k < v.chunks.len() && (#[trigger] v.chunks[k]).document_id == row.id ==> {
                    &&& 0 <= v.chunks[k].position < pieces.len()
                    &&& v.chunks[k].text == pieces[v.chunks[k].position as int]
                    &&& v.chunks[k].version == 1
                    &&& unjudged(v, v.chunks[k].id)
                }
        }),
{
    let d = first_where(t.documents, named(naming.external_id->0))->0;
    let u = without_document(t, d.id);
    law_deleted_document_is_unknown(t, naming.external_id->0);
    law_deletion_takes_what_the_document_owns(t, d.id);
    crate::laws::references::law_deletion_keeps_references(t, d.id);
    law_new_document_starts_unjudged(u, naming, content, hash, chunking, now);
    let row = new_row(u, naming, hash, now);
    let v = Tables { documents: u.documents.push(row), ..u };
    let pieces = cut(content, chunking);
    law_update_purges_what_was_judged_on_old_text(v, row.id, pieces, 1);
    let (w, r) = added(u, naming, content, hash, chunking, Some(now));
    assert(w == upserted(v, row.id, pieces, 1) && r == Ok::<i64, Error>(row.id));
    assert forall|p: int| 0 <= p < pieces.len() implies #[trigger] has_position(
        w.chunks,
        row.id,
        p,
    ) by {
        assert(has_position(w.chunks, r->Ok_0, p));
    }
}

/// A deleted document is unknown afterwards: no document has its identity.
pub proof fn law_deleted_document_is_unknown(t: Tables, external_id: Seq<char>)
    requires
        t.wf(),
        taken(t.documents, external_id),
    ensures
        ({
            let d = first_where(t.documents, named(external_id))->0;
            let u = without_document(t, d.id);
            !taken(u.documents, external_id) && matched(u, Some(external_id)) is None
        }),
{
    let p = named(external_id);
    let d = first_where(t.documents, p)->0;
    let u = without_document(t, d.id);
    let keep = |x: DocumentRow| x.id != d.id;
    let i = lemma_first_found(t.documents, p);
    assert forall|k: int| 0 <= k < u.documents.len() implies !p(#[trigger] u.documents[k]) by {
        lemma_filter_member(t.documents, keep, k);
        let j = choose|j: int|
            0 <= j < t.documents.len() && #[trigger] t.documents[j] == t.documents.filter(keep)[k];
        if p(t.documents[j]) {
            if i < j {
                assert(distinct_external_ids()(t.documents[i], t.documents[j]));
            } else if j < i {
                assert(distinct_external_ids()(t.documents[j], t.documents[i]));
            }
        }
    }
    lemma_first_absent(u.documents, p);
    if matched(u, Some(external_id)) is Some {
        lemma_taken(u.documents, external_id);
    }
}

} // verus!
