//! What every operation keeps: rows refer to rows that exist, and every stored
//! vector has the length that its model's dimension says.

use vstd::prelude::*;

use crate::ann::model::{can_index, indexed, rebuilt, target, time_of, with_target};
use crate::document::chunk::{cut, Chunking};
use crate::document::model::{
    added, blank_identity, can_add, declared_as, id_of_another, matched, new_row, outdated,
    owned_by, owned_from, reversioned, room, untouched, upserted, without_document, Naming,
};
use crate::embedding::{
    can_store, is_model, known_model, lemma_stored_row_sound, model_of, of_another_dimension,
    stored, with_model,
};
use crate::error::Error;
use crate::graph::{other_pair, related};
use crate::laws::documents::{
    law_deletion_takes_what_the_document_owns, law_other_documents_keep_their_chunks,
    law_surviving_positions_keep_their_chunk, law_update_purges_what_was_judged_on_old_text,
    lemma_owner,
};
use crate::laws::index::law_rebuild_leaves_no_dead_nodes;
use crate::seqs::{
    lemma_filter_keeps, lemma_filter_member, lemma_first_absent, lemma_first_exists,
    lemma_first_found,
};
use crate::storage::references::{
    embedding_sound, has_chunk, has_document, lemma_same_segments_and_models, relation_sound, sound,
};
use crate::storage::tables::{ChunkRow, DocumentRow, EmbeddingRow, RelationRow, Tables};

verus! {

/// Whatever chunk is not beyond the new pieces is still there after an update.
proof fn lemma_chunk_survives(
    t: Tables,
    document_id: i64,
    pieces: Seq<Seq<char>>,
    version: i64,
    chunk_id: i64,
)
    requires
        t.wf(),
        room(t.chunks, pieces.len()),
        has_chunk(t, chunk_id),
        !owned_from(t.chunks, document_id, pieces.len() as int)(chunk_id),
    ensures
        has_chunk(upserted(t, document_id, pieces, version), chunk_id),
{
    let u = upserted(t, document_id, pieces, version);
    let i = choose|i: int| 0 <= i < t.chunks.len() && (#[trigger] t.chunks[i]).id == chunk_id;
    let c = t.chunks[i];
    if c.document_id == document_id {
        law_surviving_positions_keep_their_chunk(t, document_id, pieces, version, i);
        let row = ChunkRow { text: pieces[c.position as int], version, ..c };
        let k = choose|k: int| 0 <= k < u.chunks.len() && u.chunks[k] == row;
        assert(u.chunks[k].id == chunk_id);
    } else {
        law_other_documents_keep_their_chunks(t, document_id, pieces, version);
        assert(t.chunks.contains(c));
        assert(u.chunks.contains(c));
        let k = choose|k: int| 0 <= k < u.chunks.len() && u.chunks[k] == c;
        assert(u.chunks[k].id == chunk_id);
    }
}

/// Giving a document its pieces keeps every row referring to rows that exist.
pub proof fn lemma_upserted_sound(
    t: Tables,
    document_id: i64,
    pieces: Seq<Seq<char>>,
    version: i64,
)
    requires
        t.wf(),
        sound(t),
        has_document(t, document_id),
        room(t.chunks, pieces.len()),
    ensures
        sound(upserted(t, document_id, pieces, version)),
{
    let u = upserted(t, document_id, pieces, version);
    let n = pieces.len() as int;
    let gone = owned_from(t.chunks, document_id, n);
    law_update_purges_what_was_judged_on_old_text(t, document_id, pieces, version);
    law_other_documents_keep_their_chunks(t, document_id, pieces, version);
    assert forall|i: int| 0 <= i < u.chunks.len() implies has_document(
        u,
        (#[trigger] u.chunks[i]).document_id,
    ) by {
        let c = u.chunks[i];
        let d = if c.document_id == document_id {
            document_id
        } else {
            assert(u.chunks.contains(c));
            let j = choose|j: int| 0 <= j < t.chunks.len() && t.chunks[j] == c;
            assert(has_document(t, t.chunks[j].document_id));
            c.document_id
        };
        let k = choose|k: int| 0 <= k < t.documents.len() && (#[trigger] t.documents[k]).id == d;
        assert(u.documents[k].id == d);
    }
    assert forall|i: int| 0 <= i < u.embeddings.len() implies embedding_sound(
        u,
        #[trigger] u.embeddings[i],
    ) by {
        let p = |e: EmbeddingRow| !gone(e.chunk_id);
        lemma_filter_member(t.embeddings, p, i);
        let j = choose|j: int|
            0 <= j < t.embeddings.len() && #[trigger] t.embeddings[j] == u.embeddings[i];
        assert(embedding_sound(t, t.embeddings[j]));
        lemma_chunk_survives(t, document_id, pieces, version, u.embeddings[i].chunk_id);
        lemma_same_segments_and_models(t, u, u.embeddings[i]);
    }
    assert forall|i: int| 0 <= i < u.relations.len() implies relation_sound(
        u,
        #[trigger] u.relations[i],
    ) by {
        let p = untouched(outdated(t.chunks, document_id, pieces));
        lemma_filter_member(t.relations, p, i);
        let j = choose|j: int|
            0 <= j < t.relations.len() && #[trigger] t.relations[j] == u.relations[i];
        let r = t.relations[j];
        assert(relation_sound(t, r));
        lemma_chunk_survives(t, document_id, pieces, version, r.from_chunk_id);
        lemma_chunk_survives(t, document_id, pieces, version, r.to_chunk_id);
    }
}

/// More documents, none of the old ids lost, and nothing else changed.
proof fn lemma_more_documents_sound(t: Tables, u: Tables)
    requires
        sound(t),
        u == (Tables { documents: u.documents, ..t }),
        forall|i: int|
            0 <= i < t.documents.len() ==> i < u.documents.len() && (#[trigger] u.documents[i]).id
                == t.documents[i].id,
        t.documents.len() <= u.documents.len(),
    ensures
        sound(u),
{
    assert forall|i: int| 0 <= i < u.chunks.len() implies has_document(
        u,
        (#[trigger] u.chunks[i]).document_id,
    ) by {
        assert(has_document(t, t.chunks[i].document_id));
        let k = choose|k: int|
            0 <= k < t.documents.len() && (#[trigger] t.documents[k]).id
                == t.chunks[i].document_id;
        assert(u.documents[k].id == t.chunks[i].document_id);
    }
    assert forall|i: int| 0 <= i < u.embeddings.len() implies embedding_sound(
        u,
        #[trigger] u.embeddings[i],
    ) by {
        let e = t.embeddings[i];
        assert(embedding_sound(t, e));
        let k = choose|k: int| 0 <= k < t.chunks.len() && (#[trigger] t.chunks[k]).id == e.chunk_id;
        assert(u.chunks[k].id == e.chunk_id);
        lemma_same_segments_and_models(t, u, e);
    }
    assert forall|i: int| 0 <= i < u.relations.len() implies relation_sound(
        u,
        #[trigger] u.relations[i],
    ) by {
        let r = t.relations[i];
        assert(relation_sound(t, r));
        let a = choose|k: int|
            0 <= k < t.chunks.len() && (#[trigger] t.chunks[k]).id == r.from_chunk_id;
        assert(u.chunks[a].id == r.from_chunk_id);
        let b = choose|k: int|
            0 <= k < t.chunks.len() && (#[trigger] t.chunks[k]).id == r.to_chunk_id;
        assert(u.chunks[b].id == r.to_chunk_id);
    }
}

/// Adding a document, however it ends, keeps every row referring to rows that exist.
pub proof fn law_adding_keeps_references(
    t: Tables,
    naming: Naming,
    content: Seq<char>,
    hash: Seq<char>,
    chunking: Chunking,
    clock: Option<i64>,
)
    requires
        t.wf(),
        sound(t),
        can_add(t, naming.external_id, content, hash, chunking),
    ensures
        sound(added(t, naming, content, hash, chunking, clock).0),
{
    let pieces = cut(content, chunking);
    if !blank_identity(naming.external_id) {
        match matched(t, naming.external_id) {
            Some(d) => {
                if d.hash != hash {
                    let version = (d.version + 1) as i64;
                    let u = Tables {
                        documents: t.documents.map_values(reversioned(d.id, hash, version)),
                        ..t
                    };
                    lemma_more_documents_sound(t, u);
                    crate::document::model::lemma_reversioned_wf(t, d.id, hash, version);
                    let i = lemma_first_found(t.documents, declared_as(naming.external_id->0));
                    assert(u.documents[i].id == d.id);
                    lemma_upserted_sound(u, d.id, pieces, version);
                }
            },
            None => {
                if clock is Some && !id_of_another(t, naming.external_id) {
                    let row = new_row(t, naming, hash, clock->0);
                    let u = Tables { documents: t.documents.push(row), ..t };
                    crate::document::model::lemma_new_row(t, naming, hash, clock->0);
                    crate::document::model::lemma_new_row_wf(t, row);
                    lemma_more_documents_sound(t, u);
                    assert(u.documents[t.documents.len() as int].id == row.id);
                    lemma_upserted_sound(u, row.id, pieces, 1);
                }
            },
        }
    }
}

/// Deleting a document keeps every row referring to rows that exist.
pub proof fn law_deletion_keeps_references(t: Tables, document_id: i64)
    requires
        t.wf(),
        sound(t),
    ensures
        sound(without_document(t, document_id)),
{
    let u = without_document(t, document_id);
    let gone = owned_by(t.chunks, document_id);
    law_deletion_takes_what_the_document_owns(t, document_id);
    let keep_chunk = |c: ChunkRow| c.document_id != document_id;
    let keep_document = |d: DocumentRow| d.id != document_id;
    assert forall|x: i64| has_chunk(t, x) && !gone(x) implies #[trigger] has_chunk(u, x) by {
        let i = choose|i: int| 0 <= i < t.chunks.len() && (#[trigger] t.chunks[i]).id == x;
        lemma_owner(t, document_id, i);
        let k = lemma_filter_keeps(t.chunks, keep_chunk, i);
        assert(u.chunks[k].id == x);
    }
    assert forall|i: int| 0 <= i < u.chunks.len() implies has_document(
        u,
        (#[trigger] u.chunks[i]).document_id,
    ) by {
        lemma_filter_member(t.chunks, keep_chunk, i);
        let j = choose|j: int| 0 <= j < t.chunks.len() && #[trigger] t.chunks[j] == u.chunks[i];
        assert(has_document(t, t.chunks[j].document_id));
        let k = choose|k: int|
            0 <= k < t.documents.len() && (#[trigger] t.documents[k]).id
                == t.chunks[j].document_id;
        let m = lemma_filter_keeps(t.documents, keep_document, k);
        assert(u.documents[m].id == u.chunks[i].document_id);
    }
    assert forall|i: int| 0 <= i < u.embeddings.len() implies embedding_sound(
        u,
        #[trigger] u.embeddings[i],
    ) by {
        lemma_filter_member(t.embeddings, |e: EmbeddingRow| !gone(e.chunk_id), i);
        let j = choose|j: int|
            0 <= j < t.embeddings.len() && #[trigger] t.embeddings[j] == u.embeddings[i];
        assert(embedding_sound(t, t.embeddings[j]));
        lemma_same_segments_and_models(t, u, u.embeddings[i]);
    }
    assert forall|i: int| 0 <= i < u.relations.len() implies relation_sound(
        u,
        #[trigger] u.relations[i],
    ) by {
        lemma_filter_member(t.relations, untouched(gone), i);
        let j = choose|j: int|
            0 <= j < t.relations.len() && #[trigger] t.relations[j] == u.relations[i];
        assert(relation_sound(t, t.relations[j]));
    }
}

/// Storing a relation keeps every row referring to rows that exist, as long as the
/// database enforces foreign keys or the two chunks exist anyway.
pub proof fn law_relating_keeps_references(t: Tables, row: RelationRow)
    requires
        sound(t),
        t.foreign_keys || (has_chunk(t, row.from_chunk_id) && has_chunk(t, row.to_chunk_id)),
    ensures
        sound(related(t, row).0),
{
    let (u, r) = related(t, row);
    if r is Ok {
        let p = other_pair(row.from_chunk_id, row.to_chunk_id);
        assert forall|x: i64| has_chunk(t, x) implies #[trigger] has_chunk(u, x) by {
            let i = choose|i: int| 0 <= i < t.chunks.len() && (#[trigger] t.chunks[i]).id == x;
            assert(u.chunks[i].id == x);
        }
        assert forall|i: int| 0 <= i < u.chunks.len() implies has_document(
            u,
            (#[trigger] u.chunks[i]).document_id,
        ) by {
            assert(has_document(t, t.chunks[i].document_id));
            let k = choose|k: int|
                0 <= k < t.documents.len() && (#[trigger] t.documents[k]).id
                    == t.chunks[i].document_id;
            assert(u.documents[k].id == t.chunks[i].document_id);
        }
        assert forall|i: int| 0 <= i < u.embeddings.len() implies embedding_sound(
            u,
            #[trigger] u.embeddings[i],
        ) by {
            assert(embedding_sound(t, t.embeddings[i]));
            lemma_same_segments_and_models(t, u, u.embeddings[i]);
        }
        let kept = t.relations.filter(p);
        assert forall|i: int| 0 <= i < u.relations.len() implies relation_sound(
        u,
        #[trigger] u.relations[i],
    ) by {
            if i < kept.len() {
                lemma_filter_member(t.relations, p, i);
                let j = choose|j: int|
                    0 <= j < t.relations.len() && #[trigger] t.relations[j] == kept[i];
                assert(relation_sound(t, t.relations[j]));
                assert(u.relations[i] == kept[i]);
            }
        }
    }
}

/// More models and segments, none of the old lost, and some embeddings changed.
proof fn lemma_more_models_sound(t: Tables, u: Tables)
    requires
        sound(t),
        u.documents == t.documents,
        u.chunks == t.chunks,
        u.relations == t.relations,
        forall|i: int| 0 <= i < u.embeddings.len() ==> embedding_sound(u, #[trigger] u.embeddings[i]),
    ensures
        sound(u),
{
    assert forall|x: i64| has_chunk(t, x) implies #[trigger] has_chunk(u, x) by {
        let i = choose|i: int| 0 <= i < t.chunks.len() && (#[trigger] t.chunks[i]).id == x;
        assert(u.chunks[i].id == x);
    }
    assert forall|i: int| 0 <= i < u.chunks.len() implies has_document(
        u,
        (#[trigger] u.chunks[i]).document_id,
    ) by {
        assert(has_document(t, t.chunks[i].document_id));
        let k = choose|k: int|
            0 <= k < t.documents.len() && (#[trigger] t.documents[k]).id
                == t.chunks[i].document_id;
        assert(u.documents[k].id == t.chunks[i].document_id);
    }
    assert forall|i: int| 0 <= i < u.relations.len() implies relation_sound(
        u,
        #[trigger] u.relations[i],
    ) by {
        assert(relation_sound(t, t.relations[i]));
    }
}

/// A model and a segment more leave an embedding referring to rows that exist.
proof fn lemma_indexed_embedding(
    t: Tables,
    chunk_id: i64,
    vector: Seq<u32>,
    model_name: Seq<char>,
    dimension: i64,
    now: i64,
    e: EmbeddingRow,
)
    requires
        t.wf(),
        can_index(t),
        embedding_sound(t, e),
    ensures
        embedding_sound(
            indexed(with_model(t, model_name, dimension, now), chunk_id, vector, now),
            e,
        ),
{
    let m = with_model(t, model_name, dimension, now);
    let u = indexed(m, chunk_id, vector, now);
    let i = choose|i: int| 0 <= i < t.chunks.len() && (#[trigger] t.chunks[i]).id == e.chunk_id;
    assert(u.chunks[i].id == e.chunk_id);
    let j = choose|j: int| 0 <= j < t.segments.len() && (#[trigger] t.segments[j]).id == e.segment_id;
    let w = with_target(m, now).segments;
    assert(w[j] == t.segments[j]);
    assert(u.segments[j].id == e.segment_id);
    let k = choose|k: int|
        0 <= k < t.models.len() && (#[trigger] t.models[k]).id == e.embedding_model_id
            && t.models[k].dimension * 4 == e.vector.len();
    assert(u.models[k] == t.models[k]);
}

/// Storing an embedding, however it ends, keeps every row referring to rows that
/// exist and every vector as long as its model's dimension says, as long as the
/// database enforces foreign keys or the chunk exists anyway.
pub proof fn law_storing_keeps_references(
    t: Tables,
    chunk_id: i64,
    vector: Seq<u8>,
    model_name: Seq<char>,
    dimension: i64,
    clock: Option<i64>,
)
    requires
        t.wf(),
        sound(t),
        can_store(t, model_name, dimension),
        t.foreign_keys || has_chunk(t, chunk_id),
    ensures
        sound(stored(t, chunk_id, vector, model_name, dimension, clock).0),
{
    let now = time_of(clock);
    let (u, r) = stored(t, chunk_id, vector, model_name, dimension, clock);
    let m = with_model(t, model_name, dimension, now);
    let v = indexed(m, chunk_id, crate::bits::words(vector), now);
    if u != t {
        assert forall|i: int| 0 <= i < v.embeddings.len() implies embedding_sound(
            v,
            #[trigger] v.embeddings[i],
        ) by {
            assert(embedding_sound(t, t.embeddings[i]));
            lemma_indexed_embedding(
                t,
                chunk_id,
                crate::bits::words(vector),
                model_name,
                dimension,
                now,
                t.embeddings[i],
            );
        }
        if r is Ok {
            let row = EmbeddingRow {
                chunk_id,
                embedding_model_id: model_of(t, model_name, dimension, now).id,
                segment_id: target(m, now).id,
                vector,
            };
            lemma_stored_row_sound(t, chunk_id, vector, model_name, dimension, now);
            let below = |e: EmbeddingRow| e.chunk_id < row.chunk_id;
            let above = |e: EmbeddingRow| e.chunk_id > row.chunk_id;
            let a = v.embeddings.filter(below);
            let b = v.embeddings.filter(above);
            assert forall|i: int| 0 <= i < u.embeddings.len() implies embedding_sound(
                u,
                #[trigger] u.embeddings[i],
            ) by {
                let e = u.embeddings[i];
                if i < a.len() {
                    assert(e == a[i]);
                    lemma_filter_member(v.embeddings, below, i);
                    let j = choose|j: int|
                        0 <= j < v.embeddings.len() && #[trigger] v.embeddings[j] == a[i];
                    assert(embedding_sound(v, v.embeddings[j]));
                } else if i > a.len() {
                    let k = i - a.len() - 1;
                    assert(e == b[k]);
                    lemma_filter_member(v.embeddings, above, k);
                    let j = choose|j: int|
                        0 <= j < v.embeddings.len() && #[trigger] v.embeddings[j] == b[k];
                    assert(embedding_sound(v, v.embeddings[j]));
                }
                assert(embedding_sound(v, e));
                let c = choose|c: int|
                    0 <= c < v.chunks.len() && (#[trigger] v.chunks[c]).id == e.chunk_id;
                assert(u.chunks[c].id == e.chunk_id);
                lemma_same_segments_and_models(v, u, e);
            }
        }
        lemma_more_models_sound(t, u);
    }
}

/// Every row of a model has the same dimension.
pub open spec fn one_dimension_each(t: Tables) -> bool {
    forall|i: int, j: int|
        #![trigger t.models[i], t.models[j]]
        0 <= i < t.models.len() && 0 <= j < t.models.len() && t.models[i].model_name
            == t.models[j].model_name ==> t.models[i].dimension == t.models[j].dimension
}

/// A dimension that the model is not registered with, where it is registered with
/// another, is refused, and nothing is stored or indexed.
pub proof fn law_other_dimensions_are_refused(
    t: Tables,
    chunk_id: i64,
    vector: Seq<u8>,
    model_name: Seq<char>,
    dimension: i64,
    clock: Option<i64>,
    i: int,
)
    requires
        0 <= i < t.models.len(),
        t.models[i].model_name == model_name,
        forall|k: int|
            0 <= k < t.models.len() && (#[trigger] t.models[k]).model_name == model_name
                ==> t.models[k].dimension != dimension,
    ensures
        stored(t, chunk_id, vector, model_name, dimension, clock).0 == t,
        stored(t, chunk_id, vector, model_name, dimension, clock).1 is Err,
        vector.len() == dimension * 4 ==> (stored(
            t,
            chunk_id,
            vector,
            model_name,
            dimension,
            clock,
        ).1 matches Err(Error::ModelDimension { dimension: given, .. }) && given == dimension),
{
    lemma_first_absent(t.models, is_model(model_name, dimension));
    lemma_first_exists(t.models, of_another_dimension(model_name, dimension), i);
}

/// Storing an embedding, however it ends, keeps every model at one dimension: what
/// is stored under a model is as long as everything else under that model.
pub proof fn law_models_keep_one_dimension(
    t: Tables,
    chunk_id: i64,
    vector: Seq<u8>,
    model_name: Seq<char>,
    dimension: i64,
    clock: Option<i64>,
)
    requires
        one_dimension_each(t),
    ensures
        one_dimension_each(stored(t, chunk_id, vector, model_name, dimension, clock).0),
{
    let u = stored(t, chunk_id, vector, model_name, dimension, clock).0;
    let now = time_of(clock);
    assert forall|i: int, j: int|
        #![trigger u.models[i], u.models[j]]
        0 <= i < u.models.len() && 0 <= j < u.models.len() && u.models[i].model_name
            == u.models[j].model_name implies u.models[i].dimension == u.models[j].dimension by {
        let n = t.models.len();
        if i < n {
            assert(u.models[i] == t.models[i]);
            if t.models[i].model_name == model_name && t.models[i].dimension != dimension {
                lemma_first_exists(t.models, of_another_dimension(model_name, dimension), i);
            }
        }
        if j < n {
            assert(u.models[j] == t.models[j]);
            if t.models[j].model_name == model_name && t.models[j].dimension != dimension {
                lemma_first_exists(t.models, of_another_dimension(model_name, dimension), j);
            }
        }
    }
}

/// As long as every model has one dimension and every other model the given one,
/// storing a vector of that dimension leaves every model with it, and every stored
/// vector as long as it says.
pub proof fn law_one_dimension_stays_one_dimension(
    t: Tables,
    chunk_id: i64,
    vector: Seq<u8>,
    model_name: Seq<char>,
    dimension: i64,
    clock: Option<i64>,
)
    requires
        t.wf(),
        sound(t),
        can_store(t, model_name, dimension),
        t.foreign_keys || has_chunk(t, chunk_id),
        one_dimension_each(t),
        forall|i: int|
            0 <= i < t.models.len() && (#[trigger] t.models[i]).model_name != model_name
                ==> t.models[i].dimension == dimension,
        stored(t, chunk_id, vector, model_name, dimension, clock).1 is Ok,
    ensures
        ({
            let u = stored(t, chunk_id, vector, model_name, dimension, clock).0;
            &&& forall|i: int|
                0 <= i < u.models.len() ==> (#[trigger] u.models[i]).dimension == dimension
            &&& forall|i: int|
                0 <= i < u.embeddings.len() ==> (#[trigger] u.embeddings[i]).vector.len()
                    == dimension * 4
        }),
{
    let u = stored(t, chunk_id, vector, model_name, dimension, clock).0;
    law_storing_keeps_references(t, chunk_id, vector, model_name, dimension, clock);
    if known_model(t, model_name, dimension) is Some {
        let k = lemma_first_found(t.models, is_model(model_name, dimension));
        assert(t.models[k].dimension == dimension);
    }
    assert forall|i: int| 0 <= i < u.models.len() implies (#[trigger] u.models[i]).dimension
        == dimension by {
        if i < t.models.len() {
            assert(u.models[i] == t.models[i]);
            if t.models[i].model_name == model_name && t.models[i].dimension != dimension {
                lemma_first_exists(t.models, of_another_dimension(model_name, dimension), i);
            }
        }
    }
    assert forall|i: int| 0 <= i < u.embeddings.len() implies (
    #[trigger] u.embeddings[i]).vector.len() == dimension * 4 by {
        assert(embedding_sound(u, u.embeddings[i]));
    }
}

/// Rebuilding the index keeps every row referring to rows that exist.
pub proof fn law_rebuild_keeps_references(t: Tables, clock: Option<i64>)
    requires
        t.wf(),
        sound(t),
        t.embeddings.len() < i64::MAX,
    ensures
        sound(rebuilt(t, clock).0),
{
    let (u, r) = rebuilt(t, clock);
    if r is Ok {
        law_rebuild_leaves_no_dead_nodes(t, clock);
        crate::ann::model::lemma_reindexed(t, time_of(clock), t.embeddings.len() as int);
        assert forall|i: int| 0 <= i < u.embeddings.len() implies embedding_sound(
            u,
            #[trigger] u.embeddings[i],
        ) by {
            let e = u.embeddings[i];
            assert(embedding_sound(t, t.embeddings[i]));
            let c = choose|c: int|
                0 <= c < t.chunks.len() && (#[trigger] t.chunks[c]).id == e.chunk_id;
            assert(u.chunks[c].id == e.chunk_id);
            let k = choose|k: int|
                0 <= k < t.models.len() && (#[trigger] t.models[k]).id == e.embedding_model_id
                    && t.models[k].dimension * 4 == e.vector.len();
            assert(u.models[k] == t.models[k]);
            assert(u.segments[e.segment_id - 1].id == e.segment_id);
        }
        lemma_more_models_sound(t, u);
    }
}

} // verus!
