//! Which rows refer to which, and which changes a database accepts that enforces
//! its keys and foreign keys.

use vstd::prelude::*;

use crate::embedding::lemma_put_embedding_order;
use crate::seqs::{
    lemma_filter_member, lemma_filter_pairwise, lemma_map_pairwise, lemma_push_pairwise,
};
use crate::storage::tables::{
    chunk_order, distinct_external_ids, distinct_pairs, distinct_positions, document_order,
    embedding_order, lemma_replay_append, lemma_replay_push, segment_order, Change, ChunkRow,
    DocumentRow, EmbeddingRow, RelationRow, Tables,
};
use crate::storage::{replays, steps, Database};

verus! {

/// There is a document with the id.
pub open spec fn has_document(t: Tables, document_id: i64) -> bool {
    exists|i: int| 0 <= i < t.documents.len() && (#[trigger] t.documents[i]).id == document_id
}

/// There is a chunk with the id.
pub open spec fn has_chunk(t: Tables, chunk_id: i64) -> bool {
    exists|i: int| 0 <= i < t.chunks.len() && (#[trigger] t.chunks[i]).id == chunk_id
}

/// There is a segment with the id.
pub open spec fn has_segment(t: Tables, segment_id: i64) -> bool {
    exists|i: int| 0 <= i < t.segments.len() && (#[trigger] t.segments[i]).id == segment_id
}

/// There is a model with the id, whose vectors are that many bytes long.
pub open spec fn has_model(t: Tables, model_id: i64, bytes: nat) -> bool {
    exists|i: int|
        0 <= i < t.models.len() && (#[trigger] t.models[i]).id == model_id
            && t.models[i].dimension * 4 == bytes
}

/// An embedding refers to a chunk, a segment, and a model of its length.
pub open spec fn embedding_sound(t: Tables, e: EmbeddingRow) -> bool {
    &&& has_chunk(t, e.chunk_id)
    &&& has_segment(t, e.segment_id)
    &&& has_model(t, e.embedding_model_id, e.vector.len())
}

/// A relation refers to two chunks.
pub open spec fn relation_sound(t: Tables, r: RelationRow) -> bool {
    has_chunk(t, r.from_chunk_id) && has_chunk(t, r.to_chunk_id)
}

/// Every row refers to rows that exist, and every stored vector has the length that
/// its model's dimension says.
pub open spec fn sound(t: Tables) -> bool {
    &&& forall|i: int|
        0 <= i < t.chunks.len() ==> has_document(t, (#[trigger] t.chunks[i]).document_id)
    &&& forall|i: int|
        0 <= i < t.embeddings.len() ==> embedding_sound(t, #[trigger] t.embeddings[i])
    &&& forall|i: int| 0 <= i < t.relations.len() ==> relation_sound(t, #[trigger] t.relations[i])
}

/// Whatever exists in one database exists in the other.
pub open spec fn covers(t: Tables, u: Tables) -> bool {
    &&& forall|x: i64| has_document(t, x) ==> #[trigger] has_document(u, x)
    &&& forall|x: i64| has_chunk(t, x) ==> #[trigger] has_chunk(u, x)
    &&& forall|x: i64| has_segment(t, x) ==> #[trigger] has_segment(u, x)
    &&& forall|x: i64, n: nat| has_model(t, x, n) ==> #[trigger] has_model(u, x, n)
}

/// Rows that are still there refer to rows that exist, when nothing was lost.
pub proof fn lemma_covered_sound(t: Tables, u: Tables)
    requires
        sound(t),
        covers(t, u),
        forall|i: int|
            0 <= i < u.chunks.len() ==> has_document(u, (#[trigger] u.chunks[i]).document_id),
        forall|i: int|
            0 <= i < u.embeddings.len() ==> t.embeddings.contains(#[trigger] u.embeddings[i])
                || embedding_sound(u, u.embeddings[i]),
        forall|i: int|
            0 <= i < u.relations.len() ==> t.relations.contains(#[trigger] u.relations[i])
                || relation_sound(u, u.relations[i]),
    ensures
        sound(u),
{
    assert forall|i: int| 0 <= i < u.embeddings.len() implies embedding_sound(
        u,
        #[trigger] u.embeddings[i],
    ) by {
        let e = u.embeddings[i];
        if t.embeddings.contains(e) {
            let j = choose|j: int| 0 <= j < t.embeddings.len() && t.embeddings[j] == e;
            assert(embedding_sound(t, t.embeddings[j]));
        }
    }
    assert forall|i: int| 0 <= i < u.relations.len() implies relation_sound(
        u,
        #[trigger] u.relations[i],
    ) by {
        let r = u.relations[i];
        if t.relations.contains(r) {
            let j = choose|j: int| 0 <= j < t.relations.len() && t.relations[j] == r;
            assert(relation_sound(t, t.relations[j]));
        }
    }
}

/// Tables with the same ids cover each other.
pub proof fn lemma_covers(t: Tables, u: Tables)
    requires
        t.documents.len() <= u.documents.len(),
        forall|i: int|
            0 <= i < t.documents.len() ==> (#[trigger] u.documents[i]).id == t.documents[i].id,
        t.chunks.len() <= u.chunks.len(),
        forall|i: int| 0 <= i < t.chunks.len() ==> (#[trigger] u.chunks[i]).id == t.chunks[i].id,
        t.segments.len() <= u.segments.len(),
        forall|i: int|
            0 <= i < t.segments.len() ==> (#[trigger] u.segments[i]).id == t.segments[i].id,
        t.models.len() <= u.models.len(),
        forall|i: int| 0 <= i < t.models.len() ==> #[trigger] u.models[i] == t.models[i],
    ensures
        covers(t, u),
{
    assert forall|x: i64| has_document(t, x) implies #[trigger] has_document(u, x) by {
        let i = choose|i: int| 0 <= i < t.documents.len() && (#[trigger] t.documents[i]).id == x;
        assert(u.documents[i].id == x);
    }
    assert forall|x: i64| has_chunk(t, x) implies #[trigger] has_chunk(u, x) by {
        let i = choose|i: int| 0 <= i < t.chunks.len() && (#[trigger] t.chunks[i]).id == x;
        assert(u.chunks[i].id == x);
    }
    assert forall|x: i64| has_segment(t, x) implies #[trigger] has_segment(u, x) by {
        let i = choose|i: int| 0 <= i < t.segments.len() && (#[trigger] t.segments[i]).id == x;
        assert(u.segments[i].id == x);
    }
    assert forall|x: i64, n: nat| has_model(t, x, n) implies #[trigger] has_model(u, x, n) by {
        let i = choose|i: int|
            0 <= i < t.models.len() && (#[trigger] t.models[i]).id == x && t.models[i].dimension
                * 4 == n;
        assert(u.models[i] == t.models[i]);
    }
}

/// A change leaves no row referring to one that does not exist.
pub open spec fn permits(t: Tables, change: Change) -> bool {
    match change {
        Change::DeleteDocument { document_id } => forall|i: int|
            0 <= i < t.chunks.len() ==> (#[trigger] t.chunks[i]).document_id != document_id,
        Change::InsertChunk(c) => has_document(t, c.document_id),
        Change::DeleteChunk { chunk_id } => {
            &&& forall|i: int|
                0 <= i < t.embeddings.len() ==> (#[trigger] t.embeddings[i]).chunk_id != chunk_id
            &&& forall|i: int|
                0 <= i < t.relations.len() ==> (#[trigger] t.relations[i]).from_chunk_id
                    != chunk_id && t.relations[i].to_chunk_id != chunk_id
        },
        Change::PutRelation(r) => relation_sound(t, r@),
        Change::PutEmbedding(e) => embedding_sound(t, e@),
        Change::SetSegment { chunk_id, segment_id } => has_segment(t, segment_id),
        Change::ClearSegments => t.embeddings.len() == 0,
        _ => true,
    }
}

/// Rows that were selected were there before.
proof fn lemma_selected<A>(s: Seq<A>, p: spec_fn(A) -> bool)
    ensures
        forall|i: int| 0 <= i < s.filter(p).len() ==> s.contains(#[trigger] s.filter(p)[i]),
        forall|i: int| 0 <= i < s.filter(p).len() ==> p(#[trigger] s.filter(p)[i]),
{
    assert forall|i: int| 0 <= i < s.filter(p).len() implies s.contains(
        #[trigger] s.filter(p)[i],
    ) && p(s.filter(p)[i]) by {
        lemma_filter_member(s, p, i);
        let k = choose|k: int| 0 <= k < s.len() && #[trigger] s[k] == s.filter(p)[i];
        assert(s.contains(s[k]));
    }
}

/// A change that is permitted keeps every row referring to rows that exist.
pub proof fn lemma_permitted_sound(t: Tables, change: Change)
    requires
        sound(t),
        permits(t, change),
    ensures
        sound(t.apply(change)),
{
    let u = t.apply(change);
    match change {
        Change::DeleteDocument { document_id } => {
            let p = |d: DocumentRow| d.id != document_id;
            assert forall|i: int| 0 <= i < u.chunks.len() implies has_document(
                u,
                (#[trigger] u.chunks[i]).document_id,
            ) by {
                let x = t.chunks[i].document_id;
                assert(has_document(t, x));
                let k = choose|k: int|
                    0 <= k < t.documents.len() && (#[trigger] t.documents[k]).id == x;
                let m = crate::seqs::lemma_filter_keeps(t.documents, p, k);
                assert(u.documents[m].id == x);
            }
            lemma_same_rows_sound(t, u);
        },
        Change::DeleteChunk { chunk_id } => {
            let p = |c: ChunkRow| c.id != chunk_id;
            assert forall|x: i64| has_chunk(t, x) && x != chunk_id implies #[trigger] has_chunk(
                u,
                x,
            ) by {
                let k = choose|k: int| 0 <= k < t.chunks.len() && (#[trigger] t.chunks[k]).id == x;
                let m = crate::seqs::lemma_filter_keeps(t.chunks, p, k);
                assert(u.chunks[m].id == x);
            }
            lemma_selected(t.chunks, p);
            assert forall|i: int| 0 <= i < u.chunks.len() implies has_document(
                u,
                (#[trigger] u.chunks[i]).document_id,
            ) by {
                let j = choose|j: int| 0 <= j < t.chunks.len() && t.chunks[j] == u.chunks[i];
                assert(has_document(t, t.chunks[j].document_id));
                let k = choose|k: int|
                    0 <= k < t.documents.len() && (#[trigger] t.documents[k]).id
                        == t.chunks[j].document_id;
                assert(u.documents[k].id == u.chunks[i].document_id);
            }
            assert forall|i: int| 0 <= i < u.embeddings.len() implies embedding_sound(
                u,
                #[trigger] u.embeddings[i],
            ) by {
                assert(embedding_sound(t, t.embeddings[i]));
                lemma_same_segments_and_models(t, u, t.embeddings[i]);
            }
            assert forall|i: int| 0 <= i < u.relations.len() implies relation_sound(
                u,
                #[trigger] u.relations[i],
            ) by {
                assert(relation_sound(t, t.relations[i]));
            }
        },
        Change::DeleteRelations { chunk_id } => {
            lemma_covers(t, u);
            lemma_selected(
                t.relations,
                |r: RelationRow| r.from_chunk_id != chunk_id && r.to_chunk_id != chunk_id,
            );
            lemma_kept_embeddings(t, u);
            lemma_covered_sound(t, u);
        },
        Change::DeleteEmbedding { chunk_id } => {
            lemma_covers(t, u);
            lemma_selected(t.embeddings, |e: EmbeddingRow| e.chunk_id != chunk_id);
            lemma_covered_sound(t, u);
        },
        Change::PutRelation(row) => {
            lemma_covers(t, u);
            lemma_selected(
                t.relations,
                |r: RelationRow|
                    r.from_chunk_id != row.from_chunk_id || r.to_chunk_id != row.to_chunk_id,
            );
            assert(relation_sound(u, row@));
            lemma_kept_embeddings(t, u);
            lemma_covered_sound(t, u);
        },
        Change::PutEmbedding(e) => {
            lemma_covers(t, u);
            let below = |x: EmbeddingRow| x.chunk_id < e@.chunk_id;
            let above = |x: EmbeddingRow| x.chunk_id > e@.chunk_id;
            let a = t.embeddings.filter(below);
            let b = t.embeddings.filter(above);
            lemma_selected(t.embeddings, below);
            lemma_selected(t.embeddings, above);
            assert forall|i: int| 0 <= i < u.embeddings.len() implies t.embeddings.contains(
                #[trigger] u.embeddings[i],
            ) || embedding_sound(u, u.embeddings[i]) by {
                if i < a.len() {
                    assert(u.embeddings[i] == a[i]);
                } else if i > a.len() {
                    assert(u.embeddings[i] == b[i - a.len() - 1]);
                } else {
                    assert(u.embeddings[i] == e@);
                }
            }
            lemma_covered_sound(t, u);
        },
        Change::SetSegment { chunk_id, segment_id } => {
            lemma_covers(t, u);
            assert forall|i: int| 0 <= i < u.embeddings.len() implies t.embeddings.contains(
                #[trigger] u.embeddings[i],
            ) || embedding_sound(u, u.embeddings[i]) by {
                assert(embedding_sound(t, t.embeddings[i]));
            }
            lemma_covered_sound(t, u);
        },
        Change::ClearSegments => {
            lemma_same_rows_sound(t, u);
        },
        Change::InsertChunk(_) => {
            lemma_covers(t, u);
            assert forall|i: int| 0 <= i < u.chunks.len() implies has_document(
                u,
                (#[trigger] u.chunks[i]).document_id,
            ) by {
                if i < t.chunks.len() {
                    assert(has_document(t, t.chunks[i].document_id));
                }
            }
            lemma_kept_embeddings(t, u);
            lemma_covered_sound(t, u);
        },
        _ => {
            lemma_covers(t, u);
            assert forall|i: int| 0 <= i < u.chunks.len() implies has_document(
                u,
                (#[trigger] u.chunks[i]).document_id,
            ) by {
                assert(has_document(t, t.chunks[i].document_id));
            }
            lemma_kept_embeddings(t, u);
            lemma_covered_sound(t, u);
        },
    }
}

proof fn lemma_kept_embeddings(t: Tables, u: Tables)
    requires
        u.embeddings == t.embeddings,
    ensures
        forall|i: int|
            0 <= i < u.embeddings.len() ==> t.embeddings.contains(#[trigger] u.embeddings[i]),
        u.relations == t.relations ==> forall|i: int|
            0 <= i < u.relations.len() ==> t.relations.contains(#[trigger] u.relations[i]),
{
}

/// The rows that refer to others are the same, and so is what they refer to, but for
/// the documents, which the chunks are known to refer to, and for the segments, where
/// no embedding refers to them.
proof fn lemma_same_rows_sound(t: Tables, u: Tables)
    requires
        sound(t),
        u.chunks == t.chunks,
        u.embeddings == t.embeddings,
        u.relations == t.relations,
        u.models == t.models,
        u.segments == t.segments || t.embeddings.len() == 0,
        u.documents == t.documents || forall|i: int|
            0 <= i < u.chunks.len() ==> has_document(u, (#[trigger] u.chunks[i]).document_id),
    ensures
        sound(u),
{
    assert forall|x: i64| has_chunk(t, x) implies #[trigger] has_chunk(u, x) by {
        let i = choose|i: int| 0 <= i < t.chunks.len() && (#[trigger] t.chunks[i]).id == x;
        assert(u.chunks[i].id == x);
    }
    assert forall|i: int| 0 <= i < u.chunks.len() implies has_document(
        u,
        (#[trigger] u.chunks[i]).document_id,
    ) by {
        if u.documents == t.documents {
            assert(has_document(t, t.chunks[i].document_id));
            let k = choose|k: int|
                0 <= k < t.documents.len() && (#[trigger] t.documents[k]).id
                    == t.chunks[i].document_id;
            assert(u.documents[k].id == t.chunks[i].document_id);
        }
    }
    assert forall|i: int| 0 <= i < u.embeddings.len() implies embedding_sound(
        u,
        #[trigger] u.embeddings[i],
    ) by {
        assert(embedding_sound(t, t.embeddings[i]));
        lemma_same_segments_and_models(t, u, t.embeddings[i]);
    }
    assert forall|i: int| 0 <= i < u.relations.len() implies relation_sound(
        u,
        #[trigger] u.relations[i],
    ) by {
        assert(relation_sound(t, t.relations[i]));
    }
}

pub proof fn lemma_same_segments_and_models(t: Tables, u: Tables, e: EmbeddingRow)
    requires
        u.segments == t.segments,
        u.models == t.models,
        has_segment(t, e.segment_id),
        has_model(t, e.embedding_model_id, e.vector.len()),
    ensures
        has_segment(u, e.segment_id),
        has_model(u, e.embedding_model_id, e.vector.len()),
{
    let i = choose|i: int|
        0 <= i < t.segments.len() && (#[trigger] t.segments[i]).id == e.segment_id;
    assert(u.segments[i].id == e.segment_id);
    let j = choose|j: int|
        0 <= j < t.models.len() && (#[trigger] t.models[j]).id == e.embedding_model_id
            && t.models[j].dimension * 4 == e.vector.len();
    assert(u.models[j].id == e.embedding_model_id);
}

/// A change that gives a table another row, or a row another value in a key.
pub open spec fn claims_a_key(change: Change) -> bool {
    match change {
        Change::InsertDocument(_) => true,
        Change::SetExternalId { .. } => true,
        Change::InsertChunk(_) => true,
        Change::InsertModel(_) => true,
        Change::InsertSegment(_) => true,
        Change::InsertSetting(_) => true,
        _ => false,
    }
}

/// Every other change keeps the keys.
pub proof fn lemma_keys_kept(t: Tables, change: Change)
    requires
        t.keyed(),
        !claims_a_key(change),
    ensures
        t.apply(change).keyed(),
{
    let u = t.apply(change);
    match change {
        Change::SetVersion { document_id, hash, version } => {
            let f = |d: DocumentRow|
                if d.id == document_id {
                    DocumentRow { hash: hash@, version, ..d }
                } else {
                    d
                };
            lemma_map_pairwise(t.documents, f, document_order());
            lemma_map_pairwise(t.documents, f, distinct_external_ids());
            assert(u.documents =~= t.documents.map_values(f));
        },
        Change::DeleteDocument { document_id } => {
            let p = |d: DocumentRow| d.id != document_id;
            lemma_filter_pairwise(t.documents, p, document_order());
            lemma_filter_pairwise(t.documents, p, distinct_external_ids());
        },
        Change::SetChunk { chunk_id, text, version } => {
            let f = |c: ChunkRow|
                if c.id == chunk_id {
                    ChunkRow { text: text@, version, ..c }
                } else {
                    c
                };
            lemma_map_pairwise(t.chunks, f, chunk_order());
            lemma_map_pairwise(t.chunks, f, distinct_positions());
            assert(u.chunks =~= t.chunks.map_values(f));
        },
        Change::DeleteChunk { chunk_id } => {
            let p = |c: ChunkRow| c.id != chunk_id;
            lemma_filter_pairwise(t.chunks, p, chunk_order());
            lemma_filter_pairwise(t.chunks, p, distinct_positions());
        },
        Change::DeleteRelations { chunk_id } => {
            lemma_filter_pairwise(
                t.relations,
                |r: RelationRow| r.from_chunk_id != chunk_id && r.to_chunk_id != chunk_id,
                distinct_pairs(),
            );
        },
        Change::PutRelation(row) => {
            let p = |r: RelationRow|
                r.from_chunk_id != row.from_chunk_id || r.to_chunk_id != row.to_chunk_id;
            lemma_filter_pairwise(t.relations, p, distinct_pairs());
            assert forall|i: int| 0 <= i < t.relations.filter(p).len() implies distinct_pairs()(
                #[trigger] t.relations.filter(p)[i],
                row@,
            ) by {
                lemma_filter_member(t.relations, p, i);
            }
            lemma_push_pairwise(t.relations.filter(p), row@, distinct_pairs());
        },
        Change::PutEmbedding(e) => {
            lemma_put_embedding_order(t.embeddings, e@);
        },
        Change::SetSegment { chunk_id, segment_id } => {
            let f = |e: EmbeddingRow|
                if e.chunk_id == chunk_id {
                    EmbeddingRow { segment_id, ..e }
                } else {
                    e
                };
            lemma_map_pairwise(t.embeddings, f, embedding_order());
            assert(u.embeddings =~= t.embeddings.map_values(f));
        },
        Change::DeleteEmbedding { chunk_id } => {
            lemma_filter_pairwise(
                t.embeddings,
                |e: EmbeddingRow| e.chunk_id != chunk_id,
                embedding_order(),
            );
        },
        Change::SetNodeCount { segment_id, node_count } => {
            assert forall|i: int, j: int|
                #![trigger u.segments[i], u.segments[j]]
                0 <= i < j < u.segments.len() implies segment_order()(
                u.segments[i],
                u.segments[j],
            ) by {
                assert(segment_order()(t.segments[i], t.segments[j]));
            }
        },
        Change::Seal { segment_id, sealed_at } => {
            assert forall|i: int, j: int|
                #![trigger u.segments[i], u.segments[j]]
                0 <= i < j < u.segments.len() implies segment_order()(
                u.segments[i],
                u.segments[j],
            ) by {
                assert(segment_order()(t.segments[i], t.segments[j]));
            }
        },
        _ => {},
    }
}

/// A database that enforces the keys of the schema accepts the changes that `new`
/// records beyond those of `old`, one after the other: where the keys hold to begin
/// with, they hold after each of them.
pub open spec fn keyed_throughout(old: Database, new: Database) -> bool {
    let n = old.changes@.len() as int;
    old@.keyed() ==> forall|k: int|
        n <= k <= new.changes@.len() ==> old@.replay(
            #[trigger] new.changes@.subrange(n, k),
        ).keyed()
}

/// A database that enforces foreign keys accepts them too: where every row refers to
/// rows that exist to begin with, that is so after each of the changes.
pub open spec fn sound_throughout(old: Database, new: Database) -> bool {
    let n = old.changes@.len() as int;
    sound(old@) ==> forall|k: int|
        n <= k <= new.changes@.len() ==> sound(
            old@.replay(#[trigger] new.changes@.subrange(n, k)),
        )
}

/// A database that enforces its schema, foreign keys included, accepts the changes
/// that `new` records beyond those of `old`, one after the other.
pub open spec fn accepted(old: Database, new: Database) -> bool {
    keyed_throughout(old, new) && sound_throughout(old, new)
}

pub proof fn lemma_keyed_self(a: Database, b: Database)
    requires
        b.changes@ == a.changes@,
    ensures
        keyed_throughout(a, b),
{
    let n = a.changes@.len() as int;
    assert forall|k: int| a@.keyed() && n <= k <= b.changes@.len() implies a@.replay(
        #[trigger] b.changes@.subrange(n, k),
    ).keyed() by {
        assert(b.changes@.subrange(n, k) =~= Seq::empty());
    }
}

pub proof fn lemma_accepted_self(a: Database, b: Database)
    requires
        b.changes@ == a.changes@,
    ensures
        accepted(a, b),
{
    let n = a.changes@.len() as int;
    lemma_keyed_self(a, b);
    assert forall|k: int| sound(a@) && n <= k <= b.changes@.len() implies sound(
        a@.replay(#[trigger] b.changes@.subrange(n, k)),
    ) by {
        assert(b.changes@.subrange(n, k) =~= Seq::empty());
    }
}

pub proof fn lemma_keyed_step(a: Database, b: Database, c: Database, change: Change)
    requires
        replays(a, b),
        keyed_throughout(a, b),
        steps(b, c, change),
        claims_a_key(change) && b@.keyed() ==> c@.keyed(),
    ensures
        keyed_throughout(a, c),
{
    let n = a.changes@.len() as int;
    let m = b.changes@.len() as int;
    if a@.keyed() {
        assert(b.changes@.subrange(n, m) =~= b.changes@.skip(n));
        assert(b@.keyed());
        if !claims_a_key(change) {
            lemma_keys_kept(b@, change);
        }
        assert forall|k: int| n <= k <= c.changes@.len() implies a@.replay(
            #[trigger] c.changes@.subrange(n, k),
        ).keyed() by {
            if k <= m {
                assert(c.changes@.subrange(n, k) =~= b.changes@.subrange(n, k));
            } else {
                assert(c.changes@.subrange(n, k) =~= b.changes@.skip(n).push(change));
                lemma_replay_push(a@, b.changes@.skip(n), change);
            }
        }
    }
}

pub proof fn lemma_accepted_step(a: Database, b: Database, c: Database, change: Change)
    requires
        replays(a, b),
        accepted(a, b),
        steps(b, c, change),
        sound(b@) ==> permits(b@, change),
        claims_a_key(change) && b@.keyed() ==> c@.keyed(),
    ensures
        accepted(a, c),
{
    let n = a.changes@.len() as int;
    let m = b.changes@.len() as int;
    lemma_keyed_step(a, b, c, change);
    if sound(a@) {
        assert(b.changes@.subrange(n, m) =~= b.changes@.skip(n));
        assert(sound(b@));
        lemma_permitted_sound(b@, change);
        assert forall|k: int| n <= k <= c.changes@.len() implies sound(
            a@.replay(#[trigger] c.changes@.subrange(n, k)),
        ) by {
            if k <= m {
                assert(c.changes@.subrange(n, k) =~= b.changes@.subrange(n, k));
            } else {
                assert(c.changes@.subrange(n, k) =~= b.changes@.skip(n).push(change));
                lemma_replay_push(a@, b.changes@.skip(n), change);
            }
        }
    }
}

/// What is recorded up to a point, when one list of changes follows another.
proof fn lemma_recorded_so_far(a: Database, b: Database, c: Database, k: int)
    requires
        replays(a, b),
        replays(b, c),
        a.changes@.len() <= k <= c.changes@.len(),
    ensures
        ({
            let n = a.changes@.len() as int;
            let m = b.changes@.len() as int;
            &&& k <= m ==> c.changes@.subrange(n, k) == b.changes@.subrange(n, k)
            &&& m <= k ==> a@.replay(c.changes@.subrange(n, k)) == b@.replay(
                c.changes@.subrange(m, k),
            )
        }),
{
    let n = a.changes@.len() as int;
    let m = b.changes@.len() as int;
    assert(c.changes@.take(m) == b.changes@);
    assert forall|i: int| n <= i < m implies c.changes@[i] == b.changes@[i] by {
        assert(c.changes@.take(m)[i] == c.changes@[i]);
    }
    if k <= m {
        assert(c.changes@.subrange(n, k) =~= b.changes@.subrange(n, k));
    }
    if m <= k {
        let rest = c.changes@.subrange(m, k);
        assert(c.changes@.subrange(n, k) =~= b.changes@.skip(n) + rest);
        lemma_replay_append(a@, b.changes@.skip(n), rest);
    }
}

pub proof fn lemma_keyed_chain(a: Database, b: Database, c: Database)
    requires
        replays(a, b),
        keyed_throughout(a, b),
        replays(b, c),
        keyed_throughout(b, c),
    ensures
        keyed_throughout(a, c),
{
    let n = a.changes@.len() as int;
    let m = b.changes@.len() as int;
    if a@.keyed() {
        assert(b.changes@.subrange(n, m) =~= b.changes@.skip(n));
        assert(b@.keyed());
        assert forall|k: int| n <= k <= c.changes@.len() implies a@.replay(
            #[trigger] c.changes@.subrange(n, k),
        ).keyed() by {
            lemma_recorded_so_far(a, b, c, k);
            if m <= k {
                assert(b@.replay(c.changes@.subrange(m, k)).keyed());
            } else {
                assert(a@.replay(b.changes@.subrange(n, k)).keyed());
            }
        }
    }
}

pub proof fn lemma_accepted_chain(a: Database, b: Database, c: Database)
    requires
        replays(a, b),
        accepted(a, b),
        replays(b, c),
        accepted(b, c),
    ensures
        accepted(a, c),
{
    let n = a.changes@.len() as int;
    let m = b.changes@.len() as int;
    lemma_keyed_chain(a, b, c);
    if sound(a@) {
        assert(b.changes@.subrange(n, m) =~= b.changes@.skip(n));
        assert(sound(b@));
        assert forall|k: int| n <= k <= c.changes@.len() implies sound(
            a@.replay(#[trigger] c.changes@.subrange(n, k)),
        ) by {
            lemma_recorded_so_far(a, b, c, k);
            if m <= k {
                assert(sound(b@.replay(c.changes@.subrange(m, k))));
            } else {
                assert(sound(a@.replay(b.changes@.subrange(n, k))));
            }
        }
    }
}

} // verus!
