//! What the recorded changes do to the tables, row by row.

use vstd::prelude::*;

use crate::seqs::{lemma_filter_keeps, lemma_filter_member};
use crate::storage::references::{accepted, embedding_sound, has_document, relation_sound, sound};
use crate::storage::tables::{
    lemma_replay_append, Change, ChunkRow, DocumentRow, EmbeddingRow, Node, RelationRow, Scope,
    Segment, SegmentStatus, Tables,
};
use crate::storage::{bracketed, extends, replays, Database};

verus! {

/// What a selection holds.
proof fn lemma_selected<A>(s: Seq<A>, p: spec_fn(A) -> bool)
    ensures
        forall|x: A| #[trigger] s.filter(p).contains(x) <==> s.contains(x) && p(x),
{
    assert forall|x: A| #[trigger] s.filter(p).contains(x) <==> s.contains(x) && p(x) by {
        if s.contains(x) && p(x) {
            let k = choose|k: int| 0 <= k < s.len() && s[k] == x;
            let i = lemma_filter_keeps(s, p, k);
            assert(s.filter(p)[i] == x);
        }
        if s.filter(p).contains(x) {
            let i = choose|i: int| 0 <= i < s.filter(p).len() && s.filter(p)[i] == x;
            lemma_filter_member(s, p, i);
            let k = choose|k: int| 0 <= k < s.len() && #[trigger] s[k] == s.filter(p)[i];
            assert(s[k] == x);
        }
    }
}

/// What an insertion adds is the last row of its table, and nothing else changes.
pub proof fn law_inserted_rows_come_last(t: Tables, change: Change)
    ensures
        match change {
            Change::InsertDocument(d) => t.apply(change) == (Tables {
                documents: t.documents.push(d@),
                ..t
            }),
            Change::InsertChunk(c) => t.apply(change) == (Tables { chunks: t.chunks.push(c@), ..t }),
            Change::InsertModel(m) => t.apply(change) == (Tables { models: t.models.push(m@), ..t }),
            Change::InsertSegment(s) => t.apply(change) == (Tables {
                segments: t.segments.push(s),
                ..t
            }),
            Change::InsertSetting(s) => t.apply(change) == (Tables {
                settings: t.settings.push(s@),
                ..t
            }),
            Change::Savepoint(_) => t.apply(change) == t,
            Change::Release(_) => t.apply(change) == t,
            _ => true,
        },
{
}

/// What a row is set to: the named fields of the row with the given id, and nothing
/// else of any row.
pub proof fn law_set_rows_keep_the_rest(t: Tables, change: Change, i: int)
    ensures
        ({
            let u = t.apply(change);
            match change {
                Change::SetExternalId { document_id, external_id } => {
                    &&& u == (Tables { documents: u.documents, ..t })
                    &&& u.documents.len() == t.documents.len()
                    &&& 0 <= i < t.documents.len() ==> u.documents[i] == if t.documents[i].id
                        == document_id {
                        DocumentRow { external_id: Some(external_id@), ..t.documents[i] }
                    } else {
                        t.documents[i]
                    }
                },
                Change::SetVersion { document_id, hash, version } => {
                    &&& u == (Tables { documents: u.documents, ..t })
                    &&& u.documents.len() == t.documents.len()
                    &&& 0 <= i < t.documents.len() ==> u.documents[i] == if t.documents[i].id
                        == document_id {
                        DocumentRow { hash: hash@, version, ..t.documents[i] }
                    } else {
                        t.documents[i]
                    }
                },
                Change::SetChunk { chunk_id, text, version } => {
                    &&& u == (Tables { chunks: u.chunks, ..t })
                    &&& u.chunks.len() == t.chunks.len()
                    &&& 0 <= i < t.chunks.len() ==> u.chunks[i] == if t.chunks[i].id == chunk_id {
                        ChunkRow { text: text@, version, ..t.chunks[i] }
                    } else {
                        t.chunks[i]
                    }
                },
                Change::SetSegment { chunk_id, segment_id } => {
                    &&& u == (Tables { embeddings: u.embeddings, ..t })
                    &&& u.embeddings.len() == t.embeddings.len()
                    &&& 0 <= i < t.embeddings.len() ==> u.embeddings[i] == if t.embeddings[i].chunk_id
                        == chunk_id {
                        EmbeddingRow { segment_id, ..t.embeddings[i] }
                    } else {
                        t.embeddings[i]
                    }
                },
                Change::SetNodeCount { segment_id, node_count } => {
                    &&& u == (Tables { segments: u.segments, ..t })
                    &&& u.segments.len() == t.segments.len()
                    &&& 0 <= i < t.segments.len() ==> u.segments[i] == if t.segments[i].id
                        == segment_id {
                        Segment { node_count, ..t.segments[i] }
                    } else {
                        t.segments[i]
                    }
                },
                Change::Seal { segment_id, sealed_at } => {
                    &&& u == (Tables { segments: u.segments, dumps: u.dumps, ..t })
                    &&& u.segments.len() == t.segments.len()
                    &&& 0 <= i < t.segments.len() ==> u.segments[i] == if t.segments[i].id
                        == segment_id {
                        Segment {
                            status: SegmentStatus::Sealed,
                            sealed_at: Some(sealed_at),
                            has_index: true,
                            ..t.segments[i]
                        }
                    } else {
                        t.segments[i]
                    }
                    &&& t.index.contains_key(segment_id) ==> u.dumps == t.dumps.insert(
                        segment_id,
                        t.index[segment_id],
                    )
                },
                _ => true,
            }
        }),
{
}

/// What a deletion leaves is every row of the table that it does not name, and no
/// other table changes.
pub proof fn law_deleted_rows_are_the_named_ones(
    t: Tables,
    change: Change,
    d: DocumentRow,
    c: ChunkRow,
    r: RelationRow,
    e: EmbeddingRow,
)
    ensures
        ({
            let u = t.apply(change);
            match change {
                Change::DeleteDocument { document_id } => {
                    &&& u == (Tables { documents: u.documents, ..t })
                    &&& u.documents.contains(d) <==> t.documents.contains(d) && d.id != document_id
                },
                Change::DeleteChunk { chunk_id } => {
                    &&& u == (Tables { chunks: u.chunks, ..t })
                    &&& u.chunks.contains(c) <==> t.chunks.contains(c) && c.id != chunk_id
                },
                Change::DeleteRelations { chunk_id } => {
                    &&& u == (Tables { relations: u.relations, ..t })
                    &&& u.relations.contains(r) <==> t.relations.contains(r) && r.from_chunk_id
                        != chunk_id && r.to_chunk_id != chunk_id
                },
                Change::DeleteEmbedding { chunk_id } => {
                    &&& u == (Tables { embeddings: u.embeddings, ..t })
                    &&& u.embeddings.contains(e) <==> t.embeddings.contains(e) && e.chunk_id
                        != chunk_id
                },
                Change::ClearSegments => u == (Tables {
                    segments: Seq::empty(),
                    index: Map::empty(),
                    dumps: Map::empty(),
                    ..t
                }),
                _ => true,
            }
        }),
{
    match change {
        Change::DeleteDocument { document_id } => {
            lemma_selected(t.documents, |d: DocumentRow| d.id != document_id);
        },
        Change::DeleteChunk { chunk_id } => {
            lemma_selected(t.chunks, |c: ChunkRow| c.id != chunk_id);
        },
        Change::DeleteRelations { chunk_id } => {
            lemma_selected(
                t.relations,
                |r: RelationRow| r.from_chunk_id != chunk_id && r.to_chunk_id != chunk_id,
            );
        },
        Change::DeleteEmbedding { chunk_id } => {
            lemma_selected(t.embeddings, |e: EmbeddingRow| e.chunk_id != chunk_id);
        },
        _ => {},
    }
}

/// What is put in place of a row is stored as it is, the row of the same pair or chunk
/// is gone, and every other stays. A node joins the index of its segment alone.
pub proof fn law_put_rows_replace_their_own(
    t: Tables,
    change: Change,
    r: RelationRow,
    e: EmbeddingRow,
)
    ensures
        ({
            let u = t.apply(change);
            match change {
                Change::PutRelation(row) => {
                    &&& u == (Tables { relations: u.relations, ..t })
                    &&& u.relations.contains(r) <==> r == row@ || (t.relations.contains(r) && !(
                    r.from_chunk_id == row.from_chunk_id && r.to_chunk_id == row.to_chunk_id))
                },
                Change::PutEmbedding(row) => {
                    &&& u == (Tables { embeddings: u.embeddings, ..t })
                    &&& u.embeddings.contains(e) <==> e == row@ || (t.embeddings.contains(e)
                        && e.chunk_id != row.chunk_id)
                },
                Change::AddNode { segment_id, m, ef_construction, chunk_id, vector } => {
                    let node = Node { chunk_id, vector: vector@ };
                    &&& u == (Tables { index: u.index, ..t })
                    &&& u.index.dom() == t.index.dom().insert(segment_id)
                    &&& u.index[segment_id].m == m
                    &&& u.index[segment_id].ef_construction == ef_construction
                    &&& t.index.contains_key(segment_id) ==> u.index[segment_id].nodes
                        == t.index[segment_id].nodes.push(node)
                    &&& !t.index.contains_key(segment_id) ==> u.index[segment_id].nodes == seq![
                        node,
                    ]
                    &&& forall|id: i64| id != segment_id ==> #[trigger] u.index[id] == t.index[id]
                },
                _ => true,
            }
        }),
{
    let u = t.apply(change);
    match change {
        Change::PutRelation(row) => {
            let p = |r: RelationRow|
                r.from_chunk_id != row.from_chunk_id || r.to_chunk_id != row.to_chunk_id;
            let kept = t.relations.filter(p);
            lemma_selected(t.relations, p);
            assert(u.relations == kept.push(row@));
            if kept.contains(r) {
                let k = choose|k: int| 0 <= k < kept.len() && kept[k] == r;
                assert(u.relations[k] == r);
            }
            assert(u.relations[kept.len() as int] == row@);
            if u.relations.contains(r) && r != row@ {
                let k = choose|k: int| 0 <= k < u.relations.len() && u.relations[k] == r;
                assert(kept[k] == r);
            }
        },
        Change::PutEmbedding(row) => {
            let p = |e: EmbeddingRow| e.chunk_id < row.chunk_id;
            let q = |e: EmbeddingRow| e.chunk_id > row.chunk_id;
            let a = t.embeddings.filter(p);
            let b = t.embeddings.filter(q);
            lemma_selected(t.embeddings, p);
            lemma_selected(t.embeddings, q);
            assert(u.embeddings == a.push(row@) + b);
            if a.contains(e) {
                let k = choose|k: int| 0 <= k < a.len() && a[k] == e;
                assert(u.embeddings[k] == e);
            }
            if b.contains(e) {
                let k = choose|k: int| 0 <= k < b.len() && b[k] == e;
                assert(u.embeddings[a.len() + 1 + k] == e);
            }
            assert(u.embeddings[a.len() as int] == row@);
            if u.embeddings.contains(e) && e != row@ {
                let k = choose|k: int| 0 <= k < u.embeddings.len() && u.embeddings[k] == e;
                if k < a.len() {
                    assert(a[k] == e);
                } else {
                    assert(b[k - a.len() - 1] == e);
                }
            }
        },
        Change::AddNode { segment_id, m, ef_construction, chunk_id, vector } => {
            assert(u.index.dom() =~= t.index.dom().insert(segment_id));
            if !t.index.contains_key(segment_id) {
                assert(u.index[segment_id].nodes =~= seq![Node { chunk_id, vector: vector@ }]);
            }
        },
        _ => {},
    }
}

/// Replaying no change leaves the tables as they are, replaying one applies it, and
/// replaying some and then others is replaying both in a row.
pub proof fn law_replaying_goes_change_by_change(t: Tables, a: Seq<Change>, b: Seq<Change>, c: Change)
    ensures
        t.replay(Seq::empty()) == t,
        t.replay(seq![c]) == t.apply(c),
        t.replay(a + b) == t.replay(a).replay(b),
{
    lemma_replay_append(t, a, b);
    assert(t.replay(Seq::<Change>::empty()) == t);
    assert(seq![c].drop_last() =~= Seq::<Change>::empty());
    assert(seq![c].last() == c);
}

/// A call that only extends what is recorded records changes behind the earlier ones
/// which lead from the tables before to those after, outside any scope. Gives them.
pub proof fn law_recorded_changes_lead_to_the_tables(old: Database, new: Database) -> (c: Seq<Change>)
    requires
        extends(old, new),
    ensures
        new.changes@ == old.changes@ + c,
        new@ == old@.replay(c),
        forall|k: int|
            0 <= k < c.len() ==> !((#[trigger] c[k]) is Savepoint) && !(c[k] is Release),
{
    let n = old.changes@.len() as int;
    let c = new.changes@.skip(n);
    assert(new.changes@ =~= new.changes@.take(n) + c);
    assert forall|k: int| 0 <= k < c.len() implies !((#[trigger] c[k]) is Savepoint) && !(
    c[k] is Release) by {
        assert(c[k] == new.changes@[n + k]);
    }
    c
}

/// What a call records inside a scope stands between its start and its end, and leads
/// from the tables before to those after. Gives what stands between.
pub proof fn law_scoped_changes_stand_in_their_scope(old: Database, new: Database, scope: Scope) -> (c:
    Seq<Change>)
    requires
        replays(old, new),
        bracketed(old, new, scope),
    ensures
        new.changes@ == old.changes@ + seq![Change::Savepoint(scope)] + c + seq![
            Change::Release(scope),
        ],
        new@ == old@.replay(c),
        forall|k: int|
            0 <= k < c.len() ==> !((#[trigger] c[k]) is Savepoint) && !(c[k] is Release),
{
    let n = old.changes@.len() as int;
    let m = new.changes@.len() as int;
    let start = seq![Change::Savepoint(scope)];
    let end = seq![Change::Release(scope)];
    let c = new.changes@.subrange(n + 1, m - 1);
    let all = new.changes@.skip(n);
    assert(all =~= start + c + end);
    assert(new.changes@ =~= new.changes@.take(n) + all);
    assert(new.changes@ =~= old.changes@ + start + c + end);
    assert forall|k: int| 0 <= k < c.len() implies !((#[trigger] c[k]) is Savepoint) && !(
    c[k] is Release) by {
        assert(c[k] == new.changes@[n + 1 + k]);
    }
    law_replaying_goes_change_by_change(old@, start + c, end, Change::Savepoint(scope));
    law_replaying_goes_change_by_change(old@, start, c, Change::Savepoint(scope));
    law_replaying_goes_change_by_change(old@.replay(c), start, c, Change::Release(scope));
    c
}

/// Whatever a call records, the database takes: after every change keys stay distinct
/// and references sound, where they were.
pub proof fn law_every_change_is_taken(old: Database, new: Database, k: int)
    requires
        accepted(old, new),
        old@.keyed(),
        sound(old@),
        old.changes@.len() <= k <= new.changes@.len(),
    ensures
        old@.replay(new.changes@.subrange(old.changes@.len() as int, k)).keyed(),
        sound(old@.replay(new.changes@.subrange(old.changes@.len() as int, k))),
{
}

/// Where references are sound, every chunk has its document. Gives the document.
pub proof fn law_sound_chunk_has_its_document(t: Tables, i: int) -> (document: int)
    requires
        sound(t),
        0 <= i < t.chunks.len(),
    ensures
        0 <= document < t.documents.len(),
        t.documents[document].id == t.chunks[i].document_id,
{
    assert(has_document(t, t.chunks[i].document_id));
    choose|j: int|
        0 <= j < t.documents.len() && (#[trigger] t.documents[j]).id == t.chunks[i].document_id
}

/// Where references are sound, every embedding has its chunk, its segment and a model
/// of its size. Gives the three.
pub proof fn law_sound_embedding_has_its_rows(t: Tables, i: int) -> (r: (int, int, int))
    requires
        sound(t),
        0 <= i < t.embeddings.len(),
    ensures
        0 <= r.0 < t.chunks.len(),
        t.chunks[r.0].id == t.embeddings[i].chunk_id,
        0 <= r.1 < t.segments.len(),
        t.segments[r.1].id == t.embeddings[i].segment_id,
        0 <= r.2 < t.models.len(),
        t.models[r.2].id == t.embeddings[i].embedding_model_id,
        t.models[r.2].dimension * 4 == t.embeddings[i].vector.len(),
{
    let e = t.embeddings[i];
    assert(embedding_sound(t, e));
    let chunk = choose|j: int| 0 <= j < t.chunks.len() && (#[trigger] t.chunks[j]).id == e.chunk_id;
    let segment = choose|j: int|
        0 <= j < t.segments.len() && (#[trigger] t.segments[j]).id == e.segment_id;
    let model = choose|j: int|
        0 <= j < t.models.len() && (#[trigger] t.models[j]).id == e.embedding_model_id
            && t.models[j].dimension * 4 == e.vector.len();
    (chunk, segment, model)
}

/// Where references are sound, every relation has both its chunks. Gives the two.
pub proof fn law_sound_relation_has_its_chunks(t: Tables, i: int) -> (r: (int, int))
    requires
        sound(t),
        0 <= i < t.relations.len(),
    ensures
        0 <= r.0 < t.chunks.len(),
        t.chunks[r.0].id == t.relations[i].from_chunk_id,
        0 <= r.1 < t.chunks.len(),
        t.chunks[r.1].id == t.relations[i].to_chunk_id,
{
    assert(relation_sound(t, t.relations[i]));
    let from = choose|j: int|
        0 <= j < t.chunks.len() && (#[trigger] t.chunks[j]).id == t.relations[i].from_chunk_id;
    let to = choose|j: int|
        0 <= j < t.chunks.len() && (#[trigger] t.chunks[j]).id == t.relations[i].to_chunk_id;
    (from, to)
}

/// Tables are as they should be where ids rise from row to row, identities, places in
/// a document, pairs and keys occur once, no place is negative, and at most one segment
/// takes insertions, which can count one more; and nowhere else.
pub proof fn law_what_tables_are_held_to(t: Tables)
    ensures
        t.wf() <==> {
            &&& forall|i: int, j: int|
                0 <= i < j < t.documents.len() ==> (#[trigger] t.documents[i]).id < (
                #[trigger] t.documents[j]).id && (t.documents[i].external_id is None
                    || t.documents[i].external_id != t.documents[j].external_id)
            &&& forall|i: int, j: int|
                0 <= i < j < t.chunks.len() ==> (#[trigger] t.chunks[i]).id < (
                #[trigger] t.chunks[j]).id && (t.chunks[i].document_id != t.chunks[j].document_id
                    || t.chunks[i].position != t.chunks[j].position)
            &&& forall|i: int, j: int|
                0 <= i < j < t.models.len() ==> (#[trigger] t.models[i]).id < (
                #[trigger] t.models[j]).id
            &&& forall|i: int, j: int|
                0 <= i < j < t.segments.len() ==> (#[trigger] t.segments[i]).id < (
                #[trigger] t.segments[j]).id && (t.segments[i].status == SegmentStatus::Sealed
                    || t.segments[j].status == SegmentStatus::Sealed)
            &&& forall|i: int, j: int|
                0 <= i < j < t.embeddings.len() ==> (#[trigger] t.embeddings[i]).chunk_id < (
                #[trigger] t.embeddings[j]).chunk_id
            &&& forall|i: int, j: int|
                0 <= i < j < t.relations.len() ==> (#[trigger] t.relations[i]).from_chunk_id != (
                #[trigger] t.relations[j]).from_chunk_id || t.relations[i].to_chunk_id
                    != t.relations[j].to_chunk_id
            &&& forall|i: int, j: int|
                0 <= i < j < t.settings.len() ==> (#[trigger] t.settings[i]).key != (
                #[trigger] t.settings[j]).key
            &&& forall|i: int| 0 <= i < t.chunks.len() ==> (#[trigger] t.chunks[i]).position >= 0
            &&& forall|i: int|
                0 <= i < t.segments.len() ==> (#[trigger] t.segments[i]).status
                    == SegmentStatus::Sealed || t.segments[i].node_count < i64::MAX
        },
{
}

} // verus!
