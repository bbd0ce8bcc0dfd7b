//! Storage Engine: the tables in memory, and the primitive changes to them.
//!
//! Every primitive does to the tables what one statement does, and records the
//! statement in `changes`, so that whoever holds the stored database can carry
//! out the same statements in the same order.

use vstd::prelude::*;

pub mod references;
pub mod rows;
pub mod schema;
pub mod settings;
pub mod tables;

use crate::seqs::{
    lemma_filter_prefix, lemma_filter_same, lemma_filter_suffix, lemma_same_pairwise, pairwise,
};
use crate::storage::rows::{
    check_distinct, check_ordered, check_pairwise, delete_where, key_of_pair, keys_differ,
    lemma_pair_key, lemma_rows_push, pair_key, position_where,
};
use crate::storage::tables::{
    chunk_order, distinct_external_ids, distinct_keys, distinct_pairs, distinct_positions,
    document_order, embedding_order, empty_tables, graph_of, grown, model_order, one_appendable,
    rows, segment_order, Change, Chunk, ChunkRow, Document, DocumentRow, Embedding, EmbeddingRow,
    Graph, Model, Node, Relation, RelationRow, Scope, Segment, SegmentStatus, Setting, Tables,
};

verus! {

/// A database: its tables, and the changes made to them since it was read.
pub struct Database {
    pub documents: Vec<Document>,
    pub chunks: Vec<Chunk>,
    pub models: Vec<Model>,
    pub segments: Vec<Segment>,
    pub embeddings: Vec<Embedding>,
    pub relations: Vec<Relation>,
    pub settings: Vec<Setting>,
    /// Whether the connection enforces foreign keys.
    pub foreign_keys: bool,
    pub changes: Vec<Change>,
    pub index: Ghost<Map<i64, Graph>>,
    pub dumps: Ghost<Map<i64, Graph>>,
}

impl View for Database {
    type V = Tables;

    open spec fn view(&self) -> Tables {
        Tables {
            documents: rows(self.documents@),
            chunks: rows(self.chunks@),
            models: rows(self.models@),
            segments: rows(self.segments@),
            embeddings: rows(self.embeddings@),
            relations: rows(self.relations@),
            settings: rows(self.settings@),
            index: self.index@,
            dumps: self.dumps@,
            foreign_keys: self.foreign_keys,
        }
    }
}

/// `new` is `old` after one more change.
pub open spec fn steps(old: Database, new: Database, change: Change) -> bool {
    &&& new@ == old@.apply(change)
    &&& new.changes@ == old.changes@.push(change)
}

/// `new` comes from `old` by exactly the changes that it records beyond those of `old`.
pub open spec fn replays(old: Database, new: Database) -> bool {
    &&& old.changes@.len() <= new.changes@.len()
    &&& new.changes@.take(old.changes@.len() as int) == old.changes@
    &&& new@ == old@.replay(new.changes@.skip(old.changes@.len() as int))
}

/// A change that opens or closes a scope.
pub open spec fn of_scope(change: Change) -> bool {
    change is Savepoint || change is Release
}

/// `new` comes from `old` by exactly the changes that it records beyond those of
/// `old`, and none of these opens or closes a scope.
pub open spec fn extends(old: Database, new: Database) -> bool {
    &&& replays(old, new)
    &&& forall|k: int|
        old.changes@.len() <= k < new.changes@.len() ==> !of_scope(#[trigger] new.changes@[k])
}

/// The changes that `new` records beyond those of `old` stand between opening and
/// closing one scope, so that they are undone together when one of them fails: the
/// first opens it, the last closes it, and none between opens or closes any.
pub open spec fn bracketed(old: Database, new: Database, scope: Scope) -> bool {
    let n = old.changes@.len() as int;
    &&& n + 2 <= new.changes@.len()
    &&& new.changes@[n] == Change::Savepoint(scope)
    &&& new.changes@.last() == Change::Release(scope)
    &&& forall|k: int|
        n < k < new.changes@.len() - 1 ==> !of_scope(#[trigger] new.changes@[k])
}

pub proof fn lemma_bracketed(a: Database, b: Database, c: Database, d: Database, scope: Scope)
    requires
        steps(a, b, Change::Savepoint(scope)),
        extends(b, c),
        steps(c, d, Change::Release(scope)),
    ensures
        bracketed(a, d, scope),
        replays(a, d),
{
    let n = a.changes@.len() as int;
    assert(c.changes@.take(n + 1)[n] == b.changes@[n]);
    lemma_extends_self(a, a);
    lemma_replays_step(a, a, b, Change::Savepoint(scope));
    lemma_replays_chain(a, b, c);
    lemma_replays_step(a, c, d, Change::Release(scope));
    assert forall|k: int| n < k < d.changes@.len() - 1 implies !of_scope(
        #[trigger] d.changes@[k],
    ) by {
        assert(d.changes@[k] == c.changes@[k]);
    }
}

pub proof fn lemma_extends_self(a: Database, b: Database)
    requires
        b@ == a@,
        b.changes@ == a.changes@,
    ensures
        extends(a, b),
{
    assert(b.changes@.take(a.changes@.len() as int) =~= a.changes@);
    assert(b.changes@.skip(a.changes@.len() as int) =~= Seq::empty());
}

pub proof fn lemma_replays_step(a: Database, b: Database, c: Database, change: Change)
    requires
        replays(a, b),
        steps(b, c, change),
    ensures
        replays(a, c),
{
    let n = a.changes@.len() as int;
    assert(c.changes@.take(n) =~= b.changes@.take(n));
    assert(c.changes@.skip(n) =~= b.changes@.skip(n).push(change));
    tables::lemma_replay_push(a@, b.changes@.skip(n), change);
}

pub proof fn lemma_extends_step(a: Database, b: Database, c: Database, change: Change)
    requires
        extends(a, b),
        steps(b, c, change),
        !of_scope(change),
    ensures
        extends(a, c),
{
    lemma_replays_step(a, b, c, change);
    assert forall|k: int| a.changes@.len() <= k < c.changes@.len() implies !of_scope(
        #[trigger] c.changes@[k],
    ) by {
        if k < b.changes@.len() {
            assert(c.changes@[k] == b.changes@[k]);
        }
    }
}

pub proof fn lemma_replays_chain(a: Database, b: Database, c: Database)
    requires
        replays(a, b),
        replays(b, c),
    ensures
        replays(a, c),
{
    let n = a.changes@.len() as int;
    let m = b.changes@.len() as int;
    assert(c.changes@.take(n) =~= c.changes@.take(m).take(n));
    assert(c.changes@.skip(n) =~= b.changes@.skip(n) + c.changes@.skip(m)) by {
        assert(c.changes@.take(m) == b.changes@);
        assert forall|i: int| 0 <= i < c.changes@.len() - n implies c.changes@.skip(n)[i] == (
        b.changes@.skip(n) + c.changes@.skip(m))[i] by {
            if i < m - n {
                assert(c.changes@.take(m)[i + n] == c.changes@[i + n]);
            }
        }
    }
    tables::lemma_replay_append(a@, b.changes@.skip(n), c.changes@.skip(m));
}

pub proof fn lemma_extends_chain(a: Database, b: Database, c: Database)
    requires
        extends(a, b),
        extends(b, c),
    ensures
        extends(a, c),
{
    lemma_replays_chain(a, b, c);
    let m = b.changes@.len() as int;
    assert forall|k: int| a.changes@.len() <= k < c.changes@.len() implies !of_scope(
        #[trigger] c.changes@[k],
    ) by {
        if k < m {
            assert(c.changes@.take(m)[k] == c.changes@[k]);
            assert(!of_scope(b.changes@[k]));
        }
    }
}

impl Database {
    /// The schema, and that nothing is out of order.
    pub open spec fn wf(self) -> bool {
        self@.wf()
    }

    /// A database without any rows.
    pub fn new(foreign_keys: bool) -> (r: Database)
        ensures
            r.wf(),
            r@ == empty_tables(foreign_keys),
            r.changes@ == Seq::<Change>::empty(),
    {
        let r = Database {
            documents: Vec::new(),
            chunks: Vec::new(),
            models: Vec::new(),
            segments: Vec::new(),
            embeddings: Vec::new(),
            relations: Vec::new(),
            settings: Vec::new(),
            foreign_keys,
            changes: Vec::new(),
            index: Ghost(Map::empty()),
            dumps: Ghost(Map::empty()),
        };
        proof {
            assert(r@.documents =~= Seq::empty());
            assert(r@.chunks =~= Seq::empty());
            assert(r@.models =~= Seq::empty());
            assert(r@.segments =~= Seq::empty());
            assert(r@.embeddings =~= Seq::empty());
            assert(r@.relations =~= Seq::empty());
            assert(r@.settings =~= Seq::empty());
        }
        r
    }

    /// Tells whether the rows are as the schema wants them.
    pub fn check(&self) -> (r: bool)
        ensures
            r == self.wf(),
    {
        self.check_documents() && self.check_chunks() && self.check_segments()
            && self.check_others()
    }

    fn check_documents(&self) -> (r: bool)
        ensures
            r == (pairwise(self@.documents, document_order()) && pairwise(
                self@.documents,
                distinct_external_ids(),
            )),
    {
        let ghost order = document_order();
        let by_id = |a: &Document, b: &Document| -> (c: bool)
            ensures
                c == order(a@, b@),
            { a.id < b.id };
        let ghost distinct = distinct_external_ids();
        let by_name = |a: &Document, b: &Document| -> (c: bool)
            ensures
                c == distinct(a@, b@),
            {
                match (&a.external_id, &b.external_id) {
                    (Some(x), Some(y)) => *x != *y,
                    _ => true,
                }
            };
        check_ordered(&self.documents, by_id, Ghost(order)) && check_pairwise(
            &self.documents,
            by_name,
            Ghost(distinct),
        )
    }

    fn check_chunks(&self) -> (r: bool)
        ensures
            r == (pairwise(self@.chunks, chunk_order()) && pairwise(
                self@.chunks,
                distinct_positions(),
            ) && forall|i: int|
                0 <= i < self@.chunks.len() ==> (#[trigger] self@.chunks[i]).position >= 0),
    {
        let ghost order = chunk_order();
        let by_id = |a: &Chunk, b: &Chunk| -> (c: bool)
            ensures
                c == order(a@, b@),
            { a.id < b.id };
        let ghost place = |c: ChunkRow| pair_key(c.document_id, c.position);
        let place_of = |c: &Chunk| -> (k: i128)
            ensures
                k == place(c@),
            { key_of_pair(c.document_id, c.position) };
        let ghost p = |c: ChunkRow| c.position < 0;
        let misplaced = |c: &Chunk| -> (b: bool)
            ensures
                b == p(c@),
            { c.position < 0 };
        let found = position_where(&self.chunks, misplaced, Ghost(p));
        proof {
            let s = self@.chunks;
            assert forall|k: int| 0 <= k < s.len() implies #[trigger] s[k] == self.chunks@[k]@ by {}
            if found is Some {
                assert(s[found->0 as int].position < 0);
            }
            assert forall|a: ChunkRow, b: ChunkRow| #[trigger] keys_differ(place)(a, b)
                == distinct_positions()(a, b) by {
                lemma_pair_key(a.document_id, a.position, b.document_id, b.position);
            }
            lemma_same_pairwise(s, keys_differ(place), distinct_positions());
        }
        found.is_none() && check_ordered(&self.chunks, by_id, Ghost(order)) && check_distinct(
            &self.chunks,
            place_of,
            Ghost(place),
        )
    }

    fn check_segments(&self) -> (r: bool)
        ensures
            r == (pairwise(self@.segments, segment_order()) && pairwise(
                self@.segments,
                one_appendable(),
            ) && forall|i: int|
                0 <= i < self@.segments.len() && (#[trigger] self@.segments[i]).status
                    == SegmentStatus::Appendable ==> self@.segments[i].node_count < i64::MAX),
    {
        let ghost order = segment_order();
        let by_id = |a: &Segment, b: &Segment| -> (c: bool)
            ensures
                c == order(a@, b@),
            { a.id < b.id };
        let ghost single = one_appendable();
        let by_status = |a: &Segment, b: &Segment| -> (c: bool)
            ensures
                c == single(a@, b@),
            { a.status != SegmentStatus::Appendable || b.status != SegmentStatus::Appendable };
        let ghost p = |s: Segment|
            s.status == SegmentStatus::Appendable && s.node_count == i64::MAX;
        let overfull = |s: &Segment| -> (b: bool)
            ensures
                b == p(s@),
            { s.status == SegmentStatus::Appendable && s.node_count == i64::MAX };
        let found = position_where(&self.segments, overfull, Ghost(p));
        proof {
            let s = self@.segments;
            assert forall|k: int|
                0 <= k < s.len() implies #[trigger] s[k] == self.segments@[k]@ by {}
            if found is Some {
                assert(p(s[found->0 as int]));
            }
        }
        found.is_none() && check_ordered(&self.segments, by_id, Ghost(order)) && check_pairwise(
            &self.segments,
            by_status,
            Ghost(single),
        )
    }

    fn check_others(&self) -> (r: bool)
        ensures
            r == (pairwise(self@.models, model_order()) && pairwise(
                self@.embeddings,
                embedding_order(),
            ) && pairwise(self@.relations, distinct_pairs()) && pairwise(
                self@.settings,
                distinct_keys(),
            )),
    {
        let ghost models = model_order();
        let by_model = |a: &Model, b: &Model| -> (c: bool)
            ensures
                c == models(a@, b@),
            { a.id < b.id };
        let ghost embeddings = embedding_order();
        let by_chunk = |a: &Embedding, b: &Embedding| -> (c: bool)
            ensures
                c == embeddings(a@, b@),
            { a.chunk_id < b.chunk_id };
        let ghost pair = |r: RelationRow| pair_key(r.from_chunk_id, r.to_chunk_id);
        let pair_of = |r: &Relation| -> (k: i128)
            ensures
                k == pair(r@),
            { key_of_pair(r.from_chunk_id, r.to_chunk_id) };
        proof {
            assert forall|a: RelationRow, b: RelationRow| #[trigger] keys_differ(pair)(a, b)
                == distinct_pairs()(a, b) by {
                lemma_pair_key(a.from_chunk_id, a.to_chunk_id, b.from_chunk_id, b.to_chunk_id);
            }
            lemma_same_pairwise(self@.relations, keys_differ(pair), distinct_pairs());
        }
        let ghost keys = distinct_keys();
        let by_key = |a: &Setting, b: &Setting| -> (c: bool)
            ensures
                c == keys(a@, b@),
            { a.key != b.key };
        check_ordered(&self.models, by_model, Ghost(models)) && check_ordered(
            &self.embeddings,
            by_chunk,
            Ghost(embeddings),
        ) && check_distinct(&self.relations, pair_of, Ghost(pair)) && check_pairwise(
            &self.settings,
            by_key,
            Ghost(keys),
        )
    }

    /// Hands out the recorded changes, for whoever holds the stored database to
    /// carry out in order.
    pub fn take_changes(&mut self) -> (r: Vec<Change>)
        ensures
            r@ == old(self).changes@,
            final(self).changes@ == Seq::<Change>::empty(),
            final(self)@ == old(self)@,
    {
        let mut r: Vec<Change> = Vec::new();
        std::mem::swap(&mut r, &mut self.changes);
        r
    }

    pub(crate) fn insert_document(&mut self, row: Document)
        ensures
            steps(*old(self), *final(self), Change::InsertDocument(row)),
    {
        let copy = row.copy();
        proof {
            lemma_rows_push(self.documents@, copy);
        }
        self.documents.push(copy);
        self.changes.push(Change::InsertDocument(row));
    }

    pub(crate) fn set_external_id(&mut self, document_id: i64, external_id: String)
        requires
            old(self).wf(),
        ensures
            steps(*old(self), *final(self), Change::SetExternalId { document_id, external_id }),
    {
        let ghost p = |r: DocumentRow| r.id == document_id;
        let cond = |r: &Document| -> (b: bool)
            ensures
                b == p(r@),
            { r.id == document_id };
        let found = position_where(&self.documents, cond, Ghost(p));
        if let Some(i) = found {
            self.documents[i].external_id = Some(external_id.clone());
        }
        proof {
            let s = rows(old(self).documents@);
            let t = rows(self.documents@);
            let want = old(self)@.apply(Change::SetExternalId { document_id, external_id }).documents;
            assert forall|k: int| 0 <= k < s.len() implies t[k] == want[k] by {
                assert(s[k] == old(self).documents@[k]@);
                if found is Some {
                    assert(s[found->0 as int] == old(self).documents@[found->0 as int]@);
                }
            }
            assert(t =~= want);
        }
        self.changes.push(Change::SetExternalId { document_id, external_id });
    }

    pub(crate) fn set_version(&mut self, document_id: i64, hash: String, version: i64)
        requires
            old(self).wf(),
        ensures
            steps(*old(self), *final(self), Change::SetVersion { document_id, hash, version }),
    {
        let ghost p = |r: DocumentRow| r.id == document_id;
        let cond = |r: &Document| -> (b: bool)
            ensures
                b == p(r@),
            { r.id == document_id };
        let found = position_where(&self.documents, cond, Ghost(p));
        if let Some(i) = found {
            self.documents[i].hash = hash.clone();
            self.documents[i].version = version;
        }
        proof {
            let s = rows(old(self).documents@);
            let t = rows(self.documents@);
            let want = old(self)@.apply(Change::SetVersion { document_id, hash, version }).documents;
            assert forall|k: int| 0 <= k < s.len() implies t[k] == want[k] by {
                assert(s[k] == old(self).documents@[k]@);
                if found is Some {
                    assert(s[found->0 as int] == old(self).documents@[found->0 as int]@);
                }
            }
            assert(t =~= want);
        }
        self.changes.push(Change::SetVersion { document_id, hash, version });
    }

    pub(crate) fn delete_document_row(&mut self, document_id: i64)
        ensures
            steps(*old(self), *final(self), Change::DeleteDocument { document_id }),
    {
        let ghost p = |r: DocumentRow| r.id == document_id;
        let cond = |r: &Document| -> (b: bool)
            ensures
                b == p(r@),
            { r.id == document_id };
        delete_where(&mut self.documents, cond, Ghost(p));
        proof {
            let keep = |r: DocumentRow| r.id != document_id;
            lemma_filter_same(rows(old(self).documents@), |r: DocumentRow| !p(r), keep);
        }
        self.changes.push(Change::DeleteDocument { document_id });
    }

    pub(crate) fn insert_chunk(&mut self, row: Chunk)
        ensures
            steps(*old(self), *final(self), Change::InsertChunk(row)),
    {
        let copy = row.copy();
        proof {
            lemma_rows_push(self.chunks@, copy);
        }
        self.chunks.push(copy);
        self.changes.push(Change::InsertChunk(row));
    }

    pub(crate) fn set_chunk(&mut self, chunk_id: i64, text: String, version: i64)
        requires
            old(self).wf(),
        ensures
            steps(*old(self), *final(self), Change::SetChunk { chunk_id, text, version }),
    {
        let ghost p = |r: ChunkRow| r.id == chunk_id;
        let cond = |r: &Chunk| -> (b: bool)
            ensures
                b == p(r@),
            { r.id == chunk_id };
        let found = position_where(&self.chunks, cond, Ghost(p));
        if let Some(i) = found {
            self.chunks[i].text = text.clone();
            self.chunks[i].version = version;
        }
        proof {
            let s = rows(old(self).chunks@);
            let t = rows(self.chunks@);
            let want = old(self)@.apply(Change::SetChunk { chunk_id, text, version }).chunks;
            assert forall|k: int| 0 <= k < s.len() implies t[k] == want[k] by {
                assert(s[k] == old(self).chunks@[k]@);
                if found is Some {
                    assert(s[found->0 as int] == old(self).chunks@[found->0 as int]@);
                }
            }
            assert(t =~= want);
        }
        self.changes.push(Change::SetChunk { chunk_id, text, version });
    }

    pub(crate) fn delete_chunk_row(&mut self, chunk_id: i64)
        ensures
            steps(*old(self), *final(self), Change::DeleteChunk { chunk_id }),
    {
        let ghost p = |r: ChunkRow| r.id == chunk_id;
        let cond = |r: &Chunk| -> (b: bool)
            ensures
                b == p(r@),
            { r.id == chunk_id };
        delete_where(&mut self.chunks, cond, Ghost(p));
        proof {
            let keep = |r: ChunkRow| r.id != chunk_id;
            lemma_filter_same(rows(old(self).chunks@), |r: ChunkRow| !p(r), keep);
        }
        self.changes.push(Change::DeleteChunk { chunk_id });
    }

    pub(crate) fn delete_relations(&mut self, chunk_id: i64)
        ensures
            steps(*old(self), *final(self), Change::DeleteRelations { chunk_id }),
    {
        let ghost p = |r: RelationRow| r.from_chunk_id == chunk_id || r.to_chunk_id == chunk_id;
        let cond = |r: &Relation| -> (b: bool)
            ensures
                b == p(r@),
            { r.from_chunk_id == chunk_id || r.to_chunk_id == chunk_id };
        delete_where(&mut self.relations, cond, Ghost(p));
        proof {
            let keep = |r: RelationRow| r.from_chunk_id != chunk_id && r.to_chunk_id != chunk_id;
            lemma_filter_same(rows(old(self).relations@), |r: RelationRow| !p(r), keep);
        }
        self.changes.push(Change::DeleteRelations { chunk_id });
    }

    pub(crate) fn put_relation(&mut self, row: Relation)
        ensures
            steps(*old(self), *final(self), Change::PutRelation(row)),
    {
        let from = row.from_chunk_id;
        let to = row.to_chunk_id;
        let ghost p = |r: RelationRow| r.from_chunk_id == from && r.to_chunk_id == to;
        let cond = |r: &Relation| -> (b: bool)
            ensures
                b == p(r@),
            { r.from_chunk_id == from && r.to_chunk_id == to };
        delete_where(&mut self.relations, cond, Ghost(p));
        proof {
            let keep = |r: RelationRow| r.from_chunk_id != from || r.to_chunk_id != to;
            lemma_filter_same(rows(old(self).relations@), |r: RelationRow| !p(r), keep);
            assert(keep =~= |r: RelationRow|
                r.from_chunk_id != row.from_chunk_id || r.to_chunk_id != row.to_chunk_id);
        }
        let copy = row.copy();
        proof {
            lemma_rows_push(self.relations@, copy);
        }
        self.relations.push(copy);
        self.changes.push(Change::PutRelation(row));
    }

    pub(crate) fn insert_model(&mut self, row: Model)
        ensures
            steps(*old(self), *final(self), Change::InsertModel(row)),
    {
        let copy = row.copy();
        proof {
            lemma_rows_push(self.models@, copy);
        }
        self.models.push(copy);
        self.changes.push(Change::InsertModel(row));
    }

    pub(crate) fn put_embedding(&mut self, row: Embedding)
        requires
            old(self).wf(),
        ensures
            steps(*old(self), *final(self), Change::PutEmbedding(row)),
    {
        let chunk_id = row.chunk_id;
        let ghost p = |r: EmbeddingRow| r.chunk_id >= chunk_id;
        let cond = |r: &Embedding| -> (b: bool)
            ensures
                b == p(r@),
            { r.chunk_id >= chunk_id };
        let found = position_where(&self.embeddings, cond, Ghost(p));
        let at: usize = match found {
            Some(i) => i,
            None => self.embeddings.len(),
        };
        let ghost s = rows(self.embeddings@);
        let ghost mut after: int = at as int;
        if at < self.embeddings.len() && self.embeddings[at].chunk_id == chunk_id {
            let _ = self.embeddings.remove(at);
            proof {
                after = at + 1;
            }
        }
        let copy = row.copy();
        self.embeddings.insert(at, copy);
        proof {
            let below = |e: EmbeddingRow| e.chunk_id < row.chunk_id;
            let above = |e: EmbeddingRow| e.chunk_id > row.chunk_id;
            assert forall|i: int| 0 <= i < at implies below(#[trigger] s[i]) && !above(s[i]) by {
                assert(s[i] == old(self).embeddings@[i]@);
            }
            assert forall|i: int| at <= i < s.len() implies !below(#[trigger] s[i]) by {
                assert(s[i] == old(self).embeddings@[i]@);
                assert(s[at as int] == old(self).embeddings@[at as int]@);
            }
            assert forall|i: int| after <= i < s.len() implies above(#[trigger] s[i]) by {
                assert(s[i] == old(self).embeddings@[i]@);
                assert(s[at as int] == old(self).embeddings@[at as int]@);
            }
            assert forall|i: int| 0 <= i < after implies !above(#[trigger] s[i]) by {
                assert(s[i] == old(self).embeddings@[i]@);
            }
            lemma_filter_prefix(s, below, at as int);
            lemma_filter_suffix(s, above, after);
            assert(rows(self.embeddings@) =~= s.take(at as int).push(row@) + s.skip(after));
        }
        self.changes.push(Change::PutEmbedding(row));
    }

    pub(crate) fn set_segment(&mut self, chunk_id: i64, segment_id: i64)
        requires
            old(self).wf(),
        ensures
            steps(*old(self), *final(self), Change::SetSegment { chunk_id, segment_id }),
    {
        let ghost p = |r: EmbeddingRow| r.chunk_id == chunk_id;
        let cond = |r: &Embedding| -> (b: bool)
            ensures
                b == p(r@),
            { r.chunk_id == chunk_id };
        let found = position_where(&self.embeddings, cond, Ghost(p));
        if let Some(i) = found {
            self.embeddings[i].segment_id = segment_id;
        }
        proof {
            let s = rows(old(self).embeddings@);
            let t = rows(self.embeddings@);
            let want = old(self)@.apply(Change::SetSegment { chunk_id, segment_id }).embeddings;
            assert forall|k: int| 0 <= k < s.len() implies t[k] == want[k] by {
                assert(s[k] == old(self).embeddings@[k]@);
                if found is Some {
                    assert(s[found->0 as int] == old(self).embeddings@[found->0 as int]@);
                }
            }
            assert(t =~= want);
        }
        self.changes.push(Change::SetSegment { chunk_id, segment_id });
    }

    pub(crate) fn delete_embedding(&mut self, chunk_id: i64)
        ensures
            steps(*old(self), *final(self), Change::DeleteEmbedding { chunk_id }),
    {
        let ghost p = |r: EmbeddingRow| r.chunk_id == chunk_id;
        let cond = |r: &Embedding| -> (b: bool)
            ensures
                b == p(r@),
            { r.chunk_id == chunk_id };
        delete_where(&mut self.embeddings, cond, Ghost(p));
        proof {
            let keep = |r: EmbeddingRow| r.chunk_id != chunk_id;
            lemma_filter_same(rows(old(self).embeddings@), |r: EmbeddingRow| !p(r), keep);
        }
        self.changes.push(Change::DeleteEmbedding { chunk_id });
    }

    pub(crate) fn insert_segment(&mut self, row: Segment)
        ensures
            steps(*old(self), *final(self), Change::InsertSegment(row)),
    {
        proof {
            lemma_rows_push(self.segments@, row);
        }
        self.segments.push(row);
        self.changes.push(Change::InsertSegment(row));
    }

    pub(crate) fn set_node_count(&mut self, segment_id: i64, node_count: i64)
        requires
            pairwise(old(self)@.segments, segment_order()),
        ensures
            steps(*old(self), *final(self), Change::SetNodeCount { segment_id, node_count }),
    {
        let ghost p = |r: Segment| r.id == segment_id;
        let cond = |r: &Segment| -> (b: bool)
            ensures
                b == p(r@),
            { r.id == segment_id };
        let found = position_where(&self.segments, cond, Ghost(p));
        if let Some(i) = found {
            self.segments[i].node_count = node_count;
        }
        proof {
            let s = rows(old(self).segments@);
            let t = rows(self.segments@);
            let want = old(self)@.apply(Change::SetNodeCount { segment_id, node_count }).segments;
            assert forall|k: int| 0 <= k < s.len() implies t[k] == want[k] by {
                assert(s[k] == old(self).segments@[k]@);
                if found is Some {
                    assert(s[found->0 as int] == old(self).segments@[found->0 as int]@);
                }
            }
            assert(t =~= want);
        }
        self.changes.push(Change::SetNodeCount { segment_id, node_count });
    }

    pub(crate) fn seal(&mut self, segment_id: i64, sealed_at: i64)
        requires
            pairwise(old(self)@.segments, segment_order()),
        ensures
            steps(*old(self), *final(self), Change::Seal { segment_id, sealed_at }),
    {
        let ghost p = |r: Segment| r.id == segment_id;
        let cond = |r: &Segment| -> (b: bool)
            ensures
                b == p(r@),
            { r.id == segment_id };
        let found = position_where(&self.segments, cond, Ghost(p));
        if let Some(i) = found {
            self.segments[i].status = SegmentStatus::Sealed;
            self.segments[i].sealed_at = Some(sealed_at);
            self.segments[i].has_index = true;
        }
        self.dumps = Ghost(self.dumps@.insert(segment_id, graph_of(self.index@, segment_id)));
        proof {
            let s = rows(old(self).segments@);
            let t = rows(self.segments@);
            let want = old(self)@.apply(Change::Seal { segment_id, sealed_at }).segments;
            assert forall|k: int| 0 <= k < s.len() implies t[k] == want[k] by {
                assert(s[k] == old(self).segments@[k]@);
                if found is Some {
                    assert(s[found->0 as int] == old(self).segments@[found->0 as int]@);
                }
            }
            assert(t =~= want);
        }
        self.changes.push(Change::Seal { segment_id, sealed_at });
    }

    pub(crate) fn clear_segments(&mut self)
        ensures
            steps(*old(self), *final(self), Change::ClearSegments),
    {
        self.segments.clear();
        self.index = Ghost(Map::empty());
        self.dumps = Ghost(Map::empty());
        proof {
            assert(rows(self.segments@) =~= Seq::empty());
        }
        self.changes.push(Change::ClearSegments);
    }

    pub(crate) fn add_node(
        &mut self,
        segment_id: i64,
        m: usize,
        ef_construction: usize,
        chunk_id: i64,
        vector: Vec<u32>,
    )
        ensures
            steps(
                *old(self),
                *final(self),
                Change::AddNode { segment_id, m, ef_construction, chunk_id, vector },
            ),
    {
        self.index = Ghost(
            self.index@.insert(
                segment_id,
                grown(
                    self.index@,
                    segment_id,
                    m,
                    ef_construction,
                    Node { chunk_id, vector: vector@ },
                ),
            ),
        );
        self.changes.push(Change::AddNode { segment_id, m, ef_construction, chunk_id, vector });
    }

    pub(crate) fn insert_setting(&mut self, row: Setting)
        ensures
            steps(*old(self), *final(self), Change::InsertSetting(row)),
    {
        let copy = row.copy();
        proof {
            lemma_rows_push(self.settings@, copy);
        }
        self.settings.push(copy);
        self.changes.push(Change::InsertSetting(row));
    }

    pub(crate) fn savepoint(&mut self, scope: Scope)
        ensures
            steps(*old(self), *final(self), Change::Savepoint(scope)),
    {
        self.changes.push(Change::Savepoint(scope));
    }

    pub(crate) fn release(&mut self, scope: Scope)
        ensures
            steps(*old(self), *final(self), Change::Release(scope)),
    {
        self.changes.push(Change::Release(scope));
    }
}

} // verus!
