//! The tables, their rows, and what each change does to them.
//!
//! Every row type comes twice: the row that is stored, and its view with texts
//! and byte strings as sequences. `Tables` is the mathematical value of a whole
//! database, with each table as the sequence of its rows in row id order.

use vstd::prelude::*;

use crate::seqs::pairwise;
use crate::text::{copy_text, text_of};

verus! {

/// A row of `documents`. The identity is declared if it is the caller's, and not the
/// document's own id standing in for one.
pub struct Document {
    pub id: i64,
    pub name: String,
    pub external_id: Option<String>,
    pub declared: bool,
    pub version: i64,
    pub hash: String,
    pub created_at: i64,
    pub metadata: Option<String>,
    pub tags: Option<String>,
}

pub struct DocumentRow {
    pub id: i64,
    pub name: Seq<char>,
    pub external_id: Option<Seq<char>>,
    pub declared: bool,
    pub version: i64,
    pub hash: Seq<char>,
    pub created_at: i64,
    pub metadata: Option<Seq<char>>,
    pub tags: Option<Seq<char>>,
}

impl View for Document {
    type V = DocumentRow;

    open spec fn view(&self) -> DocumentRow {
        DocumentRow {
            id: self.id,
            name: self.name@,
            external_id: text_of(self.external_id),
            declared: self.declared,
            version: self.version,
            hash: self.hash@,
            created_at: self.created_at,
            metadata: text_of(self.metadata),
            tags: text_of(self.tags),
        }
    }
}

impl Document {
    pub fn copy(&self) -> (r: Document)
        ensures
            r@ == self@,
    {
        Document {
            id: self.id,
            name: self.name.clone(),
            external_id: copy_text(&self.external_id),
            declared: self.declared,
            version: self.version,
            hash: self.hash.clone(),
            created_at: self.created_at,
            metadata: copy_text(&self.metadata),
            tags: copy_text(&self.tags),
        }
    }
}

/// A row of `chunks`.
pub struct Chunk {
    pub id: i64,
    pub document_id: i64,
    pub text: String,
    pub position: i64,
    pub version: i64,
}

pub struct ChunkRow {
    pub id: i64,
    pub document_id: i64,
    pub text: Seq<char>,
    pub position: i64,
    pub version: i64,
}

impl View for Chunk {
    type V = ChunkRow;

    open spec fn view(&self) -> ChunkRow {
        ChunkRow {
            id: self.id,
            document_id: self.document_id,
            text: self.text@,
            position: self.position,
            version: self.version,
        }
    }
}

impl Chunk {
    pub fn copy(&self) -> (r: Chunk)
        ensures
            r@ == self@,
    {
        Chunk {
            id: self.id,
            document_id: self.document_id,
            text: self.text.clone(),
            position: self.position,
            version: self.version,
        }
    }
}

/// A row of `embedding_models`.
pub struct Model {
    pub id: i64,
    pub model_name: String,
    pub dimension: i64,
    pub generated_at: i64,
}

pub struct ModelRow {
    pub id: i64,
    pub model_name: Seq<char>,
    pub dimension: i64,
    pub generated_at: i64,
}

impl View for Model {
    type V = ModelRow;

    open spec fn view(&self) -> ModelRow {
        ModelRow {
            id: self.id,
            model_name: self.model_name@,
            dimension: self.dimension,
            generated_at: self.generated_at,
        }
    }
}

impl Model {
    pub fn copy(&self) -> (r: Model)
        ensures
            r@ == self@,
    {
        Model {
            id: self.id,
            model_name: self.model_name.clone(),
            dimension: self.dimension,
            generated_at: self.generated_at,
        }
    }
}

/// Whether a segment still takes insertions.
#[derive(Clone, Copy, Debug, PartialEq, Eq, Structural)]
pub enum SegmentStatus {
    Appendable,
    Sealed,
}

/// A row of `segments`. `has_index` says that the dumped index is stored with
/// the row; the construction parameters are those the segment was opened with.
#[derive(Clone, Copy, Debug, PartialEq, Eq, Structural)]
pub struct Segment {
    pub id: i64,
    pub status: SegmentStatus,
    pub m: usize,
    pub ef_construction: usize,
    pub node_count: i64,
    pub has_index: bool,
    pub created_at: i64,
    pub sealed_at: Option<i64>,
}

impl View for Segment {
    type V = Segment;

    open spec fn view(&self) -> Segment {
        *self
    }
}

/// A row of `embeddings`. The vector is kept as the bytes the caller gave.
pub struct Embedding {
    pub chunk_id: i64,
    pub embedding_model_id: i64,
    pub segment_id: i64,
    pub vector: Vec<u8>,
}

pub struct EmbeddingRow {
    pub chunk_id: i64,
    pub embedding_model_id: i64,
    pub segment_id: i64,
    pub vector: Seq<u8>,
}

impl View for Embedding {
    type V = EmbeddingRow;

    open spec fn view(&self) -> EmbeddingRow {
        EmbeddingRow {
            chunk_id: self.chunk_id,
            embedding_model_id: self.embedding_model_id,
            segment_id: self.segment_id,
            vector: self.vector@,
        }
    }
}

/// Copies a byte string.
pub fn copy_bytes(v: &Vec<u8>) -> (r: Vec<u8>)
    ensures
        r@ == v@,
{
    let r = v.clone();
    proof {
        assert(r@ =~= v@);
    }
    r
}

impl Embedding {
    pub fn copy(&self) -> (r: Embedding)
        ensures
            r@ == self@,
    {
        Embedding {
            chunk_id: self.chunk_id,
            embedding_model_id: self.embedding_model_id,
            segment_id: self.segment_id,
            vector: copy_bytes(&self.vector),
        }
    }
}

/// A row of `relations`. A pair that was evaluated without finding a relation
/// has no type. The confidence is the bit pattern of a double.
pub struct Relation {
    pub from_chunk_id: i64,
    pub to_chunk_id: i64,
    pub relation_type: Option<String>,
    pub confidence: Option<u64>,
}

pub struct RelationRow {
    pub from_chunk_id: i64,
    pub to_chunk_id: i64,
    pub relation_type: Option<Seq<char>>,
    pub confidence: Option<u64>,
}

impl View for Relation {
    type V = RelationRow;

    open spec fn view(&self) -> RelationRow {
        RelationRow {
            from_chunk_id: self.from_chunk_id,
            to_chunk_id: self.to_chunk_id,
            relation_type: text_of(self.relation_type),
            confidence: self.confidence,
        }
    }
}

impl Relation {
    pub fn copy(&self) -> (r: Relation)
        ensures
            r@ == self@,
    {
        Relation {
            from_chunk_id: self.from_chunk_id,
            to_chunk_id: self.to_chunk_id,
            relation_type: copy_text(&self.relation_type),
            confidence: self.confidence,
        }
    }
}

/// A row of `settings`.
pub struct Setting {
    pub key: String,
    pub value: String,
}

pub struct SettingRow {
    pub key: Seq<char>,
    pub value: Seq<char>,
}

impl View for Setting {
    type V = SettingRow;

    open spec fn view(&self) -> SettingRow {
        SettingRow { key: self.key@, value: self.value@ }
    }
}

impl Setting {
    pub fn copy(&self) -> (r: Setting)
        ensures
            r@ == self@,
    {
        Setting { key: self.key.clone(), value: self.value.clone() }
    }
}

/// A node of a segment's index: the chunk it stands for and the vector, each
/// component as the bit pattern of a single.
pub struct Node {
    pub chunk_id: i64,
    pub vector: Seq<u32>,
}

/// The index of a segment: its nodes in the order in which they were added, and the
/// construction parameters that the last of them came with.
#[verifier::ext_equal]
pub struct Graph {
    pub m: usize,
    pub ef_construction: usize,
    pub nodes: Seq<Node>,
}

/// The rows of a table, by their views.
pub open spec fn rows<T: View>(v: Seq<T>) -> Seq<T::V> {
    v.map_values(|t: T| t@)
}

/// What the changes of one call are grouped under, to be undone together.
#[derive(Clone, Copy, Debug, PartialEq, Eq, Structural)]
pub enum Scope {
    DeleteDocument,
    RebuildGraph,
}

/// One statement against the stored tables, or one step on the index in memory.
pub enum Change {
    InsertDocument(Document),
    SetExternalId { document_id: i64, external_id: String },
    SetVersion { document_id: i64, hash: String, version: i64 },
    DeleteDocument { document_id: i64 },
    InsertChunk(Chunk),
    SetChunk { chunk_id: i64, text: String, version: i64 },
    DeleteChunk { chunk_id: i64 },
    DeleteRelations { chunk_id: i64 },
    PutRelation(Relation),
    InsertModel(Model),
    PutEmbedding(Embedding),
    SetSegment { chunk_id: i64, segment_id: i64 },
    DeleteEmbedding { chunk_id: i64 },
    InsertSegment(Segment),
    SetNodeCount { segment_id: i64, node_count: i64 },
    Seal { segment_id: i64, sealed_at: i64 },
    ClearSegments,
    AddNode {
        segment_id: i64,
        m: usize,
        ef_construction: usize,
        chunk_id: i64,
        vector: Vec<u32>,
    },
    InsertSetting(Setting),
    Savepoint(Scope),
    Release(Scope),
}

/// The value of a database: its tables, whether it enforces foreign keys, for each
/// segment the index that was made of it since the database was read or the index was
/// cleared, and for each segment that was sealed since then the index that was dumped.
pub struct Tables {
    pub documents: Seq<DocumentRow>,
    pub chunks: Seq<ChunkRow>,
    pub models: Seq<ModelRow>,
    pub segments: Seq<Segment>,
    pub embeddings: Seq<EmbeddingRow>,
    pub relations: Seq<RelationRow>,
    pub settings: Seq<SettingRow>,
    pub index: Map<i64, Graph>,
    pub dumps: Map<i64, Graph>,
    pub foreign_keys: bool,
}

/// The embeddings with the one of `row.chunk_id` set to `row`, in chunk order.
pub open spec fn put_embedding(s: Seq<EmbeddingRow>, row: EmbeddingRow) -> Seq<EmbeddingRow> {
    s.filter(|e: EmbeddingRow| e.chunk_id < row.chunk_id).push(row) + s.filter(
        |e: EmbeddingRow| e.chunk_id > row.chunk_id,
    )
}

/// The index of a segment, without nodes if there is none.
pub open spec fn graph_of(index: Map<i64, Graph>, segment_id: i64) -> Graph {
    if index.contains_key(segment_id) {
        index[segment_id]
    } else {
        Graph { m: 0, ef_construction: 0, nodes: Seq::empty() }
    }
}

/// The index of a segment with one more node.
pub open spec fn grown(
    index: Map<i64, Graph>,
    segment_id: i64,
    m: usize,
    ef_construction: usize,
    node: Node,
) -> Graph {
    Graph { m, ef_construction, nodes: graph_of(index, segment_id).nodes.push(node) }
}

impl Tables {
    /// The tables after one change.
    pub open spec fn apply(self, change: Change) -> Tables {
        match change {
            Change::InsertDocument(d) => Tables { documents: self.documents.push(d@), ..self },
            Change::SetExternalId { document_id, external_id } => Tables {
                documents: self.documents.map_values(
                    |d: DocumentRow|
                        if d.id == document_id {
                            DocumentRow { external_id: Some(external_id@), ..d }
                        } else {
                            d
                        },
                ),
                ..self
            },
            Change::SetVersion { document_id, hash, version } => Tables {
                documents: self.documents.map_values(
                    |d: DocumentRow|
                        if d.id == document_id {
                            DocumentRow { hash: hash@, version, ..d }
                        } else {
                            d
                        },
                ),
                ..self
            },
            Change::DeleteDocument { document_id } => Tables {
                documents: self.documents.filter(|d: DocumentRow| d.id != document_id),
                ..self
            },
            Change::InsertChunk(c) => Tables { chunks: self.chunks.push(c@), ..self },
            Change::SetChunk { chunk_id, text, version } => Tables {
                chunks: self.chunks.map_values(
                    |c: ChunkRow|
                        if c.id == chunk_id {
                            ChunkRow { text: text@, version, ..c }
                        } else {
                            c
                        },
                ),
                ..self
            },
            Change::DeleteChunk { chunk_id } => Tables {
                chunks: self.chunks.filter(|c: ChunkRow| c.id != chunk_id),
                ..self
            },
            Change::DeleteRelations { chunk_id } => Tables {
                relations: self.relations.filter(
                    |r: RelationRow| r.from_chunk_id != chunk_id && r.to_chunk_id != chunk_id,
                ),
                ..self
            },
            Change::PutRelation(row) => Tables {
                relations: self.relations.filter(
                    |r: RelationRow|
                        r.from_chunk_id != row.from_chunk_id || r.to_chunk_id != row.to_chunk_id,
                ).push(row@),
                ..self
            },
            Change::InsertModel(m) => Tables { models: self.models.push(m@), ..self },
            Change::PutEmbedding(e) => Tables {
                embeddings: put_embedding(self.embeddings, e@),
                ..self
            },
            Change::SetSegment { chunk_id, segment_id } => Tables {
                embeddings: self.embeddings.map_values(
                    |e: EmbeddingRow|
                        if e.chunk_id == chunk_id {
                            EmbeddingRow { segment_id, ..e }
                        } else {
                            e
                        },
                ),
                ..self
            },
            Change::DeleteEmbedding { chunk_id } => Tables {
                embeddings: self.embeddings.filter(|e: EmbeddingRow| e.chunk_id != chunk_id),
                ..self
            },
            Change::InsertSegment(s) => Tables { segments: self.segments.push(s), ..self },
            Change::SetNodeCount { segment_id, node_count } => Tables {
                segments: self.segments.map_values(
                    |s: Segment|
                        if s.id == segment_id {
                            Segment { node_count, ..s }
                        } else {
                            s
                        },
                ),
                ..self
            },
            Change::Seal { segment_id, sealed_at } => Tables {
                segments: self.segments.map_values(
                    |s: Segment|
                        if s.id == segment_id {
                            Segment {
                                status: SegmentStatus::Sealed,
                                sealed_at: Some(sealed_at),
                                has_index: true,
                                ..s
                            }
                        } else {
                            s
                        },
                ),
                dumps: self.dumps.insert(segment_id, graph_of(self.index, segment_id)),
                ..self
            },
            Change::ClearSegments => Tables {
                segments: Seq::empty(),
                index: Map::empty(),
                dumps: Map::empty(),
                ..self
            },
            Change::AddNode { segment_id, m, ef_construction, chunk_id, vector } => Tables {
                index: self.index.insert(
                    segment_id,
                    grown(
                        self.index,
                        segment_id,
                        m,
                        ef_construction,
                        Node { chunk_id, vector: vector@ },
                    ),
                ),
                ..self
            },
            Change::InsertSetting(s) => Tables { settings: self.settings.push(s@), ..self },
            Change::Savepoint(_) => self,
            Change::Release(_) => self,
        }
    }

    /// The tables after a list of changes, in order.
    pub open spec fn replay(self, changes: Seq<Change>) -> Tables
        decreases changes.len(),
    {
        if changes.len() == 0 {
            self
        } else {
            self.replay(changes.drop_last()).apply(changes.last())
        }
    }

    /// What the keys of the schema enforce: nothing that is unique comes twice, and
    /// each table stands in the order of its row ids.
    pub open spec fn keyed(self) -> bool {
        &&& pairwise(self.documents, document_order())
        &&& pairwise(self.documents, distinct_external_ids())
        &&& pairwise(self.chunks, chunk_order())
        &&& pairwise(self.chunks, distinct_positions())
        &&& pairwise(self.models, model_order())
        &&& pairwise(self.segments, segment_order())
        &&& pairwise(self.embeddings, embedding_order())
        &&& pairwise(self.relations, distinct_pairs())
        &&& pairwise(self.settings, distinct_keys())
    }

    /// What the schema enforces of every table, that no position is negative, and
    /// that at most one segment takes insertions and can count one more node.
    pub open spec fn wf(self) -> bool {
        &&& self.keyed()
        &&& forall|i: int| 0 <= i < self.chunks.len() ==> (#[trigger] self.chunks[i]).position >= 0
        &&& pairwise(self.segments, one_appendable())
        &&& forall|i: int|
            0 <= i < self.segments.len() && (#[trigger] self.segments[i]).status
                == SegmentStatus::Appendable ==> self.segments[i].node_count < i64::MAX
    }
}

/// The tables of a database without any rows.
pub open spec fn empty_tables(foreign_keys: bool) -> Tables {
    Tables {
        documents: Seq::empty(),
        chunks: Seq::empty(),
        models: Seq::empty(),
        segments: Seq::empty(),
        embeddings: Seq::empty(),
        relations: Seq::empty(),
        settings: Seq::empty(),
        index: Map::empty(),
        dumps: Map::empty(),
        foreign_keys,
    }
}

pub open spec fn document_order() -> spec_fn(DocumentRow, DocumentRow) -> bool {
    |a: DocumentRow, b: DocumentRow| a.id < b.id
}

pub open spec fn distinct_external_ids() -> spec_fn(DocumentRow, DocumentRow) -> bool {
    |a: DocumentRow, b: DocumentRow| a.external_id is None || a.external_id != b.external_id
}

pub open spec fn chunk_order() -> spec_fn(ChunkRow, ChunkRow) -> bool {
    |a: ChunkRow, b: ChunkRow| a.id < b.id
}

pub open spec fn distinct_positions() -> spec_fn(ChunkRow, ChunkRow) -> bool {
    |a: ChunkRow, b: ChunkRow| a.document_id != b.document_id || a.position != b.position
}

pub open spec fn model_order() -> spec_fn(ModelRow, ModelRow) -> bool {
    |a: ModelRow, b: ModelRow| a.id < b.id
}

pub open spec fn segment_order() -> spec_fn(Segment, Segment) -> bool {
    |a: Segment, b: Segment| a.id < b.id
}

pub open spec fn one_appendable() -> spec_fn(Segment, Segment) -> bool {
    |a: Segment, b: Segment|
        a.status != SegmentStatus::Appendable || b.status != SegmentStatus::Appendable
}

pub open spec fn embedding_order() -> spec_fn(EmbeddingRow, EmbeddingRow) -> bool {
    |a: EmbeddingRow, b: EmbeddingRow| a.chunk_id < b.chunk_id
}

pub open spec fn distinct_pairs() -> spec_fn(RelationRow, RelationRow) -> bool {
    |a: RelationRow, b: RelationRow|
        a.from_chunk_id != b.from_chunk_id || a.to_chunk_id != b.to_chunk_id
}

pub open spec fn distinct_keys() -> spec_fn(SettingRow, SettingRow) -> bool {
    |a: SettingRow, b: SettingRow| a.key != b.key
}

/// The row id that the next document gets: one more than the largest.
pub open spec fn next_document_id(s: Seq<DocumentRow>) -> int {
    if s.len() == 0 {
        1
    } else {
        s.last().id + 1
    }
}

/// The row id that the next chunk gets.
pub open spec fn next_chunk_id(s: Seq<ChunkRow>) -> int {
    if s.len() == 0 {
        1
    } else {
        s.last().id + 1
    }
}

/// The row id that the next embedding model gets.
pub open spec fn next_model_id(s: Seq<ModelRow>) -> int {
    if s.len() == 0 {
        1
    } else {
        s.last().id + 1
    }
}

/// The row id that the next segment gets.
pub open spec fn next_segment_id(s: Seq<Segment>) -> int {
    if s.len() == 0 {
        1
    } else {
        s.last().id + 1
    }
}

pub proof fn lemma_replay_push(t: Tables, changes: Seq<Change>, c: Change)
    ensures
        t.replay(changes.push(c)) == t.replay(changes).apply(c),
{
    assert(changes.push(c).drop_last() =~= changes);
}

pub proof fn lemma_replay_append(t: Tables, a: Seq<Change>, b: Seq<Change>)
    ensures
        t.replay(a + b) == t.replay(a).replay(b),
    decreases b.len(),
{
    if b.len() == 0 {
        assert(a + b =~= a);
    } else {
        assert((a + b).drop_last() =~= a + b.drop_last());
        lemma_replay_append(t, a, b.drop_last());
    }
}

} // verus!
