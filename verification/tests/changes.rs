//! The recorded changes, carried out one after the other on tables that enforce
//! foreign keys, give the tables that the engine ended with.

use std::collections::BTreeMap;

use semanta::ann::rebuild_at;
use semanta::document::chunk::Chunking;
use semanta::document::{add_document_at, delete_document};
use semanta::embedding::store_embedding_at;
use semanta::error::Error;
use semanta::graph::store_relation;
use semanta::storage::schema::create_schema;
use semanta::storage::tables::{Change, Scope, SegmentStatus};
use semanta::storage::Database;

/// Tables that follow the changes: documents by id with identity and version, chunks
/// by id with document, text and version, models, segments with node count and seal,
/// embeddings by chunk, and relations by pair.
#[derive(Default, Debug, PartialEq)]
struct Mirror {
    documents: BTreeMap<i64, (Option<String>, i64, String)>,
    chunks: BTreeMap<i64, (i64, String, i64, i64)>,
    models: BTreeMap<i64, (String, i64)>,
    segments: BTreeMap<i64, (i64, bool)>,
    embeddings: BTreeMap<i64, (i64, i64, Vec<u8>)>,
    relations: BTreeMap<(i64, i64), (Option<String>, Option<u64>)>,
    settings: BTreeMap<String, String>,
}

impl Mirror {
    fn of(db: &Database) -> Mirror {
        let mut m = Mirror::default();
        for d in &db.documents {
            m.documents.insert(d.id, (d.external_id.clone(), d.version, d.hash.clone()));
        }
        for c in &db.chunks {
            m.chunks.insert(c.id, (c.document_id, c.text.clone(), c.position, c.version));
        }
        for x in &db.models {
            m.models.insert(x.id, (x.model_name.clone(), x.dimension));
        }
        for s in &db.segments {
            m.segments.insert(s.id, (s.node_count, s.status == SegmentStatus::Sealed));
        }
        for e in &db.embeddings {
            let row = (e.embedding_model_id, e.segment_id, e.vector.clone());
            m.embeddings.insert(e.chunk_id, row);
        }
        for r in &db.relations {
            let row = (r.relation_type.clone(), r.confidence);
            m.relations.insert((r.from_chunk_id, r.to_chunk_id), row);
        }
        for s in &db.settings {
            m.settings.insert(s.key.clone(), s.value.clone());
        }
        m
    }

    fn carry_out(&mut self, change: &Change) {
        match change {
            Change::InsertDocument(d) => {
                let row = (d.external_id.clone(), d.version, d.hash.clone());
                assert!(self.documents.insert(d.id, row).is_none());
            }
            Change::SetExternalId { document_id, external_id } => {
                self.documents.get_mut(document_id).unwrap().0 = Some(external_id.clone());
            }
            Change::SetVersion { document_id, hash, version } => {
                let row = self.documents.get_mut(document_id).unwrap();
                row.1 = *version;
                row.2 = hash.clone();
            }
            Change::DeleteDocument { document_id } => {
                self.documents.remove(document_id);
            }
            Change::InsertChunk(c) => {
                let row = (c.document_id, c.text.clone(), c.position, c.version);
                assert!(self.chunks.insert(c.id, row).is_none());
            }
            Change::SetChunk { chunk_id, text, version } => {
                let row = self.chunks.get_mut(chunk_id).unwrap();
                row.1 = text.clone();
                row.3 = *version;
            }
            Change::DeleteChunk { chunk_id } => {
                self.chunks.remove(chunk_id);
            }
            Change::DeleteRelations { chunk_id } => {
                self.relations.retain(|k, _| k.0 != *chunk_id && k.1 != *chunk_id);
            }
            Change::PutRelation(r) => {
                let row = (r.relation_type.clone(), r.confidence);
                self.relations.insert((r.from_chunk_id, r.to_chunk_id), row);
            }
            Change::InsertModel(m) => {
                assert!(self.models.insert(m.id, (m.model_name.clone(), m.dimension)).is_none());
            }
            Change::PutEmbedding(e) => {
                let row = (e.embedding_model_id, e.segment_id, e.vector.clone());
                self.embeddings.insert(e.chunk_id, row);
            }
            Change::SetSegment { chunk_id, segment_id } => {
                self.embeddings.get_mut(chunk_id).unwrap().1 = *segment_id;
            }
            Change::DeleteEmbedding { chunk_id } => {
                self.embeddings.remove(chunk_id);
            }
            Change::InsertSegment(s) => {
                assert!(self.segments.insert(s.id, (s.node_count, false)).is_none());
            }
            Change::SetNodeCount { segment_id, node_count } => {
                self.segments.get_mut(segment_id).unwrap().0 = *node_count;
            }
            Change::Seal { segment_id, .. } => {
                self.segments.get_mut(segment_id).unwrap().1 = true;
            }
            Change::ClearSegments => self.segments.clear(),
            Change::InsertSetting(s) => {
                assert!(self.settings.insert(s.key.clone(), s.value.clone()).is_none());
            }
            Change::AddNode { .. } | Change::Savepoint(_) | Change::Release(_) => {}
        }
    }

    fn references_hold(&self) -> bool {
        self.chunks.values().all(|c| self.documents.contains_key(&c.0))
            && self.embeddings.iter().all(|(id, e)| {
                self.chunks.contains_key(id)
                    && self.segments.contains_key(&e.1)
                    && self.models.get(&e.0).is_some_and(|m| m.1 * 4 == e.2.len() as i64)
            })
            && self.relations.keys().all(|(a, b)| {
                self.chunks.contains_key(a) && self.chunks.contains_key(b)
            })
    }

    /// Carries out what was recorded. References hold after every statement, but for
    /// those of a rebuild, after which they hold again.
    fn follow(&mut self, db: &mut Database) {
        let mut deferred = false;
        for change in db.take_changes() {
            match &change {
                Change::Savepoint(Scope::RebuildGraph) => deferred = true,
                Change::Release(Scope::RebuildGraph) => deferred = false,
                _ => {}
            }
            self.carry_out(&change);
            assert!(deferred || self.references_hold());
        }
        assert_eq!(*self, Mirror::of(db));
        assert!(db.check());
    }
}

fn bytes(values: &[f32]) -> Vec<u8> {
    values.iter().flat_map(|v| v.to_le_bytes()).collect()
}

#[test]
fn recorded_changes_lead_to_the_same_tables() {
    let mut db = Database::new(true);
    let mut mirror = Mirror::default();
    let five = Chunking { size: 5, overlap: 1 };

    create_schema(&mut db);
    mirror.follow(&mut db);
    for (name, content) in [("a", "0123456789abcdef"), ("b", "zyxwvu"), ("c", "")] {
        add_document_at(&mut db, name, content, None, None, Some(name), five, Some(1)).unwrap();
        mirror.follow(&mut db);
    }
    add_document_at(&mut db, "loose", "xyz", None, None, None, five, Some(1)).unwrap();
    mirror.follow(&mut db);
    let ids: Vec<i64> = db.chunks.iter().map(|c| c.id).collect();
    for (i, id) in ids.iter().enumerate() {
        store_embedding_at(&mut db, *id, &bytes(&[i as f32, 1.0]), "m", 2, Some(2)).unwrap();
        mirror.follow(&mut db);
        store_relation(&mut db, *id, ids[0], Some("r"), None).unwrap();
        mirror.follow(&mut db);
    }
    let refused = store_embedding_at(&mut db, 999, &bytes(&[0.0, 1.0]), "m", 2, Some(2));
    assert!(matches!(refused, Err(Error::ForeignKey)));
    mirror.follow(&mut db);
    for content in ["0123", "fedcba9876543210fedcba", "0123456789abcdef", "q"] {
        add_document_at(&mut db, "a", content, None, None, Some("a"), five, Some(3)).unwrap();
        mirror.follow(&mut db);
    }
    rebuild_at(&mut db, Some(4)).unwrap();
    mirror.follow(&mut db);
    for name in ["b", "a", "c"] {
        delete_document(&mut db, name).unwrap();
        mirror.follow(&mut db);
    }
    assert_eq!(db.documents.len(), 1);
    rebuild_at(&mut db, Some(5)).unwrap();
    mirror.follow(&mut db);
}
