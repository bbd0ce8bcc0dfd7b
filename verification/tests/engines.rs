//! The engines together, over one database.

#![allow(dead_code)]

use std::collections::HashMap;

use hnsw_rs::prelude::{DistL2, Hnsw};
use semanta::ann;
use semanta::ann::SEGMENT_MAX_SIZE;
use semanta::bits::bytes_to_f32;
use semanta::document;
use semanta::document::chunk::Chunking;
use semanta::embedding;
use semanta::error::Error;
use semanta::graph;
use semanta::storage::schema::create_schema;
use semanta::storage::tables::{Change, Scope};
use semanta::storage::Database;

type Index = HashMap<i64, Hnsw<'static, f32, DistL2>>;

/// A database with the index that its changes build.
struct Engine {
    db: Database,
    index: Index,
}

fn normalize(vector: &[f32]) -> Vec<f32> {
    let norm = vector.iter().map(|x| x * x).sum::<f32>().sqrt();
    if norm == 0.0 {
        return vector.to_vec();
    }
    vector.iter().map(|x| x / norm).collect()
}

fn floats(bits: &[u32]) -> Vec<f32> {
    bits.iter().map(|b| f32::from_bits(*b)).collect()
}

fn nearest(index: &Index, segment_id: i64, query: &[u32], top_k: usize, ef: usize) -> Vec<i64> {
    match index.get(&segment_id) {
        Some(hnsw) => hnsw
            .search(&normalize(&floats(query)), top_k, ef)
            .into_iter()
            .map(|n| n.get_origin_id() as i64)
            .collect(),
        None => Vec::new(),
    }
}

fn distance(query: &[u32], stored: &[u32]) -> u32 {
    let a = normalize(&floats(query));
    let b = normalize(&floats(stored));
    let sum: f32 = a.iter().zip(b.iter()).map(|(x, y)| (x - y).powi(2)).sum();
    sum.sqrt().to_bits()
}

fn chunking(db: &Database) -> Chunking {
    let parse = |s: &str| s.parse::<f64>().ok().map(f64::to_bits);
    let (tokens, chars_per_token, overlap_ratio) = document::chunk_settings(db, parse);
    let size = (tokens as f64 * f64::from_bits(chars_per_token)) as usize;
    let overlap = (size as f64 * f64::from_bits(overlap_ratio)) as usize;
    Chunking { size, overlap }
}

fn setup() -> Engine {
    let mut db = Database::new(true);
    create_schema(&mut db);
    let mut engine = Engine { db, index: HashMap::new() };
    engine.carry_out();
    engine
}

fn vec_bytes(values: &[f32]) -> Vec<u8> {
    values.iter().flat_map(|v| v.to_le_bytes()).collect()
}

fn set_setting(engine: &mut Engine, key: &str, value: &str) {
    for row in engine.db.settings.iter_mut() {
        if row.key == key {
            row.value = value.to_string();
        }
    }
}

fn set_chunking(engine: &mut Engine, chunk_size: &str, overlap: &str, chars_per_token: &str) {
    set_setting(engine, "chunk_size", chunk_size);
    set_setting(engine, "chunk_overlap", overlap);
    set_setting(engine, "chars_per_token", chars_per_token);
}

fn chunk_ids_by_position(engine: &Engine, document_id: i64) -> Vec<i64> {
    let mut rows: Vec<(i64, i64)> = engine
        .db
        .chunks
        .iter()
        .filter(|c| c.document_id == document_id)
        .map(|c| (c.position, c.id))
        .collect();
    rows.sort();
    rows.into_iter().map(|(_, id)| id).collect()
}

fn first_chunk_id(engine: &Engine, document_id: i64) -> i64 {
    chunk_ids_by_position(engine, document_id)[0]
}

impl Engine {
    /// Carries out the recorded changes on the index.
    fn carry_out(&mut self) -> Vec<Change> {
        let changes = self.db.take_changes();
        for change in &changes {
            match change {
                Change::AddNode { segment_id, m, ef_construction, chunk_id, vector } => {
                    let hnsw = self.index.entry(*segment_id).or_insert_with(|| {
                        Hnsw::new(*m, SEGMENT_MAX_SIZE as usize, 16, *ef_construction, DistL2 {})
                    });
                    hnsw.insert((normalize(&floats(vector)).as_slice(), *chunk_id as usize));
                }
                Change::ClearSegments => self.index.clear(),
                _ => {}
            }
        }
        changes
    }

    fn add_document(
        &mut self,
        name: &str,
        content: &str,
        metadata: Option<&str>,
        tags: Option<&str>,
        external_id: Option<&str>,
    ) -> Result<i64, Error> {
        let chunking = chunking(&self.db);
        assert!(document::check_add(&self.db, content, external_id, chunking));
        let r = document::add_document(
            &mut self.db,
            name,
            content,
            metadata,
            tags,
            external_id,
            chunking,
        );
        self.carry_out();
        r
    }

    fn delete_document(&mut self, external_id: &str) -> Result<bool, Error> {
        let r = document::delete_document(&mut self.db, external_id);
        self.carry_out();
        r
    }

    fn store_embedding(
        &mut self,
        chunk_id: i64,
        vector: &[u8],
        model_name: &str,
        dimension: i64,
    ) -> Result<Vec<(i64, u32)>, Error> {
        assert!(embedding::check_store(&self.db, model_name, dimension));
        let vector = vector.to_vec();
        embedding::store_embedding(&mut self.db, chunk_id, &vector, model_name, dimension)?;
        self.carry_out();
        let query = bytes_to_f32(&vector);
        embedding::candidates(
            &self.db,
            chunk_id,
            &query,
            |s, q: &Vec<u32>, k, ef| nearest(&self.index, s, q, k, ef),
            |q: &Vec<u32>, v: &Vec<u32>| distance(q, v),
        )
    }

    fn search(&self, query: &[f32], top_k: usize) -> Result<Vec<(i64, u32)>, Error> {
        let query: Vec<u32> = query.iter().map(|x| x.to_bits()).collect();
        ann::search(
            &self.db,
            &query,
            top_k,
            |s, q: &Vec<u32>, k, ef| nearest(&self.index, s, q, k, ef),
            |q: &Vec<u32>, v: &Vec<u32>| distance(q, v),
        )
    }

    fn rebuild(&mut self) -> Result<i64, Error> {
        let r = ann::rebuild(&mut self.db);
        self.carry_out();
        r
    }
}

#[test]
fn tests_add_document_without_external_id_falls_back_to_internal_id() {
    let mut db = setup();

    let doc_id = db.add_document("loose.md", "texto suelto", None, None, None).unwrap();

    let external_id = db
        .db
        .documents
        .iter()
        .find(|d| d.id == doc_id)
        .and_then(|d| d.external_id.clone())
        .unwrap();
    assert_eq!(external_id, doc_id.to_string());
}

#[test]
fn tests_add_document_rejects_blank_external_id() {
    let mut db = setup();

    let err = db.add_document("x.md", "algo", None, None, Some("   ")).unwrap_err();
    assert!(err.message().contains("external_id"));

    let count = db.db.documents.len();
    assert_eq!(count, 0, "a rejected external_id must not leave a half-inserted document");
}

#[test]
fn tests_add_document_is_noop_when_hash_unchanged() {
    let mut db = setup();

    let doc_id = db.add_document("a.md", "contenido", None, None, Some("ext-noop")).unwrap();
    let doc_id_again = db.add_document("a.md", "contenido", None, None, Some("ext-noop")).unwrap();

    assert_eq!(doc_id, doc_id_again);
    let version = db.db.documents.iter().find(|d| d.id == doc_id).unwrap().version;
    assert_eq!(version, 1);
}

#[test]
fn tests_update_preserves_chunk_id_for_reused_position_and_deletes_orphaned_position() {
    let mut db = setup();
    set_chunking(&mut db, "5", "0", "1"); // 5-char chunks, no overlap

    let doc_id =
        db.add_document("a.md", &"A".repeat(15), None, None, Some("ext-upd")).unwrap(); // -> 3 chunks of 5 chars
    let chunks_v1 = chunk_ids_by_position(&db, doc_id);
    assert_eq!(chunks_v1.len(), 3);

    db.add_document("a.md", &"B".repeat(10), None, None, Some("ext-upd")).unwrap(); // -> 2 chunks

    let version = db.db.documents.iter().find(|d| d.id == doc_id).unwrap().version;
    assert_eq!(version, 2);

    let chunks_v2 = chunk_ids_by_position(&db, doc_id);
    assert_eq!(chunks_v2, &chunks_v1[..2], "surviving positions must keep their chunk_id");

    let orphan_still_there: Option<i64> =
        db.db.chunks.iter().find(|c| c.id == chunks_v1[2]).map(|c| c.id);
    assert!(orphan_still_there.is_none(), "position dropped by the shorter document must be deleted");

    let chunk0_version = db.db.chunks.iter().find(|c| c.id == chunks_v2[0]).unwrap().version;
    assert_eq!(chunk0_version, 2, "a reused position's version must follow the document's");
}

#[test]
fn tests_update_purges_relations_touching_changed_or_removed_chunks() {
    let mut db = setup();
    set_chunking(&mut db, "5", "0", "1");

    let doc_id = db.add_document("a.md", &"A".repeat(15), None, None, Some("ext-rel")).unwrap();
    let chunks = chunk_ids_by_position(&db, doc_id);
    let confidence = Some(0.9f64.to_bits());
    graph::store_relation(&mut db.db, chunks[0], chunks[1], Some("continues"), confidence).unwrap();
    graph::store_relation(&mut db.db, chunks[1], chunks[2], Some("continues"), confidence).unwrap();
    assert_eq!(db.db.relations.len(), 2);

    db.add_document("a.md", &"B".repeat(10), None, None, Some("ext-rel")).unwrap();

    let relation_count = db.db.relations.len();
    assert_eq!(
        relation_count, 0,
        "relations judged on old text (or on a now-deleted chunk) must not survive an update"
    );
}

#[test]
fn tests_store_embedding_upserts_same_chunk_id_without_error() {
    let mut db = setup();

    let doc_id = db.add_document("a.md", "hola", None, None, Some("ext-emb")).unwrap();
    let chunk_id = first_chunk_id(&db, doc_id);

    db.store_embedding(chunk_id, &vec_bytes(&[1.0, 0.0, 0.0]), "m", 3).unwrap();
    db.store_embedding(chunk_id, &vec_bytes(&[0.0, 1.0, 0.0]), "m", 3).unwrap();

    let count = db.db.embeddings.iter().filter(|e| e.chunk_id == chunk_id).count();
    assert_eq!(count, 1, "re-storing an embedding must replace the row, not duplicate the PK");
}

#[test]
fn tests_search_recomputes_distance_from_live_vector_and_dedupes_stale_node() {
    let mut db = setup();

    let doc_id = db.add_document("a.md", "hola", None, None, Some("ext-search")).unwrap();
    let chunk_id = first_chunk_id(&db, doc_id);

    // Replace the embedding while the segment is still appendable -- old and
    // new nodes for the same chunk_id land in the same segment, which is
    // exactly the case segment-id comparison alone could not tell apart.
    db.store_embedding(chunk_id, &vec_bytes(&[1.0, 0.0, 0.0]), "m", 3).unwrap();
    db.store_embedding(chunk_id, &vec_bytes(&[0.0, 0.0, 1.0]), "m", 3).unwrap();

    let results_for_old_vector = db.search(&[1.0, 0.0, 0.0], 5).unwrap();
    assert_eq!(
        results_for_old_vector.len(),
        1,
        "the stale node must not show up as a second, duplicate hit for the same chunk_id"
    );
    assert_eq!(results_for_old_vector[0].0, chunk_id);

    let results_for_new_vector = db.search(&[0.0, 0.0, 1.0], 5).unwrap();
    assert_eq!(results_for_new_vector.len(), 1);
    assert_eq!(results_for_new_vector[0].0, chunk_id);

    // Querying with the vector that is no longer current must score worse
    // than querying with the one that actually is -- proves the distance is
    // recomputed against embeddings.vector, not trusted from the graph hit.
    assert!(
        f32::from_bits(results_for_old_vector[0].1) > f32::from_bits(results_for_new_vector[0].1)
    );
}

#[test]
fn tests_search_never_returns_a_deleted_chunk() {
    let mut db = setup();

    let doc_id = db.add_document("a.md", "hola", None, None, Some("ext-del-search")).unwrap();
    let chunk_id = first_chunk_id(&db, doc_id);
    db.store_embedding(chunk_id, &vec_bytes(&[1.0, 0.0, 0.0]), "m", 3).unwrap();

    db.delete_document("ext-del-search").unwrap();

    let results = db.search(&[1.0, 0.0, 0.0], 5).unwrap();
    assert!(results.is_empty(), "a deleted chunk's dead HNSW node must never resurface as a phantom");
}

#[test]
fn tests_graph_stats_reports_total_vs_live_nodes_per_segment() {
    let mut db = setup();

    let doc_id = db.add_document("a.md", "hola", None, None, Some("ext-stats")).unwrap();
    let chunk_id = first_chunk_id(&db, doc_id);
    db.store_embedding(chunk_id, &vec_bytes(&[1.0, 0.0, 0.0]), "m", 3).unwrap();
    db.store_embedding(chunk_id, &vec_bytes(&[0.0, 1.0, 0.0]), "m", 3).unwrap();

    let stats_json = ann::stats(&db.db);
    assert!(stats_json.contains("\"total_nodes\":2"), "{stats_json}");
    assert!(stats_json.contains("\"live_nodes\":1"), "{stats_json}");
}

#[test]
fn tests_rebuild_graph_reindexes_only_live_embeddings() {
    let mut db = setup();

    let doc_a = db.add_document("a.md", "hola", None, None, Some("ext-rebuild-a")).unwrap();
    let doc_b = db.add_document("b.md", "mundo", None, None, Some("ext-rebuild-b")).unwrap();
    let chunk_a = first_chunk_id(&db, doc_a);
    let chunk_b = first_chunk_id(&db, doc_b);
    db.store_embedding(chunk_a, &vec_bytes(&[1.0, 0.0, 0.0]), "m", 3).unwrap();
    db.store_embedding(chunk_b, &vec_bytes(&[0.0, 1.0, 0.0]), "m", 3).unwrap();

    db.delete_document("ext-rebuild-a").unwrap();

    let reindexed = db.rebuild().unwrap();
    assert_eq!(reindexed, 1);

    let stats_json = ann::stats(&db.db);
    assert!(stats_json.contains("\"total_nodes\":1"), "{stats_json}");
    assert!(stats_json.contains("\"live_nodes\":1"), "{stats_json}");
}

#[test]
fn tests_delete_document_removes_everything_it_owns() {
    let mut db = setup();

    let doc_id = db.add_document("a.md", "hola", None, None, Some("ext-full-del")).unwrap();
    let chunk_id = first_chunk_id(&db, doc_id);
    db.store_embedding(chunk_id, &vec_bytes(&[1.0, 0.0, 0.0]), "m", 3).unwrap();

    let deleted = db.delete_document("ext-full-del").unwrap();
    assert!(deleted);

    let documents = db.db.documents.len();
    let chunks = db.db.chunks.len();
    let embeddings = db.db.embeddings.len();
    assert_eq!((documents, chunks, embeddings), (0, 0, 0));
}

#[test]
fn tests_delete_document_errors_when_external_id_is_missing() {
    let mut db = setup();

    let err = db.delete_document("does-not-exist").unwrap_err();
    assert!(err.message().contains("does-not-exist"));
}

#[test]
fn tests_delete_document_works_inside_callers_open_transaction() {
    let mut db = setup();

    db.add_document("a.md", "hola", None, None, Some("ext-txn")).unwrap();

    // The statements of one call, run between the caller's own BEGIN and COMMIT:
    // nothing but a savepoint is opened, and it is closed again.
    let result = document::delete_document(&mut db.db, "ext-txn");
    assert!(result.is_ok(), "{result:?}");
    let mut open: Vec<Scope> = Vec::new();
    let changes = db.carry_out();
    assert!(matches!(changes[0], Change::Savepoint(Scope::DeleteDocument)));
    for change in &changes {
        match change {
            Change::Savepoint(scope) => open.push(*scope),
            Change::Release(scope) => assert_eq!(open.pop(), Some(*scope)),
            _ => assert_eq!(open.len(), 1),
        }
    }
    assert!(open.is_empty());

    let count = db.db.documents.len();
    assert_eq!(count, 0);
}
