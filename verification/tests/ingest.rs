//! Documents: versions, identities, and what is refused.

use semanta::document::chunk::Chunking;
use semanta::document::{add_document_at, check_add, chunk_settings, content_hash, delete_document};
use semanta::error::Error;
use semanta::graph::store_relation;
use semanta::storage::schema::create_schema;
use semanta::storage::tables::{Change, Embedding};
use semanta::storage::Database;

const FIVE: Chunking = Chunking { size: 5, overlap: 0 };

fn setup() -> Database {
    let mut db = Database::new(true);
    create_schema(&mut db);
    db.take_changes();
    db
}

fn add(db: &mut Database, content: &str, external_id: Option<&str>) -> Result<i64, Error> {
    assert!(check_add(db, content, external_id, FIVE));
    add_document_at(db, "n", content, Some("meta"), Some("tags"), external_id, FIVE, Some(77))
}

fn texts(db: &Database, document_id: i64) -> Vec<(i64, i64, String, i64)> {
    let mut rows: Vec<(i64, i64, String, i64)> = db
        .chunks
        .iter()
        .filter(|c| c.document_id == document_id)
        .map(|c| (c.position, c.id, c.text.clone(), c.version))
        .collect();
    rows.sort();
    rows
}

#[test]
fn a_new_document_is_stored_with_all_that_was_given() {
    let mut db = setup();
    let id = add(&mut db, "hola mundo!", Some("x")).unwrap();
    assert_eq!(id, 1);
    let d = &db.documents[0];
    assert_eq!(d.name, "n");
    assert_eq!(d.external_id.as_deref(), Some("x"));
    assert_eq!(d.version, 1);
    assert_eq!(d.hash, content_hash("hola mundo!"));
    assert_eq!(d.created_at, 77);
    assert_eq!(d.metadata.as_deref(), Some("meta"));
    assert_eq!(d.tags.as_deref(), Some("tags"));
    assert_eq!(
        texts(&db, id),
        vec![
            (0, 1, "hola ".to_string(), 1),
            (1, 2, "mundo".to_string(), 1),
            (2, 3, "!".to_string(), 1),
        ]
    );
}

#[test]
fn a_changed_document_keeps_everything_but_content() {
    let mut db = setup();
    let id = add(&mut db, "aaaaabbbbb", Some("x")).unwrap();
    let again = add_document_at(&mut db, "other", "ccccc", None, None, Some("x"), FIVE, None);
    assert_eq!(again.unwrap(), id);
    let d = &db.documents[0];
    assert_eq!((d.name.as_str(), d.version, d.created_at), ("n", 2, 77));
    assert_eq!(d.metadata.as_deref(), Some("meta"));
    assert_eq!(d.hash, content_hash("ccccc"));
    assert_eq!(texts(&db, id), vec![(0, 1, "ccccc".to_string(), 2)]);
}

#[test]
fn a_longer_content_adds_chunks_after_all_others() {
    let mut db = setup();
    let a = add(&mut db, "aaaaa", Some("a")).unwrap();
    let b = add(&mut db, "bbbbb", Some("b")).unwrap();
    add(&mut db, "AAAAABBBBBCCCCC", Some("a")).unwrap();
    assert_eq!(
        texts(&db, a),
        vec![
            (0, 1, "AAAAA".to_string(), 2),
            (1, 3, "BBBBB".to_string(), 2),
            (2, 4, "CCCCC".to_string(), 2),
        ]
    );
    assert_eq!(texts(&db, b), vec![(0, 2, "bbbbb".to_string(), 1)]);
}

#[test]
fn an_update_keeps_embeddings_of_surviving_chunks_and_relations_of_others() {
    let mut db = setup();
    add(&mut db, "aaaaabbbbb", Some("a")).unwrap();
    add(&mut db, "cccccddddd", Some("b")).unwrap();
    for chunk_id in [1, 2, 3] {
        db.embeddings.push(Embedding {
            chunk_id,
            embedding_model_id: 1,
            segment_id: 1,
            vector: vec![chunk_id as u8],
        });
    }
    store_relation(&mut db, 1, 3, Some("r"), None).unwrap();
    store_relation(&mut db, 3, 4, Some("s"), None).unwrap();
    add(&mut db, "zzzzz", Some("a")).unwrap();
    let ids: Vec<i64> = db.embeddings.iter().map(|e| e.chunk_id).collect();
    assert_eq!(ids, vec![1, 3]);
    assert_eq!(db.relations.len(), 1);
    assert_eq!((db.relations[0].from_chunk_id, db.relations[0].to_chunk_id), (3, 4));
}

#[test]
fn adding_the_same_content_needs_no_clock_and_changes_nothing() {
    let mut db = setup();
    let id = add(&mut db, "aaaaa", Some("x")).unwrap();
    db.take_changes();
    let again = add_document_at(&mut db, "n", "aaaaa", None, None, Some("x"), FIVE, None);
    assert_eq!(again.unwrap(), id);
    assert!(db.take_changes().is_empty());
}

#[test]
fn a_new_document_needs_the_clock() {
    let mut db = setup();
    let r = add_document_at(&mut db, "n", "aaaaa", None, None, Some("x"), FIVE, None);
    assert!(matches!(r, Err(Error::ClockBeforeEpoch)));
    assert!(db.documents.is_empty() && db.changes.is_empty());
}

#[test]
fn without_an_identity_every_document_is_new() {
    let mut db = setup();
    let a = add(&mut db, "aaaaa", None).unwrap();
    let b = add(&mut db, "aaaaa", None).unwrap();
    assert_eq!((a, b), (1, 2));
    assert_eq!(db.documents[1].external_id.as_deref(), Some("2"));
}

#[test]
fn a_document_without_an_identity_takes_an_id_that_is_free() {
    let mut db = setup();
    add(&mut db, "aaaaa", Some("2")).unwrap();
    add(&mut db, "ccccc", Some("3")).unwrap();
    assert_eq!(add(&mut db, "bbbbb", None).unwrap(), 4);
    assert_eq!(db.documents[2].external_id.as_deref(), Some("4"));
    assert!(!db.documents[2].declared && db.documents[1].declared);
    assert_eq!(db.chunks.len(), 3);
}

#[test]
fn a_document_without_an_identity_is_never_matched() {
    let mut db = setup();
    assert_eq!(add(&mut db, "uno", None).unwrap(), 1);
    db.take_changes();
    let r = add(&mut db, "dos", Some("1"));
    assert!(matches!(r, Err(Error::DuplicateExternalId)));
    assert!(db.changes.is_empty());
    let d = &db.documents[0];
    assert_eq!((d.version, d.hash.clone()), (1, content_hash("uno")));
    assert_eq!(texts(&db, 1), vec![(0, 1, "uno".to_string(), 1)]);
    let r = add(&mut db, "uno", Some("1"));
    assert!(matches!(r, Err(Error::DuplicateExternalId)));
    delete_document(&mut db, "1").unwrap();
    let id = add(&mut db, "dos", Some("1")).unwrap();
    assert_eq!(add(&mut db, "tres", Some("1")).unwrap(), id);
    assert_eq!(db.documents[0].version, 2);
}

#[test]
fn an_update_keeps_relations_between_texts_that_stay() {
    let mut db = setup();
    add(&mut db, "AAAAABBBBBCCCCC", Some("d")).unwrap();
    store_relation(&mut db, 1, 2, Some("continues"), Some(0.9f64.to_bits())).unwrap();
    store_relation(&mut db, 2, 3, Some("continues"), Some(0.9f64.to_bits())).unwrap();
    add(&mut db, "AAAAABBBBBDDDDD", Some("d")).unwrap();
    let kept: Vec<(i64, i64)> =
        db.relations.iter().map(|r| (r.from_chunk_id, r.to_chunk_id)).collect();
    assert_eq!(kept, vec![(1, 2)]);
    assert_eq!(
        texts(&db, 1),
        vec![
            (0, 1, "AAAAA".to_string(), 2),
            (1, 2, "BBBBB".to_string(), 2),
            (2, 3, "DDDDD".to_string(), 2),
        ]
    );
}

#[test]
fn a_readded_document_has_no_embeddings_and_no_relations() {
    let mut db = setup();
    add(&mut db, "aaaaabbbbb", Some("a")).unwrap();
    add(&mut db, "ccccc", Some("b")).unwrap();
    db.embeddings.push(Embedding {
        chunk_id: 1,
        embedding_model_id: 1,
        segment_id: 1,
        vector: vec![0, 0, 0, 0],
    });
    store_relation(&mut db, 1, 2, Some("r"), None).unwrap();
    store_relation(&mut db, 2, 3, Some("r"), None).unwrap();
    delete_document(&mut db, "a").unwrap();
    let id = add(&mut db, "aaaaabbbbb", Some("a")).unwrap();
    assert_eq!(texts(&db, id).iter().map(|c| c.1).collect::<Vec<i64>>(), vec![4, 5]);
    assert!(db.embeddings.is_empty() && db.relations.is_empty());
}

#[test]
fn every_blank_identity_is_refused() {
    for id in ["", " ", "\t\n", "\u{3000}"] {
        let mut db = setup();
        let r = add(&mut db, "aaaaa", Some(id));
        assert!(matches!(r, Err(Error::BlankExternalId)));
        assert!(db.documents.is_empty() && db.chunks.is_empty() && db.changes.is_empty());
    }
}

#[test]
fn an_empty_content_makes_a_document_without_chunks() {
    let mut db = setup();
    let id = add(&mut db, "", Some("x")).unwrap();
    assert_eq!(db.documents.len(), 1);
    assert!(texts(&db, id).is_empty());
}

#[test]
fn a_document_that_cannot_be_cut_is_told_beforehand() {
    let db = setup();
    let stuck = Chunking { size: 5, overlap: 5 };
    assert!(!check_add(&db, "123456", Some("x"), stuck));
    assert!(check_add(&db, "12345", Some("x"), stuck));
    assert!(check_add(&db, "123456", Some(" "), stuck));
    assert!(!check_add(&db, "1", Some("x"), Chunking { size: 0, overlap: 0 }));
}

#[test]
fn a_document_without_room_is_told_beforehand() {
    let mut db = setup();
    add(&mut db, "aaaaa", Some("x")).unwrap();
    db.documents[0].version = i64::MAX;
    assert!(!check_add(&db, "bbbbb", Some("x"), FIVE));
    assert!(check_add(&db, "aaaaa", Some("x"), FIVE));
    db.documents[0].id = i64::MAX;
    assert!(!check_add(&db, "bbbbb", Some("y"), FIVE));
    db.documents[0].id = 1;
    db.chunks[0].id = i64::MAX - 2;
    assert!(!check_add(&db, "bbbbbbbbbbb", Some("y"), FIVE));
    assert!(check_add(&db, "bbbbbbbbbb", Some("y"), FIVE));
    let id = add(&mut db, "bbbbbbbbbb", Some("y")).unwrap();
    assert_eq!(texts(&db, id)[1].1, i64::MAX);
}

#[test]
fn deleting_leaves_other_documents_alone() {
    let mut db = setup();
    add(&mut db, "aaaaabbbbb", Some("a")).unwrap();
    let b = add(&mut db, "cccccddddd", Some("b")).unwrap();
    store_relation(&mut db, 2, 3, Some("r"), None).unwrap();
    store_relation(&mut db, 4, 3, Some("s"), None).unwrap();
    assert!(delete_document(&mut db, "a").unwrap());
    assert_eq!(db.documents.len(), 1);
    assert_eq!(db.documents[0].id, b);
    let ids: Vec<i64> = db.chunks.iter().map(|c| c.id).collect();
    assert_eq!(ids, vec![3, 4]);
    assert_eq!(db.relations.len(), 1);
    assert_eq!(db.relations[0].from_chunk_id, 4);
}

#[test]
fn a_deleted_document_is_unknown_and_starts_over() {
    let mut db = setup();
    add(&mut db, "aaaaa", Some("a")).unwrap();
    add(&mut db, "bbbbb", Some("a")).unwrap();
    assert_eq!(db.documents[0].version, 2);
    delete_document(&mut db, "a").unwrap();
    match delete_document(&mut db, "a") {
        Err(Error::UnknownDocument { external_id }) => assert_eq!(external_id, "a"),
        _ => panic!("deleted twice"),
    }
    add(&mut db, "bbbbb", Some("a")).unwrap();
    assert_eq!(db.documents[0].version, 1);
}

#[test]
fn an_update_is_recorded_statement_by_statement() {
    let mut db = setup();
    add(&mut db, "aaaaabbbbb", Some("a")).unwrap();
    db.take_changes();
    add(&mut db, "ccccc", Some("a")).unwrap();
    let changes = db.take_changes();
    assert_eq!(changes.len(), 6);
    assert!(matches!(&changes[0], Change::SetVersion { document_id: 1, version: 2, .. }));
    assert!(matches!(&changes[1], Change::SetChunk { chunk_id: 1, version: 2, .. }));
    assert!(matches!(&changes[2], Change::DeleteRelations { chunk_id: 1 }));
    assert!(matches!(&changes[3], Change::DeleteRelations { chunk_id: 2 }));
    assert!(matches!(&changes[4], Change::DeleteEmbedding { chunk_id: 2 }));
    assert!(matches!(&changes[5], Change::DeleteChunk { chunk_id: 2 }));
}

#[test]
fn chunking_is_read_from_the_settings() {
    let parse = |s: &str| s.parse::<f64>().ok().map(f64::to_bits);
    let mut db = setup();
    assert_eq!(chunk_settings(&db, parse), (1000, 3.5f64.to_bits(), 0.125f64.to_bits()));
    for row in db.settings.iter_mut() {
        match row.key.as_str() {
            "chunk_size" => row.value = "7".to_string(),
            "chars_per_token" => row.value = "2".to_string(),
            "chunk_overlap" => row.value = "none".to_string(),
            _ => {}
        }
    }
    assert_eq!(chunk_settings(&db, parse), (7, 2.0f64.to_bits(), 0.125f64.to_bits()));
    assert_eq!(
        chunk_settings(&Database::new(false), parse),
        (1000, 3.5f64.to_bits(), 0.125f64.to_bits())
    );
}

#[test]
fn chunks_follow_the_version_of_their_document() {
    let mut db = setup();
    let a = add(&mut db, "aaaaabbbbb", Some("a")).unwrap();
    let b = add(&mut db, "ccccc", Some("b")).unwrap();
    add(&mut db, "aaaaabbbbbddddd", Some("a")).unwrap();
    assert_eq!(texts(&db, a).iter().map(|c| c.3).collect::<Vec<i64>>(), vec![2, 2, 2]);
    assert_eq!(texts(&db, b).iter().map(|c| c.3).collect::<Vec<i64>>(), vec![1]);
    for c in &db.chunks {
        let d = db.documents.iter().find(|d| d.id == c.document_id).unwrap();
        assert_eq!(c.version, d.version);
    }
}

#[test]
fn the_same_content_is_a_no_op_whatever_else_is_given() {
    let mut db = setup();
    let id = add(&mut db, "aaaaabbbbb", Some("x")).unwrap();
    db.take_changes();
    let three = Chunking { size: 3, overlap: 1 };
    let again =
        add_document_at(&mut db, "other", "aaaaabbbbb", None, Some("t"), Some("x"), three, None);
    assert_eq!(again.unwrap(), id);
    assert!(db.take_changes().is_empty());
    assert_eq!((db.documents[0].name.as_str(), db.documents[0].version), ("n", 1));
    assert_eq!(db.documents[0].tags.as_deref(), Some("tags"));
    assert_eq!(texts(&db, id).len(), 2);
}

#[test]
fn a_deletion_is_one_scope() {
    let mut db = setup();
    add(&mut db, "aaaaabbbbb", Some("x")).unwrap();
    db.take_changes();
    delete_document(&mut db, "x").unwrap();
    let changes = db.take_changes();
    let scopes: Vec<usize> = (0..changes.len())
        .filter(|i| matches!(changes[*i], Change::Savepoint(_) | Change::Release(_)))
        .collect();
    assert_eq!(scopes, vec![0, changes.len() - 1]);
    assert!(delete_document(&mut db, "x").is_err());
    assert!(db.take_changes().is_empty());
}
