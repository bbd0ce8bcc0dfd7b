//! The tables, the settings and the recorded changes.

use semanta::storage::schema::create_schema;
use semanta::storage::settings::{get_f64, get_raw, get_string_list, get_usize};
use semanta::storage::tables::{
    Change, Chunk, Document, Embedding, Model, Relation, Segment, SegmentStatus, Setting,
};
use semanta::storage::Database;

fn set(db: &mut Database, key: &str, value: &str) {
    for row in db.settings.iter_mut() {
        if row.key == key {
            row.value = value.to_string();
        }
    }
}

fn with_defaults() -> Database {
    let mut db = Database::new(false);
    create_schema(&mut db);
    db
}

#[test]
fn a_new_database_gets_the_default_settings() {
    let db = with_defaults();
    let pairs: Vec<(&str, &str)> =
        db.settings.iter().map(|s| (s.key.as_str(), s.value.as_str())).collect();
    assert_eq!(
        pairs,
        vec![
            ("chars_per_token", "3.5"),
            ("chunk_size", "1000"),
            ("chunk_overlap", "0.125"),
            ("m", "16"),
            ("ef_construction", "200"),
            ("ef_search", "100"),
            ("top_k", "16"),
            ("max_hops", "1"),
            ("hop_decay", "0.5"),
            ("expand_relation_types", ""),
        ]
    );
    assert_eq!(db.changes.len(), 10);
    assert!(db.check());
}

#[test]
fn creating_the_schema_again_overwrites_nothing() {
    let mut db = with_defaults();
    set(&mut db, "m", "32");
    db.take_changes();
    create_schema(&mut db);
    assert_eq!(get_raw(&db, "m"), Some("32".to_string()));
    assert_eq!(db.settings.len(), 10);
    assert!(db.changes.is_empty());
}

#[test]
fn only_missing_settings_are_added() {
    let mut db = Database::new(false);
    db.settings.push(Setting { key: "top_k".to_string(), value: "3".to_string() });
    create_schema(&mut db);
    assert_eq!(db.settings.len(), 10);
    assert_eq!(get_usize(&db, "top_k", 16), 3);
    assert_eq!(db.settings[0].key, "top_k");
    assert_eq!(db.changes.len(), 9);
}

#[test]
fn numbers_fall_back_to_the_default() {
    let mut db = with_defaults();
    assert_eq!(get_usize(&db, "top_k", 5), 16);
    assert_eq!(get_usize(&db, "no such key", 5), 5);
    set(&mut db, "top_k", "many");
    assert_eq!(get_usize(&db, "top_k", 5), 5);
    set(&mut db, "top_k", "-1");
    assert_eq!(get_usize(&db, "top_k", 5), 5);
}

#[test]
fn fractions_are_what_the_parser_says() {
    let mut db = with_defaults();
    let parse = |s: &str| s.parse::<f64>().ok().map(f64::to_bits);
    let default = 9.0f64.to_bits();
    assert_eq!(get_f64(&db, "hop_decay", default, parse), 0.5f64.to_bits());
    assert_eq!(get_f64(&db, "no such key", default, parse), default);
    set(&mut db, "hop_decay", "half");
    assert_eq!(get_f64(&db, "hop_decay", default, parse), default);
}

#[test]
fn an_empty_list_is_no_restriction() {
    let mut db = with_defaults();
    assert_eq!(get_string_list(&db, "expand_relation_types"), None);
    assert_eq!(get_string_list(&db, "no such key"), None);
    set(&mut db, "expand_relation_types", " , ,");
    assert_eq!(get_string_list(&db, "expand_relation_types"), None);
    set(&mut db, "expand_relation_types", "continues, requires");
    assert_eq!(
        get_string_list(&db, "expand_relation_types"),
        Some(vec!["continues".to_string(), "requires".to_string()])
    );
}

#[test]
fn changes_are_handed_out_once() {
    let mut db = with_defaults();
    let changes = db.take_changes();
    assert_eq!(changes.len(), 10);
    match &changes[3] {
        Change::InsertSetting(s) => assert_eq!((s.key.as_str(), s.value.as_str()), ("m", "16")),
        _ => panic!("not a setting"),
    }
    assert!(db.take_changes().is_empty());
    assert_eq!(db.settings.len(), 10);
}

fn document(id: i64, external_id: Option<&str>) -> Document {
    Document {
        id,
        name: "n".to_string(),
        external_id: external_id.map(|s| s.to_string()),
        declared: external_id.is_some(),
        version: 1,
        hash: "h".to_string(),
        created_at: 0,
        metadata: None,
        tags: None,
    }
}

fn chunk(id: i64, document_id: i64, position: i64) -> Chunk {
    Chunk { id, document_id, text: "t".to_string(), position, version: 1 }
}

fn segment(id: i64, status: SegmentStatus) -> Segment {
    Segment {
        id,
        status,
        m: 16,
        ef_construction: 200,
        node_count: 0,
        has_index: false,
        created_at: 0,
        sealed_at: None,
    }
}

#[test]
fn rows_in_order_pass_the_check() {
    let mut db = with_defaults();
    db.documents = vec![document(1, Some("a")), document(2, None), document(5, None)];
    db.chunks = vec![chunk(1, 1, 0), chunk(2, 1, 1), chunk(3, 2, 0)];
    db.segments = vec![segment(1, SegmentStatus::Sealed), segment(2, SegmentStatus::Appendable)];
    assert!(db.check());
}

#[test]
fn rows_that_the_schema_forbids_fail_the_check() {
    let mut db = with_defaults();
    db.documents = vec![document(2, None), document(1, None)];
    assert!(!db.check());

    let mut db = with_defaults();
    db.documents = vec![document(1, Some("a")), document(2, Some("a"))];
    assert!(!db.check());

    let mut db = with_defaults();
    db.chunks = vec![chunk(1, 1, 0), chunk(2, 1, 0)];
    assert!(!db.check());

    let mut db = with_defaults();
    db.chunks = vec![chunk(1, 1, -1)];
    assert!(!db.check());

    let mut db = with_defaults();
    db.chunks = vec![chunk(1, 1, 0), chunk(1, 1, 1)];
    assert!(!db.check());

    let mut db = with_defaults();
    db.segments =
        vec![segment(1, SegmentStatus::Appendable), segment(2, SegmentStatus::Appendable)];
    assert!(!db.check());

    let mut db = with_defaults();
    db.segments = vec![segment(1, SegmentStatus::Appendable)];
    db.segments[0].node_count = i64::MAX;
    assert!(!db.check());

    let mut db = with_defaults();
    db.models = vec![
        Model { id: 1, model_name: "a".to_string(), dimension: 3, generated_at: 0 },
        Model { id: 1, model_name: "b".to_string(), dimension: 3, generated_at: 0 },
    ];
    assert!(!db.check());

    let mut db = with_defaults();
    let row = |chunk_id| Embedding {
        chunk_id,
        embedding_model_id: 1,
        segment_id: 1,
        vector: Vec::new(),
    };
    db.embeddings = vec![row(2), row(1)];
    assert!(!db.check());

    let mut db = with_defaults();
    let row = || Relation {
        from_chunk_id: 1,
        to_chunk_id: 2,
        relation_type: None,
        confidence: None,
    };
    db.relations = vec![row(), row()];
    assert!(!db.check());

    let mut db = with_defaults();
    db.settings.push(Setting { key: "m".to_string(), value: "1".to_string() });
    assert!(!db.check());
}
