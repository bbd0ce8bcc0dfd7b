//! Segments, embeddings, candidates, and dumped indexes.

use semanta::ann::persistence::{dump_to_blob, is_framed, load_from_blob};
use semanta::ann::{
    candidates_to_json, closest, current_vectors_for_chunks, index_looks_at_clock, insert,
    insert_at, rebuild_at, reload, search, segment_open, stats, Load, SEGMENT_MAX_SIZE,
};
use semanta::embedding::{
    candidates, check_store, chunk_exists, keep_others, store_embedding, store_embedding_at,
};
use semanta::error::Error;
use semanta::graph::{get_candidates, top_count};
use semanta::storage::schema::create_schema;
use semanta::storage::tables::{
    Change, Chunk, Embedding, Model, Scope, Segment, SegmentStatus,
};
use semanta::storage::Database;

fn setup(foreign_keys: bool) -> Database {
    let mut db = Database::new(foreign_keys);
    create_schema(&mut db);
    for id in 1..=9 {
        db.chunks.push(Chunk { id, document_id: 1, text: String::new(), position: id, version: 1 });
    }
    db.take_changes();
    db
}

fn set(db: &mut Database, key: &str, value: &str) {
    for row in db.settings.iter_mut() {
        if row.key == key {
            row.value = value.to_string();
        }
    }
}

fn bytes(values: &[f32]) -> Vec<u8> {
    values.iter().flat_map(|v| v.to_le_bytes()).collect()
}

fn bits(values: &[f32]) -> Vec<u32> {
    values.iter().map(|v| v.to_bits()).collect()
}

fn store(db: &mut Database, chunk_id: i64, values: &[f32]) {
    assert!(check_store(db, "model", values.len() as i64));
    store_embedding_at(db, chunk_id, &bytes(values), "model", values.len() as i64, Some(5))
        .unwrap();
}

/// An index that names every chunk, and the plain difference as the distance.
fn everything(_segment: i64, _query: &Vec<u32>, _top_k: usize, _ef: usize) -> Vec<i64> {
    vec![9, 8, 7, 6, 5, 4, 3, 2, 1, 1, 2, 3]
}

fn difference(a: &Vec<u32>, b: &Vec<u32>) -> u32 {
    (f32::from_bits(a[0]) - f32::from_bits(b[0])).abs().to_bits()
}

#[test]
fn the_first_vector_opens_a_segment_with_the_settings() {
    let mut db = setup(false);
    set(&mut db, "m", "24");
    assert!(!segment_open(&db) && index_looks_at_clock(&db));
    assert_eq!(insert_at(&mut db, 1, &bits(&[1.0]), Some(50)).unwrap(), 1);
    assert!(segment_open(&db) && !index_looks_at_clock(&db));
    assert_eq!(
        db.segments,
        vec![Segment {
            id: 1,
            status: SegmentStatus::Appendable,
            m: 24,
            ef_construction: 200,
            node_count: 1,
            has_index: false,
            created_at: 50,
            sealed_at: None,
        }]
    );
    assert_eq!(db.changes.len(), 3);
    match &db.changes[1] {
        Change::AddNode { segment_id, m, ef_construction, chunk_id, vector } => {
            assert_eq!((*segment_id, *m, *ef_construction, *chunk_id), (1, 24, 200, 1));
            assert_eq!(vector, &bits(&[1.0]));
        }
        _ => panic!("no node was added"),
    }
}

#[test]
fn a_full_segment_is_sealed_and_the_next_one_has_the_new_settings() {
    let mut db = setup(false);
    for i in 0..SEGMENT_MAX_SIZE - 1 {
        assert_eq!(insert_at(&mut db, i, &bits(&[1.0]), Some(60)).unwrap(), 1);
    }
    assert_eq!(db.segments[0].status, SegmentStatus::Appendable);
    assert!(index_looks_at_clock(&db));
    assert!(matches!(
        insert_at(&mut db, 1, &bits(&[1.0]), None),
        Err(Error::ClockBeforeEpoch)
    ));
    assert_eq!(db.segments[0].node_count, SEGMENT_MAX_SIZE - 1);
    assert_eq!(insert_at(&mut db, 1, &bits(&[1.0]), Some(61)).unwrap(), 1);
    let sealed = Segment {
        id: 1,
        status: SegmentStatus::Sealed,
        m: 16,
        ef_construction: 200,
        node_count: SEGMENT_MAX_SIZE,
        has_index: true,
        created_at: 60,
        sealed_at: Some(61),
    };
    assert_eq!(db.segments, vec![sealed]);
    set(&mut db, "m", "8");
    assert_eq!(insert_at(&mut db, 2, &bits(&[1.0]), Some(62)).unwrap(), 2);
    assert_eq!(db.segments[0], sealed);
    assert_eq!((db.segments[1].m, db.segments[1].node_count), (8, 1));
}

#[test]
fn inserting_without_a_clock_works_where_it_is_not_looked_at() {
    let mut db = setup(false);
    assert!(matches!(
        insert_at(&mut db, 1, &bits(&[1.0]), None),
        Err(Error::ClockBeforeEpoch)
    ));
    assert!(db.segments.is_empty() && db.changes.is_empty());
    insert(&mut db, 1, &bits(&[1.0])).unwrap();
    assert!(db.segments[0].created_at > 0);
    assert_eq!(insert_at(&mut db, 2, &bits(&[1.0]), None).unwrap(), 1);
    assert_eq!(db.segments[0].node_count, 2);
}

#[test]
fn a_vector_of_another_length_is_refused() {
    let mut db = setup(false);
    match store_embedding(&mut db, 1, &bytes(&[1.0, 2.0]), "model", 3) {
        Err(Error::VectorLength { bytes, dimension, expected }) => {
            assert_eq!((bytes, dimension, expected), (8, 3, 12));
        }
        _ => panic!("stored"),
    }
    assert!(db.models.is_empty() && db.segments.is_empty() && db.changes.is_empty());
}

#[test]
fn a_stored_embedding_is_read_back() {
    let mut db = setup(true);
    store(&mut db, 3, &[1.0, 2.0]);
    store(&mut db, 1, &[3.0, 4.0]);
    store(&mut db, 3, &[5.0, 6.0]);
    let ids: Vec<i64> = db.embeddings.iter().map(|e| e.chunk_id).collect();
    assert_eq!(ids, vec![1, 3]);
    assert_eq!(db.embeddings[1].vector, bytes(&[5.0, 6.0]));
    assert_eq!(db.embeddings[1].segment_id, 1);
    assert_eq!(db.models.len(), 1);
    assert_eq!((db.models[0].id, db.models[0].dimension, db.models[0].generated_at), (1, 2, 5));
    assert_eq!(db.segments[0].node_count, 3);
    assert_eq!(
        stats(&db),
        "[{\"segment_id\":1,\"status\":\"appendable\",\"total_nodes\":3,\"live_nodes\":2}]"
    );
}

#[test]
fn a_model_has_one_dimension() {
    let mut db = setup(false);
    store(&mut db, 1, &[1.0]);
    store_embedding_at(&mut db, 2, &bytes(&[1.0]), "other", 1, Some(6)).unwrap();
    db.take_changes();
    let r = store_embedding_at(&mut db, 3, &bytes(&[1.0, 1.0]), "model", 2, Some(6));
    match r {
        Err(Error::ModelDimension { dimension, registered }) => {
            assert_eq!((dimension, registered), (2, 1));
        }
        _ => panic!("stored"),
    }
    assert!(db.changes.is_empty());
    assert_eq!(db.segments[0].node_count, 2);
    store(&mut db, 4, &[1.0]);
    let models: Vec<(i64, &str, i64)> =
        db.models.iter().map(|m| (m.id, m.model_name.as_str(), m.dimension)).collect();
    assert_eq!(models, vec![(1, "model", 1), (2, "other", 1)]);
    let used: Vec<(i64, i64)> =
        db.embeddings.iter().map(|e| (e.chunk_id, e.embedding_model_id)).collect();
    assert_eq!(used, vec![(1, 1), (2, 2), (4, 1)]);
}

#[test]
fn a_chunk_that_does_not_exist_is_refused_where_foreign_keys_are_enforced() {
    let mut db = setup(true);
    assert!(chunk_exists(&db, 9) && !chunk_exists(&db, 10));
    let r = store_embedding_at(&mut db, 10, &bytes(&[1.0]), "model", 1, Some(5));
    assert!(matches!(r, Err(Error::ForeignKey)));
    assert!(db.embeddings.is_empty());
    assert_eq!((db.models.len(), db.segments[0].node_count), (1, 1));
    let mut db = setup(false);
    store_embedding_at(&mut db, 10, &bytes(&[1.0]), "model", 1, Some(5)).unwrap();
    assert_eq!(db.embeddings.len(), 1);
}

#[test]
fn storing_looks_at_the_clock_only_for_new_rows() {
    let mut db = setup(false);
    let r = store_embedding_at(&mut db, 1, &bytes(&[1.0]), "model", 1, None);
    assert!(matches!(r, Err(Error::ClockBeforeEpoch)));
    assert!(db.models.is_empty() && db.changes.is_empty());
    store(&mut db, 1, &[1.0]);
    store_embedding_at(&mut db, 2, &bytes(&[2.0]), "model", 1, None).unwrap();
    let r = store_embedding_at(&mut db, 3, &bytes(&[2.0]), "new", 1, None);
    assert!(matches!(r, Err(Error::ClockBeforeEpoch)));
    assert_eq!(db.embeddings.len(), 2);
}

#[test]
fn what_cannot_be_stored_is_told_beforehand() {
    let mut db = setup(false);
    assert!(check_store(&db, "model", 0));
    assert!(!check_store(&db, "model", -1));
    assert!(!check_store(&db, "model", i64::MAX));
    store(&mut db, 1, &[1.0]);
    db.models[0].id = i64::MAX;
    assert!(check_store(&db, "model", 1));
    assert!(!check_store(&db, "new", 1));
    db.models[0].id = 1;
    db.segments[0].id = i64::MAX;
    assert!(check_store(&db, "model", 1));
    db.segments[0].status = SegmentStatus::Sealed;
    assert!(!check_store(&db, "model", 1));
}

#[test]
fn the_nearest_come_first_and_ties_stay_in_order() {
    let c = vec![
        (1, 2.0f32.to_bits()),
        (2, 0.5f32.to_bits()),
        (3, 2.0f32.to_bits()),
        (4, (-0.0f32).to_bits()),
        (5, 0.0f32.to_bits()),
    ];
    let ids = |r: Vec<(i64, u32)>| r.into_iter().map(|x| x.0).collect::<Vec<i64>>();
    assert_eq!(ids(closest(c.clone(), 9).unwrap()), vec![4, 5, 2, 1, 3]);
    assert_eq!(ids(closest(c.clone(), 2).unwrap()), vec![4, 5]);
    assert!(closest(c, 0).unwrap().is_empty());
    assert!(closest(vec![], 3).unwrap().is_empty());
}

#[test]
fn distances_that_are_not_numbers_cannot_be_compared() {
    let nan = f32::NAN.to_bits();
    assert!(matches!(
        closest(vec![(1, nan), (2, 0)], 2),
        Err(Error::NotComparable)
    ));
    assert_eq!(closest(vec![(1, nan)], 2).unwrap(), vec![(1, nan)]);
}

#[test]
fn a_search_takes_every_named_chunk_once_and_only_with_an_embedding() {
    let mut db = setup(true);
    store(&mut db, 2, &[5.0]);
    store(&mut db, 7, &[1.0]);
    store(&mut db, 4, &[2.0]);
    let found = search(&db, &bits(&[1.5]), 10, everything, difference).unwrap();
    assert_eq!(
        found,
        vec![(4, 0.5f32.to_bits()), (7, 0.5f32.to_bits()), (2, 3.5f32.to_bits())]
    );
    assert_eq!(search(&db, &bits(&[1.5]), 1, everything, difference).unwrap().len(), 1);
    let none = |_: i64, _: &Vec<u32>, _: usize, _: usize| Vec::new();
    assert!(search(&db, &bits(&[1.5]), 10, none, difference).unwrap().is_empty());
}

#[test]
fn a_search_asks_every_segment_with_the_settings() {
    let mut db = setup(true);
    store(&mut db, 1, &[1.0]);
    store(&mut db, 2, &[2.0]);
    let mut second = db.segments[0];
    db.segments[0].status = SegmentStatus::Sealed;
    second.id = 2;
    db.segments.push(second);
    set(&mut db, "ef_search", "33");
    let by_segment = |segment: i64, query: &Vec<u32>, top_k: usize, ef: usize| {
        assert_eq!((query.len(), top_k, ef), (1, 4, 33));
        vec![segment]
    };
    let found = search(&db, &bits(&[1.0]), 4, by_segment, difference).unwrap();
    assert_eq!(found.into_iter().map(|x| x.0).collect::<Vec<i64>>(), vec![1, 2]);
}

#[test]
fn live_vectors_are_those_of_the_named_chunks() {
    let mut db = setup(true);
    store(&mut db, 2, &[5.0, 6.0]);
    store(&mut db, 7, &[1.0, 2.0]);
    let r = current_vectors_for_chunks(&db, &vec![7, 3, 7]);
    assert_eq!(r.len(), 1);
    assert_eq!((r[0].chunk_id, r[0].vector.clone()), (7, bits(&[1.0, 2.0])));
    assert!(current_vectors_for_chunks(&db, &vec![]).is_empty());
}

#[test]
fn candidates_leave_out_the_chunk_itself() {
    let mut db = setup(true);
    store(&mut db, 1, &[1.0]);
    store(&mut db, 2, &[2.0]);
    store(&mut db, 3, &[4.0]);
    set(&mut db, "top_k", "2");
    let c = candidates(&db, 2, &bits(&[2.0]), everything, difference).unwrap();
    assert_eq!(c, vec![(1, 1.0f32.to_bits()), (3, 2.0f32.to_bits())]);
    set(&mut db, "top_k", "1");
    let c = candidates(&db, 2, &bits(&[2.0]), everything, difference).unwrap();
    assert_eq!(c, vec![(1, 1.0f32.to_bits())]);
    set(&mut db, "top_k", "18446744073709551615");
    let c = candidates(&db, 3, &bits(&[4.0]), everything, difference).unwrap();
    assert_eq!(c.iter().map(|x| x.0).collect::<Vec<i64>>(), vec![2, 1]);
    set(&mut db, "top_k", "2");
    let c = get_candidates(&db, 2, None, everything, difference).unwrap();
    assert_eq!(c, vec![(1, 1.0f32.to_bits()), (3, 2.0f32.to_bits())]);
    let c = get_candidates(&db, 2, Some(1), everything, difference).unwrap();
    assert_eq!(c, vec![(1, 1.0f32.to_bits())]);
    assert!(get_candidates(&db, 2, Some(0), everything, difference).unwrap().is_empty());
    assert_eq!(keep_others(&vec![(1, 0), (2, 0), (1, 5)], 1), vec![(2, 0)]);
}

#[test]
fn candidates_need_an_embedding() {
    let mut db = setup(true);
    store(&mut db, 1, &[1.0]);
    match get_candidates(&db, 2, None, everything, difference) {
        Err(Error::NoEmbedding { chunk_id }) => assert_eq!(chunk_id, 2),
        _ => panic!("found"),
    }
}

#[test]
fn the_number_of_results_is_the_callers_or_that_of_the_settings() {
    let mut db = setup(true);
    assert_eq!(top_count(&db, None), 16);
    assert_eq!(top_count(&db, Some(3)), 3);
    assert_eq!(top_count(&db, Some(-1)), usize::MAX);
    set(&mut db, "top_k", "4");
    assert_eq!(top_count(&db, None), 4);
}

#[test]
fn a_rebuild_numbers_segments_from_one_and_counts_live_nodes() {
    let mut db = setup(true);
    store(&mut db, 1, &[1.0]);
    store(&mut db, 1, &[2.0]);
    store(&mut db, 3, &[3.0]);
    db.segments[0].id = 40;
    for e in db.embeddings.iter_mut() {
        e.segment_id = 40;
    }
    db.take_changes();
    assert_eq!(rebuild_at(&mut db, Some(9)).unwrap(), 2);
    assert_eq!(
        stats(&db),
        "[{\"segment_id\":1,\"status\":\"appendable\",\"total_nodes\":2,\"live_nodes\":2}]"
    );
    assert!(db.embeddings.iter().all(|e| e.segment_id == 1));
    let changes = db.take_changes();
    assert!(matches!(changes[0], Change::Savepoint(Scope::RebuildGraph)));
    assert!(matches!(changes[1], Change::ClearSegments));
    assert!(matches!(changes[changes.len() - 1], Change::Release(Scope::RebuildGraph)));
    assert_eq!(changes.len(), 10);
}

#[test]
fn a_rebuild_fills_one_segment_after_the_other() {
    let mut db = Database::new(false);
    create_schema(&mut db);
    let count = SEGMENT_MAX_SIZE + 3;
    for chunk_id in 1..=count {
        db.embeddings.push(Embedding {
            chunk_id,
            embedding_model_id: 1,
            segment_id: 99,
            vector: bytes(&[chunk_id as f32]),
        });
    }
    assert_eq!(rebuild_at(&mut db, Some(9)).unwrap(), count);
    assert_eq!(db.segments.len(), 2);
    assert_eq!(db.segments[0].status, SegmentStatus::Sealed);
    assert_eq!((db.segments[0].node_count, db.segments[1].node_count), (SEGMENT_MAX_SIZE, 3));
    for (i, e) in db.embeddings.iter().enumerate() {
        assert_eq!(e.segment_id, i as i64 / SEGMENT_MAX_SIZE + 1);
    }
    let plan = reload(&db);
    assert_eq!(plan.len(), 2);
    assert!(matches!(plan[0], Load::Stored { segment_id: 1 }));
    match &plan[1] {
        Load::Anew { segment_id, m, ef_construction, nodes } => {
            assert_eq!((*segment_id, *m, *ef_construction), (2, 16, 200));
            let ids: Vec<i64> = nodes.iter().map(|n| n.chunk_id).collect();
            assert_eq!(ids, vec![count - 2, count - 1, count]);
            assert_eq!(nodes[0].vector, bits(&[(count - 2) as f32]));
        }
        _ => panic!("not made anew"),
    }
}

#[test]
fn a_rebuild_without_embeddings_needs_no_clock() {
    let mut db = setup(true);
    assert_eq!(rebuild_at(&mut db, None).unwrap(), 0);
    store(&mut db, 1, &[1.0]);
    let before = db.changes.len();
    assert!(matches!(rebuild_at(&mut db, None), Err(Error::ClockBeforeEpoch)));
    assert_eq!(db.changes.len(), before);
    assert_eq!(db.segments.len(), 1);
}

#[test]
fn reloading_skips_sealed_segments_without_a_dump() {
    let mut db = setup(true);
    store(&mut db, 1, &[1.0]);
    assert_eq!(reload(&db).len(), 1);
    db.segments[0].status = SegmentStatus::Sealed;
    assert!(reload(&db).is_empty());
    db.segments[0].has_index = true;
    assert!(matches!(reload(&db)[0], Load::Stored { segment_id: 1 }));
}

#[test]
fn stats_list_every_segment() {
    let mut db = setup(true);
    assert_eq!(stats(&db), "[]");
    store(&mut db, 1, &[1.0]);
    let mut other = db.segments[0];
    db.segments[0].status = SegmentStatus::Sealed;
    other.id = 7;
    other.node_count = 12;
    db.segments.push(other);
    assert_eq!(
        stats(&db),
        "[{\"segment_id\":1,\"status\":\"sealed\",\"total_nodes\":1,\"live_nodes\":1},\
         {\"segment_id\":7,\"status\":\"appendable\",\"total_nodes\":12,\"live_nodes\":0}]"
    );
}

#[test]
fn candidates_are_written_as_json() {
    assert_eq!(candidates_to_json(&vec![]), "[]");
    assert_eq!(
        candidates_to_json(&vec![(1, 0.5f32.to_string()), (-2, 0.0f32.to_string())]),
        "[{\"chunk_id\":1,\"distance\":0.5},{\"chunk_id\":-2,\"distance\":0}]"
    );
}

#[test]
fn a_dump_is_a_length_a_graph_and_data() {
    let graph: Vec<u8> = (0..300u32).map(|i| i as u8).collect();
    let data = vec![9, 8, 7];
    let blob = dump_to_blob(&graph, &data);
    assert_eq!(&blob[..4], &300u32.to_le_bytes());
    assert_eq!(blob.len(), 4 + 300 + 3);
    assert!(is_framed(&blob));
    assert_eq!(load_from_blob(&blob), (graph, data));
    assert_eq!(dump_to_blob(&vec![], &vec![]), vec![0, 0, 0, 0]);
}

#[test]
fn a_dump_that_is_cut_short_is_told() {
    assert!(!is_framed(&vec![]));
    assert!(!is_framed(&vec![0, 0, 0]));
    assert!(is_framed(&vec![0, 0, 0, 0]));
    assert!(!is_framed(&vec![2, 0, 0, 0, 1]));
    assert!(is_framed(&vec![1, 0, 0, 0, 1]));
    assert!(!is_framed(&vec![255, 255, 255, 255, 1]));
}

#[test]
fn live_nodes_never_exceed_the_total_and_sum_to_the_embeddings() {
    let mut db = setup(false);
    for chunk_id in [1, 2, 1, 3, 2] {
        store(&mut db, chunk_id, &[chunk_id as f32]);
    }
    let live = |db: &Database, id: i64| {
        db.embeddings.iter().filter(|e| e.segment_id == id).count() as i64
    };
    assert_eq!((live(&db, 1), db.segments[0].node_count), (3, 5));
    rebuild_at(&mut db, Some(9)).unwrap();
    assert_eq!((live(&db, 1), db.segments[0].node_count), (3, 3));
    let sum: i64 = db.segments.iter().map(|s| live(&db, s.id)).sum();
    assert_eq!(sum as usize, db.embeddings.len());
    assert!(db.segments.iter().all(|s| live(&db, s.id) <= s.node_count));
    assert!(db.segments.iter().all(|s| s.node_count <= SEGMENT_MAX_SIZE as i64));
}

#[test]
fn a_registered_dimension_is_used_even_beside_another() {
    let mut db = setup(false);
    for (id, dimension) in [(1, 3), (2, 2)] {
        db.models.push(Model {
            id,
            model_name: "model".to_string(),
            dimension,
            generated_at: 0,
        });
    }
    store(&mut db, 1, &[1.0, 2.0, 3.0]);
    store(&mut db, 2, &[1.0, 2.0]);
    let used: Vec<i64> = db.embeddings.iter().map(|e| e.embedding_model_id).collect();
    assert_eq!(used, vec![1, 2]);
    let r = store_embedding_at(&mut db, 3, &bytes(&[1.0]), "model", 1, Some(6));
    assert!(matches!(r, Err(Error::ModelDimension { dimension: 1, registered: 3 })));
    assert_eq!(db.models.len(), 2);
}

#[test]
fn a_full_segment_is_dumped_with_its_last_vector_and_its_own_parameters() {
    let mut db = setup(false);
    store(&mut db, 1, &[1.0]);
    set(&mut db, "m", "5");
    set(&mut db, "ef_construction", "7");
    db.segments[0].node_count = SEGMENT_MAX_SIZE - 1;
    db.take_changes();
    assert_eq!(insert_at(&mut db, 2, &bits(&[2.0]), Some(8)).unwrap(), 1);
    let changes = db.take_changes();
    assert_eq!(changes.len(), 3);
    match &changes[0] {
        Change::AddNode { segment_id: 1, m: 16, ef_construction: 200, chunk_id: 2, vector } => {
            assert_eq!(*vector, bits(&[2.0]));
        }
        _ => panic!("no node"),
    }
    assert!(matches!(
        &changes[1],
        Change::SetNodeCount { segment_id: 1, node_count } if *node_count == SEGMENT_MAX_SIZE
    ));
    assert!(matches!(&changes[2], Change::Seal { segment_id: 1, sealed_at: 8 }));
    assert_eq!(insert_at(&mut db, 3, &bits(&[3.0]), Some(9)).unwrap(), 2);
    let changes = db.take_changes();
    assert_eq!(changes.len(), 3);
    assert!(matches!(&changes[0], Change::InsertSegment(s) if s.m == 5 && s.id == 2));
    assert!(matches!(
        &changes[1],
        Change::AddNode { segment_id: 2, m: 5, ef_construction: 7, .. }
    ));
    assert_eq!(db.segments[0].status, SegmentStatus::Sealed);
    assert_eq!((db.segments[1].status, db.segments[1].node_count), (SegmentStatus::Appendable, 1));
}

#[test]
fn a_second_rebuild_changes_no_statistics() {
    let mut db = setup(false);
    for chunk_id in [1, 2, 1] {
        store(&mut db, chunk_id, &[chunk_id as f32]);
    }
    assert_eq!(rebuild_at(&mut db, Some(9)).unwrap(), 2);
    let before = stats(&db);
    assert_eq!(rebuild_at(&mut db, Some(10)).unwrap(), 2);
    assert_eq!(stats(&db), before);
    let scopes = |changes: &Vec<Change>| {
        changes
            .iter()
            .filter(|c| matches!(c, Change::Savepoint(_) | Change::Release(_)))
            .count()
    };
    db.take_changes();
    rebuild_at(&mut db, Some(11)).unwrap();
    let changes = db.take_changes();
    assert!(matches!(changes[0], Change::Savepoint(Scope::RebuildGraph)));
    assert!(matches!(changes[changes.len() - 1], Change::Release(Scope::RebuildGraph)));
    assert_eq!(scopes(&changes), 2);
}
