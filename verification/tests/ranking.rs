//! Relations, and searches expanded over them.

use semanta::error::Error;
use semanta::graph::store_relation;
use semanta::ranking::expand::{
    expand_and_rank, hop_decay, relation_neighbours, top_results, Origin, RankedChunk,
};
use semanta::ranking::{plain_results, results_to_json, search};
use semanta::storage::schema::create_schema;
use semanta::storage::tables::{Chunk, Embedding, Segment, SegmentStatus};
use semanta::storage::Database;

fn setup(foreign_keys: bool) -> Database {
    let mut db = Database::new(foreign_keys);
    create_schema(&mut db);
    for id in 1..=9 {
        db.chunks.push(Chunk { id, document_id: 1, text: String::new(), position: id, version: 1 });
    }
    db
}

fn set(db: &mut Database, key: &str, value: &str) {
    for row in db.settings.iter_mut() {
        if row.key == key {
            row.value = value.to_string();
        }
    }
}

fn relate(db: &mut Database, from: i64, to: i64, kind: Option<&str>, confidence: Option<f64>) {
    assert!(store_relation(db, from, to, kind, confidence.map(f64::to_bits)).unwrap());
}

fn similarity(distance: u32) -> u32 {
    let d = f32::from_bits(distance);
    (1.0 - (d * d) / 2.0).to_bits()
}

fn combine(so_far: u32, confidence: u64) -> u32 {
    (f32::from_bits(so_far) * f64::from_bits(confidence) as f32).to_bits()
}

fn score(anchor: u32, confidence: u32, decay: u64, hop: usize) -> u32 {
    let decay = f64::from_bits(decay) as f32;
    (f32::from_bits(anchor) * f32::from_bits(confidence) * decay.powi(hop as i32)).to_bits()
}

fn parse(s: &str) -> Option<u64> {
    s.parse::<f64>().ok().map(f64::to_bits)
}

fn rank(db: &Database, anchors: &[(i64, f32)], top_k: usize) -> Vec<(i64, f32, Origin)> {
    let anchors: Vec<(i64, u32)> = anchors.iter().map(|a| (a.0, a.1.to_bits())).collect();
    match expand_and_rank(db, &anchors, top_k, similarity, combine, score, parse) {
        Ok(r) => r.iter().map(|x| (x.chunk_id, f32::from_bits(x.score), x.origin)).collect(),
        Err(e) => panic!("{}", e.message()),
    }
}

#[test]
fn a_relation_is_stored_once_per_pair() {
    let mut db = setup(true);
    relate(&mut db, 1, 2, Some("continues"), Some(0.9));
    relate(&mut db, 2, 1, None, None);
    relate(&mut db, 1, 2, Some("requires"), None);
    assert_eq!(db.relations.len(), 2);
    let r = &db.relations[1];
    assert_eq!((r.from_chunk_id, r.to_chunk_id, r.confidence), (1, 2, None));
    assert_eq!(r.relation_type.as_deref(), Some("requires"));
    assert_eq!(db.relations[0].relation_type, None);
}

#[test]
fn a_confidence_that_is_not_a_number_is_none() {
    let mut db = setup(true);
    relate(&mut db, 1, 2, Some("r"), Some(f64::NAN));
    assert_eq!(db.relations[0].confidence, None);
    relate(&mut db, 1, 2, Some("r"), Some(f64::INFINITY));
    assert_eq!(db.relations[0].confidence, Some(f64::INFINITY.to_bits()));
}

#[test]
fn a_relation_of_a_missing_chunk_is_refused_where_foreign_keys_are_enforced() {
    let mut db = setup(true);
    assert!(matches!(store_relation(&mut db, 1, 99, None, None), Err(Error::ForeignKey)));
    assert!(matches!(store_relation(&mut db, 99, 1, None, None), Err(Error::ForeignKey)));
    assert!(db.relations.is_empty());
    let mut db = setup(false);
    relate(&mut db, 1, 99, None, None);
    assert_eq!(db.relations.len(), 1);
}

#[test]
fn neighbours_are_found_in_both_directions_and_need_a_type() {
    let mut db = setup(true);
    relate(&mut db, 1, 2, Some("a"), Some(0.25));
    relate(&mut db, 3, 1, Some("b"), None);
    relate(&mut db, 1, 4, None, Some(1.0));
    relate(&mut db, 5, 6, Some("a"), None);
    let show = |allowed: Option<Vec<String>>| -> Vec<(i64, String, f64)> {
        relation_neighbours(&db, 1, &allowed)
            .into_iter()
            .map(|n| (n.chunk_id, n.relation_type, f64::from_bits(n.confidence)))
            .collect()
    };
    assert_eq!(show(None), vec![(2, "a".to_string(), 0.25), (3, "b".to_string(), 1.0)]);
    assert_eq!(show(Some(vec!["b".to_string(), "c".to_string()])), vec![(3, "b".to_string(), 1.0)]);
    assert!(show(Some(vec!["c".to_string()])).is_empty());
}

#[test]
fn a_neighbour_is_scored_by_anchor_confidence_and_decay() {
    let mut db = setup(true);
    relate(&mut db, 1, 2, Some("continues"), Some(0.5));
    let r = rank(&db, &[(1, 0.0)], 10);
    assert_eq!(r, vec![(1, 1.0, Origin::Ann), (2, 0.25, Origin::Graph)]);
    assert_eq!(rank(&db, &[(1, 0.0)], 1), vec![(1, 1.0, Origin::Ann)]);
}

#[test]
fn a_result_of_the_graph_says_why() {
    let mut db = setup(true);
    set(&mut db, "max_hops", "2");
    relate(&mut db, 2, 1, Some("first"), None);
    relate(&mut db, 2, 3, Some("second"), Some(0.5));
    let r = expand_and_rank(&db, &vec![(1, 0)], 10, similarity, combine, score, parse);
    let r = match r {
        Ok(r) => r,
        Err(e) => panic!("{}", e.message()),
    };
    let shown: Vec<(i64, f32, Option<&str>, Option<i64>)> = r
        .iter()
        .map(|x| (x.chunk_id, f32::from_bits(x.score), x.relation_type.as_deref(), x.hop_count))
        .collect();
    assert_eq!(
        shown,
        vec![
            (1, 1.0, None, None),
            (2, 0.5, Some("first"), Some(1)),
            (3, 0.125, Some("second"), Some(2)),
        ]
    );
}

#[test]
fn hops_beyond_the_setting_are_not_taken() {
    let mut db = setup(true);
    relate(&mut db, 1, 2, Some("r"), None);
    relate(&mut db, 2, 3, Some("r"), None);
    assert_eq!(rank(&db, &[(1, 0.0)], 10).len(), 2);
    set(&mut db, "max_hops", "0");
    assert_eq!(rank(&db, &[(1, 0.0)], 10), vec![(1, 1.0, Origin::Ann)]);
    set(&mut db, "max_hops", "2");
    assert_eq!(rank(&db, &[(1, 0.0)], 10).len(), 3);
}

#[test]
fn the_best_way_to_a_chunk_wins_and_no_chunk_comes_twice() {
    let mut db = setup(true);
    relate(&mut db, 1, 3, Some("weak"), Some(0.25));
    relate(&mut db, 2, 3, Some("strong"), Some(1.0));
    relate(&mut db, 1, 2, Some("r"), None);
    let r = rank(&db, &[(1, 0.0), (2, 1.0)], 10);
    assert_eq!(
        r,
        vec![(1, 1.0, Origin::Ann), (2, 0.5, Origin::Ann), (3, 0.25, Origin::Graph)]
    );
    let r = rank(&db, &[(1, 0.0), (2, 1.25)], 10);
    assert_eq!(r[1], (2, 0.5, Origin::Graph));
}

#[test]
fn only_the_allowed_types_are_followed() {
    let mut db = setup(true);
    relate(&mut db, 1, 2, Some("a"), None);
    relate(&mut db, 1, 3, Some("b"), None);
    relate(&mut db, 1, 4, None, None);
    set(&mut db, "expand_relation_types", " b ,");
    let r = rank(&db, &[(1, 0.0)], 10);
    assert_eq!(r.iter().map(|x| x.0).collect::<Vec<i64>>(), vec![1, 3]);
}

#[test]
fn scores_that_are_not_numbers_cannot_be_ranked() {
    let mut db = setup(true);
    relate(&mut db, 1, 2, Some("r"), None);
    let r = expand_and_rank(
        &db,
        &vec![(1, f32::NAN.to_bits())],
        10,
        similarity,
        combine,
        score,
        parse,
    );
    assert!(matches!(r, Err(Error::NotComparable)));
    let alone = RankedChunk {
        chunk_id: 1,
        score: f32::NAN.to_bits(),
        origin: Origin::Ann,
        relation_type: None,
        hop_count: None,
    };
    assert!(matches!(top_results(vec![alone], 5), Ok(r) if r.len() == 1));
}

fn searchable() -> Database {
    let mut db = setup(true);
    db.segments.push(Segment {
        id: 1,
        status: SegmentStatus::Appendable,
        m: 16,
        ef_construction: 200,
        node_count: 2,
        has_index: false,
        created_at: 0,
        sealed_at: None,
    });
    for (chunk_id, x) in [(1, 1.0f32), (2, 2.0)] {
        db.embeddings.push(Embedding {
            chunk_id,
            embedding_model_id: 1,
            segment_id: 1,
            vector: x.to_le_bytes().to_vec(),
        });
    }
    relate(&mut db, 2, 5, Some("r"), None);
    db
}

fn run(db: &Database, top_k: Option<i64>, expand: Option<bool>) -> Vec<(i64, f32)> {
    let r = search(
        db,
        &1.0f32.to_le_bytes().to_vec(),
        top_k,
        expand,
        |_: i64, _: &Vec<u32>, _: usize, _: usize| vec![1, 2, 3],
        |a: &Vec<u32>, b: &Vec<u32>| {
            (f32::from_bits(a[0]) - f32::from_bits(b[0])).abs().to_bits()
        },
        similarity,
        combine,
        score,
        parse,
    );
    match r {
        Ok(r) => r.iter().map(|x| (x.chunk_id, f32::from_bits(x.score))).collect(),
        Err(e) => panic!("{}", e.message()),
    }
}

#[test]
fn a_search_expands_unless_told_otherwise() {
    let db = searchable();
    let expanded = vec![(1, 1.0), (2, 0.5), (5, 0.25)];
    assert_eq!(run(&db, None, None), expanded);
    assert_eq!(run(&db, Some(9), Some(true)), expanded);
    assert_eq!(run(&db, Some(9), Some(false)), vec![(1, 1.0), (2, 0.5)]);
    assert_eq!(run(&db, Some(1), None), vec![(1, 1.0)]);
    assert!(run(&db, Some(0), None).is_empty());
}

#[test]
fn a_search_decays_as_the_settings_say() {
    let mut db = searchable();
    set(&mut db, "hop_decay", "0.25");
    assert_eq!(run(&db, None, None), vec![(1, 1.0), (2, 0.5), (5, 0.125)]);
}

#[test]
fn without_typed_relations_expanding_changes_nothing() {
    let mut db = searchable();
    relate(&mut db, 2, 5, None, None);
    let plain = vec![(1, 1.0), (2, 0.5)];
    assert_eq!(run(&db, None, None), plain);
    assert_eq!(run(&db, Some(16), Some(true)), plain);
    assert_eq!(run(&db, Some(16), Some(false)), plain);
    relate(&mut db, 2, 5, Some("r"), None);
    set(&mut db, "expand_relation_types", "s,t");
    assert_eq!(run(&db, None, None), plain);
    set(&mut db, "expand_relation_types", "");
    set(&mut db, "max_hops", "0");
    assert_eq!(run(&db, None, None), plain);
}

#[test]
fn candidates_become_results_one_for_one() {
    let r = plain_results(&vec![(4, 0), (2, 1.0f32.to_bits())], similarity);
    let shown: Vec<(i64, f32)> =
        r.iter().map(|x| (x.chunk_id, f32::from_bits(x.score))).collect();
    assert_eq!(shown, vec![(4, 1.0), (2, 0.5)]);
    assert!(r.iter().all(|x| x.origin == Origin::Ann && x.relation_type.is_none()));
}

#[test]
fn the_decay_is_read_from_the_settings() {
    let mut db = setup(true);
    set(&mut db, "hop_decay", "0.25");
    assert_eq!(hop_decay(&db, parse), 0.25f64.to_bits());
    set(&mut db, "hop_decay", "?");
    assert_eq!(hop_decay(&db, parse), 0.5f64.to_bits());
}

#[test]
fn results_are_written_as_json() {
    let results = vec![
        RankedChunk {
            chunk_id: 1,
            score: 0,
            origin: Origin::Ann,
            relation_type: None,
            hop_count: None,
        },
        RankedChunk {
            chunk_id: 22,
            score: 0,
            origin: Origin::Graph,
            relation_type: Some("says \"no\"".to_string()),
            hop_count: Some(3),
        },
    ];
    assert_eq!(
        results_to_json(&results, &vec!["1".to_string(), "0.125".to_string()]),
        "[{\"chunk_id\":1,\"score\":1,\"origin\":\"ann\",\"relation_type\":null,\"hop_count\":null},\
         {\"chunk_id\":22,\"score\":0.125,\"origin\":\"graph\",\
         \"relation_type\":\"says \\\"no\\\"\",\"hop_count\":3}]"
    );
    assert_eq!(results_to_json(&vec![], &vec![]), "[]");
}

#[test]
fn the_score_is_the_best_over_ways_of_several_hops() {
    let mut db = setup(true);
    set(&mut db, "max_hops", "2");
    relate(&mut db, 1, 4, Some("r"), Some(0.1));
    relate(&mut db, 1, 3, Some("r"), Some(1.0));
    relate(&mut db, 3, 4, Some("s"), Some(1.0));
    let r = rank(&db, &[(1, 0.0)], 9);
    assert_eq!(r[0], (1, 1.0, Origin::Ann));
    assert_eq!(r[1], (3, 0.5, Origin::Graph));
    assert_eq!(r[2], (4, 0.25, Origin::Graph));
    assert_eq!(r.len(), 3);
}

#[test]
fn relations_that_are_not_followed_change_no_result() {
    let mut db = setup(true);
    set(&mut db, "expand_relation_types", "r");
    set(&mut db, "max_hops", "2");
    relate(&mut db, 1, 2, Some("r"), Some(0.5));
    let before = rank(&db, &[(1, 0.0)], 9);
    relate(&mut db, 1, 3, None, Some(1.0));
    relate(&mut db, 2, 4, Some("s"), Some(1.0));
    relate(&mut db, 2, 1, None, None);
    assert_eq!(rank(&db, &[(1, 0.0)], 9), before);
    assert_eq!(before.len(), 2);
}

#[test]
fn an_unexpanded_search_ignores_relations() {
    let mut db = searchable();
    let before = run(&db, None, Some(false));
    relate(&mut db, 1, 7, Some("r"), None);
    assert_eq!(run(&db, None, Some(false)), before);
}
