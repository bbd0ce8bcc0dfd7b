//! ANN Engine: which segment a vector is indexed in, and which of the chunks
//! that the index finds are the nearest.

use vstd::prelude::*;

pub mod model;
pub mod persistence;

use crate::ann::model::{
    any_nan, appendable, asked, can_index, candidate_json, closest_of, counted, current, dumped,
    filled_by_one, first_of, found_in, in_segment, indexed, insertion, lemma_current,
    lemma_indexed_wf, lemma_reindexed, lemma_with_target_wf, listed, live, looks_at_clock, measured,
    measures, moved, nearer, node_of, rebuilt, reindexed, reload_plan, replaced, searched,
    segment_json, stats_json, target, time_of, with_target, LoadPlan,
};
use crate::bits::{bytes_to_f32, is_nan, nan, ranks_below};
use crate::document::model::among;
use crate::error::Error;
use crate::order::{arrange, arranged};
use crate::seqs::{
    lemma_filter_empty, lemma_filter_push, lemma_filter_same, lemma_first_absent, lemma_first_at,
};
use crate::storage::references::{
    accepted, keyed_throughout, lemma_accepted_self, lemma_accepted_step, lemma_keyed_chain,
    lemma_keyed_self, lemma_keyed_step,
};
use crate::storage::rows::{lemma_rows_push, position_where};
use crate::storage::settings::{get_usize, usize_setting};
use crate::storage::tables::{
    rows, segment_order, Change, Embedding, EmbeddingRow, Node, Scope, Segment, SegmentStatus,
    Tables,
};
use crate::storage::{
    bracketed, extends, lemma_bracketed, lemma_extends_chain, lemma_extends_self,
    lemma_extends_step, lemma_replays_chain, lemma_replays_step, replays, Database,
};
use crate::text::{lemma_texts_push, push_decimal, push_numeral, texts};
use crate::util::{json_array, json_array_of, unix_timestamp};

verus! {

/// How many nodes a segment takes before it is sealed.
pub const SEGMENT_MAX_SIZE: i64 = 10_000;

/// The segment that takes insertions, by its index.
fn find_appendable(db: &Database) -> (r: Option<usize>)
    ensures
        match r {
            Some(i) => i < db.segments@.len() && current(db@) == Some(db.segments@[i as int]),
            None => current(db@) is None,
        },
{
    let ghost p = appendable();
    let cond = |s: &Segment| -> (b: bool)
        ensures
            b == p(s@),
        { s.status == SegmentStatus::Appendable };
    let found = position_where(&db.segments, cond, Ghost(p));
    proof {
        let s = db@.segments;
        assert forall|k: int| 0 <= k < s.len() implies #[trigger] s[k] == db.segments@[k]@ by {}
        match found {
            Some(i) => {
                lemma_first_at(s, p, i as int);
            },
            None => {
                lemma_first_absent(s, p);
            },
        }
    }
    found
}

/// Tells whether a segment takes insertions.
pub fn segment_open(db: &Database) -> (r: bool)
    ensures
        r == (current(db@) is Some),
{
    find_appendable(db).is_some()
}

/// Tells whether the next insertion looks at the clock.
pub fn index_looks_at_clock(db: &Database) -> (r: bool)
    requires
        db.wf(),
    ensures
        r == looks_at_clock(db@),
{
    match find_appendable(db) {
        Some(i) => {
            proof {
                let k = lemma_current(db@);
                assert(db@.segments[k].node_count < i64::MAX);
            }
            db.segments[i].node_count + 1 >= SEGMENT_MAX_SIZE
        },
        None => true,
    }
}

/// The segment that takes insertions, opened if there is none.
fn current_appendable_segment(db: &mut Database, now: i64) -> (r: Segment)
    requires
        old(db).wf(),
        can_index(old(db)@),
    ensures
        final(db).wf(),
        extends(*old(db), *final(db)),
        accepted(*old(db), *final(db)),
        final(db)@ == with_target(old(db)@, now),
        r == target(old(db)@, now),
        final(db).changes@ == (match current(old(db)@) {
            Some(_) => old(db).changes@,
            None => old(db).changes@.push(Change::InsertSegment(r)),
        }),
{
    proof {
        lemma_extends_self(*old(db), *db);
        lemma_accepted_self(*old(db), *db);
        lemma_with_target_wf(db@, now);
    }
    match find_appendable(db) {
        Some(i) => db.segments[i],
        None => {
            let n = db.segments.len();
            let id: i64 = if n == 0 {
                1
            } else {
                proof {
                    assert(db@.segments.last() == db.segments@[n - 1]@);
                }
                db.segments[n - 1].id + 1
            };
            let row = Segment {
                id,
                status: SegmentStatus::Appendable,
                m: get_usize(db, "m", 16),
                ef_construction: get_usize(db, "ef_construction", 200),
                node_count: 0,
                has_index: false,
                created_at: now,
                sealed_at: None,
            };
            db.insert_segment(row);
            proof {
                lemma_extends_step(*old(db), *old(db), *db, Change::InsertSegment(row));
                lemma_accepted_step(*old(db), *old(db), *db, Change::InsertSegment(row));
            }
            row
        },
    }
}

/// The changes that an insertion into the index records, in order: the segment is
/// opened if there is none, the vector is added to it under its own construction
/// parameters, its node is counted, and the segment is sealed once it is full.
pub open spec fn insertion_recorded(
    t: Tables,
    chunk_id: i64,
    vector: Seq<u32>,
    now: i64,
    c: Seq<Change>,
) -> bool {
    let s = target(t, now);
    let at: int = if current(t) is None {
        1
    } else {
        0
    };
    &&& c.len() == at + 2 + if filled_by_one(s) {
        1int
    } else {
        0int
    }
    &&& at == 1 ==> c[0] == Change::InsertSegment(s)
    &&& c[at] matches Change::AddNode {
        segment_id,
        m,
        ef_construction,
        chunk_id: added,
        vector: components,
    } && segment_id == s.id && m == s.m && ef_construction == s.ef_construction && added == chunk_id
        && components@ == vector
    &&& c[at + 1] == Change::SetNodeCount {
        segment_id: s.id,
        node_count: (s.node_count + 1) as i64,
    }
    &&& filled_by_one(s) ==> c[at + 2] == Change::Seal { segment_id: s.id, sealed_at: now }
}

/// Inserts a vector into the index at a given reading of the clock.
pub fn insert_at(db: &mut Database, chunk_id: i64, vector: &Vec<u32>, clock: Option<i64>) -> (r:
    Result<i64, Error>)
    requires
        old(db).wf(),
        can_index(old(db)@),
    ensures
        final(db).wf(),
        extends(*old(db), *final(db)),
        accepted(*old(db), *final(db)),
        (final(db)@, r) == insertion(old(db)@, chunk_id, vector@, clock),
        r is Ok ==> insertion_recorded(
            old(db)@,
            chunk_id,
            vector@,
            time_of(clock),
            final(db).changes@.skip(old(db).changes@.len() as int),
        ),
        r is Err ==> final(db).changes@ == old(db).changes@,
{
    proof {
        lemma_extends_self(*old(db), *db);
        lemma_accepted_self(*old(db), *db);
    }
    let looks = index_looks_at_clock(db);
    let now: i64 = match clock {
        Some(now) => now,
        None => {
            if looks {
                return Err(Error::ClockBeforeEpoch);
            }
            0
        },
    };
    proof {
        lemma_with_target_wf(db@, now);
        lemma_indexed_wf(db@, chunk_id, vector@, now);
    }
    let ghost t = db@;
    let segment = current_appendable_segment(db, now);
    let ghost d1 = *db;
    let nodes = vector.clone();
    proof {
        assert(nodes@ =~= vector@);
    }
    let ghost added = Change::AddNode {
        segment_id: segment.id,
        m: segment.m,
        ef_construction: segment.ef_construction,
        chunk_id,
        vector: nodes,
    };
    db.add_node(segment.id, segment.m, segment.ef_construction, chunk_id, nodes);
    let ghost d2 = *db;
    let new_count = segment.node_count + 1;
    db.set_node_count(segment.id, new_count);
    let ghost d3 = *db;
    proof {
        lemma_extends_step(*old(db), d1, d2, added);
        lemma_accepted_step(*old(db), d1, d2, added);
        lemma_extends_step(
            *old(db),
            d2,
            d3,
            Change::SetNodeCount { segment_id: segment.id, node_count: new_count },
        );
        lemma_accepted_step(
            *old(db),
            d2,
            d3,
            Change::SetNodeCount { segment_id: segment.id, node_count: new_count },
        );
        assert forall|i: int, j: int|
            #![trigger d3@.segments[i], d3@.segments[j]]
            0 <= i < j < d3@.segments.len() implies segment_order()(
            d3@.segments[i],
            d3@.segments[j],
        ) by {
            assert(segment_order()(d1@.segments[i], d1@.segments[j]));
        }
    }
    if new_count >= SEGMENT_MAX_SIZE {
        db.seal(segment.id, now);
        proof {
            lemma_extends_step(
                *old(db),
                d3,
                *db,
                Change::Seal { segment_id: segment.id, sealed_at: now },
            );
            lemma_accepted_step(
                *old(db),
                d3,
                *db,
                Change::Seal { segment_id: segment.id, sealed_at: now },
            );
        }
    }
    proof {
        let u = d1@.segments;
        let want = u.map_values(replaced(counted(segment, now)));
        let i0 = choose|i: int| 0 <= i < u.len() && #[trigger] u[i] == segment;
        assert forall|i: int| 0 <= i < u.len() implies db@.segments[i] == want[i] by {
            if i < i0 {
                assert(segment_order()(u[i], u[i0]));
            } else if i0 < i {
                assert(segment_order()(u[i0], u[i]));
            }
        }
        assert(db@.segments =~= want);
        assert(db@.dumps =~= indexed(t, chunk_id, vector@, now).dumps);
        assert(db@ == indexed(t, chunk_id, vector@, now));
        assert(insertion_recorded(
            t,
            chunk_id,
            vector@,
            now,
            db.changes@.skip(old(db).changes@.len() as int),
        ));
    }
    Ok(segment.id)
}

/// Inserts a vector into the index: into the segment that takes insertions, which
/// is opened if there is none and sealed once it is full.
pub fn insert(db: &mut Database, chunk_id: i64, vector: &Vec<u32>) -> (r: Result<i64, Error>)
    requires
        old(db).wf(),
        can_index(old(db)@),
    ensures
        final(db).wf(),
        extends(*old(db), *final(db)),
        accepted(*old(db), *final(db)),
        exists|clock: Option<i64>|
            {
                &&& (final(db)@, r) == #[trigger] insertion(old(db)@, chunk_id, vector@, clock)
                &&& r is Ok ==> insertion_recorded(
                    old(db)@,
                    chunk_id,
                    vector@,
                    time_of(clock),
                    final(db).changes@.skip(old(db).changes@.len() as int),
                )
            },
        r is Err ==> final(db).changes@ == old(db).changes@,
{
    insert_at(db, chunk_id, vector, unix_timestamp())
}

/// A chunk with its vector.
pub struct ChunkVector {
    pub chunk_id: i64,
    pub vector: Vec<u32>,
}

impl View for ChunkVector {
    type V = Node;

    open spec fn view(&self) -> Node {
        Node { chunk_id: self.chunk_id, vector: self.vector@ }
    }
}

/// Tells whether a number is in a list.
fn listed_in(x: i64, ids: &Vec<i64>) -> (r: bool)
    ensures
        r == ids@.contains(x),
{
    let mut i: usize = 0;
    while i < ids.len()
        invariant
            i <= ids@.len(),
            forall|k: int| 0 <= k < i ==> ids@[k] != x,
        decreases ids@.len() - i,
    {
        if ids[i] == x {
            return true;
        }
        i += 1;
    }
    false
}

/// The stored vectors that the condition holds of.
fn vectors_where<F: Fn(&Embedding) -> bool>(
    db: &Database,
    cond: F,
    Ghost(p): Ghost<spec_fn(EmbeddingRow) -> bool>,
) -> (r: Vec<ChunkVector>)
    requires
        forall|e: &Embedding| call_requires(cond, (e,)),
        forall|e: &Embedding, b: bool| call_ensures(cond, (e,), b) ==> b == p(e@),
    ensures
        rows(r@) == db@.embeddings.filter(p).map_values(|e: EmbeddingRow| node_of(e)),
{
    let mut r: Vec<ChunkVector> = Vec::new();
    let mut i: usize = 0;
    let ghost all = db@.embeddings;
    let ghost f = |e: EmbeddingRow| node_of(e);
    proof {
        assert(all.take(0) =~= Seq::empty());
        lemma_filter_empty(p);
        assert(rows(r@) =~= all.take(0).filter(p).map_values(f));
    }
    while i < db.embeddings.len()
        invariant
            i <= db.embeddings@.len(),
            all == db@.embeddings,
            f == (|e: EmbeddingRow| node_of(e)),
            forall|e: &Embedding| call_requires(cond, (e,)),
            forall|e: &Embedding, b: bool| call_ensures(cond, (e,), b) ==> b == p(e@),
            rows(r@) == all.take(i as int).filter(p).map_values(f),
        decreases db.embeddings@.len() - i,
    {
        let ghost e = all[i as int];
        proof {
            assert(e == db.embeddings@[i as int]@);
            assert(all.take(i + 1) =~= all.take(i as int).push(e));
            lemma_filter_push(all.take(i as int), e, p);
        }
        if cond(&db.embeddings[i]) {
            let entry = ChunkVector {
                chunk_id: db.embeddings[i].chunk_id,
                vector: bytes_to_f32(&db.embeddings[i].vector),
            };
            proof {
                lemma_rows_push(r@, entry);
                assert(all.take(i as int).filter(p).push(e).map_values(f) =~= all.take(
                    i as int,
                ).filter(p).map_values(f).push(node_of(e)));
            }
            r.push(entry);
        }
        i += 1;
    }
    proof {
        assert(all.take(all.len() as int) =~= all);
    }
    r
}

/// The stored vectors of those of the given chunks that have one. A chunk without
/// one has been deleted, and is left out.
pub fn current_vectors_for_chunks(db: &Database, chunk_ids: &Vec<i64>) -> (r: Vec<ChunkVector>)
    ensures
        rows(r@) == live(db@, among(chunk_ids@)),
{
    let ghost wanted = among(chunk_ids@);
    let ghost p = |e: EmbeddingRow| wanted(e.chunk_id);
    let cond = |e: &Embedding| -> (b: bool)
        ensures
            b == p(e@),
        { listed_in(e.chunk_id, chunk_ids) };
    vectors_where(db, cond, Ghost(p))
}

/// The candidates at the smallest distances, the nearest first.
pub fn closest(candidates: Vec<(i64, u32)>, top_k: usize) -> (r: Result<Vec<(i64, u32)>, Error>)
    ensures
        listed(r) == closest_of(candidates@, top_k),
{
    if candidates.len() >= 2 {
        let mut i: usize = 0;
        while i < candidates.len()
            invariant
                i <= candidates@.len(),
                candidates@.len() >= 2,
                forall|k: int| 0 <= k < i ==> !is_nan((#[trigger] candidates@[k]).1),
            decreases candidates@.len() - i,
        {
            if nan(candidates[i].1) {
                return Err(Error::NotComparable);
            }
            i += 1;
        }
    }
    let ghost before = nearer();
    let cond = |a: &(i64, u32), b: &(i64, u32)| -> (c: bool)
        ensures
            c == before(a@, b@),
        { ranks_below(a.1, b.1) };
    let mut sorted = arrange(candidates, cond, Ghost(before));
    proof {
        assert(rows(candidates@) =~= candidates@);
        assert(rows(sorted@) =~= sorted@);
        assert(!(candidates@.len() >= 2 && any_nan(candidates@)));
    }
    let ghost all = sorted@;
    sorted.truncate(top_k);
    proof {
        assert(all == arranged(candidates@, nearer()));
        assert(sorted@ =~= first_of(all, top_k));
    }
    Ok(sorted)
}

/// The chunks nearest to a query, with their distances. `nearest` answers which
/// chunks the index of a segment holds near a vector; what it says of their
/// distances is not asked for, since a node of the index may be out of date.
/// Every chunk that it names is taken once, with its stored vector, and `distance`
/// measures that vector against the query.
pub fn search<
    N: Fn(i64, &Vec<u32>, usize, usize) -> Vec<i64>,
    D: Fn(&Vec<u32>, &Vec<u32>) -> u32,
>(db: &Database, query: &Vec<u32>, top_k: usize, nearest: N, distance: D) -> (r: Result<
    Vec<(i64, u32)>,
    Error,
>)
    requires
        forall|segment_id: i64, ef_search: usize|
            call_requires(nearest, (segment_id, query, top_k, ef_search)),
        forall|v: &Vec<u32>| call_requires(distance, (query, v)),
    ensures
        searched(nearest, distance, db@, query, top_k, listed(r)),
{
    let ef_search = get_usize(db, "ef_search", 100);
    let mut ids: Vec<i64> = Vec::new();
    let ghost mut answers: Seq<Vec<i64>> = Seq::empty();
    let mut i: usize = 0;
    while i < db.segments.len()
        invariant
            i <= db.segments@.len(),
            ef_search == usize_setting(db@.settings, "ef_search"@, 100),
            forall|segment_id: i64, ef_search: usize|
                call_requires(nearest, (segment_id, query, top_k, ef_search)),
            answers.len() == i,
            forall|k: int|
                0 <= k < i ==> call_ensures(
                    nearest,
                    (db@.segments[k].id, query, top_k, ef_search),
                    #[trigger] answers[k],
                ),
            forall|x: i64| #[trigger] ids@.contains(x) == found_in(answers)(x),
        decreases db.segments@.len() - i,
    {
        let mut hits = nearest(db.segments[i].id, query, top_k, ef_search);
        let ghost before = ids@;
        let ghost asked_before = answers;
        let ghost answer = hits;
        proof {
            assert(db@.segments[i as int] == db.segments@[i as int]);
            answers = answers.push(answer);
        }
        ids.append(&mut hits);
        proof {
            assert forall|x: i64| #[trigger] ids@.contains(x) == found_in(answers)(x) by {
                lemma_found_in_push(asked_before, answer, x);
                assert(before.contains(x) == found_in(asked_before)(x));
                if before.contains(x) {
                    let k = choose|k: int| 0 <= k < before.len() && before[k] == x;
                    assert(ids@[k] == x);
                }
                if answer@.contains(x) {
                    let k = choose|k: int| 0 <= k < answer@.len() && answer@[k] == x;
                    assert(ids@[before.len() + k] == x);
                }
                if ids@.contains(x) {
                    let k = choose|k: int| 0 <= k < ids@.len() && ids@[k] == x;
                    if k < before.len() {
                        assert(before[k] == x);
                    } else {
                        assert(answer@[k - before.len()] == x);
                    }
                }
            }
        }
        i += 1;
    }
    let vectors = current_vectors_for_chunks(db, &ids);
    proof {
        let a = among(ids@);
        let b = found_in(answers);
        lemma_filter_same(
            db@.embeddings,
            |e: EmbeddingRow| a(e.chunk_id),
            |e: EmbeddingRow| b(e.chunk_id),
        );
        assert(rows(vectors@) == live(db@, b));
    }
    let mut candidates: Vec<(i64, u32)> = Vec::new();
    let mut j: usize = 0;
    while j < vectors.len()
        invariant
            j <= vectors@.len(),
            forall|v: &Vec<u32>| call_requires(distance, (query, v)),
            candidates@.len() == j,
            forall|k: int|
                0 <= k < j ==> (#[trigger] candidates@[k]).0 == rows(vectors@)[k].chunk_id
                    && measures(distance, query, rows(vectors@)[k].vector, candidates@[k].1),
        decreases vectors@.len() - j,
    {
        let d = distance(query, &vectors[j].vector);
        proof {
            assert(rows(vectors@)[j as int] == vectors@[j as int]@);
        }
        candidates.push((vectors[j].chunk_id, d));
        j += 1;
    }
    let ghost c = candidates@;
    let r = closest(candidates, top_k);
    proof {
        assert(asked(nearest, db@, query, top_k, answers));
        assert(measured(distance, query, live(db@, found_in(answers)), c));
    }
    r
}

proof fn lemma_found_in_push(answers: Seq<Vec<i64>>, answer: Vec<i64>, x: i64)
    ensures
        found_in(answers.push(answer))(x) == (found_in(answers)(x) || answer@.contains(x)),
{
    let all = answers.push(answer);
    if found_in(answers)(x) {
        let i = choose|i: int| 0 <= i < answers.len() && (#[trigger] answers[i])@.contains(x);
        assert(all[i]@.contains(x));
    }
    if answer@.contains(x) {
        assert(all[answers.len() as int]@.contains(x));
    }
    if found_in(all)(x) {
        let i = choose|i: int| 0 <= i < all.len() && (#[trigger] all[i])@.contains(x);
        if i < answers.len() {
            assert(answers[i]@.contains(x));
        }
    }
}

/// Rebuilds the index at a given reading of the clock.
pub fn rebuild_at(db: &mut Database, clock: Option<i64>) -> (r: Result<i64, Error>)
    requires
        old(db).wf(),
        old(db)@.embeddings.len() < i64::MAX,
    ensures
        final(db).wf(),
        replays(*old(db), *final(db)),
        keyed_throughout(*old(db), *final(db)),
        (final(db)@, r) == rebuilt(old(db)@, clock),
        r is Ok ==> bracketed(*old(db), *final(db), Scope::RebuildGraph),
        r is Err ==> final(db).changes@ == old(db).changes@,
{
    proof {
        lemma_extends_self(*old(db), *db);
        lemma_keyed_self(*old(db), *db);
    }
    let now: i64 = match clock {
        Some(now) => now,
        None => {
            if db.embeddings.len() > 0 {
                return Err(Error::ClockBeforeEpoch);
            }
            0
        },
    };
    let ghost t = db@;
    db.savepoint(Scope::RebuildGraph);
    let ghost d1 = *db;
    db.clear_segments();
    proof {
        lemma_replays_step(*old(db), *old(db), d1, Change::Savepoint(Scope::RebuildGraph));
        lemma_keyed_step(*old(db), *old(db), d1, Change::Savepoint(Scope::RebuildGraph));
        lemma_replays_step(*old(db), d1, *db, Change::ClearSegments);
        lemma_keyed_step(*old(db), d1, *db, Change::ClearSegments);
        lemma_extends_self(d1, d1);
        lemma_extends_step(d1, d1, *db, Change::ClearSegments);
    }
    let count: usize = db.embeddings.len();
    let mut i: usize = 0;
    while i < count
        invariant
            i <= count,
            count == t.embeddings.len(),
            count < i64::MAX,
            t.wf(),
            t == old(db)@,
            db@ == reindexed(t, now, i as int),
            replays(*old(db), *db),
            keyed_throughout(*old(db), *db),
            extends(d1, *db),
        decreases count - i,
    {
        let ghost before = *db;
        proof {
            lemma_reindexed(t, now, i as int);
            lemma_reindexed(t, now, i + 1);
            assert(db@.embeddings[i as int] == db.embeddings@[i as int]@);
        }
        let chunk_id = db.embeddings[i].chunk_id;
        let vector = bytes_to_f32(&db.embeddings[i].vector);
        let inserted = insert_at(db, chunk_id, &vector, Some(now));
        let ghost mid = *db;
        proof {
            lemma_replays_chain(*old(db), before, mid);
            lemma_keyed_chain(*old(db), before, mid);
            lemma_extends_chain(d1, before, mid);
        }
        match inserted {
            Ok(segment_id) => {
                db.set_segment(chunk_id, segment_id);
                proof {
                    lemma_replays_step(
                        *old(db),
                        mid,
                        *db,
                        Change::SetSegment { chunk_id, segment_id },
                    );
                    lemma_keyed_step(
                        *old(db),
                        mid,
                        *db,
                        Change::SetSegment { chunk_id, segment_id },
                    );
                    lemma_extends_step(
                        d1,
                        mid,
                        *db,
                        Change::SetSegment { chunk_id, segment_id },
                    );
                    assert(db@.embeddings =~= mid@.embeddings.map_values(
                        moved(chunk_id, segment_id),
                    ));
                }
            },
            Err(e) => {
                return Err(e);
            },
        }
        i += 1;
    }
    let ghost d2 = *db;
    db.release(Scope::RebuildGraph);
    proof {
        lemma_keyed_step(*old(db), d2, *db, Change::Release(Scope::RebuildGraph));
        lemma_bracketed(*old(db), d1, d2, *db, Scope::RebuildGraph);
        lemma_reindexed(t, now, count as int);
    }
    Ok(count as i64)
}

/// Rebuilds the index: deletes all segments and inserts every stored embedding
/// anew, in chunk order, under the current settings. Returns how many there are.
pub fn rebuild(db: &mut Database) -> (r: Result<i64, Error>)
    requires
        old(db).wf(),
        old(db)@.embeddings.len() < i64::MAX,
    ensures
        final(db).wf(),
        replays(*old(db), *final(db)),
        keyed_throughout(*old(db), *final(db)),
        exists|clock: Option<i64>| (final(db)@, r) == #[trigger] rebuilt(old(db)@, clock),
        r is Ok ==> bracketed(*old(db), *final(db), Scope::RebuildGraph),
        r is Err ==> final(db).changes@ == old(db).changes@,
{
    rebuild_at(db, unix_timestamp())
}

/// What to load into memory when the process starts.
pub enum Load {
    /// Read back the dumped index of a sealed segment.
    Stored { segment_id: i64 },
    /// Make the index of the segment that takes insertions, and insert its vectors in order.
    Anew { segment_id: i64, m: usize, ef_construction: usize, nodes: Vec<ChunkVector> },
}

impl View for Load {
    type V = LoadPlan;

    open spec fn view(&self) -> LoadPlan {
        match *self {
            Load::Stored { segment_id } => LoadPlan::Stored { segment_id },
            Load::Anew { segment_id, m, ef_construction, nodes } => LoadPlan::Anew {
                segment_id,
                m,
                ef_construction,
                nodes: rows(nodes@),
            },
        }
    }
}

/// The dumped indexes to read back.
fn reload_sealed_segments(db: &Database) -> (r: Vec<Load>)
    ensures
        rows(r@) == db@.segments.filter(dumped()).map_values(
            |s: Segment| LoadPlan::Stored { segment_id: s.id },
        ),
{
    let mut r: Vec<Load> = Vec::new();
    let mut i: usize = 0;
    let ghost all = db@.segments;
    let ghost p = dumped();
    let ghost f = |s: Segment| LoadPlan::Stored { segment_id: s.id };
    proof {
        assert(all.take(0) =~= Seq::empty());
        lemma_filter_empty(p);
        assert(rows(r@) =~= all.take(0).filter(p).map_values(f));
    }
    while i < db.segments.len()
        invariant
            i <= db.segments@.len(),
            all == db@.segments,
            p == dumped(),
            f == (|s: Segment| LoadPlan::Stored { segment_id: s.id }),
            rows(r@) == all.take(i as int).filter(p).map_values(f),
        decreases db.segments@.len() - i,
    {
        let s = db.segments[i];
        proof {
            assert(all[i as int] == s);
            assert(all.take(i + 1) =~= all.take(i as int).push(s));
            lemma_filter_push(all.take(i as int), s, p);
        }
        if s.status == SegmentStatus::Sealed && s.has_index {
            let load = Load::Stored { segment_id: s.id };
            proof {
                lemma_rows_push(r@, load);
                assert(all.take(i as int).filter(p).push(s).map_values(f) =~= all.take(
                    i as int,
                ).filter(p).map_values(f).push(f(s)));
            }
            r.push(load);
        }
        i += 1;
    }
    proof {
        assert(all.take(all.len() as int) =~= all);
    }
    r
}

/// The segment that takes insertions, with its vectors in chunk order.
fn reload_appendable_segment(db: &Database) -> (r: Option<Load>)
    ensures
        match (r, current(db@)) {
            (Some(load), Some(s)) => load@ == (LoadPlan::Anew {
                segment_id: s.id,
                m: s.m,
                ef_construction: s.ef_construction,
                nodes: db@.embeddings.filter(in_segment(s.id)).map_values(
                    |e: EmbeddingRow| node_of(e),
                ),
            }),
            (None, None) => true,
            _ => false,
        },
{
    match find_appendable(db) {
        Some(i) => {
            let s = db.segments[i];
            let segment_id = s.id;
            let ghost p = in_segment(segment_id);
            let cond = |e: &Embedding| -> (b: bool)
                ensures
                    b == p(e@),
                { e.segment_id == segment_id };
            let nodes = vectors_where(db, cond, Ghost(p));
            Some(
                Load::Anew { segment_id, m: s.m, ef_construction: s.ef_construction, nodes },
            )
        },
        None => None,
    }
}

/// What has to be loaded into memory when the process starts: the dumped index of
/// each sealed segment, and the segment that takes insertions, made anew.
pub fn reload(db: &Database) -> (r: Vec<Load>)
    ensures
        rows(r@) == reload_plan(db@),
{
    let mut r = reload_sealed_segments(db);
    let ghost sealed = rows(r@);
    match reload_appendable_segment(db) {
        Some(load) => {
            proof {
                lemma_rows_push(r@, load);
            }
            r.push(load);
            proof {
                assert(rows(r@) =~= reload_plan(db@));
            }
        },
        None => {
            proof {
                assert(rows(r@) =~= reload_plan(db@));
            }
        },
    }
    r
}

/// How many embeddings point at a segment.
fn count_live(db: &Database, segment_id: i64) -> (r: usize)
    ensures
        r == db@.embeddings.filter(in_segment(segment_id)).len(),
{
    let mut count: usize = 0;
    let mut i: usize = 0;
    let ghost all = db@.embeddings;
    let ghost p = in_segment(segment_id);
    proof {
        assert(all.take(0) =~= Seq::empty());
        lemma_filter_empty(p);
    }
    while i < db.embeddings.len()
        invariant
            i <= db.embeddings@.len(),
            all == db@.embeddings,
            p == in_segment(segment_id),
            count <= i,
            count == all.take(i as int).filter(p).len(),
        decreases db.embeddings@.len() - i,
    {
        proof {
            assert(all[i as int] == db.embeddings@[i as int]@);
            assert(all.take(i + 1) =~= all.take(i as int).push(all[i as int]));
            lemma_filter_push(all.take(i as int), all[i as int], p);
        }
        if db.embeddings[i].segment_id == segment_id {
            count += 1;
        }
        i += 1;
    }
    proof {
        assert(all.take(all.len() as int) =~= all);
    }
    count
}

/// One segment of the statistics.
fn segment_stats(db: &Database, s: Segment) -> (r: String)
    ensures
        r@ == segment_json(db@, s),
{
    let mut r = String::new();
    r.append("{\"segment_id\":");
    push_decimal(&mut r, s.id);
    r.append(",\"status\":\"");
    match s.status {
        SegmentStatus::Appendable => {
            r.append("appendable");
        },
        SegmentStatus::Sealed => {
            r.append("sealed");
        },
    }
    r.append("\",\"total_nodes\":");
    push_decimal(&mut r, s.node_count);
    r.append(",\"live_nodes\":");
    push_numeral(&mut r, count_live(db, s.id) as u64, 10);
    r.append("}");
    proof {
        assert(r@ =~= segment_json(db@, s));
    }
    r
}

/// For each segment, how many nodes it ever took and how many embeddings still
/// point at it. The gap is what a rebuild reclaims.
pub fn stats(db: &Database) -> (r: String)
    ensures
        r@ == stats_json(db@),
{
    let mut items: Vec<String> = Vec::new();
    let mut i: usize = 0;
    let ghost all = db@.segments.map_values(|s: Segment| segment_json(db@, s));
    proof {
        assert(texts(items@) =~= all.take(0));
    }
    while i < db.segments.len()
        invariant
            i <= db.segments@.len(),
            all == db@.segments.map_values(|s: Segment| segment_json(db@, s)),
            texts(items@) == all.take(i as int),
        decreases db.segments@.len() - i,
    {
        let item = segment_stats(db, db.segments[i]);
        proof {
            lemma_texts_push(items@, item);
            assert(all.take(i + 1) =~= all.take(i as int).push(all[i as int]));
        }
        items.push(item);
        i += 1;
    }
    proof {
        assert(all.take(all.len() as int) =~= all);
    }
    json_array(&items)
}

/// Candidates in JSON, as the caller gets them. The distances come written out.
pub fn candidates_to_json(candidates: &Vec<(i64, String)>) -> (r: String)
    ensures
        r@ == json_array_of(
            rows(candidates@).map_values(|c: (i64, Seq<char>)| candidate_json(c)),
        ),
{
    let mut items: Vec<String> = Vec::new();
    let mut i: usize = 0;
    let ghost all = rows(candidates@).map_values(|c: (i64, Seq<char>)| candidate_json(c));
    proof {
        assert(texts(items@) =~= all.take(0));
    }
    while i < candidates.len()
        invariant
            i <= candidates@.len(),
            all == rows(candidates@).map_values(|c: (i64, Seq<char>)| candidate_json(c)),
            texts(items@) == all.take(i as int),
        decreases candidates@.len() - i,
    {
        let mut item = String::new();
        item.append("{\"chunk_id\":");
        push_decimal(&mut item, candidates[i].0);
        item.append(",\"distance\":");
        item.append(candidates[i].1.as_str());
        item.append("}");
        proof {
            assert(item@ =~= candidate_json(candidates@[i as int]@));
            lemma_texts_push(items@, item);
            assert(all.take(i + 1) =~= all.take(i as int).push(all[i as int]));
        }
        items.push(item);
        i += 1;
    }
    proof {
        assert(all.take(all.len() as int) =~= all);
    }
    json_array(&items)
}

} // verus!
