//! What the ANN Engine does to the tables.

use vstd::prelude::*;

use crate::ann::SEGMENT_MAX_SIZE;
use crate::bits::{is_nan, rank_of, words};
use crate::error::Error;
use crate::order::arranged;
use crate::seqs::{
    first_where, lemma_first_exists, lemma_first_found, lemma_map_pairwise, lemma_push_pairwise,
};
use crate::storage::settings::usize_setting;
use crate::storage::tables::{
    embedding_order, grown, next_segment_id, one_appendable, segment_order, EmbeddingRow, Node,
    Segment, SegmentStatus, Tables,
};
use crate::text::decimal;
use crate::util::json_array_of;

verus! {

/// Still taking insertions.
pub open spec fn appendable() -> spec_fn(Segment) -> bool {
    |s: Segment| s.status == SegmentStatus::Appendable
}

/// The segment that takes insertions, if there is one.
pub open spec fn current(t: Tables) -> Option<Segment> {
    first_where(t.segments, appendable())
}

/// The segment that is opened when none takes insertions, with the construction
/// parameters that the settings hold at that time.
pub open spec fn opened(t: Tables, now: i64) -> Segment {
    Segment {
        id: next_segment_id(t.segments) as i64,
        status: SegmentStatus::Appendable,
        m: usize_setting(t.settings, "m"@, 16),
        ef_construction: usize_setting(t.settings, "ef_construction"@, 200),
        node_count: 0,
        has_index: false,
        created_at: now,
        sealed_at: None,
    }
}

/// The segment that the next insertion goes to.
pub open spec fn target(t: Tables, now: i64) -> Segment {
    match current(t) {
        Some(s) => s,
        None => opened(t, now),
    }
}

/// The tables with a segment that takes insertions.
pub open spec fn with_target(t: Tables, now: i64) -> Tables {
    match current(t) {
        Some(_) => t,
        None => Tables { segments: t.segments.push(opened(t, now)), ..t },
    }
}

/// A segment with one more node: sealed, with its index dumped, once it is full.
pub open spec fn counted(s: Segment, now: i64) -> Segment {
    let node_count = (s.node_count + 1) as i64;
    if node_count >= SEGMENT_MAX_SIZE {
        Segment {
            node_count,
            status: SegmentStatus::Sealed,
            sealed_at: Some(now),
            has_index: true,
            ..s
        }
    } else {
        Segment { node_count, ..s }
    }
}

/// Replacing a segment by another with the same id.
pub open spec fn replaced(s: Segment) -> spec_fn(Segment) -> Segment {
    |x: Segment|
        if x.id == s.id {
            s
        } else {
            x
        }
}

/// One more node makes the segment full.
pub open spec fn filled_by_one(s: Segment) -> bool {
    s.node_count + 1 >= SEGMENT_MAX_SIZE
}

/// The tables with one more vector in the index: its segment has it as its last node
/// and, once full, is dumped with it, under the segment's own construction parameters.
pub open spec fn indexed(t: Tables, chunk_id: i64, vector: Seq<u32>, now: i64) -> Tables {
    let s = target(t, now);
    let u = with_target(t, now);
    let graph = grown(t.index, s.id, s.m, s.ef_construction, Node { chunk_id, vector });
    Tables {
        segments: u.segments.map_values(replaced(counted(s, now))),
        index: t.index.insert(s.id, graph),
        dumps: if filled_by_one(s) {
            t.dumps.insert(s.id, graph)
        } else {
            t.dumps
        },
        ..u
    }
}

/// An insertion opens or seals a segment, and so looks at the clock.
pub open spec fn looks_at_clock(t: Tables) -> bool {
    match current(t) {
        Some(s) => s.node_count + 1 >= SEGMENT_MAX_SIZE,
        None => true,
    }
}

/// There is a row id for the segment that an insertion may open.
pub open spec fn can_index(t: Tables) -> bool {
    current(t) is None ==> next_segment_id(t.segments) <= i64::MAX
}

/// The time that a reading of the clock gives; not looked at when there is none.
pub open spec fn time_of(clock: Option<i64>) -> i64 {
    match clock {
        Some(now) => now,
        None => 0,
    }
}

/// Inserting a vector into the index: the tables afterwards, and the segment
/// that it went to.
pub open spec fn insertion(
    t: Tables,
    chunk_id: i64,
    vector: Seq<u32>,
    clock: Option<i64>,
) -> (Tables, Result<i64, Error>) {
    if clock is None && looks_at_clock(t) {
        (t, Err(Error::ClockBeforeEpoch))
    } else {
        (
            indexed(t, chunk_id, vector, time_of(clock)),
            Ok(target(t, time_of(clock)).id),
        )
    }
}

/// The segment that takes insertions is one of the table's.
pub proof fn lemma_current(t: Tables) -> (i: int)
    requires
        current(t) is Some,
    ensures
        0 <= i < t.segments.len(),
        t.segments[i] == current(t)->0,
        t.segments[i].status == SegmentStatus::Appendable,
{
    lemma_first_found(t.segments, appendable())
}

pub proof fn lemma_with_target_wf(t: Tables, now: i64)
    requires
        t.wf(),
        can_index(t),
    ensures
        with_target(t, now).wf(),
        exists|i: int|
            0 <= i < with_target(t, now).segments.len() && #[trigger] with_target(
                t,
                now,
            ).segments[i] == target(t, now),
        target(t, now).status == SegmentStatus::Appendable,
        target(t, now).node_count < i64::MAX,
{
    let s = t.segments;
    let u = with_target(t, now).segments;
    if current(t) is Some {
        let i = lemma_current(t);
        assert(u[i] == target(t, now));
    } else {
        let row = opened(t, now);
        assert forall|i: int| 0 <= i < s.len() implies segment_order()(#[trigger] s[i], row) by {
            if i < s.len() - 1 {
                assert(segment_order()(s[i], s[s.len() - 1]));
            }
        }
        assert forall|i: int| 0 <= i < s.len() implies one_appendable()(#[trigger] s[i], row) by {
            if s[i].status == SegmentStatus::Appendable {
                lemma_first_exists(s, appendable(), i);
            }
        }
        lemma_push_pairwise(s, row, segment_order());
        lemma_push_pairwise(s, row, one_appendable());
        assert(u[s.len() as int] == row);
    }
}

/// One more node keeps the tables in order.
pub proof fn lemma_indexed_wf(t: Tables, chunk_id: i64, vector: Seq<u32>, now: i64)
    requires
        t.wf(),
        can_index(t),
    ensures
        indexed(t, chunk_id, vector, now).wf(),
{
    lemma_with_target_wf(t, now);
    let u = with_target(t, now).segments;
    let s = target(t, now);
    let i0 = choose|i: int| 0 <= i < u.len() && #[trigger] u[i] == s;
    let v = u.map_values(replaced(counted(s, now)));
    assert forall|i: int, j: int| #![trigger v[i], v[j]] 0 <= i < j < v.len() implies segment_order()(
        v[i],
        v[j],
    ) && one_appendable()(v[i], v[j]) by {
        assert(segment_order()(u[i], u[j]));
        assert(one_appendable()(u[i], u[j]));
        if i < i0 {
            assert(segment_order()(u[i], u[i0]));
        } else if i0 < i {
            assert(segment_order()(u[i0], u[i]));
        }
        if j < i0 {
            assert(segment_order()(u[j], u[i0]));
        } else if i0 < j {
            assert(segment_order()(u[i0], u[j]));
        }
    }
    assert forall|i: int| 0 <= i < v.len() && (#[trigger] v[i]).status
        == SegmentStatus::Appendable implies v[i].node_count < i64::MAX by {
        assert(u[i].status == SegmentStatus::Appendable || u[i].id == s.id);
    }
}

/// An embedding as a node of an index.
pub open spec fn node_of(e: EmbeddingRow) -> Node {
    Node { chunk_id: e.chunk_id, vector: words(e.vector) }
}

/// The stored vectors of the wanted chunks that have one, in chunk order.
pub open spec fn live(t: Tables, wanted: spec_fn(i64) -> bool) -> Seq<Node> {
    t.embeddings.filter(|e: EmbeddingRow| wanted(e.chunk_id)).map_values(
        |e: EmbeddingRow| node_of(e),
    )
}

/// Being at a smaller distance.
pub open spec fn nearer() -> spec_fn((i64, u32), (i64, u32)) -> bool {
    |a: (i64, u32), b: (i64, u32)| rank_of(a.1) < rank_of(b.1)
}

/// Some distance is not a number.
pub open spec fn any_nan(c: Seq<(i64, u32)>) -> bool {
    exists|i: int| 0 <= i < c.len() && is_nan((#[trigger] c[i]).1)
}

/// The first `k` elements, or all if there are fewer.
pub open spec fn first_of<A>(s: Seq<A>, k: usize) -> Seq<A> {
    if k < s.len() {
        s.take(k as int)
    } else {
        s
    }
}

/// The candidates at the smallest distances, the nearest first. Where there is
/// something to compare, every distance has to be a number.
pub open spec fn closest_of(c: Seq<(i64, u32)>, top_k: usize) -> Result<Seq<(i64, u32)>, Error> {
    if c.len() >= 2 && any_nan(c) {
        Err(Error::NotComparable)
    } else {
        Ok(first_of(arranged(c, nearer()), top_k))
    }
}

/// A list of candidates, or why there is none.
pub open spec fn listed(r: Result<Vec<(i64, u32)>, Error>) -> Result<Seq<(i64, u32)>, Error> {
    match r {
        Ok(v) => Ok(v@),
        Err(e) => Err(e),
    }
}

/// `answers` is what `nearest` says of each segment for a query.
pub open spec fn asked<N: Fn(i64, &Vec<u32>, usize, usize) -> Vec<i64>>(
    nearest: N,
    t: Tables,
    query: &Vec<u32>,
    top_k: usize,
    answers: Seq<Vec<i64>>,
) -> bool {
    &&& answers.len() == t.segments.len()
    &&& forall|i: int|
        0 <= i < answers.len() ==> call_ensures(
            nearest,
            (t.segments[i].id, query, top_k, usize_setting(t.settings, "ef_search"@, 100)),
            #[trigger] answers[i],
        )
}

/// Being in one of the answers.
pub open spec fn found_in(answers: Seq<Vec<i64>>) -> spec_fn(i64) -> bool {
    |x: i64| exists|i: int| 0 <= i < answers.len() && (#[trigger] answers[i])@.contains(x)
}

/// `d` is what `distance` says of a query and a stored vector.
pub open spec fn measures<D: Fn(&Vec<u32>, &Vec<u32>) -> u32>(
    distance: D,
    query: &Vec<u32>,
    vector: Seq<u32>,
    d: u32,
) -> bool {
    exists|v: &Vec<u32>| v@ == vector && #[trigger] call_ensures(distance, (query, v), d)
}

/// `c` is the given vectors' chunks, each with its distance from the query.
pub open spec fn measured<D: Fn(&Vec<u32>, &Vec<u32>) -> u32>(
    distance: D,
    query: &Vec<u32>,
    vectors: Seq<Node>,
    c: Seq<(i64, u32)>,
) -> bool {
    &&& c.len() == vectors.len()
    &&& forall|i: int|
        0 <= i < c.len() ==> (#[trigger] c[i]).0 == vectors[i].chunk_id && measures(
            distance,
            query,
            vectors[i].vector,
            c[i].1,
        )
}

/// `r` is the outcome of a search: of the chunks that the index names, those that
/// have a stored vector, by their distance from the query.
pub open spec fn searched<
    N: Fn(i64, &Vec<u32>, usize, usize) -> Vec<i64>,
    D: Fn(&Vec<u32>, &Vec<u32>) -> u32,
>(
    nearest: N,
    distance: D,
    t: Tables,
    query: &Vec<u32>,
    top_k: usize,
    r: Result<Seq<(i64, u32)>, Error>,
) -> bool {
    exists|answers: Seq<Vec<i64>>, c: Seq<(i64, u32)>|
        {
            &&& #[trigger] asked(nearest, t, query, top_k, answers)
            &&& #[trigger] measured(distance, query, live(t, found_in(answers)), c)
            &&& r == closest_of(c, top_k)
        }
}

/// Giving an embedding another segment.
pub open spec fn moved(chunk_id: i64, segment_id: i64) -> spec_fn(EmbeddingRow) -> EmbeddingRow {
    |e: EmbeddingRow|
        if e.chunk_id == chunk_id {
            EmbeddingRow { segment_id, ..e }
        } else {
            e
        }
}

/// The tables once every segment is gone and the first `n` embeddings have been
/// inserted anew, in chunk order.
pub open spec fn reindexed(t: Tables, now: i64, n: int) -> Tables
    decreases n,
{
    if n <= 0 {
        Tables { segments: Seq::empty(), index: Map::empty(), dumps: Map::empty(), ..t }
    } else {
        let u = reindexed(t, now, n - 1);
        let e = t.embeddings[n - 1];
        let v = indexed(u, e.chunk_id, words(e.vector), now);
        Tables {
            embeddings: v.embeddings.map_values(moved(e.chunk_id, target(u, now).id)),
            ..v
        }
    }
}

/// Rebuilding the index: the tables afterwards, and how many embeddings it holds.
pub open spec fn rebuilt(t: Tables, clock: Option<i64>) -> (Tables, Result<i64, Error>) {
    if clock is None && t.embeddings.len() > 0 {
        (t, Err(Error::ClockBeforeEpoch))
    } else {
        (
            reindexed(t, time_of(clock), t.embeddings.len() as int),
            Ok(t.embeddings.len() as i64),
        )
    }
}

/// Inserting anew changes an embedding's segment only, and numbers the segments from one.
pub proof fn lemma_reindexed(t: Tables, now: i64, n: int)
    requires
        t.wf(),
        0 <= n <= t.embeddings.len() < i64::MAX,
    ensures
        ({
            let u = reindexed(t, now, n);
            &&& u.wf()
            &&& u.segments.len() <= n
            &&& forall|k: int| 0 <= k < u.segments.len() ==> (#[trigger] u.segments[k]).id == k + 1
            &&& next_segment_id(u.segments) == u.segments.len() + 1
            &&& u.embeddings.len() == t.embeddings.len()
            &&& forall|k: int|
                0 <= k < u.embeddings.len() ==> (#[trigger] u.embeddings[k]) == (EmbeddingRow {
                    segment_id: u.embeddings[k].segment_id,
                    ..t.embeddings[k]
                })
            &&& u.settings == t.settings
            &&& u.documents == t.documents
            &&& u.chunks == t.chunks
            &&& u.models == t.models
            &&& u.relations == t.relations
            &&& u.foreign_keys == t.foreign_keys
        }),
    decreases n,
{
    if n > 0 {
        lemma_reindexed(t, now, n - 1);
        let u = reindexed(t, now, n - 1);
        let e = t.embeddings[n - 1];
        let v = indexed(u, e.chunk_id, words(e.vector), now);
        lemma_indexed_wf(u, e.chunk_id, words(e.vector), now);
        lemma_with_target_wf(u, now);
        let w = reindexed(t, now, n);
        assert(with_target(u, now).segments.len() <= u.segments.len() + 1);
        assert forall|k: int| 0 <= k < w.segments.len() implies (#[trigger] w.segments[k]).id == k
            + 1 by {
            assert(with_target(u, now).segments[k].id == k + 1);
        }
        assert(w.segments.len() > 0);
        assert(w.segments.last() == w.segments[w.segments.len() - 1]);
        let f = moved(e.chunk_id, target(u, now).id);
        assert forall|k: int| 0 <= k < w.embeddings.len() implies (#[trigger] w.embeddings[k]) == (
        EmbeddingRow { segment_id: w.embeddings[k].segment_id, ..t.embeddings[k] }) by {
            assert(u.embeddings[k] == EmbeddingRow {
                segment_id: u.embeddings[k].segment_id,
                ..t.embeddings[k]
            });
        }
        lemma_map_pairwise(v.embeddings, f, embedding_order());
    }
}

/// A stored index to read back, or an index to make anew out of stored vectors.
pub enum LoadPlan {
    Stored { segment_id: i64 },
    Anew { segment_id: i64, m: usize, ef_construction: usize, nodes: Seq<Node> },
}

/// Sealed, with the dumped index stored.
pub open spec fn dumped() -> spec_fn(Segment) -> bool {
    |s: Segment| s.status == SegmentStatus::Sealed && s.has_index
}

/// Being indexed in the given segment.
pub open spec fn in_segment(segment_id: i64) -> spec_fn(EmbeddingRow) -> bool {
    |e: EmbeddingRow| e.segment_id == segment_id
}

/// What has to be loaded into memory when the process starts: every dumped index,
/// and the segment that takes insertions with its vectors in chunk order.
pub open spec fn reload_plan(t: Tables) -> Seq<LoadPlan> {
    t.segments.filter(dumped()).map_values(
        |s: Segment| LoadPlan::Stored { segment_id: s.id },
    ) + (match current(t) {
        Some(s) => seq![
            LoadPlan::Anew {
                segment_id: s.id,
                m: s.m,
                ef_construction: s.ef_construction,
                nodes: t.embeddings.filter(in_segment(s.id)).map_values(
                    |e: EmbeddingRow| node_of(e),
                ),
            },
        ],
        None => Seq::empty(),
    })
}

/// A candidate in JSON, its distance already written out.
pub open spec fn candidate_json(c: (i64, Seq<char>)) -> Seq<char> {
    "{\"chunk_id\":"@ + decimal(c.0 as int) + ",\"distance\":"@ + c.1 + "}"@
}

/// The stored name of a segment's status.
pub open spec fn status_name(status: SegmentStatus) -> Seq<char> {
    match status {
        SegmentStatus::Appendable => "appendable"@,
        SegmentStatus::Sealed => "sealed"@,
    }
}

/// A segment in JSON: every node it ever took, and those that embeddings still point at.
pub open spec fn segment_json(t: Tables, s: Segment) -> Seq<char> {
    "{\"segment_id\":"@ + decimal(s.id as int) + ",\"status\":\""@ + status_name(s.status)
        + "\",\"total_nodes\":"@ + decimal(s.node_count as int) + ",\"live_nodes\":"@ + decimal(
        t.embeddings.filter(in_segment(s.id)).len() as int,
    ) + "}"@
}

/// Every segment in JSON.
pub open spec fn stats_json(t: Tables) -> Seq<char> {
    json_array_of(t.segments.map_values(|s: Segment| segment_json(t, s)))
}

} // verus!
