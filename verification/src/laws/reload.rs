//! What a process that starts gets back of the index: sealed segments as they were
//! dumped, which is as a whole.

use vstd::prelude::*;

use crate::ann::model::{
    can_index, current, dumped, indexed, insertion, lemma_current, lemma_with_target_wf, opened,
    rebuilt, reload_plan, target, time_of, with_target, LoadPlan,
};
use crate::bits::words;
use crate::document::chunk::{cut, Chunking};
use crate::document::model::{
    added, blank_identity, id_of_another, matched, new_row, reversioned, without_document, Naming,
};
use crate::embedding::{can_store, lemma_with_model_wf, stored, with_model};
use crate::graph::related;
use crate::laws::counts::follows;
use crate::laws::documents::law_update_purges_what_was_judged_on_old_text;
use crate::laws::index::{
    filled_tables, fresh_graph, fresh_segment, law_rebuild_fills_segments_in_order, segment_count,
};
use crate::seqs::lemma_filter_keeps;
use crate::storage::references::has_segment;
use crate::storage::tables::{
    empty_tables, graph_of, segment_order, Graph, RelationRow, Segment, SegmentStatus, Tables,
};

verus! {

/// The index of a segment has every node that the segment counts, under the
/// construction parameters of the segment; and of a sealed segment the dump is the
/// whole index.
pub open spec fn segment_whole(t: Tables, s: Segment) -> bool {
    &&& s.node_count == graph_of(t.index, s.id).nodes.len()
    &&& s.node_count > 0 ==> {
        &&& t.index.contains_key(s.id)
        &&& t.index[s.id].m == s.m
        &&& t.index[s.id].ef_construction == s.ef_construction
    }
    &&& s.status == SegmentStatus::Sealed ==> {
        &&& s.has_index
        &&& s.node_count > 0
        &&& t.dumps.contains_key(s.id)
        &&& t.dumps[s.id] == t.index[s.id]
    }
}

/// Every segment's index is whole, and there is no index but of segments.
pub open spec fn whole(t: Tables) -> bool {
    &&& forall|k: int| 0 <= k < t.segments.len() ==> segment_whole(t, #[trigger] t.segments[k])
    &&& forall|id: i64| #[trigger] t.index.contains_key(id) ==> has_segment(t, id)
}

/// The index that a process gets by what it loads: the dump, or one made anew.
pub open spec fn loaded(t: Tables, plan: LoadPlan) -> Graph {
    match plan {
        LoadPlan::Stored { segment_id } => graph_of(t.dumps, segment_id),
        LoadPlan::Anew { segment_id, m, ef_construction, nodes } => Graph {
            m,
            ef_construction,
            nodes,
        },
    }
}

/// Every sealed segment is loaded when a process starts, and what is loaded is the
/// whole index that it had when it was sealed, under its own construction parameters.
pub proof fn law_reload_restores_sealed_segments(t: Tables, k: int)
    requires
        whole(t),
        0 <= k < t.segments.len(),
        t.segments[k].status == SegmentStatus::Sealed,
    ensures
        ({
            let s = t.segments[k];
            let plan = LoadPlan::Stored { segment_id: s.id };
            &&& reload_plan(t).contains(plan)
            &&& loaded(t, plan) == t.index[s.id]
            &&& loaded(t, plan).nodes.len() == s.node_count
            &&& loaded(t, plan).m == s.m
            &&& loaded(t, plan).ef_construction == s.ef_construction
        }),
{
    let s = t.segments[k];
    assert(segment_whole(t, s));
    let i = lemma_filter_keeps(t.segments, dumped(), k);
    assert(reload_plan(t)[i] == LoadPlan::Stored { segment_id: s.id });
}

/// Only segments, their indexes and their dumps matter.
proof fn lemma_same_whole(t: Tables, u: Tables)
    requires
        whole(t),
        u.segments == t.segments,
        u.index == t.index,
        u.dumps == t.dumps,
    ensures
        whole(u),
{
    assert forall|k: int| 0 <= k < u.segments.len() implies segment_whole(
        u,
        #[trigger] u.segments[k],
    ) by {
        assert(segment_whole(t, t.segments[k]));
    }
    assert forall|id: i64| #[trigger] u.index.contains_key(id) implies has_segment(u, id) by {
        assert(t.index.contains_key(id));
        let k = choose|k: int| 0 <= k < t.segments.len() && (#[trigger] t.segments[k]).id == id;
        assert(u.segments[k].id == id);
    }
}

/// One more vector leaves every index whole.
proof fn lemma_indexed_whole(t: Tables, chunk_id: i64, vector: Seq<u32>, now: i64)
    requires
        t.wf(),
        whole(t),
        can_index(t),
    ensures
        whole(indexed(t, chunk_id, vector, now)),
{
    let s = target(t, now);
    let w = with_target(t, now).segments;
    let u = indexed(t, chunk_id, vector, now);
    lemma_with_target_wf(t, now);
    let i0 = choose|i: int| 0 <= i < w.len() && #[trigger] w[i] == s;
    if current(t) is None {
        let n = t.segments.len() as int;
        assert(w == t.segments.push(opened(t, now)));
        if t.index.contains_key(s.id) {
            let k = choose|k: int| 0 <= k < n && (#[trigger] t.segments[k]).id == s.id;
            assert(segment_order()(w[k], w[n]));
        }
    } else {
        let i = lemma_current(t);
        assert(segment_whole(t, t.segments[i]));
    }
    assert(s.node_count == graph_of(t.index, s.id).nodes.len());
    assert forall|k: int| 0 <= k < u.segments.len() implies segment_whole(
        u,
        #[trigger] u.segments[k],
    ) by {
        if k < i0 {
            assert(segment_order()(w[k], w[i0]));
        } else if i0 < k {
            assert(segment_order()(w[i0], w[k]));
        }
        if k != i0 {
            assert(u.segments[k] == w[k]);
            if k < t.segments.len() {
                assert(w[k] == t.segments[k]);
                assert(segment_whole(t, t.segments[k]));
            }
        }
    }
    assert forall|id: i64| #[trigger] u.index.contains_key(id) implies has_segment(u, id) by {
        if id == s.id {
            assert(u.segments[i0].id == id);
        } else {
            assert(t.index.contains_key(id));
            let k = choose|k: int| 0 <= k < t.segments.len() && (#[trigger] t.segments[k]).id == id;
            assert(w[k] == t.segments[k]);
            assert(u.segments[k].id == id);
        }
    }
}

/// Inserting a vector into the index, however it ends, leaves every index whole.
pub proof fn law_inserting_keeps_indexes_whole(
    t: Tables,
    chunk_id: i64,
    vector: Seq<u32>,
    clock: Option<i64>,
)
    requires
        t.wf(),
        whole(t),
        can_index(t),
    ensures
        whole(insertion(t, chunk_id, vector, clock).0),
{
    lemma_indexed_whole(t, chunk_id, vector, time_of(clock));
}

/// Storing an embedding, however it ends, leaves every index whole.
pub proof fn law_storing_keeps_indexes_whole(
    t: Tables,
    chunk_id: i64,
    vector: Seq<u8>,
    model_name: Seq<char>,
    dimension: i64,
    clock: Option<i64>,
)
    requires
        t.wf(),
        whole(t),
        can_store(t, model_name, dimension),
    ensures
        whole(stored(t, chunk_id, vector, model_name, dimension, clock).0),
{
    let now = time_of(clock);
    let u = stored(t, chunk_id, vector, model_name, dimension, clock).0;
    let m = with_model(t, model_name, dimension, now);
    if u != t {
        lemma_with_model_wf(t, model_name, dimension, now);
        lemma_same_whole(t, m);
        lemma_indexed_whole(m, chunk_id, words(vector), now);
        lemma_same_whole(indexed(m, chunk_id, words(vector), now), u);
    }
}

/// Rebuilding the index, however it ends, leaves every index whole.
pub proof fn law_rebuild_keeps_indexes_whole(t: Tables, clock: Option<i64>)
    requires
        t.wf(),
        whole(t),
        t.embeddings.len() < i64::MAX,
    ensures
        whole(rebuilt(t, clock).0),
{
    let (u, r) = rebuilt(t, clock);
    let n = t.embeddings.len() as int;
    let now = time_of(clock);
    if r is Ok {
        law_rebuild_fills_segments_in_order(t, now, n);
        assert(u == filled_tables(t, now, n));
        assert forall|k: int| 0 <= k < u.segments.len() implies segment_whole(
            u,
            #[trigger] u.segments[k],
        ) by {
            assert(u.segments[k] == fresh_segment(t, now, n, k));
            assert(u.index[(k + 1) as i64] == fresh_graph(t, n, k));
        }
        assert forall|id: i64| #[trigger] u.index.contains_key(id) implies has_segment(u, id) by {
            assert(1 <= id <= segment_count(n));
            assert(u.segments[id - 1].id == id);
        }
    }
}

/// Adding a document, however it ends, leaves every index whole.
pub proof fn law_adding_keeps_indexes_whole(
    t: Tables,
    naming: Naming,
    content: Seq<char>,
    hash: Seq<char>,
    chunking: Chunking,
    clock: Option<i64>,
)
    requires
        whole(t),
    ensures
        whole(added(t, naming, content, hash, chunking, clock).0),
{
    let u = added(t, naming, content, hash, chunking, clock).0;
    let pieces = cut(content, chunking);
    if !blank_identity(naming.external_id) {
        match matched(t, naming.external_id) {
            Some(d) => {
                if d.hash != hash {
                    let version = (d.version + 1) as i64;
                    let f = reversioned(d.id, hash, version);
                    let v = Tables { documents: t.documents.map_values(f), ..t };
                    law_update_purges_what_was_judged_on_old_text(v, d.id, pieces, version);
                }
            },
            None => {
                if clock is Some && !id_of_another(t, naming.external_id) {
                    let row = new_row(t, naming, hash, clock->0);
                    let v = Tables { documents: t.documents.push(row), ..t };
                    law_update_purges_what_was_judged_on_old_text(v, row.id, pieces, 1);
                }
            },
        }
    }
    lemma_same_whole(t, u);
}

/// In every state that calls bring an empty database to, every index is whole: the
/// dump of a sealed segment has every vector that the segment ever took.
pub proof fn law_every_state_is_whole(states: Seq<Tables>, foreign_keys: bool, n: int)
    requires
        0 <= n < states.len(),
        states[0] == empty_tables(foreign_keys),
        forall|i: int| 0 <= i < states.len() ==> (#[trigger] states[i]).wf(),
        forall|i: int|
            0 <= i < states.len() - 1 ==> follows(#[trigger] states[i], states[i + 1]),
    ensures
        whole(states[n]),
    decreases n,
{
    if n > 0 {
        law_every_state_is_whole(states, foreign_keys, n - 1);
        let t = states[n - 1];
        let u = states[n];
        assert(follows(states[n - 1], states[n - 1 + 1]));
        assert(t.wf());
        if u == (Tables { settings: u.settings, ..t }) {
            lemma_same_whole(t, u);
        } else if exists|naming: Naming,
            content: Seq<char>,
            hash: Seq<char>,
            chunking: Chunking,
            clock,
        |
            u == (#[trigger] added(t, naming, content, hash, chunking, clock)).0 {
            let (naming, content, hash, chunking, clock) = choose|
                naming: Naming,
                content: Seq<char>,
                hash: Seq<char>,
                chunking: Chunking,
                clock,
            |
                u == (#[trigger] added(t, naming, content, hash, chunking, clock)).0;
            law_adding_keeps_indexes_whole(t, naming, content, hash, chunking, clock);
        } else if exists|document_id: i64| u == #[trigger] without_document(t, document_id) {
            lemma_same_whole(t, u);
        } else if exists|row: RelationRow| u == (#[trigger] related(t, row)).0 {
            lemma_same_whole(t, u);
        } else if exists|clock|
            t.embeddings.len() < i64::MAX && u == (#[trigger] rebuilt(t, clock)).0 {
            let clock = choose|clock|
                t.embeddings.len() < i64::MAX && u == (#[trigger] rebuilt(t, clock)).0;
            law_rebuild_keeps_indexes_whole(t, clock);
        } else if exists|chunk_id: i64, vector: Seq<u32>, clock|
            can_index(t) && u == (#[trigger] insertion(t, chunk_id, vector, clock)).0 {
            let (chunk_id, vector, clock) = choose|chunk_id: i64, vector: Seq<u32>, clock|
                can_index(t) && u == (#[trigger] insertion(t, chunk_id, vector, clock)).0;
            law_inserting_keeps_indexes_whole(t, chunk_id, vector, clock);
        } else {
            let (chunk_id, vector, model_name, dimension, clock) = choose|
                chunk_id: i64,
                vector: Seq<u8>,
                model_name: Seq<char>,
                dimension: i64,
                clock,
            |
                can_store(t, model_name, dimension) && u == (#[trigger] stored(
                    t,
                    chunk_id,
                    vector,
                    model_name,
                    dimension,
                    clock,
                )).0;
            law_storing_keeps_indexes_whole(t, chunk_id, vector, model_name, dimension, clock);
        }
    }
}

} // verus!
