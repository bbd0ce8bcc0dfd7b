//! What holds of the segments of the index, of searching it and of rebuilding it.

use vstd::prelude::*;

use crate::ann::model::{
    appendable, can_index, closest_of, counted, current, first_of, in_segment, indexed, insertion,
    lemma_current, lemma_indexed_wf, lemma_reindexed, lemma_with_target_wf, live, measured, nearer,
    node_of, opened, rebuilt, reindexed, reload_plan, segment_json, stats_json, target, time_of,
    with_target, LoadPlan,
};
use crate::ann::SEGMENT_MAX_SIZE;
use crate::bits::{rank_of, words};
use crate::document::model::{owned, owned_by, without_document};
use crate::embedding::{first_others, of_others, other_than};
use crate::error::Error;
use crate::graph::{embedding_of, embeds};
use crate::order::{
    arranged, lemma_arranged_keeps, lemma_arranged_member, lemma_arranged_order,
    lemma_arranged_pairwise, lemma_arranged_same,
};
use crate::seqs::{
    lemma_filter_empty, lemma_filter_member, lemma_filter_pairwise, lemma_filter_push,
    lemma_filter_range, lemma_first_absent, lemma_first_at, lemma_first_exists, pairwise,
};
use crate::storage::settings::usize_setting;
use crate::storage::tables::{
    embedding_order, graph_of, next_segment_id, one_appendable, segment_order, EmbeddingRow, Graph,
    Node, Segment, SegmentStatus, Tables,
};

verus! {

/// An insertion leaves sealed segments alone; no segment ever changes its id or its
/// construction parameters; a segment that is opened gets those of the settings;
/// and at most one segment takes insertions afterwards.
pub proof fn law_insertion_touches_one_open_segment(
    t: Tables,
    chunk_id: i64,
    vector: Seq<u32>,
    now: i64,
)
    requires
        t.wf(),
        can_index(t),
    ensures
        ({
            let u = indexed(t, chunk_id, vector, now);
            &&& u.wf()
            &&& t.segments.len() <= u.segments.len() <= t.segments.len() + 1
            &&& forall|i: int|
                0 <= i < t.segments.len() && (#[trigger] t.segments[i]).status
                    == SegmentStatus::Sealed ==> u.segments[i] == t.segments[i]
            &&& forall|i: int|
                0 <= i < t.segments.len() ==> {
                    &&& (#[trigger] u.segments[i]).id == t.segments[i].id
                    &&& u.segments[i].m == t.segments[i].m
                    &&& u.segments[i].ef_construction == t.segments[i].ef_construction
                    &&& u.segments[i].created_at == t.segments[i].created_at
                }
            &&& u.segments.len() > t.segments.len() ==> {
                &&& u.segments.last().m == usize_setting(t.settings, "m"@, 16)
                &&& u.segments.last().ef_construction == usize_setting(
                    t.settings,
                    "ef_construction"@,
                    200,
                )
            }
            &&& u.segments.contains(counted(target(t, now), now))
            &&& u.embeddings == t.embeddings
            &&& u.relations == t.relations
        }),
{
    lemma_with_target_wf(t, now);
    lemma_indexed_wf(t, chunk_id, vector, now);
    let w = with_target(t, now).segments;
    let s = target(t, now);
    let u = indexed(t, chunk_id, vector, now);
    let i0 = choose|i: int| 0 <= i < w.len() && #[trigger] w[i] == s;
    assert forall|i: int| 0 <= i < w.len() && i != i0 implies (#[trigger] u.segments[i])
        == w[i] by {
        if i < i0 {
            assert(segment_order()(w[i], w[i0]));
        } else {
            assert(segment_order()(w[i0], w[i]));
        }
    }
    assert(u.segments[i0] == counted(s, now));
    assert forall|i: int| 0 <= i < t.segments.len() implies {
        &&& (#[trigger] u.segments[i]).id == t.segments[i].id
        &&& u.segments[i].m == t.segments[i].m
        &&& u.segments[i].ef_construction == t.segments[i].ef_construction
        &&& u.segments[i].created_at == t.segments[i].created_at
    } by {
        assert(w[i] == t.segments[i]);
    }
    assert forall|i: int|
        0 <= i < t.segments.len() && (#[trigger] t.segments[i]).status
            == SegmentStatus::Sealed implies u.segments[i] == t.segments[i] by {
        assert(w[i] == t.segments[i]);
        assert(i != i0);
    }
    if u.segments.len() > t.segments.len() {
        assert(w[t.segments.len() as int] == opened(t, now));
        assert(u.segments.last() == u.segments[t.segments.len() as int]);
    }
}

/// Being at different chunks.
pub open spec fn different_chunks() -> spec_fn((i64, u32), (i64, u32)) -> bool {
    |a: (i64, u32), b: (i64, u32)| a.0 != b.0
}

/// What a search returns is ordered by distance, and no longer than asked for;
/// whatever it leaves out is at no smaller distance than anything it returns.
pub proof fn law_search_returns_the_nearest(c: Seq<(i64, u32)>, top_k: usize)
    requires
        closest_of(c, top_k) is Ok,
    ensures
        ({
            let r = closest_of(c, top_k)->Ok_0;
            &&& r.len() == if top_k < c.len() {
                top_k as int
            } else {
                c.len() as int
            }
            &&& forall|i: int| 0 <= i < r.len() ==> c.contains(#[trigger] r[i])
            &&& forall|i: int, j: int|
                #![trigger r[i], r[j]]
                0 <= i < j < r.len() ==> rank_of(r[i].1) <= rank_of(r[j].1)
            &&& forall|x: (i64, u32), i: int|
                #![trigger c.contains(x), r[i]]
                c.contains(x) && !r.contains(x) && 0 <= i < r.len() ==> rank_of(r[i].1)
                    <= rank_of(x.1)
        }),
{
    let all = arranged(c, nearer());
    let r = first_of(all, top_k);
    lemma_arranged_same(c, nearer());
    lemma_arranged_order(c, nearer());
    assert forall|i: int| 0 <= i < r.len() implies c.contains(#[trigger] r[i]) by {
        assert(r[i] == all[i]);
        lemma_arranged_member(c, nearer(), i);
    }
    assert forall|i: int, j: int| #![trigger r[i], r[j]] 0 <= i < j < r.len() implies rank_of(
        r[i].1,
    ) <= rank_of(r[j].1) by {
        assert(r[i] == all[i] && r[j] == all[j]);
        assert(!nearer()(all[j], all[i]));
    }
    assert forall|x: (i64, u32), i: int|
        #![trigger c.contains(x), r[i]]
        c.contains(x) && !r.contains(x) && 0 <= i < r.len() implies rank_of(r[i].1) <= rank_of(
        x.1,
    ) by {
        let k = choose|k: int| 0 <= k < c.len() && c[k] == x;
        lemma_arranged_keeps(c, nearer(), k);
        let j = choose|j: int| 0 <= j < all.len() && all[j] == x;
        if j < r.len() {
            assert(r[j] == x);
        }
        assert(r[i] == all[i]);
        assert(!nearer()(all[j], all[i]));
    }
}

/// A search returns every chunk at most once, and only chunks that have a stored
/// embedding: however the index answers, a stale or dead node is never returned.
pub proof fn law_search_returns_live_chunks_once<D: Fn(&Vec<u32>, &Vec<u32>) -> u32>(
    t: Tables,
    asked_for: spec_fn(i64) -> bool,
    distance: D,
    query: &Vec<u32>,
    c: Seq<(i64, u32)>,
    top_k: usize,
)
    requires
        t.wf(),
        measured(distance, query, live(t, asked_for), c),
        closest_of(c, top_k) is Ok,
    ensures
        ({
            let r = closest_of(c, top_k)->Ok_0;
            &&& pairwise(r, different_chunks())
            &&& forall|i: int|
                0 <= i < r.len() ==> asked_for((#[trigger] r[i]).0) && embedding_of(t, r[i].0)
                    is Some
        }),
{
    let p = |e: EmbeddingRow| asked_for(e.chunk_id);
    let kept = t.embeddings.filter(p);
    let nodes = live(t, asked_for);
    lemma_filter_pairwise(t.embeddings, p, embedding_order());
    assert forall|i: int| 0 <= i < c.len() implies (#[trigger] c[i]).0 == kept[i].chunk_id by {
        assert(nodes[i] == node_of(kept[i]));
    }
    assert forall|i: int, j: int| #![trigger c[i], c[j]] 0 <= i < j
        < c.len() implies different_chunks()(c[i], c[j]) by {
        assert(embedding_order()(kept[i], kept[j]));
    }
    let all = arranged(c, nearer());
    let r = first_of(all, top_k);
    lemma_arranged_pairwise(c, nearer(), different_chunks());
    lemma_arranged_same(c, nearer());
    assert forall|i: int, j: int| #![trigger r[i], r[j]] 0 <= i < j
        < r.len() implies different_chunks()(r[i], r[j]) by {
        assert(r[i] == all[i] && r[j] == all[j]);
    }
    assert forall|i: int| 0 <= i < r.len() implies asked_for((#[trigger] r[i]).0) && embedding_of(
        t,
        r[i].0,
    ) is Some by {
        assert(r[i] == all[i]);
        lemma_arranged_member(c, nearer(), i);
        let k = choose|k: int| 0 <= k < c.len() && c[k] == r[i];
        lemma_filter_member(t.embeddings, p, k);
        let j = choose|j: int| 0 <= j < t.embeddings.len() && #[trigger] t.embeddings[j] == kept[k];
        assert(c[k].0 == kept[k].chunk_id);
        lemma_first_exists(t.embeddings, embeds(r[i].0), j);
    }
}

/// A chunk of a deleted document has no embedding, so no search returns it.
pub proof fn law_deleted_chunks_have_no_embedding(t: Tables, document_id: i64, chunk_id: i64)
    requires
        owned(t.chunks, document_id, chunk_id),
    ensures
        embedding_of(without_document(t, document_id), chunk_id) is None,
{
    let u = without_document(t, document_id);
    let gone = owned_by(t.chunks, document_id);
    let p = |e: EmbeddingRow| !gone(e.chunk_id);
    assert forall|k: int| 0 <= k < u.embeddings.len() implies !embeds(chunk_id)(
        #[trigger] u.embeddings[k],
    ) by {
        lemma_filter_member(t.embeddings, p, k);
    }
    lemma_first_absent(u.embeddings, embeds(chunk_id));
}

/// Leaving one chunk out of a list with every chunk at most once leaves out at most
/// one candidate.
proof fn lemma_others_count(c: Seq<(i64, u32)>, chunk_id: i64)
    requires
        pairwise(c, different_chunks()),
    ensures
        of_others(c, chunk_id).len() >= c.len() - 1,
        (forall|i: int| 0 <= i < c.len() ==> (#[trigger] c[i]).0 != chunk_id) ==> of_others(
            c,
            chunk_id,
        ).len() == c.len(),
    decreases c.len(),
{
    let p = other_than(chunk_id);
    if c.len() == 0 {
        assert(c =~= Seq::empty());
        lemma_filter_empty(p);
    } else {
        let rest = c.drop_last();
        assert(c =~= rest.push(c.last()));
        lemma_filter_push(rest, c.last(), p);
        assert forall|i: int, j: int| #![trigger rest[i], rest[j]] 0 <= i < j
            < rest.len() implies different_chunks()(rest[i], rest[j]) by {
            assert(different_chunks()(c[i], c[j]));
        }
        lemma_others_count(rest, chunk_id);
        if c.last().0 == chunk_id {
            assert forall|i: int| 0 <= i < rest.len() implies (#[trigger] rest[i]).0
                != chunk_id by {
                assert(different_chunks()(c[i], c[c.len() - 1]));
            }
        } else {
            assert forall|i: int| 0 <= i < rest.len() && (forall|k: int|
                0 <= k < c.len() ==> (#[trigger] c[k]).0 != chunk_id) implies (
            #[trigger] rest[i]).0 != chunk_id by {
                assert(c[i] == rest[i]);
            }
        }
    }
}

/// The candidates for a chunk never hold the chunk itself, and they are as many as
/// wanted as soon as the search, which asks for one more, finds that many.
pub proof fn law_candidates_leave_out_the_chunk(
    found: Seq<(i64, u32)>,
    chunk_id: i64,
    top_k: usize,
)
    requires
        pairwise(found, different_chunks()),
    ensures
        ({
            let r = first_others(Ok(found), chunk_id, top_k)->Ok_0;
            &&& first_others(Ok(found), chunk_id, top_k) is Ok
            &&& r.len() <= top_k
            &&& found.len() > top_k ==> r.len() == top_k
            &&& forall|i: int|
                0 <= i < r.len() ==> (#[trigger] r[i]).0 != chunk_id && found.contains(r[i])
        }),
{
    let others = of_others(found, chunk_id);
    let r = first_of(others, top_k);
    lemma_others_count(found, chunk_id);
    assert forall|i: int| 0 <= i < r.len() implies (#[trigger] r[i]).0 != chunk_id
        && found.contains(r[i]) by {
        assert(r[i] == others[i]);
        lemma_filter_member(found, other_than(chunk_id), i);
        let k = choose|k: int|
            0 <= k < found.len() && #[trigger] found[k] == found.filter(other_than(chunk_id))[i];
        assert(found[k] == r[i]);
    }
}

/// How many nodes segment `k` takes when `n` vectors are inserted one after the other.
pub open spec fn filled(k: int, n: int) -> int {
    if n - k * SEGMENT_MAX_SIZE < SEGMENT_MAX_SIZE {
        n - k * SEGMENT_MAX_SIZE
    } else {
        SEGMENT_MAX_SIZE as int
    }
}

/// Segment `k` of an index made of `n` vectors: full and sealed, or open.
pub open spec fn fresh_segment(t: Tables, now: i64, n: int, k: int) -> Segment {
    let full = filled(k, n) == SEGMENT_MAX_SIZE;
    Segment {
        id: (k + 1) as i64,
        status: if full {
            SegmentStatus::Sealed
        } else {
            SegmentStatus::Appendable
        },
        m: usize_setting(t.settings, "m"@, 16),
        ef_construction: usize_setting(t.settings, "ef_construction"@, 200),
        node_count: filled(k, n) as i64,
        has_index: full,
        created_at: now,
        sealed_at: if full {
            Some(now)
        } else {
            None
        },
    }
}

/// The index of segment `k`: its share of the vectors, in order, under the
/// construction parameters of the settings.
pub open spec fn fresh_graph(t: Tables, n: int, k: int) -> Graph {
    Graph {
        m: usize_setting(t.settings, "m"@, 16),
        ef_construction: usize_setting(t.settings, "ef_construction"@, 200),
        nodes: Seq::new(
            filled(k, n) as nat,
            |j: int| node_of(t.embeddings[k * SEGMENT_MAX_SIZE + j]),
        ),
    }
}

/// How many segments `n` vectors take.
pub open spec fn segment_count(n: int) -> int {
    (n + SEGMENT_MAX_SIZE - 1) / (SEGMENT_MAX_SIZE as int)
}

/// The tables once the first `n` embeddings fill the index from scratch.
pub open spec fn filled_tables(t: Tables, now: i64, n: int) -> Tables {
    Tables {
        segments: Seq::new(segment_count(n) as nat, |k: int| fresh_segment(t, now, n, k)),
        index: Map::new(
            |id: i64| 1 <= id <= segment_count(n),
            |id: i64| fresh_graph(t, n, id - 1),
        ),
        dumps: Map::new(
            |id: i64| 1 <= id <= segment_count(n) && filled(id - 1, n) == SEGMENT_MAX_SIZE,
            |id: i64| fresh_graph(t, n, id - 1),
        ),
        embeddings: Seq::new(
            t.embeddings.len(),
            |i: int|
                if i < n {
                    EmbeddingRow {
                        segment_id: (i / (SEGMENT_MAX_SIZE as int) + 1) as i64,
                        ..t.embeddings[i]
                    }
                } else {
                    t.embeddings[i]
                },
        ),
        ..t
    }
}

/// The segment that takes the next vector, when `n` fill the index from scratch.
proof fn lemma_filled_current(t: Tables, now: i64, n: int)
    requires
        0 <= n < i64::MAX,
    ensures
        ({
            let u = filled_tables(t, now, n);
            let k = n / (SEGMENT_MAX_SIZE as int);
            if n % (SEGMENT_MAX_SIZE as int) == 0 {
                current(u) is None && u.segments.len() == k
            } else {
                u.segments.len() == k + 1 && current(u) == Some(u.segments[k])
            }
        }),
{
    let u = filled_tables(t, now, n);
    let k = n / (SEGMENT_MAX_SIZE as int);
    if n % (SEGMENT_MAX_SIZE as int) == 0 {
        assert forall|i: int| 0 <= i < u.segments.len() implies !appendable()(
            #[trigger] u.segments[i],
        ) by {}
        lemma_first_absent(u.segments, appendable());
    } else {
        assert forall|i: int| 0 <= i < k implies !appendable()(#[trigger] u.segments[i]) by {}
        lemma_first_at(u.segments, appendable(), k);
    }
}

/// Inserting every embedding anew, one after the other, fills the segments one
/// after the other: each but the last is full and sealed, and all have the
/// construction parameters of the settings.
pub proof fn law_rebuild_fills_segments_in_order(t: Tables, now: i64, n: int)
    requires
        t.wf(),
        0 <= n <= t.embeddings.len() < i64::MAX,
    ensures
        reindexed(t, now, n) == filled_tables(t, now, n),
    decreases n,
{
    let want = filled_tables(t, now, n);
    if n == 0 {
        assert(want.segments =~= Seq::empty());
        assert(want.index =~= Map::empty());
        assert(want.dumps =~= Map::empty());
        assert(want.embeddings =~= t.embeddings);
    } else {
        law_rebuild_fills_segments_in_order(t, now, n - 1);
        lemma_filled_current(t, now, n - 1);
        let u = filled_tables(t, now, n - 1);
        let k = (n - 1) / (SEGMENT_MAX_SIZE as int);
        let e = t.embeddings[n - 1];
        let s = target(u, now);
        let w = with_target(u, now);
        let v = indexed(u, e.chunk_id, words(e.vector), now);
        let r = reindexed(t, now, n);
        if (n - 1) % (SEGMENT_MAX_SIZE as int) == 0 {
            if k > 0 {
                assert(u.segments.last() == u.segments[k - 1]);
            }
            assert(w.segments =~= u.segments.push(opened(u, now)));
        }
        assert(s.id == k + 1);
        assert(w.segments.len() == k + 1);
        assert(w.segments[k] == s);
        assert forall|i: int| 0 <= i < k implies (#[trigger] w.segments[i]).id == i + 1 by {}
        assert(v.segments =~= want.segments);
        assert(v.index =~= want.index) by {
            assert forall|id: i64| #[trigger] v.index.dom().contains(id)
                == want.index.dom().contains(id) by {}
            assert forall|id: i64| v.index.dom().contains(id) implies v.index[id]
                == want.index[id] by {
                assert(v.index[id] =~= want.index[id]);
            }
        }
        assert(v.dumps =~= want.dumps) by {
            assert forall|id: i64| #[trigger] v.dumps.dom().contains(id)
                == want.dumps.dom().contains(id) by {}
            assert forall|id: i64| v.dumps.dom().contains(id) implies v.dumps[id]
                == want.dumps[id] by {
                assert(v.dumps[id] =~= want.dumps[id]);
            }
        }
        assert(r.embeddings =~= want.embeddings) by {
            assert forall|i: int| 0 <= i < t.embeddings.len() implies r.embeddings[i]
                == want.embeddings[i] by {
                if i < n - 1 {
                    assert(embedding_order()(t.embeddings[i], t.embeddings[n - 1]));
                } else if i > n - 1 {
                    assert(embedding_order()(t.embeddings[n - 1], t.embeddings[i]));
                }
            }
        }
    }
}

/// After a rebuild the index holds exactly the stored embeddings: every node that
/// a segment counts is live, and every embedding points at a segment that exists.
pub proof fn law_rebuild_leaves_no_dead_nodes(t: Tables, clock: Option<i64>)
    requires
        t.wf(),
        t.embeddings.len() < i64::MAX,
        rebuilt(t, clock).1 is Ok,
    ensures
        ({
            let (u, r) = rebuilt(t, clock);
            &&& r == Ok::<i64, Error>(t.embeddings.len() as i64)
            &&& u.relations == t.relations
            &&& u.documents == t.documents
            &&& u.chunks == t.chunks
            &&& u.embeddings.len() == t.embeddings.len()
            &&& forall|i: int|
                0 <= i < u.embeddings.len() ==> {
                    &&& (#[trigger] u.embeddings[i]).chunk_id == t.embeddings[i].chunk_id
                    &&& u.embeddings[i].vector == t.embeddings[i].vector
                    &&& u.embeddings[i].embedding_model_id == t.embeddings[i].embedding_model_id
                    &&& u.index.contains_key(u.embeddings[i].segment_id)
                    &&& 0 <= u.embeddings[i].segment_id - 1 < u.segments.len()
                }
            &&& forall|k: int|
                0 <= k < u.segments.len() ==> {
                    let here = u.embeddings.filter(in_segment((#[trigger] u.segments[k]).id));
                    &&& u.segments[k].id == k + 1
                    &&& u.segments[k].node_count == here.len()
                    &&& u.index[u.segments[k].id].nodes == here.map_values(
                        |e: EmbeddingRow| node_of(e),
                    )
                }
        }),
{
    let n = t.embeddings.len() as int;
    let now = time_of(clock);
    let (u, r) = rebuilt(t, clock);
    law_rebuild_fills_segments_in_order(t, now, n);
    assert(u == filled_tables(t, now, n));
    assert forall|k: int| 0 <= k < u.segments.len() implies {
        let here = u.embeddings.filter(in_segment((#[trigger] u.segments[k]).id));
        &&& u.segments[k].id == k + 1
        &&& u.segments[k].node_count == here.len()
        &&& u.index[u.segments[k].id].nodes == here.map_values(
                        |e: EmbeddingRow| node_of(e),
                    )
    } by {
        lemma_segment_range(t, now, n, k);
    }
}

/// The embeddings of a segment that was filled in order stand one after the other.
proof fn lemma_segment_range(t: Tables, now: i64, n: int, k: int)
    requires
        n == t.embeddings.len() < i64::MAX,
        0 <= k < segment_count(n),
    ensures
        ({
            let u = filled_tables(t, now, n);
            let here = u.embeddings.filter(in_segment((k + 1) as i64));
            &&& u.segments[k].id == k + 1
            &&& here.len() == filled(k, n)
            &&& u.index[(k + 1) as i64].nodes == here.map_values(|e: EmbeddingRow| node_of(e))
        }),
{
    let u = filled_tables(t, now, n);
    let a = k * SEGMENT_MAX_SIZE;
    let b = a + filled(k, n);
    let p = in_segment((k + 1) as i64);
    assert forall|i: int| 0 <= i < u.embeddings.len() implies p(#[trigger] u.embeddings[i]) == (a
        <= i < b) by {
        assert(u.embeddings[i].segment_id == i / (SEGMENT_MAX_SIZE as int) + 1);
    }
    lemma_filter_range(u.embeddings, p, a, b);
    let here = u.embeddings.subrange(a, b);
    assert(u.index[(k + 1) as i64].nodes =~= here.map_values(|e: EmbeddingRow| node_of(e)));
}

/// A second rebuild gives the same count as the first, and the statistics stay as they
/// are: every node that is counted is live.
pub proof fn law_second_rebuild_changes_no_statistics(
    t: Tables,
    clock: Option<i64>,
    later: Option<i64>,
)
    requires
        t.wf(),
        t.embeddings.len() < i64::MAX,
        t.embeddings.len() > 0 ==> clock is Some && later is Some,
    ensures
        ({
            let (u, r) = rebuilt(t, clock);
            let (v, s) = rebuilt(u, later);
            &&& r == Ok::<i64, Error>(t.embeddings.len() as i64)
            &&& s == r
            &&& stats_json(v) == stats_json(u)
            &&& forall|k: int|
                0 <= k < u.segments.len() ==> (#[trigger] u.segments[k]).node_count
                    == u.embeddings.filter(in_segment(u.segments[k].id)).len()
        }),
{
    let n = t.embeddings.len() as int;
    let (u, r) = rebuilt(t, clock);
    let (v, s) = rebuilt(u, later);
    law_rebuild_leaves_no_dead_nodes(t, clock);
    law_rebuild_fills_segments_in_order(t, time_of(clock), n);
    lemma_reindexed(t, time_of(clock), n);
    law_rebuild_leaves_no_dead_nodes(u, later);
    law_rebuild_fills_segments_in_order(u, time_of(later), n);
    let f = |x: Segment| segment_json(u, x);
    let g = |x: Segment| segment_json(v, x);
    assert forall|k: int| 0 <= k < u.segments.len() implies f(u.segments[k]) == g(
        v.segments[k],
    ) by {
        assert(u.segments[k] == fresh_segment(t, time_of(clock), n, k));
        assert(v.segments[k] == fresh_segment(u, time_of(later), n, k));
        assert(u.segments[k].node_count == u.embeddings.filter(
            in_segment(u.segments[k].id),
        ).len());
        assert(v.segments[k].node_count == v.embeddings.filter(
            in_segment(v.segments[k].id),
        ).len());
    }
    assert(u.segments.map_values(f) =~= v.segments.map_values(g));
}

/// The insertion that fills a segment goes to it and seals it, with its whole index
/// dumped; the next one opens another segment, and never do two take insertions.
pub proof fn law_full_segment_is_sealed_and_another_opened(
    t: Tables,
    first: i64,
    first_vector: Seq<u32>,
    now: i64,
    second: i64,
    second_vector: Seq<u32>,
    later: i64,
    i: int,
)
    requires
        t.wf(),
        0 <= i < t.segments.len(),
        t.segments[i].status == SegmentStatus::Appendable,
        t.segments[i].node_count == SEGMENT_MAX_SIZE - 1,
        next_segment_id(t.segments) <= i64::MAX,
    ensures
        ({
            let s = t.segments[i];
            let (u, r) = insertion(t, first, first_vector, Some(now));
            let (v, q) = insertion(u, second, second_vector, Some(later));
            let opened_id = next_segment_id(t.segments) as i64;
            &&& r == Ok::<i64, Error>(s.id)
            &&& q == Ok::<i64, Error>(opened_id)
            &&& opened_id != s.id
            &&& u.wf() && v.wf()
            &&& v.segments[i] == Segment {
                status: SegmentStatus::Sealed,
                node_count: SEGMENT_MAX_SIZE,
                sealed_at: Some(now),
                has_index: true,
                ..s
            }
            &&& v.dumps.contains_key(s.id) && v.dumps[s.id] == u.index[s.id]
            &&& u.index[s.id].nodes == graph_of(t.index, s.id).nodes.push(
                Node { chunk_id: first, vector: first_vector },
            )
            &&& v.segments.len() == t.segments.len() + 1
            &&& v.segments.last().id == opened_id
            &&& v.segments.last().status == SegmentStatus::Appendable
            &&& v.segments.last().node_count == 1
            &&& forall|k: int|
                0 <= k < t.segments.len() ==> (#[trigger] v.segments[k]).status
                    == SegmentStatus::Sealed
        }),
{
    let s = t.segments[i];
    let n = t.segments.len() as int;
    assert forall|k: int| 0 <= k < n && k != i implies (#[trigger] t.segments[k]).status
        == SegmentStatus::Sealed && t.segments[k].id != s.id by {
        if k < i {
            assert(one_appendable()(t.segments[k], t.segments[i]));
            assert(segment_order()(t.segments[k], t.segments[i]));
        } else {
            assert(one_appendable()(t.segments[i], t.segments[k]));
            assert(segment_order()(t.segments[i], t.segments[k]));
        }
    }
    lemma_first_at(t.segments, appendable(), i);
    lemma_indexed_wf(t, first, first_vector, now);
    let u = insertion(t, first, first_vector, Some(now)).0;
    assert forall|k: int| 0 <= k < n implies (#[trigger] u.segments[k]).status
        == SegmentStatus::Sealed && u.segments[k].id == t.segments[k].id by {
        assert(t.segments[k].id == t.segments[k].id);
    }
    assert forall|k: int| 0 <= k < u.segments.len() implies !appendable()(
        #[trigger] u.segments[k],
    ) by {}
    lemma_first_absent(u.segments, appendable());
    assert(u.segments.last() == u.segments[n - 1]);
    assert(t.segments.last() == t.segments[n - 1]);
    lemma_indexed_wf(u, second, second_vector, later);
    let v = insertion(u, second, second_vector, Some(later)).0;
    let w = with_target(u, later).segments;
    assert(w == u.segments.push(opened(u, later)));
    assert forall|k: int| 0 <= k < n implies (#[trigger] v.segments[k]) == u.segments[k] by {
        assert(w[k] == u.segments[k]);
        if k < n - 1 {
            assert(segment_order()(t.segments[k], t.segments[n - 1]));
        }
    }
    assert(w[n] == opened(u, later));
    assert(v.segments.last() == v.segments[n]);
    if i < n - 1 {
        assert(segment_order()(t.segments[i], t.segments[n - 1]));
    }
}

/// What is loaded when the process starts does not depend on the settings: the open
/// segment is made anew with the construction parameters that it was opened with.
pub proof fn law_reload_ignores_the_settings(t: Tables, u: Tables)
    requires
        u == (Tables { settings: u.settings, ..t }),
    ensures
        reload_plan(u) == reload_plan(t),
{
}

/// Loading the index anew when the process starts gives the open segment the nodes
/// that a rebuild gave it, under the same construction parameters.
pub proof fn law_reload_restores_the_open_segment(t: Tables, clock: Option<i64>)
    requires
        t.wf(),
        t.embeddings.len() < i64::MAX,
        rebuilt(t, clock).1 is Ok,
        current(rebuilt(t, clock).0) is Some,
    ensures
        ({
            let u = rebuilt(t, clock).0;
            let s = current(u)->0;
            reload_plan(u).last() == (LoadPlan::Anew {
                segment_id: s.id,
                m: s.m,
                ef_construction: s.ef_construction,
                nodes: u.index[s.id].nodes,
            })
        }),
{
    let u = rebuilt(t, clock).0;
    law_rebuild_leaves_no_dead_nodes(t, clock);
    let k = lemma_current(u);
    assert(u.segments[k] == current(u)->0);
}

} // verus!
