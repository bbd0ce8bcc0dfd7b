//! What an insertion does to the segments, and what is loaded of them.

use vstd::prelude::*;

use crate::ann::model::{
    appendable, can_index, counted, current, dumped, in_segment, insertion, node_of, rebuilt,
    reload_plan, target, with_target, LoadPlan,
};
use crate::bits::words;
use crate::embedding::can_store;
use crate::error::Error;
use crate::laws::index::{filled_tables, law_rebuild_fills_segments_in_order};
use crate::seqs::{
    lemma_filter_keeps, lemma_filter_member, lemma_first_absent, lemma_first_at, lemma_first_found,
};
use crate::storage::settings::usize_setting;
use crate::storage::tables::{
    one_appendable, segment_order, EmbeddingRow, Node, Segment, SegmentStatus, Tables,
};

verus! {

/// The one segment that takes insertions is where they go.
proof fn lemma_current_at(t: Tables, i: int)
    requires
        t.wf(),
        0 <= i < t.segments.len(),
        t.segments[i].status == SegmentStatus::Appendable,
    ensures
        current(t) == Some(t.segments[i]),
{
    assert forall|k: int| 0 <= k < i implies !appendable()(#[trigger] t.segments[k]) by {
        assert(one_appendable()(t.segments[k], t.segments[i]));
    }
    lemma_first_at(t.segments, appendable(), i);
}

/// Where a segment takes insertions, an insertion adds its node there and counts it;
/// the ten thousandth seals the segment at that time, and its index is dumped. Every
/// other segment and index stays as it is.
pub proof fn law_insertion_goes_to_the_open_segment(
    t: Tables,
    chunk_id: i64,
    vector: Seq<u32>,
    now: i64,
    i: int,
)
    requires
        t.wf(),
        0 <= i < t.segments.len(),
        t.segments[i].status == SegmentStatus::Appendable,
    ensures
        ({
            let (u, r) = insertion(t, chunk_id, vector, Some(now));
            let s = t.segments[i];
            let full = s.node_count + 1 >= 10_000;
            &&& r == Ok::<i64, Error>(s.id)
            &&& u.segments == t.segments.update(
                i,
                Segment {
                    node_count: (s.node_count + 1) as i64,
                    status: if full {
                        SegmentStatus::Sealed
                    } else {
                        SegmentStatus::Appendable
                    },
                    sealed_at: if full {
                        Some(now)
                    } else {
                        s.sealed_at
                    },
                    has_index: full || s.has_index,
                    ..s
                },
            )
            &&& u.index.dom() == t.index.dom().insert(s.id)
            &&& u.index[s.id].m == s.m
            &&& u.index[s.id].ef_construction == s.ef_construction
            &&& t.index.contains_key(s.id) ==> u.index[s.id].nodes == t.index[s.id].nodes.push(
                Node { chunk_id, vector },
            )
            &&& !t.index.contains_key(s.id) ==> u.index[s.id].nodes == seq![
                Node { chunk_id, vector },
            ]
            &&& forall|id: i64| id != s.id ==> #[trigger] u.index[id] == t.index[id]
            &&& full ==> u.dumps == t.dumps.insert(s.id, u.index[s.id])
            &&& !full ==> u.dumps == t.dumps
            &&& u.documents == t.documents
            &&& u.chunks == t.chunks
            &&& u.models == t.models
            &&& u.embeddings == t.embeddings
            &&& u.relations == t.relations
            &&& u.settings == t.settings
        }),
{
    lemma_current_at(t, i);
    let s = t.segments[i];
    let u = insertion(t, chunk_id, vector, Some(now)).0;
    assert forall|k: int| 0 <= k < t.segments.len() && k != i implies (
    #[trigger] t.segments[k]).id != s.id by {
        if k < i {
            assert(segment_order()(t.segments[k], t.segments[i]));
        } else {
            assert(segment_order()(t.segments[i], t.segments[k]));
        }
    }
    assert(u.segments =~= t.segments.update(i, counted(s, now)));
    assert(u.index.dom() =~= t.index.dom().insert(s.id));
    if !t.index.contains_key(s.id) {
        assert(u.index[s.id].nodes =~= seq![Node { chunk_id, vector }]);
    }
}

/// Where no segment takes insertions, one is opened behind the others: with the next
/// id, the parameters that the settings say, the time, and the one node.
pub proof fn law_insertion_opens_a_segment(t: Tables, chunk_id: i64, vector: Seq<u32>, now: i64)
    requires
        t.wf(),
        forall|i: int|
            0 <= i < t.segments.len() ==> (#[trigger] t.segments[i]).status
                == SegmentStatus::Sealed,
        t.segments.len() > 0 ==> t.segments.last().id < i64::MAX,
    ensures
        ({
            let (u, r) = insertion(t, chunk_id, vector, Some(now));
            let id: int = if t.segments.len() == 0 {
                1
            } else {
                t.segments.last().id + 1
            };
            &&& r == Ok::<i64, Error>(id as i64)
            &&& u.segments == t.segments.push(
                Segment {
                    id: id as i64,
                    status: SegmentStatus::Appendable,
                    m: usize_setting(t.settings, "m"@, 16),
                    ef_construction: usize_setting(t.settings, "ef_construction"@, 200),
                    node_count: 1,
                    has_index: false,
                    created_at: now,
                    sealed_at: None,
                },
            )
            &&& u.index.contains_key(id as i64)
            &&& u.index[id as i64].m == usize_setting(t.settings, "m"@, 16)
            &&& u.index[id as i64].ef_construction == usize_setting(
                t.settings,
                "ef_construction"@,
                200,
            )
            &&& u.index[id as i64].nodes.last() == Node { chunk_id, vector }
            &&& u.dumps == t.dumps
            &&& u.embeddings == t.embeddings
            &&& u.settings == t.settings
        }),
{
    lemma_first_absent(t.segments, appendable());
    let (u, r) = insertion(t, chunk_id, vector, Some(now));
    let s = target(t, now);
    let w = with_target(t, now).segments;
    assert forall|k: int| 0 <= k < t.segments.len() implies (#[trigger] t.segments[k]).id
        < s.id by {
        if k < t.segments.len() - 1 {
            assert(segment_order()(t.segments[k], t.segments[t.segments.len() - 1]));
        }
    }
    assert(u.segments =~= t.segments.push(counted(s, now)));
}

/// Without a clock an insertion goes through where nothing has to be dated, which is
/// where a segment takes it and is not filled by it.
pub proof fn law_insertion_without_a_clock(t: Tables, chunk_id: i64, vector: Seq<u32>)
    requires
        t.wf(),
    ensures
        insertion(t, chunk_id, vector, None).1 is Ok <==> exists|i: int|
            0 <= i < t.segments.len() && (#[trigger] t.segments[i]).status
                == SegmentStatus::Appendable && t.segments[i].node_count + 1 < 10_000,
        insertion(t, chunk_id, vector, None).1 is Err ==> insertion(t, chunk_id, vector, None) == (
            t,
            Err::<i64, Error>(Error::ClockBeforeEpoch),
        ),
{
    if current(t) is Some {
        let i: int = lemma_first_found(t.segments, appendable());
        assert(t.segments[i].status == SegmentStatus::Appendable);
    }
    if exists|i: int|
        0 <= i < t.segments.len() && (#[trigger] t.segments[i]).status == SegmentStatus::Appendable
            && t.segments[i].node_count + 1 < 10_000 {
        let i = choose|i: int|
            0 <= i < t.segments.len() && (#[trigger] t.segments[i]).status
                == SegmentStatus::Appendable && t.segments[i].node_count + 1 < 10_000;
        lemma_current_at(t, i);
    }
}

/// What is loaded when a process starts is the dump of every sealed segment that has
/// one and the segment that takes insertions, and nothing else.
pub proof fn law_everything_is_loaded(t: Tables, i: int, n: int)
    requires
        t.wf(),
        0 <= i < t.segments.len(),
        0 <= n < reload_plan(t).len(),
    ensures
        t.segments[i].status == SegmentStatus::Sealed && t.segments[i].has_index
            ==> reload_plan(t).contains(LoadPlan::Stored { segment_id: t.segments[i].id }),
        t.segments[i].status == SegmentStatus::Appendable ==> {
            &&& reload_plan(t).last() matches LoadPlan::Anew { segment_id, m, ef_construction, nodes }
                && segment_id == t.segments[i].id && m == t.segments[i].m && ef_construction
                == t.segments[i].ef_construction
        },
        match reload_plan(t)[n] {
            LoadPlan::Stored { segment_id } => exists|k: int|
                0 <= k < t.segments.len() && (#[trigger] t.segments[k]).id == segment_id
                    && t.segments[k].status == SegmentStatus::Sealed && t.segments[k].has_index,
            LoadPlan::Anew { segment_id, m, ef_construction, nodes } => {
                &&& n == reload_plan(t).len() - 1
                &&& exists|k: int|
                    0 <= k < t.segments.len() && (#[trigger] t.segments[k]).id == segment_id
                        && t.segments[k].status == SegmentStatus::Appendable
            },
        },
{
    let stored = t.segments.filter(dumped());
    if t.segments[i].status == SegmentStatus::Sealed && t.segments[i].has_index {
        let j = lemma_filter_keeps(t.segments, dumped(), i);
        assert(reload_plan(t)[j] == LoadPlan::Stored { segment_id: t.segments[i].id });
    }
    if t.segments[i].status == SegmentStatus::Appendable {
        lemma_current_at(t, i);
    }
    if n < stored.len() {
        lemma_filter_member(t.segments, dumped(), n);
        let k = choose|k: int| 0 <= k < t.segments.len() && #[trigger] t.segments[k] == stored[n];
        assert(reload_plan(t)[n] == LoadPlan::Stored { segment_id: t.segments[k].id });
    } else {
        let k: int = lemma_first_found(t.segments, appendable());
        assert(t.segments[k].status == SegmentStatus::Appendable);
    }
}

/// The segment that takes insertions is loaded with the vector of every embedding that
/// is in it, and no other node.
pub proof fn law_open_segment_is_loaded_with_its_vectors(t: Tables, i: int, e: EmbeddingRow)
    requires
        t.wf(),
        0 <= i < t.segments.len(),
        t.segments[i].status == SegmentStatus::Appendable,
    ensures
        ({
            let nodes = reload_plan(t).last()->nodes;
            &&& t.embeddings.contains(e) && e.segment_id == t.segments[i].id ==> nodes.contains(
                Node { chunk_id: e.chunk_id, vector: words(e.vector) },
            )
            &&& forall|n: int|
                0 <= n < nodes.len() ==> exists|k: int|
                    0 <= k < t.embeddings.len() && (#[trigger] t.embeddings[k]).segment_id
                        == t.segments[i].id && #[trigger] nodes[n] == (Node {
                        chunk_id: t.embeddings[k].chunk_id,
                        vector: words(t.embeddings[k].vector),
                    })
            &&& forall|m: int, n: int|
                0 <= m < n < nodes.len() ==> (#[trigger] nodes[m]).chunk_id < (
                #[trigger] nodes[n]).chunk_id
        }),
{
    lemma_current_at(t, i);
    let p = in_segment(t.segments[i].id);
    let kept = t.embeddings.filter(p);
    let nodes = reload_plan(t).last()->nodes;
    assert(nodes == kept.map_values(|e: EmbeddingRow| node_of(e)));
    if t.embeddings.contains(e) && e.segment_id == t.segments[i].id {
        let k = choose|k: int| 0 <= k < t.embeddings.len() && t.embeddings[k] == e;
        let j = lemma_filter_keeps(t.embeddings, p, k);
        assert(nodes[j] == node_of(e));
    }
    assert forall|n: int| 0 <= n < nodes.len() implies exists|k: int|
        0 <= k < t.embeddings.len() && (#[trigger] t.embeddings[k]).segment_id == t.segments[i].id
            && #[trigger] nodes[n] == (Node {
            chunk_id: t.embeddings[k].chunk_id,
            vector: words(t.embeddings[k].vector),
        }) by {
        lemma_filter_member(t.embeddings, p, n);
        let k = choose|k: int| 0 <= k < t.embeddings.len() && #[trigger] t.embeddings[k] == kept[n];
        assert(nodes[n] == node_of(t.embeddings[k]));
    }
    crate::seqs::lemma_filter_pairwise(
        t.embeddings,
        p,
        crate::storage::tables::embedding_order(),
    );
    assert forall|m: int, n: int| 0 <= m < n < nodes.len() implies (#[trigger] nodes[m]).chunk_id < (
    #[trigger] nodes[n]).chunk_id by {
        assert(crate::storage::tables::embedding_order()(kept[m], kept[n]));
    }
}

/// What the machine limits leave out is all that cannot be indexed or stored: an
/// embedding can be stored where there are ids for a segment and a model, and its
/// bytes can be counted.
pub proof fn law_whatever_fits_can_be_stored(t: Tables, model_name: Seq<char>, dimension: i64)
    requires
        t.segments.len() > 0 ==> t.segments.last().id < i64::MAX,
        t.models.len() > 0 ==> t.models.last().id < i64::MAX,
        0 <= dimension,
        dimension * 4 <= usize::MAX,
    ensures
        can_index(t),
        can_store(t, model_name, dimension),
{
}

/// With a clock the index is always rebuilt, of every embedding. Without one it is
/// rebuilt where there is nothing to date, and otherwise left alone.
pub proof fn law_rebuild_goes_through(t: Tables, now: i64)
    requires
        t.wf(),
        t.embeddings.len() < i64::MAX,
    ensures
        rebuilt(t, Some(now)) == (
            filled_tables(t, now, t.embeddings.len() as int),
            Ok::<i64, Error>(t.embeddings.len() as i64),
        ),
        t.embeddings.len() == 0 ==> rebuilt(t, None).1 == Ok::<i64, Error>(0) && rebuilt(
            t,
            None,
        ).0.segments.len() == 0,
        t.embeddings.len() > 0 ==> rebuilt(t, None) == (
            t,
            Err::<i64, Error>(Error::ClockBeforeEpoch),
        ),
{
    law_rebuild_fills_segments_in_order(t, now, t.embeddings.len() as int);
}

} // verus!
