//! What holds of the nodes that the segments count, in every state that the library
//! brings a database to.

use vstd::prelude::*;

use crate::ann::model::{
    can_index, current, in_segment, insertion, lemma_current, lemma_with_target_wf, opened, rebuilt,
    target, time_of, with_target,
};
use crate::ann::SEGMENT_MAX_SIZE;
use crate::document::chunk::Chunking;
use crate::document::model::{
    added, blank_identity, id_of_another, matched, new_row, owned_by, owned_from, without_document,
    Naming,
};
use crate::embedding::{can_store, lemma_with_model_wf, model_of, stored, with_model};
use crate::graph::related;
use crate::laws::documents::law_update_purges_what_was_judged_on_old_text;
use crate::laws::index::{
    filled_tables, law_rebuild_fills_segments_in_order, law_rebuild_leaves_no_dead_nodes,
};
use crate::seqs::{
    lemma_filter_empty, lemma_filter_member, lemma_filter_none, lemma_filter_push, pairwise,
};
use crate::storage::references::has_segment;
use crate::storage::tables::{
    empty_tables, put_embedding, segment_order, EmbeddingRow, RelationRow, Segment, SegmentStatus,
    Tables,
};

verus! {

/// How many embeddings point at a segment.
pub open spec fn live_nodes(embeddings: Seq<EmbeddingRow>, segment_id: i64) -> nat {
    embeddings.filter(in_segment(segment_id)).len()
}

/// A segment counts at least the embeddings that point at it, and no more than it
/// can hold; one that takes insertions has room for another.
pub open spec fn segment_tallied(embeddings: Seq<EmbeddingRow>, s: Segment) -> bool {
    &&& live_nodes(embeddings, s.id) <= s.node_count <= SEGMENT_MAX_SIZE
    &&& s.status == SegmentStatus::Appendable ==> s.node_count < SEGMENT_MAX_SIZE
}

/// Every segment counts its nodes right, and every embedding points at a segment.
pub open spec fn tallied(t: Tables) -> bool {
    &&& forall|k: int|
        0 <= k < t.segments.len() ==> segment_tallied(t.embeddings, #[trigger] t.segments[k])
    &&& forall|i: int|
        0 <= i < t.embeddings.len() ==> has_segment(t, (#[trigger] t.embeddings[i]).segment_id)
}

/// One of the segments has the id.
pub open spec fn among(segments: Seq<Segment>, segment_id: i64) -> bool {
    exists|k: int| 0 <= k < segments.len() && (#[trigger] segments[k]).id == segment_id
}

/// How many embeddings point at the given segments, taken together.
pub open spec fn live_sum(embeddings: Seq<EmbeddingRow>, segments: Seq<Segment>) -> nat
    decreases segments.len(),
{
    if segments.len() == 0 {
        0
    } else {
        live_sum(embeddings, segments.drop_last()) + live_nodes(embeddings, segments.last().id)
    }
}

/// One more embedding counts once where its segment is among the given ones.
proof fn lemma_live_sum_push(e: Seq<EmbeddingRow>, x: EmbeddingRow, segments: Seq<Segment>)
    requires
        pairwise(segments, segment_order()),
    ensures
        live_sum(e.push(x), segments) == live_sum(e, segments) + (if among(
            segments,
            x.segment_id,
        ) {
            1nat
        } else {
            0nat
        }),
    decreases segments.len(),
{
    if segments.len() > 0 {
        let rest = segments.drop_last();
        let last = segments.last();
        assert forall|i: int, j: int| #![trigger rest[i], rest[j]] 0 <= i < j
            < rest.len() implies segment_order()(rest[i], rest[j]) by {
            assert(segment_order()(segments[i], segments[j]));
        }
        lemma_live_sum_push(e, x, rest);
        lemma_filter_push(e, x, in_segment(last.id));
        let n = segments.len() as int;
        if last.id == x.segment_id {
            assert(segments[n - 1].id == x.segment_id);
            if among(rest, x.segment_id) {
                let k = choose|k: int|
                    0 <= k < rest.len() && (#[trigger] rest[k]).id == x.segment_id;
                assert(segment_order()(segments[k], segments[n - 1]));
            }
        } else {
            if among(rest, x.segment_id) {
                let k = choose|k: int|
                    0 <= k < rest.len() && (#[trigger] rest[k]).id == x.segment_id;
                assert(segments[k].id == x.segment_id);
            }
            if among(segments, x.segment_id) {
                let k = choose|k: int|
                    0 <= k < segments.len() && (#[trigger] segments[k]).id == x.segment_id;
                assert(rest[k].id == x.segment_id);
            }
        }
    }
}

proof fn lemma_live_sum_empty(segments: Seq<Segment>)
    ensures
        live_sum(Seq::empty(), segments) == 0,
    decreases segments.len(),
{
    if segments.len() > 0 {
        lemma_live_sum_empty(segments.drop_last());
        lemma_filter_empty(in_segment(segments.last().id));
    }
}

/// Embeddings that point at segments of a list, and nothing else, are counted once each.
proof fn lemma_live_sum(e: Seq<EmbeddingRow>, segments: Seq<Segment>)
    requires
        pairwise(segments, segment_order()),
        forall|i: int| 0 <= i < e.len() ==> among(segments, (#[trigger] e[i]).segment_id),
    ensures
        live_sum(e, segments) == e.len(),
    decreases e.len(),
{
    if e.len() == 0 {
        assert(e =~= Seq::empty());
        lemma_live_sum_empty(segments);
    } else {
        let rest = e.drop_last();
        assert(e =~= rest.push(e.last()));
        assert forall|i: int| 0 <= i < rest.len() implies among(
            segments,
            (#[trigger] rest[i]).segment_id,
        ) by {
            assert(rest[i] == e[i]);
        }
        lemma_live_sum(rest, segments);
        lemma_live_sum_push(rest, e.last(), segments);
        assert(e.last() == e[e.len() - 1]);
    }
}

/// The live nodes of all segments together are the stored embeddings.
pub proof fn law_live_nodes_sum_to_the_embeddings(t: Tables)
    requires
        t.wf(),
        tallied(t),
    ensures
        live_sum(t.embeddings, t.segments) == t.embeddings.len(),
{
    assert forall|i: int| 0 <= i < t.embeddings.len() implies among(
        t.segments,
        (#[trigger] t.embeddings[i]).segment_id,
    ) by {
        assert(has_segment(t, t.embeddings[i].segment_id));
    }
    lemma_live_sum(t.embeddings, t.segments);
}

/// A database without rows counts its nodes right.
pub proof fn law_empty_database_is_tallied(foreign_keys: bool)
    ensures
        tallied(empty_tables(foreign_keys)),
{
}

/// Fewer embeddings leave fewer that point at a segment.
proof fn lemma_live_nodes_fewer(
    e: Seq<EmbeddingRow>,
    keep: spec_fn(EmbeddingRow) -> bool,
    segment_id: i64,
)
    ensures
        live_nodes(e.filter(keep), segment_id) <= live_nodes(e, segment_id),
    decreases e.len(),
{
    let p = in_segment(segment_id);
    if e.len() == 0 {
        assert(e =~= Seq::empty());
        lemma_filter_empty(keep);
    } else {
        let rest = e.drop_last();
        assert(e =~= rest.push(e.last()));
        lemma_live_nodes_fewer(rest, keep, segment_id);
        lemma_filter_push(rest, e.last(), keep);
        lemma_filter_push(rest, e.last(), p);
        lemma_filter_push(rest.filter(keep), e.last(), p);
    }
}

/// Dropping embeddings keeps the count right.
proof fn lemma_fewer_tallied(t: Tables, u: Tables, keep: spec_fn(EmbeddingRow) -> bool)
    requires
        tallied(t),
        u.segments == t.segments,
        u.embeddings == t.embeddings.filter(keep),
    ensures
        tallied(u),
{
    assert forall|k: int| 0 <= k < u.segments.len() implies segment_tallied(
        u.embeddings,
        #[trigger] u.segments[k],
    ) by {
        assert(segment_tallied(t.embeddings, t.segments[k]));
        lemma_live_nodes_fewer(t.embeddings, keep, u.segments[k].id);
    }
    assert forall|i: int| 0 <= i < u.embeddings.len() implies has_segment(
        u,
        (#[trigger] u.embeddings[i]).segment_id,
    ) by {
        lemma_filter_member(t.embeddings, keep, i);
        let j = choose|j: int|
            0 <= j < t.embeddings.len() && #[trigger] t.embeddings[j] == u.embeddings[i];
        assert(has_segment(t, t.embeddings[j].segment_id));
        let k = choose|k: int|
            0 <= k < t.segments.len() && (#[trigger] t.segments[k]).id
                == t.embeddings[j].segment_id;
        assert(u.segments[k].id == u.embeddings[i].segment_id);
    }
}

/// Adding a document, however it ends, keeps the count right.
pub proof fn law_adding_keeps_the_tally(
    t: Tables,
    naming: Naming,
    content: Seq<char>,
    hash: Seq<char>,
    chunking: Chunking,
    clock: Option<i64>,
)
    requires
        tallied(t),
    ensures
        tallied(added(t, naming, content, hash, chunking, clock).0),
{
    let u = added(t, naming, content, hash, chunking, clock).0;
    let pieces = crate::document::chunk::cut(content, chunking);
    let n = pieces.len() as int;
    if !blank_identity(naming.external_id) {
        match matched(t, naming.external_id) {
            Some(d) => {
                if d.hash != hash {
                    let version = (d.version + 1) as i64;
                    let f = crate::document::model::reversioned(d.id, hash, version);
                    let v = Tables { documents: t.documents.map_values(f), ..t };
                    law_update_purges_what_was_judged_on_old_text(v, d.id, pieces, version);
                    let gone = owned_from(v.chunks, d.id, n);
                    lemma_fewer_tallied(t, u, |e: EmbeddingRow| !gone(e.chunk_id));
                }
            },
            None => {
                if clock is Some && !id_of_another(t, naming.external_id) {
                    let row = new_row(t, naming, hash, clock->0);
                    let v = Tables { documents: t.documents.push(row), ..t };
                    law_update_purges_what_was_judged_on_old_text(v, row.id, pieces, 1);
                    let gone = owned_from(v.chunks, row.id, n);
                    lemma_fewer_tallied(t, u, |e: EmbeddingRow| !gone(e.chunk_id));
                }
            },
        }
    }
}

/// Deleting a document keeps the count right.
pub proof fn law_deletion_keeps_the_tally(t: Tables, document_id: i64)
    requires
        tallied(t),
    ensures
        tallied(without_document(t, document_id)),
{
    let gone = owned_by(t.chunks, document_id);
    lemma_fewer_tallied(
        t,
        without_document(t, document_id),
        |e: EmbeddingRow| !gone(e.chunk_id),
    );
}

/// Storing a relation, however it ends, keeps the count right.
pub proof fn law_relating_keeps_the_tally(t: Tables, row: RelationRow)
    requires
        tallied(t),
    ensures
        tallied(related(t, row).0),
{
    let u = related(t, row).0;
    lemma_same_tallied(t, u);
}

/// The count looks at segments and embeddings only.
pub proof fn lemma_same_tallied(t: Tables, u: Tables)
    requires
        tallied(t),
        u.segments == t.segments,
        u.embeddings == t.embeddings,
    ensures
        tallied(u),
{
    assert forall|i: int| 0 <= i < u.embeddings.len() implies has_segment(
        u,
        (#[trigger] u.embeddings[i]).segment_id,
    ) by {
        assert(has_segment(t, t.embeddings[i].segment_id));
        let k = choose|k: int|
            0 <= k < t.segments.len() && (#[trigger] t.segments[k]).id
                == t.embeddings[i].segment_id;
        assert(u.segments[k].id == u.embeddings[i].segment_id);
    }
}

/// Embeddings that two conditions keep apart point at a segment at most as often as
/// all of them.
proof fn lemma_live_nodes_apart(
    e: Seq<EmbeddingRow>,
    a: spec_fn(EmbeddingRow) -> bool,
    b: spec_fn(EmbeddingRow) -> bool,
    segment_id: i64,
)
    requires
        forall|x: EmbeddingRow| !(#[trigger] a(x) && #[trigger] b(x)),
    ensures
        live_nodes(e.filter(a), segment_id) + live_nodes(e.filter(b), segment_id) <= live_nodes(
            e,
            segment_id,
        ),
    decreases e.len(),
{
    let p = in_segment(segment_id);
    if e.len() == 0 {
        assert(e =~= Seq::empty());
        lemma_filter_empty(a);
        lemma_filter_empty(b);
    } else {
        let rest = e.drop_last();
        let x = e.last();
        assert(e =~= rest.push(x));
        lemma_live_nodes_apart(rest, a, b, segment_id);
        lemma_filter_push(rest, x, a);
        lemma_filter_push(rest, x, b);
        lemma_filter_push(rest, x, p);
        lemma_filter_push(rest.filter(a), x, p);
        lemma_filter_push(rest.filter(b), x, p);
        assert(!(a(x) && b(x)));
    }
}

/// Two lists one after the other point at a segment as often as both.
proof fn lemma_live_nodes_joined(a: Seq<EmbeddingRow>, b: Seq<EmbeddingRow>, segment_id: i64)
    ensures
        live_nodes(a + b, segment_id) == live_nodes(a, segment_id) + live_nodes(b, segment_id),
    decreases b.len(),
{
    let p = in_segment(segment_id);
    if b.len() == 0 {
        assert(b =~= Seq::empty());
        assert(a + b =~= a);
        lemma_filter_empty(p);
    } else {
        let rest = b.drop_last();
        lemma_live_nodes_joined(a, rest, segment_id);
        assert(b =~= rest.push(b.last()));
        assert(a + b =~= (a + rest).push(b.last()));
        lemma_filter_push(rest, b.last(), p);
        lemma_filter_push(a + rest, b.last(), p);
    }
}

/// Setting an embedding adds at most one live node, to the segment that it points at.
proof fn lemma_put_live_nodes(e: Seq<EmbeddingRow>, row: EmbeddingRow, segment_id: i64)
    ensures
        live_nodes(put_embedding(e, row), segment_id) <= live_nodes(e, segment_id) + (
        if row.segment_id == segment_id {
            1nat
        } else {
            0nat
        }),
{
    let below = |x: EmbeddingRow| x.chunk_id < row.chunk_id;
    let above = |x: EmbeddingRow| x.chunk_id > row.chunk_id;
    lemma_live_nodes_apart(e, below, above, segment_id);
    lemma_live_nodes_joined(e.filter(below).push(row), e.filter(above), segment_id);
    lemma_filter_push(e.filter(below), row, in_segment(segment_id));
}

/// A segment that is opened has no live nodes yet.
proof fn lemma_opened_tallied(t: Tables, now: i64)
    requires
        t.wf(),
        tallied(t),
        can_index(t),
    ensures
        tallied(with_target(t, now)),
        target(t, now).node_count < SEGMENT_MAX_SIZE,
        live_nodes(t.embeddings, target(t, now).id) <= target(t, now).node_count,
{
    let w = with_target(t, now);
    lemma_with_target_wf(t, now);
    if current(t) is None {
        let row = opened(t, now);
        let n = t.segments.len() as int;
        assert forall|i: int| 0 <= i < t.embeddings.len() implies !in_segment(row.id)(
            #[trigger] t.embeddings[i],
        ) by {
            assert(has_segment(t, t.embeddings[i].segment_id));
            let k = choose|k: int|
                0 <= k < t.segments.len() && (#[trigger] t.segments[k]).id
                    == t.embeddings[i].segment_id;
            assert(w.segments[k] == t.segments[k]);
            assert(segment_order()(w.segments[k], w.segments[n]));
        }
        lemma_filter_none(t.embeddings, in_segment(row.id));
        assert forall|k: int| 0 <= k < w.segments.len() implies segment_tallied(
            w.embeddings,
            #[trigger] w.segments[k],
        ) by {
            if k < n {
                assert(segment_tallied(t.embeddings, t.segments[k]));
            }
        }
        assert forall|i: int| 0 <= i < w.embeddings.len() implies has_segment(
            w,
            (#[trigger] w.embeddings[i]).segment_id,
        ) by {
            assert(has_segment(t, t.embeddings[i].segment_id));
            let k = choose|k: int|
                0 <= k < t.segments.len() && (#[trigger] t.segments[k]).id
                    == t.embeddings[i].segment_id;
            assert(w.segments[k].id == t.embeddings[i].segment_id);
        }
    } else {
        let k = lemma_current(t);
        assert(segment_tallied(t.embeddings, t.segments[k]));
    }
}

/// Inserting a vector into the index, however it ends, keeps the count right.
pub proof fn law_inserting_keeps_the_tally(
    t: Tables,
    chunk_id: i64,
    vector: Seq<u32>,
    clock: Option<i64>,
)
    requires
        t.wf(),
        tallied(t),
        can_index(t),
    ensures
        tallied(insertion(t, chunk_id, vector, clock).0),
{
    let now = time_of(clock);
    let (u, r) = insertion(t, chunk_id, vector, clock);
    if r is Ok {
        let s = target(t, now);
        let w = with_target(t, now).segments;
        lemma_opened_tallied(t, now);
        lemma_with_target_wf(t, now);
        let i0 = choose|i: int| 0 <= i < w.len() && #[trigger] w[i] == s;
        assert forall|k: int| 0 <= k < u.segments.len() implies segment_tallied(
            u.embeddings,
            #[trigger] u.segments[k],
        ) by {
            assert(segment_tallied(t.embeddings, w[k]));
            assert(segment_tallied(t.embeddings, w[i0]));
        }
        assert forall|i: int| 0 <= i < u.embeddings.len() implies has_segment(
            u,
            (#[trigger] u.embeddings[i]).segment_id,
        ) by {
            assert(has_segment(t, t.embeddings[i].segment_id));
            let k = choose|k: int|
                0 <= k < t.segments.len() && (#[trigger] t.segments[k]).id
                    == t.embeddings[i].segment_id;
            assert(w[k] == t.segments[k]);
            assert(u.segments[k].id == u.embeddings[i].segment_id);
        }
    }
}

/// Storing an embedding, however it ends, keeps the count right.
pub proof fn law_storing_keeps_the_tally(
    t: Tables,
    chunk_id: i64,
    vector: Seq<u8>,
    model_name: Seq<char>,
    dimension: i64,
    clock: Option<i64>,
)
    requires
        t.wf(),
        tallied(t),
        can_store(t, model_name, dimension),
    ensures
        tallied(stored(t, chunk_id, vector, model_name, dimension, clock).0),
{
    let now = time_of(clock);
    let (u, r) = stored(t, chunk_id, vector, model_name, dimension, clock);
    let m = with_model(t, model_name, dimension, now);
    let s = target(m, now);
    let w = with_target(m, now).segments;
    if u != t {
        lemma_with_model_wf(t, model_name, dimension, now);
        lemma_same_tallied(t, m);
        lemma_opened_tallied(m, now);
        lemma_with_target_wf(m, now);
        let i0 = choose|i: int| 0 <= i < w.len() && #[trigger] w[i] == s;
        let row = EmbeddingRow {
            chunk_id,
            embedding_model_id: model_of(t, model_name, dimension, now).id,
            segment_id: s.id,
            vector,
        };
        assert forall|k: int| 0 <= k < u.segments.len() implies segment_tallied(
            u.embeddings,
            #[trigger] u.segments[k],
        ) by {
            assert(segment_tallied(m.embeddings, w[k]));
            assert(segment_tallied(m.embeddings, w[i0]));
            if k < i0 {
                assert(segment_order()(w[k], w[i0]));
            } else if i0 < k {
                assert(segment_order()(w[i0], w[k]));
            }
            if r is Ok {
                lemma_put_live_nodes(m.embeddings, row, w[k].id);
            }
        }
        assert forall|i: int| 0 <= i < u.embeddings.len() implies has_segment(
            u,
            (#[trigger] u.embeddings[i]).segment_id,
        ) by {
            let e = u.embeddings[i];
            if r is Ok {
                let below = |x: EmbeddingRow| x.chunk_id < row.chunk_id;
                let above = |x: EmbeddingRow| x.chunk_id > row.chunk_id;
                let a = m.embeddings.filter(below);
                let b = m.embeddings.filter(above);
                if i < a.len() {
                    assert(e == a[i]);
                    lemma_filter_member(m.embeddings, below, i);
                } else if i > a.len() {
                    assert(e == b[i - a.len() - 1]);
                    lemma_filter_member(m.embeddings, above, i - a.len() - 1);
                }
                if i == a.len() {
                    assert(e == row);
                } else {
                    assert(m.embeddings.contains(e));
                }
            } else {
                assert(m.embeddings[i] == e);
                assert(m.embeddings.contains(e));
            }
            if m.embeddings.contains(e) {
                let j = choose|j: int| 0 <= j < m.embeddings.len() && m.embeddings[j] == e;
                assert(has_segment(m, m.embeddings[j].segment_id));
                let k = choose|k: int|
                    0 <= k < m.segments.len() && (#[trigger] m.segments[k]).id == e.segment_id;
                assert(w[k] == m.segments[k]);
                assert(u.segments[k].id == e.segment_id);
            } else {
                assert(u.segments[i0].id == s.id);
            }
        }
    }
}

/// Rebuilding the index, however it ends, keeps the count right.
pub proof fn law_rebuild_keeps_the_tally(t: Tables, clock: Option<i64>)
    requires
        t.wf(),
        tallied(t),
        t.embeddings.len() < i64::MAX,
    ensures
        tallied(rebuilt(t, clock).0),
{
    let (u, r) = rebuilt(t, clock);
    if r is Ok {
        law_rebuild_leaves_no_dead_nodes(t, clock);
        law_rebuild_fills_segments_in_order(t, time_of(clock), t.embeddings.len() as int);
        assert(u == filled_tables(t, time_of(clock), t.embeddings.len() as int));
        assert forall|k: int| 0 <= k < u.segments.len() implies segment_tallied(
            u.embeddings,
            #[trigger] u.segments[k],
        ) by {}
        assert forall|i: int| 0 <= i < u.embeddings.len() implies has_segment(
            u,
            (#[trigger] u.embeddings[i]).segment_id,
        ) by {
            assert(u.segments[u.embeddings[i].segment_id - 1].id == u.embeddings[i].segment_id);
        }
    }
}

/// `u` is what one call of the library makes of `t`, or a change of settings.
pub open spec fn follows(t: Tables, u: Tables) -> bool {
    ||| u == (Tables { settings: u.settings, ..t })
    ||| exists|naming: Naming, content: Seq<char>, hash: Seq<char>, chunking: Chunking, clock|
        u == (#[trigger] added(t, naming, content, hash, chunking, clock)).0
    ||| exists|document_id: i64| u == #[trigger] without_document(t, document_id)
    ||| exists|row: RelationRow| u == (#[trigger] related(t, row)).0
    ||| exists|chunk_id: i64, vector: Seq<u8>, model_name: Seq<char>, dimension: i64, clock|
        can_store(t, model_name, dimension) && u == (#[trigger] stored(
            t,
            chunk_id,
            vector,
            model_name,
            dimension,
            clock,
        )).0
    ||| exists|chunk_id: i64, vector: Seq<u32>, clock|
        can_index(t) && u == (#[trigger] insertion(t, chunk_id, vector, clock)).0
    ||| exists|clock| t.embeddings.len() < i64::MAX && u == (#[trigger] rebuilt(t, clock)).0
}

/// In every state that calls bring an empty database to, each segment has no more
/// live nodes than nodes in all, and no more of those than a segment can hold; and
/// the live nodes of all segments together are the stored embeddings.
pub proof fn law_every_state_is_tallied(states: Seq<Tables>, foreign_keys: bool, n: int)
    requires
        0 <= n < states.len(),
        states[0] == empty_tables(foreign_keys),
        forall|i: int| 0 <= i < states.len() ==> (#[trigger] states[i]).wf(),
        forall|i: int|
            0 <= i < states.len() - 1 ==> follows(#[trigger] states[i], states[i + 1]),
    ensures
        tallied(states[n]),
        live_sum(states[n].embeddings, states[n].segments) == states[n].embeddings.len(),
    decreases n,
{
    if n == 0 {
        law_empty_database_is_tallied(foreign_keys);
    } else {
        law_every_state_is_tallied(states, foreign_keys, n - 1);
        let t = states[n - 1];
        let u = states[n];
        assert(follows(states[n - 1], states[n - 1 + 1]));
        assert(t.wf());
        if u == (Tables { settings: u.settings, ..t }) {
            lemma_same_tallied(t, u);
        } else if exists|naming: Naming,
            content: Seq<char>,
            hash: Seq<char>,
            chunking: Chunking,
            clock,
        |
            u == (#[trigger] added(t, naming, content, hash, chunking, clock)).0 {
            let (naming, content, hash, chunking, clock) = choose|
                naming: Naming,
                content: Seq<char>,
                hash: Seq<char>,
                chunking: Chunking,
                clock,
            |
                u == (#[trigger] added(t, naming, content, hash, chunking, clock)).0;
            law_adding_keeps_the_tally(t, naming, content, hash, chunking, clock);
        } else if exists|document_id: i64| u == #[trigger] without_document(t, document_id) {
            let document_id = choose|document_id: i64|
                u == #[trigger] without_document(t, document_id);
            law_deletion_keeps_the_tally(t, document_id);
        } else if exists|row: RelationRow| u == (#[trigger] related(t, row)).0 {
            let row = choose|row: RelationRow| u == (#[trigger] related(t, row)).0;
            law_relating_keeps_the_tally(t, row);
        } else if exists|clock|
            t.embeddings.len() < i64::MAX && u == (#[trigger] rebuilt(t, clock)).0 {
            let clock = choose|clock|
                t.embeddings.len() < i64::MAX && u == (#[trigger] rebuilt(t, clock)).0;
            law_rebuild_keeps_the_tally(t, clock);
        } else if exists|chunk_id: i64, vector: Seq<u32>, clock|
            can_index(t) && u == (#[trigger] insertion(t, chunk_id, vector, clock)).0 {
            let (chunk_id, vector, clock) = choose|chunk_id: i64, vector: Seq<u32>, clock|
                can_index(t) && u == (#[trigger] insertion(t, chunk_id, vector, clock)).0;
            law_inserting_keeps_the_tally(t, chunk_id, vector, clock);
        } else {
            let (chunk_id, vector, model_name, dimension, clock) = choose|
                chunk_id: i64,
                vector: Seq<u8>,
                model_name: Seq<char>,
                dimension: i64,
                clock,
            |
                can_store(t, model_name, dimension) && u == (#[trigger] stored(
                    t,
                    chunk_id,
                    vector,
                    model_name,
                    dimension,
                    clock,
                )).0;
            law_storing_keeps_the_tally(t, chunk_id, vector, model_name, dimension, clock);
        }
    }
    assert(states[n].wf());
    law_live_nodes_sum_to_the_embeddings(states[n]);
}

} // verus!
