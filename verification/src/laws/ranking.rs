//! What holds of the results of a search that is expanded over relations.

use vstd::prelude::*;

use crate::ann::model::{asked, closest_of, first_of, found_in, live, measured, measures, searched};
use crate::bits::{is_nan, less_than, rank_of, ONE_SINGLE};
use crate::error::Error;
use crate::graph::{other_pair, related, wanted};
use crate::laws::index::{
    different_chunks, law_search_returns_live_chunks_once, law_search_returns_the_nearest,
};
use crate::order::{
    arranged, lemma_arranged_already, lemma_arranged_keeps, lemma_arranged_member,
    lemma_arranged_order, lemma_arranged_pairwise, lemma_arranged_same,
};
use crate::ranking::expand::{
    anchor_row, anchored, best_for, decay_setting, expanded, followed, for_chunk, higher, hopped,
    improves, incoming, lemma_put_distinct, neighbours, one_per_chunk, outgoing, put,
    ranked_results, reached, reached_all, scoring, top_of, unary, Expansion, NeighbourRow, Origin,
    Point, RankedRow, Scoring,
};
use crate::ranking::{answered, expanded_outcome, outcome, plain_outcome, unexpanded};
use crate::seqs::{
    lemma_filter_none, lemma_filter_push, lemma_filter_same, lemma_filter_twice, lemma_first_absent,
    lemma_first_at, lemma_first_exists, lemma_first_found, lemma_first_push, pairwise,
};
use crate::storage::settings::{list_setting, usize_setting};
use crate::storage::tables::{RelationRow, Tables};

verus! {

/// What the best results always are: one per chunk, and each says how it was found.
/// One from the index names no relation; one from the graph names the relation and
/// how many hops it took, at least one and at most `hops`.
pub open spec fn labelled(row: RankedRow, hops: int) -> bool {
    match row.origin {
        Origin::Ann => row.relation_type is None && row.hop_count is None,
        Origin::Graph => row.relation_type is Some && row.hop_count is Some && 1
            <= row.hop_count->0 <= hops,
    }
}

/// One result per chunk, each saying how it was found.
pub open spec fn tidy(best: Seq<RankedRow>, hops: int) -> bool {
    &&& pairwise(best, one_per_chunk())
    &&& forall|i: int| 0 <= i < best.len() ==> labelled(#[trigger] best[i], hops)
}

proof fn lemma_put_tidy(best: Seq<RankedRow>, row: RankedRow, hops: int)
    requires
        tidy(best, hops),
        labelled(row, hops),
    ensures
        tidy(put(best, row), hops),
{
    lemma_put_distinct(best, row);
    let r = put(best, row);
    assert forall|i: int| 0 <= i < r.len() implies labelled(#[trigger] r[i], hops) by {
        if i < best.len() {
            assert(labelled(best[i], hops));
        }
    }
}

pub proof fn lemma_anchored_tidy(rules: Scoring, anchors: Seq<(i64, u32)>)
    ensures
        tidy(anchored(rules, anchors).best, 0),
    decreases anchors.len(),
{
    if anchors.len() > 0 {
        lemma_anchored_tidy(rules, anchors.drop_last());
        lemma_put_tidy(
            anchored(rules, anchors.drop_last()).best,
            anchor_row(rules, anchors.last()),
            0,
        );
    }
}

proof fn lemma_reached_all_tidy(
    rules: Scoring,
    hop: int,
    from: Point,
    ns: Seq<NeighbourRow>,
    e: Expansion,
)
    requires
        1 <= hop <= i64::MAX,
        tidy(e.best, hop),
    ensures
        tidy(reached_all(rules, hop, from, ns, e).best, hop),
    decreases ns.len(),
{
    if ns.len() > 0 {
        lemma_reached_all_tidy(rules, hop, from, ns.drop_last(), e);
        let before = reached_all(rules, hop, from, ns.drop_last(), e);
        let n = ns.last();
        let after = reached(rules, hop, from, n, before);
        let confidence = (rules.combine)(from.confidence, n.confidence);
        let score = (rules.score)(from.anchor_score, confidence, rules.decay, hop as usize);
        let row = RankedRow {
            chunk_id: n.chunk_id,
            score,
            origin: Origin::Graph,
            relation_type: Some(n.relation_type),
            hop_count: Some(hop as i64),
        };
        if improves(before.best, n.chunk_id, score) {
            lemma_put_tidy(before.best, row, hop);
        }
    }
}

proof fn lemma_hopped_tidy(
    rules: Scoring,
    relations: Seq<RelationRow>,
    allowed: Seq<Seq<char>>,
    hop: int,
    points: Seq<Point>,
    e: Expansion,
)
    requires
        1 <= hop <= i64::MAX,
        tidy(e.best, hop),
    ensures
        tidy(hopped(rules, relations, allowed, hop, points, e).best, hop),
    decreases points.len(),
{
    if points.len() > 0 {
        lemma_hopped_tidy(rules, relations, allowed, hop, points.drop_last(), e);
        let before = hopped(rules, relations, allowed, hop, points.drop_last(), e);
        let from = points.last();
        lemma_reached_all_tidy(
            rules,
            hop,
            from,
            neighbours(relations, from.chunk_id, allowed),
            before,
        );
    }
}

pub proof fn lemma_expanded_tidy(
    rules: Scoring,
    relations: Seq<RelationRow>,
    allowed: Seq<Seq<char>>,
    hop: int,
    max_hops: int,
    e: Expansion,
)
    requires
        1 <= hop,
        max_hops <= i64::MAX,
        hop - 1 <= max_hops,
        tidy(e.best, hop - 1),
    ensures
        tidy(expanded(rules, relations, allowed, hop, max_hops, e).best, max_hops),
    decreases max_hops - hop + 1,
{
    if hop <= max_hops {
        let begun = Expansion { best: e.best, frontier: Seq::empty() };
        assert(tidy(begun.best, hop)) by {
            assert forall|i: int| 0 <= i < begun.best.len() implies labelled(
                #[trigger] begun.best[i],
                hop,
            ) by {
                assert(labelled(e.best[i], hop - 1));
            }
        }
        lemma_hopped_tidy(rules, relations, allowed, hop, e.frontier, begun);
        let next = hopped(rules, relations, allowed, hop, e.frontier, begun);
        lemma_expanded_tidy(rules, relations, allowed, hop + 1, max_hops, next);
    }
}

/// The results of an expanded search come with the highest score first, no more
/// than asked for, one per chunk, each saying how it was found.
pub proof fn law_results_are_ranked_and_distinct(
    t: Tables,
    rules: Scoring,
    anchors: Seq<(i64, u32)>,
    top_k: usize,
)
    requires
        usize_setting(t.settings, "max_hops"@, 1) <= i64::MAX,
        ranked_results(t, rules, anchors, top_k) is Ok,
    ensures
        ({
            let r = ranked_results(t, rules, anchors, top_k)->Ok_0;
            &&& r.len() <= top_k
            &&& tidy(r, usize_setting(t.settings, "max_hops"@, 1) as int)
            &&& forall|i: int, j: int|
                #![trigger r[i], r[j]]
                0 <= i < j < r.len() ==> rank_of(r[j].score) <= rank_of(r[i].score)
        }),
{
    let allowed = list_setting(t.settings, "expand_relation_types"@);
    let max_hops = usize_setting(t.settings, "max_hops"@, 1) as int;
    let start = anchored(rules, anchors);
    let best = expanded(rules, t.relations, allowed, 1, max_hops, start).best;
    lemma_anchored_tidy(rules, anchors);
    lemma_expanded_tidy(rules, t.relations, allowed, 1, max_hops, start);
    let all = arranged(best, higher());
    let r = first_of(all, top_k);
    lemma_arranged_same(best, higher());
    lemma_arranged_order(best, higher());
    lemma_arranged_pairwise(best, higher(), one_per_chunk());
    assert forall|i: int, j: int| #![trigger r[i], r[j]] 0 <= i < j < r.len() implies rank_of(
        r[j].score,
    ) <= rank_of(r[i].score) && one_per_chunk()(r[i], r[j]) by {
        assert(r[i] == all[i] && r[j] == all[j]);
        assert(!higher()(all[j], all[i]));
        assert(one_per_chunk()(all[i], all[j]));
    }
    assert forall|i: int| 0 <= i < r.len() implies labelled(#[trigger] r[i], max_hops) by {
        assert(r[i] == all[i]);
        lemma_arranged_member(best, higher(), i);
        let k = choose|k: int| 0 <= k < best.len() && best[k] == r[i];
        assert(labelled(best[k], max_hops));
    }
}

/// Whatever the results leave out has no higher score than anything they hold.
pub proof fn law_highest_scores_are_kept(best: Seq<RankedRow>, top_k: usize)
    requires
        top_of(best, top_k) is Ok,
    ensures
        ({
            let r = top_of(best, top_k)->Ok_0;
            &&& forall|i: int| 0 <= i < r.len() ==> best.contains(#[trigger] r[i])
            &&& forall|x: RankedRow, i: int|
                #![trigger best.contains(x), r[i]]
                best.contains(x) && !r.contains(x) && 0 <= i < r.len() ==> rank_of(x.score)
                    <= rank_of(r[i].score)
        }),
{
    let all = arranged(best, higher());
    let r = first_of(all, top_k);
    lemma_arranged_same(best, higher());
    lemma_arranged_order(best, higher());
    assert forall|i: int| 0 <= i < r.len() implies best.contains(#[trigger] r[i]) by {
        assert(r[i] == all[i]);
        lemma_arranged_member(best, higher(), i);
    }
    assert forall|x: RankedRow, i: int|
        #![trigger best.contains(x), r[i]]
        best.contains(x) && !r.contains(x) && 0 <= i < r.len() implies rank_of(x.score)
        <= rank_of(r[i].score) by {
        let k = choose|k: int| 0 <= k < best.len() && best[k] == x;
        lemma_arranged_keeps(best, higher(), k);
        let j = choose|j: int| 0 <= j < all.len() && all[j] == x;
        if j < r.len() {
            assert(r[j] == x);
        }
        assert(r[i] == all[i]);
        assert(!higher()(all[j], all[i]));
    }
}

/// Every chunk with a result before has one after, the same or one with a higher score.
pub open spec fn no_worse(before: Seq<RankedRow>, after: Seq<RankedRow>) -> bool {
    forall|x: i64|
        (#[trigger] best_for(before, x)) is Some ==> best_for(after, x) is Some && (best_for(
            after,
            x,
        ) == best_for(before, x) || less_than(best_for(before, x)->0.score, best_for(
            after,
            x,
        )->0.score))
}

/// What setting a result does to the result for each chunk.
pub proof fn lemma_put_best(best: Seq<RankedRow>, row: RankedRow, x: i64)
    ensures
        best_for(put(best, row), x) == (if x == row.chunk_id {
            Some(row)
        } else {
            best_for(best, x)
        }),
{
    let r = put(best, row);
    if best_for(best, row.chunk_id) is Some {
        if x == row.chunk_id {
            let i = lemma_first_found(best, for_chunk(x));
            assert forall|k: int| 0 <= k < i implies !for_chunk(x)(#[trigger] r[k]) by {
                assert(!for_chunk(x)(best[k]));
            }
            assert(r[i] == row);
            lemma_first_at(r, for_chunk(x), i);
        } else if best_for(best, x) is Some {
            let i = lemma_first_found(best, for_chunk(x));
            assert forall|k: int| 0 <= k < i implies !for_chunk(x)(#[trigger] r[k]) by {
                assert(!for_chunk(x)(best[k]));
            }
            assert(r[i] == best[i]);
            lemma_first_at(r, for_chunk(x), i);
        } else {
            assert forall|k: int| 0 <= k < r.len() implies !for_chunk(x)(#[trigger] r[k]) by {
                if for_chunk(x)(best[k]) {
                    lemma_first_exists(best, for_chunk(x), k);
                }
            }
            lemma_first_absent(r, for_chunk(x));
        }
    } else {
        lemma_first_push(best, row, for_chunk(x));
    }
}

proof fn lemma_no_worse_chain(a: Seq<RankedRow>, b: Seq<RankedRow>, c: Seq<RankedRow>)
    requires
        no_worse(a, b),
        no_worse(b, c),
    ensures
        no_worse(a, c),
{
    assert forall|x: i64| (#[trigger] best_for(a, x)) is Some implies best_for(c, x) is Some && (
    best_for(c, x) == best_for(a, x) || less_than(best_for(a, x)->0.score, best_for(
        c,
        x,
    )->0.score)) by {
        assert(best_for(b, x) is Some);
    }
}

proof fn lemma_reached_no_worse(
    rules: Scoring,
    hop: int,
    from: Point,
    n: NeighbourRow,
    e: Expansion,
)
    ensures
        no_worse(e.best, reached(rules, hop, from, n, e).best),
{
    let after = reached(rules, hop, from, n, e);
    let confidence = (rules.combine)(from.confidence, n.confidence);
    let score = (rules.score)(from.anchor_score, confidence, rules.decay, hop as usize);
    let row = RankedRow {
        chunk_id: n.chunk_id,
        score,
        origin: Origin::Graph,
        relation_type: Some(n.relation_type),
        hop_count: Some(hop as i64),
    };
    if improves(e.best, n.chunk_id, score) {
        assert forall|x: i64| (#[trigger] best_for(e.best, x)) is Some implies best_for(
            after.best,
            x,
        ) is Some && (best_for(after.best, x) == best_for(e.best, x) || less_than(
            best_for(e.best, x)->0.score,
            best_for(after.best, x)->0.score,
        )) by {
            lemma_put_best(e.best, row, x);
        }
    }
}

proof fn lemma_reached_all_no_worse(
    rules: Scoring,
    hop: int,
    from: Point,
    ns: Seq<NeighbourRow>,
    e: Expansion,
)
    ensures
        no_worse(e.best, reached_all(rules, hop, from, ns, e).best),
    decreases ns.len(),
{
    if ns.len() > 0 {
        let before = reached_all(rules, hop, from, ns.drop_last(), e);
        lemma_reached_all_no_worse(rules, hop, from, ns.drop_last(), e);
        lemma_reached_no_worse(rules, hop, from, ns.last(), before);
        lemma_no_worse_chain(
            e.best,
            before.best,
            reached_all(rules, hop, from, ns, e).best,
        );
    }
}

pub proof fn lemma_hopped_no_worse(
    rules: Scoring,
    relations: Seq<RelationRow>,
    allowed: Seq<Seq<char>>,
    hop: int,
    points: Seq<Point>,
    e: Expansion,
)
    ensures
        no_worse(e.best, hopped(rules, relations, allowed, hop, points, e).best),
    decreases points.len(),
{
    if points.len() > 0 {
        let before = hopped(rules, relations, allowed, hop, points.drop_last(), e);
        let from = points.last();
        lemma_hopped_no_worse(rules, relations, allowed, hop, points.drop_last(), e);
        lemma_reached_all_no_worse(
            rules,
            hop,
            from,
            neighbours(relations, from.chunk_id, allowed),
            before,
        );
        lemma_no_worse_chain(
            e.best,
            before.best,
            hopped(rules, relations, allowed, hop, points, e).best,
        );
    }
}

/// Expanding never makes a result worse: every chunk with a result keeps it, or
/// gets one with a higher score.
pub proof fn law_expanding_makes_no_result_worse(
    rules: Scoring,
    relations: Seq<RelationRow>,
    allowed: Seq<Seq<char>>,
    hop: int,
    max_hops: int,
    e: Expansion,
)
    ensures
        no_worse(e.best, expanded(rules, relations, allowed, hop, max_hops, e).best),
    decreases max_hops - hop + 1,
{
    if hop <= max_hops {
        let begun = Expansion { best: e.best, frontier: Seq::empty() };
        let next = hopped(rules, relations, allowed, hop, e.frontier, begun);
        lemma_hopped_no_worse(rules, relations, allowed, hop, e.frontier, begun);
        law_expanding_makes_no_result_worse(rules, relations, allowed, hop + 1, max_hops, next);
        lemma_no_worse_chain(
            e.best,
            next.best,
            expanded(rules, relations, allowed, hop, max_hops, e).best,
        );
    }
}

/// However many ways lead to a chunk, no way scores higher than the result for it:
/// once a neighbour has been reached, what stands for it in the end is at least as
/// good as that way to it.
pub proof fn law_best_way_to_a_chunk_wins(
    rules: Scoring,
    relations: Seq<RelationRow>,
    allowed: Seq<Seq<char>>,
    hop: int,
    from: Point,
    n: NeighbourRow,
    e: Expansion,
    later_hop: int,
    max_hops: int,
)
    ensures
        ({
            let after = reached(rules, hop, from, n, e);
            let end = expanded(rules, relations, allowed, later_hop, max_hops, after);
            best_for(end.best, n.chunk_id) matches Some(z) && !less_than(
                z.score,
                way_score(rules, from, n, hop),
            )
        }),
{
    let confidence = (rules.combine)(from.confidence, n.confidence);
    let score = (rules.score)(from.anchor_score, confidence, rules.decay, hop as usize);
    let after = reached(rules, hop, from, n, e);
    let row = RankedRow {
        chunk_id: n.chunk_id,
        score,
        origin: Origin::Graph,
        relation_type: Some(n.relation_type),
        hop_count: Some(hop as i64),
    };
    lemma_put_best(e.best, row, n.chunk_id);
    law_expanding_makes_no_result_worse(rules, relations, allowed, later_hop, max_hops, after);
    assert(best_for(after.best, n.chunk_id) is Some);
}

/// A way to a neighbour of one of several chunks is taken, and what stands for the
/// neighbour afterwards is at least as good.
pub proof fn lemma_hopped_reaches(
    rules: Scoring,
    relations: Seq<RelationRow>,
    allowed: Seq<Seq<char>>,
    hop: int,
    points: Seq<Point>,
    e: Expansion,
    j: int,
    k: int,
)
    requires
        0 <= j < points.len(),
        0 <= k < neighbours(relations, points[j].chunk_id, allowed).len(),
    ensures
        ({
            let n = neighbours(relations, points[j].chunk_id, allowed)[k];
            let end = hopped(rules, relations, allowed, hop, points, e).best;
            best_for(end, n.chunk_id) matches Some(z) && !less_than(
                z.score,
                way_score(rules, points[j], n, hop),
            )
        }),
    decreases points.len(),
{
    let rest = points.drop_last();
    let before = hopped(rules, relations, allowed, hop, rest, e);
    let from = points.last();
    let ns = neighbours(relations, from.chunk_id, allowed);
    if j < rest.len() {
        assert(rest[j] == points[j]);
        lemma_hopped_reaches(rules, relations, allowed, hop, rest, e, j, k);
        lemma_reached_all_no_worse(rules, hop, from, ns, before);
        let n = neighbours(relations, points[j].chunk_id, allowed)[k];
        assert(best_for(before.best, n.chunk_id) is Some);
    } else {
        lemma_reached_all_reaches(rules, hop, from, ns, before, k);
    }
}

/// The score of a way: from a chunk to one of its neighbours, at a hop.
pub open spec fn way_score(rules: Scoring, from: Point, n: NeighbourRow, hop: int) -> u32 {
    (rules.score)(
        from.anchor_score,
        (rules.combine)(from.confidence, n.confidence),
        rules.decay,
        hop as usize,
    )
}

proof fn lemma_reached_all_reaches(
    rules: Scoring,
    hop: int,
    from: Point,
    ns: Seq<NeighbourRow>,
    e: Expansion,
    k: int,
)
    requires
        0 <= k < ns.len(),
    ensures
        best_for(reached_all(rules, hop, from, ns, e).best, ns[k].chunk_id) matches Some(z)
            && !less_than(z.score, way_score(rules, from, ns[k], hop)),
    decreases ns.len(),
{
    let rest = ns.drop_last();
    let before = reached_all(rules, hop, from, rest, e);
    if k < rest.len() {
        assert(rest[k] == ns[k]);
        lemma_reached_all_reaches(rules, hop, from, rest, e, k);
        lemma_reached_no_worse(rules, hop, from, ns.last(), before);
        assert(best_for(before.best, ns[k].chunk_id) is Some);
    } else {
        let n = ns.last();
        let row = RankedRow {
            chunk_id: n.chunk_id,
            score: way_score(rules, from, n, hop),
            origin: Origin::Graph,
            relation_type: Some(n.relation_type),
            hop_count: Some(hop as i64),
        };
        lemma_put_best(before.best, row, n.chunk_id);
    }
}

/// The anchors are the chunks to expand from.
pub proof fn lemma_anchored_frontier(rules: Scoring, anchors: Seq<(i64, u32)>, i: int)
    requires
        0 <= i < anchors.len(),
    ensures
        anchored(rules, anchors).frontier.len() == anchors.len(),
        anchored(rules, anchors).frontier[i] == (Point {
            chunk_id: anchors[i].0,
            anchor_score: (rules.similarity)(anchors[i].1),
            confidence: ONE_SINGLE,
        }),
    decreases anchors.len(),
{
    let rest = anchors.drop_last();
    if rest.len() > 0 {
        lemma_anchored_frontier(rules, rest, if i < rest.len() {
            i
        } else {
            0
        });
    } else {
        assert(anchored(rules, rest).frontier =~= Seq::empty());
    }
    if i < rest.len() {
        assert(rest[i] == anchors[i]);
    }
}

/// With at least one hop, whatever an anchor is related to is among the results
/// that are ranked, however far it is from the query, with at least the score of
/// that relation.
pub proof fn law_related_chunks_are_found(
    rules: Scoring,
    relations: Seq<RelationRow>,
    allowed: Seq<Seq<char>>,
    max_hops: int,
    anchors: Seq<(i64, u32)>,
    i: int,
    k: int,
)
    requires
        1 <= max_hops,
        0 <= i < anchors.len(),
        0 <= k < neighbours(relations, anchors[i].0, allowed).len(),
    ensures
        ({
            let n = neighbours(relations, anchors[i].0, allowed)[k];
            let start = Point {
                chunk_id: anchors[i].0,
                anchor_score: (rules.similarity)(anchors[i].1),
                confidence: ONE_SINGLE,
            };
            let end = expanded(
                rules,
                relations,
                allowed,
                1,
                max_hops,
                anchored(rules, anchors),
            );
            best_for(end.best, n.chunk_id) matches Some(z) && !less_than(
                z.score,
                way_score(rules, start, n, 1),
            )
        }),
{
    let e = anchored(rules, anchors);
    let begun = Expansion { best: e.best, frontier: Seq::empty() };
    let next = hopped(rules, relations, allowed, 1, e.frontier, begun);
    let n = neighbours(relations, anchors[i].0, allowed)[k];
    lemma_anchored_frontier(rules, anchors, i);
    lemma_hopped_reaches(rules, relations, allowed, 1, e.frontier, begun, i, k);
    law_expanding_makes_no_result_worse(rules, relations, allowed, 2, max_hops, next);
    assert(best_for(next.best, n.chunk_id) is Some);
}

/// What the index found stays among the results that are ranked, with at least its
/// own score.
pub proof fn law_anchors_stay_in_the_results(
    rules: Scoring,
    relations: Seq<RelationRow>,
    allowed: Seq<Seq<char>>,
    max_hops: int,
    anchors: Seq<(i64, u32)>,
    i: int,
)
    requires
        0 <= i < anchors.len(),
        pairwise(anchors, different_chunks()),
    ensures
        ({
            let end = expanded(
                rules,
                relations,
                allowed,
                1,
                max_hops,
                anchored(rules, anchors),
            );
            best_for(end.best, anchors[i].0) matches Some(z) && !less_than(
                z.score,
                (rules.similarity)(anchors[i].1),
            )
        }),
{
    let e = anchored(rules, anchors);
    lemma_anchored_best(rules, anchors, i);
    law_expanding_makes_no_result_worse(rules, relations, allowed, 1, max_hops, e);
    assert(best_for(e.best, anchors[i].0) is Some);
}

pub proof fn lemma_anchored_best(rules: Scoring, anchors: Seq<(i64, u32)>, i: int)
    requires
        0 <= i < anchors.len(),
        pairwise(anchors, different_chunks()),
    ensures
        best_for(anchored(rules, anchors).best, anchors[i].0) == Some(
            anchor_row(rules, anchors[i]),
        ),
    decreases anchors.len(),
{
    let rest = anchors.drop_last();
    let row = anchor_row(rules, anchors.last());
    lemma_put_best(anchored(rules, rest).best, row, anchors[i].0);
    if i < rest.len() {
        assert(rest[i] == anchors[i]);
        assert(different_chunks()(anchors[i], anchors[anchors.len() - 1]));
        assert forall|a: int, b: int| #![trigger rest[a], rest[b]] 0 <= a < b
            < rest.len() implies different_chunks()(rest[a], rest[b]) by {
            assert(different_chunks()(anchors[a], anchors[b]));
        }
        lemma_anchored_best(rules, rest, i);
    }
}

/// Without hops, the expansion is the anchors.
pub proof fn law_without_hops_only_anchors(
    rules: Scoring,
    relations: Seq<RelationRow>,
    allowed: Seq<Seq<char>>,
    anchors: Seq<(i64, u32)>,
)
    ensures
        expanded(rules, relations, allowed, 1, 0, anchored(rules, anchors)) == anchored(
            rules,
            anchors,
        ),
{
}

/// No relation may be followed: each is without a type, or of a type that is left out.
pub open spec fn none_followed(relations: Seq<RelationRow>, allowed: Seq<Seq<char>>) -> bool {
    forall|i: int| 0 <= i < relations.len() ==> !followed(#[trigger] relations[i], allowed)
}

/// Without relations that may be followed, the results are those of the anchors,
/// however many hops.
pub proof fn law_without_relations_only_anchors(
    rules: Scoring,
    relations: Seq<RelationRow>,
    allowed: Seq<Seq<char>>,
    hop: int,
    max_hops: int,
    e: Expansion,
)
    requires
        none_followed(relations, allowed),
    ensures
        expanded(rules, relations, allowed, hop, max_hops, e).best == e.best,
    decreases max_hops - hop + 1,
{
    if hop <= max_hops {
        let begun = Expansion { best: e.best, frontier: Seq::empty() };
        lemma_hopped_without_relations(rules, relations, allowed, hop, e.frontier, begun);
        let next = hopped(rules, relations, allowed, hop, e.frontier, begun);
        law_without_relations_only_anchors(rules, relations, allowed, hop + 1, max_hops, next);
    }
}

proof fn lemma_hopped_without_relations(
    rules: Scoring,
    relations: Seq<RelationRow>,
    allowed: Seq<Seq<char>>,
    hop: int,
    points: Seq<Point>,
    e: Expansion,
)
    requires
        none_followed(relations, allowed),
    ensures
        hopped(rules, relations, allowed, hop, points, e) == e,
    decreases points.len(),
{
    if points.len() > 0 {
        lemma_hopped_without_relations(rules, relations, allowed, hop, points.drop_last(), e);
        let from = points.last();
        lemma_filter_none(relations, outgoing(from.chunk_id, allowed));
        lemma_filter_none(relations, incoming(from.chunk_id, allowed));
        assert(neighbours(relations, from.chunk_id, allowed) =~= Seq::empty());
    }
}

/// Distinct anchors become one result each, in their order.
proof fn lemma_anchored_plain(rules: Scoring, anchors: Seq<(i64, u32)>)
    requires
        pairwise(anchors, different_chunks()),
    ensures
        anchored(rules, anchors).best == unexpanded(rules.similarity, anchors),
    decreases anchors.len(),
{
    let all = unexpanded(rules.similarity, anchors);
    if anchors.len() == 0 {
        assert(anchored(rules, anchors).best =~= all);
    } else {
        let rest = anchors.drop_last();
        let row = anchor_row(rules, anchors.last());
        assert forall|a: int, b: int| #![trigger rest[a], rest[b]] 0 <= a < b
            < rest.len() implies different_chunks()(rest[a], rest[b]) by {
            assert(different_chunks()(anchors[a], anchors[b]));
        }
        lemma_anchored_plain(rules, rest);
        let before = unexpanded(rules.similarity, rest);
        assert forall|k: int| 0 <= k < before.len() implies !for_chunk(row.chunk_id)(
            #[trigger] before[k],
        ) by {
            assert(different_chunks()(anchors[k], anchors[anchors.len() - 1]));
        }
        lemma_first_absent(before, for_chunk(row.chunk_id));
        assert(before.push(row) =~= all);
    }
}

/// The distance is from zero up, or not a number.
pub open spec fn from_zero_up<D: Fn(&Vec<u32>, &Vec<u32>) -> u32>(distance: D) -> bool {
    forall|a: &Vec<u32>, b: &Vec<u32>, d: u32| #[trigger]
        call_ensures(distance, (a, b), d) ==> is_nan(d) || rank_of(d) >= 0
}

/// The similarity of a distance from zero up is a number, and a greater distance is
/// no more similar.
pub open spec fn falling(similarity: spec_fn(u32) -> u32) -> bool {
    &&& forall|a: u32| !is_nan(a) && rank_of(a) >= 0 ==> !is_nan(#[trigger] similarity(a))
    &&& forall|a: u32, b: u32|
        #![trigger similarity(a), similarity(b)]
        !is_nan(a) && !is_nan(b) && 0 <= rank_of(a) <= rank_of(b) ==> rank_of(similarity(b))
            <= rank_of(similarity(a))
}

/// Without relations that may be followed, or without hops, the results for what
/// a search found are the same expanded or not.
proof fn lemma_expanding_for_nothing<
    N: Fn(i64, &Vec<u32>, usize, usize) -> Vec<i64>,
    D: Fn(&Vec<u32>, &Vec<u32>) -> u32,
>(
    t: Tables,
    rules: Scoring,
    nearest: N,
    distance: D,
    query: &Vec<u32>,
    found: Result<Seq<(i64, u32)>, Error>,
    top_k: usize,
)
    requires
        t.wf(),
        falling(rules.similarity),
        from_zero_up(distance),
        nothing_to_follow(t),
        searched(nearest, distance, t, query, top_k, found),
    ensures
        expanded_outcome(t, rules, found, top_k) == plain_outcome(rules.similarity, found),
{
    let (answers, c) = choose|answers: Seq<Vec<i64>>, c: Seq<(i64, u32)>|
        {
            &&& #[trigger] asked(nearest, t, query, top_k, answers)
            &&& #[trigger] measured(distance, query, live(t, found_in(answers)), c)
            &&& found == closest_of(c, top_k)
        };
    if found is Ok {
        let anchors = found->Ok_0;
        let plain = unexpanded(rules.similarity, anchors);
        let allowed = list_setting(t.settings, "expand_relation_types"@);
        let max_hops = usize_setting(t.settings, "max_hops"@, 1) as int;
        law_search_returns_live_chunks_once(t, found_in(answers), distance, query, c, top_k);
        law_search_returns_the_nearest(c, top_k);
        lemma_anchored_plain(rules, anchors);
        if none_followed(t.relations, allowed) {
            law_without_relations_only_anchors(
                rules,
                t.relations,
                allowed,
                1,
                max_hops,
                anchored(rules, anchors),
            );
        }
        assert forall|i: int| 0 <= i < anchors.len() && anchors.len() >= 2 implies !is_nan(
            (#[trigger] anchors[i]).1,
        ) && rank_of(anchors[i].1) >= 0 by {
            assert(c.contains(anchors[i]));
            let k = choose|k: int| 0 <= k < c.len() && c[k] == anchors[i];
            assert(!is_nan(c[k].1));
            let node = live(t, found_in(answers))[k];
            assert(measures(distance, query, node.vector, c[k].1));
        }
        let rel = |a: RankedRow, b: RankedRow| !higher()(b, a);
        assert forall|i: int, j: int| #![trigger plain[i], plain[j]] 0 <= i < j
            < plain.len() implies rel(plain[i], plain[j]) by {
            assert(rank_of(anchors[i].1) <= rank_of(anchors[j].1));
            assert(!is_nan(anchors[i].1) && !is_nan(anchors[j].1));
        }
        lemma_arranged_already(plain, higher());
        assert forall|i: int| 0 <= i < plain.len() && plain.len() >= 2 implies !is_nan(
            (#[trigger] plain[i]).score,
        ) by {
            assert(!is_nan(anchors[i].1));
        }
        assert(plain.len() <= top_k);
    }
}

/// The settings allow no hop, or no relation may be followed.
pub open spec fn nothing_to_follow(t: Tables) -> bool {
    ||| usize_setting(t.settings, "max_hops"@, 1) == 0
    ||| none_followed(t.relations, list_setting(t.settings, "expand_relation_types"@))
}

/// A search for which the caller says neither how many results are wanted nor whether
/// to expand is the search for as many as the settings say, expanded.
pub proof fn law_search_defaults_to_the_settings<
    N: Fn(i64, &Vec<u32>, usize, usize) -> Vec<i64>,
    D: Fn(&Vec<u32>, &Vec<u32>) -> u32,
    S: Fn(u32) -> u32,
    C: Fn(u32, u64) -> u32,
    W: Fn(u32, u32, u64, usize) -> u32,
    P: Fn(&str) -> Option<u64>,
>(
    t: Tables,
    vector: Seq<u8>,
    nearest: N,
    distance: D,
    similarity: S,
    combine: C,
    score: W,
    parse: P,
    r: Result<Seq<RankedRow>, Error>,
)
    requires
        usize_setting(t.settings, "top_k"@, 16) <= i64::MAX,
    ensures
        ({
            let top_k = usize_setting(t.settings, "top_k"@, 16) as i64;
            answered(
                t,
                vector,
                None,
                None,
                nearest,
                distance,
                similarity,
                combine,
                score,
                parse,
                r,
            ) == answered(
                t,
                vector,
                Some(top_k),
                Some(true),
                nearest,
                distance,
                similarity,
                combine,
                score,
                parse,
                r,
            )
        }),
{
    let top_k = usize_setting(t.settings, "top_k"@, 16) as i64;
    assert(wanted(t, None) == wanted(t, Some(top_k)));
}

/// Without relations that may be followed, or without hops, an expanded search gives
/// what an unexpanded one gives, as long as distances are from zero up, a greater one
/// is no more similar, and the setting for the decay can be read.
pub proof fn law_expanding_for_nothing_changes_nothing<
    N: Fn(i64, &Vec<u32>, usize, usize) -> Vec<i64>,
    D: Fn(&Vec<u32>, &Vec<u32>) -> u32,
    S: Fn(u32) -> u32,
    C: Fn(u32, u64) -> u32,
    W: Fn(u32, u32, u64, usize) -> u32,
    P: Fn(&str) -> Option<u64>,
>(
    t: Tables,
    vector: Seq<u8>,
    top_k: Option<i64>,
    nearest: N,
    distance: D,
    similarity: S,
    combine: C,
    score: W,
    parse: P,
    r: Result<Seq<RankedRow>, Error>,
)
    requires
        t.wf(),
        falling(unary(similarity)),
        from_zero_up(distance),
        nothing_to_follow(t),
        exists|decay: u64| decay_setting(parse, t, decay),
    ensures
        answered(
            t,
            vector,
            top_k,
            Some(true),
            nearest,
            distance,
            similarity,
            combine,
            score,
            parse,
            r,
        ) == answered(
            t,
            vector,
            top_k,
            Some(false),
            nearest,
            distance,
            similarity,
            combine,
            score,
            parse,
            r,
        ),
{
    let some = choose|decay: u64| decay_setting(parse, t, decay);
    let k = wanted(t, top_k);
    assert forall|query: &Vec<u32>, found: Result<Seq<(i64, u32)>, Error>| #[trigger]
        searched(nearest, distance, t, query, k, found) implies outcome(
        t,
        found,
        k,
        true,
        similarity,
        combine,
        score,
        parse,
        r,
    ) == outcome(t, found, k, false, similarity, combine, score, parse, r) by {
        assert forall|decay: u64| #[trigger] decay_setting(parse, t, decay) implies expanded_outcome(
            t,
            scoring(similarity, combine, score, decay),
            found,
            k,
        ) == plain_outcome(unary(similarity), found) by {
            let rules = scoring(similarity, combine, score, decay);
            lemma_expanding_for_nothing(t, rules, nearest, distance, query, found, k);
        }
        assert(decay_setting(parse, t, some));
    }
}

/// Having a type that may be followed.
pub open spec fn followable(allowed: Seq<Seq<char>>) -> spec_fn(RelationRow) -> bool {
    |r: RelationRow| followed(r, allowed)
}

/// The neighbours of a chunk come from the relations that may be followed alone.
proof fn lemma_neighbours_of_followed(
    a: Seq<RelationRow>,
    b: Seq<RelationRow>,
    chunk_id: i64,
    allowed: Seq<Seq<char>>,
)
    requires
        a.filter(followable(allowed)) == b.filter(followable(allowed)),
    ensures
        neighbours(a, chunk_id, allowed) == neighbours(b, chunk_id, allowed),
{
    let p = followable(allowed);
    let out = outgoing(chunk_id, allowed);
    let back = incoming(chunk_id, allowed);
    lemma_filter_twice(a, p, out, out);
    lemma_filter_twice(b, p, out, out);
    lemma_filter_twice(a, p, back, back);
    lemma_filter_twice(b, p, back, back);
}

proof fn lemma_hopped_over_followed(
    rules: Scoring,
    a: Seq<RelationRow>,
    b: Seq<RelationRow>,
    allowed: Seq<Seq<char>>,
    hop: int,
    points: Seq<Point>,
    e: Expansion,
)
    requires
        a.filter(followable(allowed)) == b.filter(followable(allowed)),
    ensures
        hopped(rules, a, allowed, hop, points, e) == hopped(rules, b, allowed, hop, points, e),
    decreases points.len(),
{
    if points.len() > 0 {
        lemma_hopped_over_followed(rules, a, b, allowed, hop, points.drop_last(), e);
        lemma_neighbours_of_followed(a, b, points.last().chunk_id, allowed);
    }
}

proof fn lemma_expanded_over_followed(
    rules: Scoring,
    a: Seq<RelationRow>,
    b: Seq<RelationRow>,
    allowed: Seq<Seq<char>>,
    hop: int,
    max_hops: int,
    e: Expansion,
)
    requires
        a.filter(followable(allowed)) == b.filter(followable(allowed)),
    ensures
        expanded(rules, a, allowed, hop, max_hops, e) == expanded(
            rules,
            b,
            allowed,
            hop,
            max_hops,
            e,
        ),
    decreases max_hops - hop + 1,
{
    if hop <= max_hops {
        let begun = Expansion { best: e.best, frontier: Seq::empty() };
        lemma_hopped_over_followed(rules, a, b, allowed, hop, e.frontier, begun);
        let next = hopped(rules, a, allowed, hop, e.frontier, begun);
        lemma_expanded_over_followed(rules, a, b, allowed, hop + 1, max_hops, next);
    }
}

/// Relations without a type, and relations of a type that is left out, bring in no
/// chunk and change no score: two databases that differ in such relations only give
/// the same results.
pub proof fn law_only_followed_relations_count(
    t: Tables,
    u: Tables,
    rules: Scoring,
    anchors: Seq<(i64, u32)>,
    top_k: usize,
)
    requires
        u == (Tables { relations: u.relations, ..t }),
        ({
            let allowed = list_setting(t.settings, "expand_relation_types"@);
            u.relations.filter(followable(allowed)) == t.relations.filter(followable(allowed))
        }),
    ensures
        ranked_results(u, rules, anchors, top_k) == ranked_results(t, rules, anchors, top_k),
{
    lemma_expanded_over_followed(
        rules,
        u.relations,
        t.relations,
        list_setting(t.settings, "expand_relation_types"@),
        1,
        usize_setting(t.settings, "max_hops"@, 1) as int,
        anchored(rules, anchors),
    );
}

/// Storing that a pair was judged to be unrelated, or related in a way that is left
/// out, changes no result, unless the pair was related in a way that is followed.
pub proof fn law_unfollowed_judgements_change_no_result(
    t: Tables,
    row: RelationRow,
    rules: Scoring,
    anchors: Seq<(i64, u32)>,
    top_k: usize,
)
    requires
        ({
            let allowed = list_setting(t.settings, "expand_relation_types"@);
            &&& !followed(row, allowed)
            &&& forall|i: int|
                0 <= i < t.relations.len() && followed(#[trigger] t.relations[i], allowed)
                    ==> other_pair(row.from_chunk_id, row.to_chunk_id)(t.relations[i])
        }),
    ensures
        ranked_results(related(t, row).0, rules, anchors, top_k) == ranked_results(
            t,
            rules,
            anchors,
            top_k,
        ),
{
    let allowed = list_setting(t.settings, "expand_relation_types"@);
    let u = related(t, row).0;
    let p = followable(allowed);
    let q = other_pair(row.from_chunk_id, row.to_chunk_id);
    let kept = t.relations.filter(q);
    if u != t {
        let stored = u.relations.last();
        assert(u.relations == kept.push(stored));
        lemma_filter_push(kept, stored, p);
        lemma_filter_twice(t.relations, q, p, |r: RelationRow| q(r) && p(r));
        lemma_filter_same(t.relations, |r: RelationRow| q(r) && p(r), p);
        law_only_followed_relations_count(t, u, rules, anchors, top_k);
    }
}

/// A search that is not expanded does not look at the relations: two databases that
/// differ in their relations only give the same results.
pub proof fn law_unexpanded_search_ignores_relations<
    N: Fn(i64, &Vec<u32>, usize, usize) -> Vec<i64>,
    D: Fn(&Vec<u32>, &Vec<u32>) -> u32,
    S: Fn(u32) -> u32,
    C: Fn(u32, u64) -> u32,
    W: Fn(u32, u32, u64, usize) -> u32,
    P: Fn(&str) -> Option<u64>,
>(
    t: Tables,
    u: Tables,
    vector: Seq<u8>,
    top_k: Option<i64>,
    nearest: N,
    distance: D,
    similarity: S,
    combine: C,
    score: W,
    parse: P,
    r: Result<Seq<RankedRow>, Error>,
)
    requires
        u == (Tables { relations: u.relations, ..t }),
    ensures
        answered(
            u,
            vector,
            top_k,
            Some(false),
            nearest,
            distance,
            similarity,
            combine,
            score,
            parse,
            r,
        ) == answered(
            t,
            vector,
            top_k,
            Some(false),
            nearest,
            distance,
            similarity,
            combine,
            score,
            parse,
            r,
        ),
{
    let k = wanted(t, top_k);
    assert(wanted(u, top_k) == k);
    assert forall|query: &Vec<u32>, found: Result<Seq<(i64, u32)>, Error>| #[trigger]
        searched(nearest, distance, t, query, k, found) implies searched(
        nearest,
        distance,
        u,
        query,
        k,
        found,
    ) by {
        lemma_same_search(nearest, distance, t, u, query, k, found);
    }
    assert forall|query: &Vec<u32>, found: Result<Seq<(i64, u32)>, Error>| #[trigger]
        searched(nearest, distance, u, query, k, found) implies searched(
        nearest,
        distance,
        t,
        query,
        k,
        found,
    ) by {
        lemma_same_search(nearest, distance, u, t, query, k, found);
    }
}

/// A search of the index looks at segments, embeddings and settings only.
proof fn lemma_same_search<
    N: Fn(i64, &Vec<u32>, usize, usize) -> Vec<i64>,
    D: Fn(&Vec<u32>, &Vec<u32>) -> u32,
>(
    nearest: N,
    distance: D,
    t: Tables,
    u: Tables,
    query: &Vec<u32>,
    top_k: usize,
    found: Result<Seq<(i64, u32)>, Error>,
)
    requires
        u.segments == t.segments,
        u.embeddings == t.embeddings,
        u.settings == t.settings,
        searched(nearest, distance, t, query, top_k, found),
    ensures
        searched(nearest, distance, u, query, top_k, found),
{
    let (answers, c) = choose|answers: Seq<Vec<i64>>, c: Seq<(i64, u32)>|
        {
            &&& #[trigger] asked(nearest, t, query, top_k, answers)
            &&& #[trigger] measured(distance, query, live(t, found_in(answers)), c)
            &&& found == closest_of(c, top_k)
        };
    assert(asked(nearest, u, query, top_k, answers));
    assert(live(u, found_in(answers)) == live(t, found_in(answers)));
    assert(measured(distance, query, live(u, found_in(answers)), c));
}

/// A search that is not expanded is the index alone: the chunks found, in the order
/// found, whatever the relations are.
pub proof fn law_unexpanded_search_is_the_index_alone(
    similarity: spec_fn(u32) -> u32,
    found: Seq<(i64, u32)>,
)
    ensures
        ({
            let r = plain_outcome(similarity, Ok(found))->Ok_0;
            &&& plain_outcome(similarity, Ok(found)) is Ok
            &&& r.len() == found.len()
            &&& forall|i: int|
                0 <= i < r.len() ==> (#[trigger] r[i]).chunk_id == found[i].0 && r[i].origin
                    == Origin::Ann && r[i].score == similarity(found[i].1)
        }),
{
}

} // verus!
