//! What the score of an expanded result is: the best over all ways that lead to its
//! chunk.

use vstd::prelude::*;

use crate::bits::{is_nan, less_than, rank_of};
use crate::laws::index::different_chunks;
use crate::laws::ranking::{
    law_highest_scores_are_kept, lemma_anchored_best, lemma_anchored_frontier, lemma_anchored_tidy,
    lemma_expanded_tidy, lemma_hopped_no_worse, lemma_hopped_reaches, lemma_put_best, way_score,
};
use crate::ranking::expand::{
    anchor_row, anchored, best_for, expanded, for_chunk, hopped, improves, neighbours,
    one_per_chunk, ranked_results, reached_all, Expansion, NeighbourRow, Origin, Point, RankedRow,
    Scoring,
};
use crate::seqs::{lemma_first_absent, lemma_first_at, lemma_first_found, pairwise};
use crate::storage::settings::{list_setting, usize_setting};
use crate::storage::tables::{RelationRow, Tables};

verus! {

/// A way to a chunk: the anchor that it starts at, and the neighbours that it goes
/// to, one hop each.
pub struct Way {
    pub anchor: int,
    pub steps: Seq<NeighbourRow>,
}

/// The chunk that a way ends at.
pub open spec fn end_of(anchors: Seq<(i64, u32)>, w: Way) -> i64 {
    if w.steps.len() == 0 {
        anchors[w.anchor].0
    } else {
        w.steps.last().chunk_id
    }
}

/// A way without its last hop.
pub open spec fn shortened(w: Way) -> Way {
    Way { anchor: w.anchor, steps: w.steps.drop_last() }
}

/// A way that starts at an anchor and goes over relations that may be followed.
pub open spec fn is_way(
    relations: Seq<RelationRow>,
    allowed: Seq<Seq<char>>,
    anchors: Seq<(i64, u32)>,
    w: Way,
) -> bool
    decreases w.steps.len(),
{
    &&& 0 <= w.anchor < anchors.len()
    &&& w.steps.len() > 0 ==> is_way(relations, allowed, anchors, shortened(w)) && neighbours(
        relations,
        end_of(anchors, shortened(w)),
        allowed,
    ).contains(w.steps.last())
}

/// The similarity of the anchor that a way starts at.
pub open spec fn anchor_score(rules: Scoring, anchors: Seq<(i64, u32)>, w: Way) -> u32 {
    (rules.similarity)(anchors[w.anchor].1)
}

/// The product of the confidences along a way.
pub open spec fn confidence_along(rules: Scoring, w: Way) -> u32
    decreases w.steps.len(),
{
    if w.steps.len() == 0 {
        0x3f80_0000
    } else {
        (rules.combine)(confidence_along(rules, shortened(w)), w.steps.last().confidence)
    }
}

/// The score of a way: the anchor's similarity or, after some hops, that times the
/// confidences along the way, decayed once per hop.
pub open spec fn score_along(rules: Scoring, anchors: Seq<(i64, u32)>, w: Way) -> u32 {
    if w.steps.len() == 0 {
        anchor_score(rules, anchors, w)
    } else {
        (rules.score)(
            anchor_score(rules, anchors, w),
            confidence_along(rules, w),
            rules.decay,
            w.steps.len() as usize,
        )
    }
}

/// The result that a way gives for the chunk that it ends at.
pub open spec fn result_along(rules: Scoring, anchors: Seq<(i64, u32)>, w: Way) -> RankedRow {
    if w.steps.len() == 0 {
        RankedRow {
            chunk_id: anchors[w.anchor].0,
            score: anchor_score(rules, anchors, w),
            origin: Origin::Ann,
            relation_type: None,
            hop_count: None,
        }
    } else {
        RankedRow {
            chunk_id: end_of(anchors, w),
            score: score_along(rules, anchors, w),
            origin: Origin::Graph,
            relation_type: Some(w.steps.last().relation_type),
            hop_count: Some(w.steps.len() as i64),
        }
    }
}

/// Where a way has got to.
pub open spec fn point_of(rules: Scoring, anchors: Seq<(i64, u32)>, w: Way) -> Point {
    Point {
        chunk_id: end_of(anchors, w),
        anchor_score: anchor_score(rules, anchors, w),
        confidence: confidence_along(rules, w),
    }
}

/// A result is that of some way of at most so many hops.
pub open spec fn comes_by_a_way(
    rules: Scoring,
    relations: Seq<RelationRow>,
    allowed: Seq<Seq<char>>,
    anchors: Seq<(i64, u32)>,
    hops: int,
    row: RankedRow,
) -> bool {
    exists|w: Way| #[trigger]
        is_way(relations, allowed, anchors, w) && w.steps.len() <= hops && row == result_along(
            rules,
            anchors,
            w,
        )
}

/// A chunk to expand from is where some way of exactly so many hops has got to.
spec fn lies_on_a_way(
    rules: Scoring,
    relations: Seq<RelationRow>,
    allowed: Seq<Seq<char>>,
    anchors: Seq<(i64, u32)>,
    hops: int,
    p: Point,
) -> bool {
    exists|w: Way| #[trigger]
        is_way(relations, allowed, anchors, w) && w.steps.len() == hops && p == point_of(
            rules,
            anchors,
            w,
        )
}

/// The results are the best over all ways of at most so many hops.
pub open spec fn best_over_ways(
    rules: Scoring,
    relations: Seq<RelationRow>,
    allowed: Seq<Seq<char>>,
    anchors: Seq<(i64, u32)>,
    hops: int,
    best: Seq<RankedRow>,
) -> bool {
    &&& forall|w: Way| #[trigger]
        is_way(relations, allowed, anchors, w) && w.steps.len() <= hops ==> best_for(
            best,
            end_of(anchors, w),
        ) is Some && !less_than(
            best_for(best, end_of(anchors, w))->0.score,
            score_along(rules, anchors, w),
        )
    &&& forall|x: i64| (#[trigger] best_for(best, x)) is Some ==> comes_by_a_way(
        rules,
        relations,
        allowed,
        anchors,
        hops,
        best_for(best, x)->0,
    )
}

/// The chunks to expand from are where the ways of exactly so many hops have got to.
spec fn at_the_ends(
    rules: Scoring,
    relations: Seq<RelationRow>,
    allowed: Seq<Seq<char>>,
    anchors: Seq<(i64, u32)>,
    hops: int,
    frontier: Seq<Point>,
) -> bool {
    &&& forall|w: Way| #[trigger]
        is_way(relations, allowed, anchors, w) && w.steps.len() == hops ==> frontier.contains(
            point_of(rules, anchors, w),
        )
    &&& forall|i: int|
        0 <= i < frontier.len() ==> lies_on_a_way(
            rules,
            relations,
            allowed,
            anchors,
            hops,
            #[trigger] frontier[i],
        )
}

/// One hop on from a point.
spec fn hop_on(rules: Scoring, from: Point) -> spec_fn(NeighbourRow) -> Point {
    |n: NeighbourRow|
        Point {
            chunk_id: n.chunk_id,
            anchor_score: from.anchor_score,
            confidence: (rules.combine)(from.confidence, n.confidence),
        }
}

/// The result for a neighbour that is reached from a point.
spec fn row_at(rules: Scoring, from: Point, n: NeighbourRow, hop: int) -> RankedRow {
    RankedRow {
        chunk_id: n.chunk_id,
        score: way_score(rules, from, n, hop),
        origin: Origin::Graph,
        relation_type: Some(n.relation_type),
        hop_count: Some(hop as i64),
    }
}

proof fn lemma_reached_all_frontier(
    rules: Scoring,
    hop: int,
    from: Point,
    ns: Seq<NeighbourRow>,
    e: Expansion,
)
    ensures
        reached_all(rules, hop, from, ns, e).frontier == e.frontier + ns.map_values(
            hop_on(rules, from),
        ),
    decreases ns.len(),
{
    let f = hop_on(rules, from);
    if ns.len() == 0 {
        assert(e.frontier + ns.map_values(f) =~= e.frontier);
    } else {
        let rest = ns.drop_last();
        lemma_reached_all_frontier(rules, hop, from, rest, e);
        assert((e.frontier + rest.map_values(f)).push(f(ns.last())) =~= e.frontier
            + ns.map_values(f));
    }
}

/// Every hop on from one of the points is taken.
proof fn lemma_hopped_frontier_has(
    rules: Scoring,
    relations: Seq<RelationRow>,
    allowed: Seq<Seq<char>>,
    hop: int,
    points: Seq<Point>,
    e: Expansion,
    j: int,
    k: int,
)
    requires
        0 <= j < points.len(),
        0 <= k < neighbours(relations, points[j].chunk_id, allowed).len(),
    ensures
        hopped(rules, relations, allowed, hop, points, e).frontier.contains(
            hop_on(rules, points[j])(neighbours(relations, points[j].chunk_id, allowed)[k]),
        ),
    decreases points.len(),
{
    let rest = points.drop_last();
    let before = hopped(rules, relations, allowed, hop, rest, e);
    let from = points.last();
    let ns = neighbours(relations, from.chunk_id, allowed);
    let after = hopped(rules, relations, allowed, hop, points, e);
    lemma_reached_all_frontier(rules, hop, from, ns, before);
    if j < rest.len() {
        assert(rest[j] == points[j]);
        lemma_hopped_frontier_has(rules, relations, allowed, hop, rest, e, j, k);
        let q = hop_on(rules, points[j])(neighbours(relations, points[j].chunk_id, allowed)[k]);
        let i = choose|i: int| 0 <= i < before.frontier.len() && before.frontier[i] == q;
        assert(after.frontier[i] == q);
    } else {
        assert(after.frontier[before.frontier.len() + k] == hop_on(rules, from)(ns[k]));
    }
}

/// Every point after a hop is one hop on from one of the points before it.
proof fn lemma_hopped_frontier_from(
    rules: Scoring,
    relations: Seq<RelationRow>,
    allowed: Seq<Seq<char>>,
    hop: int,
    points: Seq<Point>,
    e: Expansion,
    i: int,
) -> (r: (int, int))
    requires
        e.frontier.len() == 0,
        0 <= i < hopped(rules, relations, allowed, hop, points, e).frontier.len(),
    ensures
        ({
            let (j, k) = r;
            &&& 0 <= j < points.len()
            &&& 0 <= k < neighbours(relations, points[j].chunk_id, allowed).len()
            &&& hopped(rules, relations, allowed, hop, points, e).frontier[i] == hop_on(
                rules,
                points[j],
            )(neighbours(relations, points[j].chunk_id, allowed)[k])
        }),
    decreases points.len(),
{
    let rest = points.drop_last();
    let before = hopped(rules, relations, allowed, hop, rest, e);
    let from = points.last();
    let ns = neighbours(relations, from.chunk_id, allowed);
    lemma_reached_all_frontier(rules, hop, from, ns, before);
    if i < before.frontier.len() {
        let (j, k) = lemma_hopped_frontier_from(rules, relations, allowed, hop, rest, e, i);
        assert(rest[j] == points[j]);
        (j, k)
    } else {
        (points.len() - 1, i - before.frontier.len())
    }
}

/// The result for a chunk is what it was, or that of a neighbour.
proof fn lemma_reached_all_best_from(
    rules: Scoring,
    hop: int,
    from: Point,
    ns: Seq<NeighbourRow>,
    e: Expansion,
    x: i64,
) -> (k: int)
    requires
        best_for(reached_all(rules, hop, from, ns, e).best, x) is Some,
    ensures
        -1 <= k < ns.len(),
        best_for(reached_all(rules, hop, from, ns, e).best, x) == (if k < 0 {
            best_for(e.best, x)
        } else {
            Some(row_at(rules, from, ns[k], hop))
        }),
    decreases ns.len(),
{
    if ns.len() == 0 {
        -1
    } else {
        let rest = ns.drop_last();
        let before = reached_all(rules, hop, from, rest, e);
        let n = ns.last();
        let row = row_at(rules, from, n, hop);
        if improves(before.best, n.chunk_id, row.score) {
            lemma_put_best(before.best, row, x);
            if x == n.chunk_id {
                ns.len() - 1
            } else {
                lemma_reached_all_best_from(rules, hop, from, rest, e, x)
            }
        } else {
            lemma_reached_all_best_from(rules, hop, from, rest, e, x)
        }
    }
}

/// The result for a chunk after a hop is what it was, or that of a neighbour of one
/// of the points.
proof fn lemma_hopped_best_from(
    rules: Scoring,
    relations: Seq<RelationRow>,
    allowed: Seq<Seq<char>>,
    hop: int,
    points: Seq<Point>,
    e: Expansion,
    x: i64,
) -> (r: (int, int))
    requires
        best_for(hopped(rules, relations, allowed, hop, points, e).best, x) is Some,
    ensures
        ({
            let (j, k) = r;
            let now = best_for(hopped(rules, relations, allowed, hop, points, e).best, x);
            ||| j < 0 && now == best_for(e.best, x)
            ||| {
                &&& 0 <= j < points.len()
                &&& 0 <= k < neighbours(relations, points[j].chunk_id, allowed).len()
                &&& now == Some(
                    row_at(
                        rules,
                        points[j],
                        neighbours(relations, points[j].chunk_id, allowed)[k],
                        hop,
                    ),
                )
            }
        }),
    decreases points.len(),
{
    if points.len() == 0 {
        (-1, -1)
    } else {
        let rest = points.drop_last();
        let before = hopped(rules, relations, allowed, hop, rest, e);
        let from = points.last();
        let ns = neighbours(relations, from.chunk_id, allowed);
        let k = lemma_reached_all_best_from(rules, hop, from, ns, before, x);
        if k < 0 {
            let (j, i) = lemma_hopped_best_from(rules, relations, allowed, hop, rest, e, x);
            if j >= 0 {
                assert(rest[j] == points[j]);
            }
            (j, i)
        } else {
            (points.len() - 1, k)
        }
    }
}

/// A way with one more hop.
proof fn lemma_longer_way(
    rules: Scoring,
    relations: Seq<RelationRow>,
    allowed: Seq<Seq<char>>,
    anchors: Seq<(i64, u32)>,
    w: Way,
    n: NeighbourRow,
) -> (v: Way)
    requires
        is_way(relations, allowed, anchors, w),
        neighbours(relations, end_of(anchors, w), allowed).contains(n),
    ensures
        is_way(relations, allowed, anchors, v),
        v.steps.len() == w.steps.len() + 1,
        point_of(rules, anchors, v) == hop_on(rules, point_of(rules, anchors, w))(n),
        result_along(rules, anchors, v) == row_at(
            rules,
            point_of(rules, anchors, w),
            n,
            (w.steps.len() + 1) as int,
        ),
{
    let v = Way { anchor: w.anchor, steps: w.steps.push(n) };
    assert(v.steps.drop_last() =~= w.steps);
    assert(shortened(v) == w);
    v
}

/// One more hop: the points and the results after it are those of the ways with one
/// hop more.
proof fn lemma_one_more_hop(
    rules: Scoring,
    relations: Seq<RelationRow>,
    allowed: Seq<Seq<char>>,
    anchors: Seq<(i64, u32)>,
    hop: int,
    e: Expansion,
)
    requires
        1 <= hop,
        best_over_ways(rules, relations, allowed, anchors, hop - 1, e.best),
        at_the_ends(rules, relations, allowed, anchors, hop - 1, e.frontier),
    ensures
        ({
            let begun = Expansion { best: e.best, frontier: Seq::empty() };
            let next = hopped(rules, relations, allowed, hop, e.frontier, begun);
            &&& best_over_ways(rules, relations, allowed, anchors, hop, next.best)
            &&& at_the_ends(rules, relations, allowed, anchors, hop, next.frontier)
        }),
{
    let begun = Expansion { best: e.best, frontier: Seq::empty() };
    let points = e.frontier;
    let next = hopped(rules, relations, allowed, hop, points, begun);
    lemma_hopped_no_worse(rules, relations, allowed, hop, points, begun);
    assert forall|w: Way| #[trigger]
        is_way(relations, allowed, anchors, w) && w.steps.len() <= hop implies {
        &&& best_for(next.best, end_of(anchors, w)) is Some
        &&& !less_than(
            best_for(next.best, end_of(anchors, w))->0.score,
            score_along(rules, anchors, w),
        )
        &&& w.steps.len() == hop ==> next.frontier.contains(point_of(rules, anchors, w))
    } by {
        if w.steps.len() < hop {
            assert(best_for(begun.best, end_of(anchors, w)) is Some);
        } else {
            let v = shortened(w);
            let n = w.steps.last();
            assert(is_way(relations, allowed, anchors, v));
            let p = point_of(rules, anchors, v);
            let ns = neighbours(relations, end_of(anchors, v), allowed);
            assert(points.contains(p));
            let j = choose|j: int| 0 <= j < points.len() && points[j] == p;
            let k = choose|k: int| 0 <= k < ns.len() && ns[k] == n;
            lemma_hopped_reaches(rules, relations, allowed, hop, points, begun, j, k);
            lemma_hopped_frontier_has(rules, relations, allowed, hop, points, begun, j, k);
            assert(hop_on(rules, p)(n) == point_of(rules, anchors, w));
            assert(way_score(rules, p, n, hop) == score_along(rules, anchors, w));
        }
    }
    assert forall|x: i64| (#[trigger] best_for(next.best, x)) is Some implies comes_by_a_way(
        rules,
        relations,
        allowed,
        anchors,
        hop,
        best_for(next.best, x)->0,
    ) by {
        let (j, k) = lemma_hopped_best_from(rules, relations, allowed, hop, points, begun, x);
        if j < 0 {
            assert(best_for(e.best, x) is Some);
            let w = choose|w: Way| #[trigger]
                is_way(relations, allowed, anchors, w) && w.steps.len() <= hop - 1 && best_for(
                    e.best,
                    x,
                )->0 == result_along(rules, anchors, w);
            assert(is_way(relations, allowed, anchors, w));
        } else {
            assert(lies_on_a_way(rules, relations, allowed, anchors, hop - 1, points[j]));
            let w = choose|w: Way| #[trigger]
                is_way(relations, allowed, anchors, w) && w.steps.len() == hop - 1 && points[j]
                    == point_of(rules, anchors, w);
            let n = neighbours(relations, points[j].chunk_id, allowed)[k];
            let v = lemma_longer_way(rules, relations, allowed, anchors, w, n);
            assert(is_way(relations, allowed, anchors, v));
        }
    }
    assert forall|i: int| 0 <= i < next.frontier.len() implies lies_on_a_way(
        rules,
        relations,
        allowed,
        anchors,
        hop,
        #[trigger] next.frontier[i],
    ) by {
        let (j, k) = lemma_hopped_frontier_from(
            rules,
            relations,
            allowed,
            hop,
            points,
            begun,
            i,
        );
        assert(lies_on_a_way(rules, relations, allowed, anchors, hop - 1, points[j]));
        let w = choose|w: Way| #[trigger]
            is_way(relations, allowed, anchors, w) && w.steps.len() == hop - 1 && points[j]
                == point_of(rules, anchors, w);
        let n = neighbours(relations, points[j].chunk_id, allowed)[k];
        let v = lemma_longer_way(rules, relations, allowed, anchors, w, n);
        assert(is_way(relations, allowed, anchors, v));
    }
}

proof fn lemma_more_hops(
    rules: Scoring,
    relations: Seq<RelationRow>,
    allowed: Seq<Seq<char>>,
    anchors: Seq<(i64, u32)>,
    hop: int,
    max_hops: int,
    e: Expansion,
)
    requires
        1 <= hop <= max_hops + 1,
        best_over_ways(rules, relations, allowed, anchors, hop - 1, e.best),
        at_the_ends(rules, relations, allowed, anchors, hop - 1, e.frontier),
    ensures
        best_over_ways(
            rules,
            relations,
            allowed,
            anchors,
            max_hops,
            expanded(rules, relations, allowed, hop, max_hops, e).best,
        ),
    decreases max_hops - hop + 1,
{
    if hop <= max_hops {
        let begun = Expansion { best: e.best, frontier: Seq::empty() };
        let next = hopped(rules, relations, allowed, hop, e.frontier, begun);
        lemma_one_more_hop(rules, relations, allowed, anchors, hop, e);
        lemma_more_hops(rules, relations, allowed, anchors, hop + 1, max_hops, next);
    }
}

/// The result for a chunk at the start is that of an anchor.
proof fn lemma_anchored_best_from(rules: Scoring, anchors: Seq<(i64, u32)>, x: i64) -> (i: int)
    requires
        best_for(anchored(rules, anchors).best, x) is Some,
    ensures
        0 <= i < anchors.len(),
        best_for(anchored(rules, anchors).best, x) == Some(anchor_row(rules, anchors[i])),
    decreases anchors.len(),
{
    if anchors.len() == 0 {
        let none: Seq<RankedRow> = Seq::empty();
        lemma_first_absent(none, for_chunk(x));
        0
    } else {
        let rest = anchors.drop_last();
        let row = anchor_row(rules, anchors.last());
        lemma_put_best(anchored(rules, rest).best, row, x);
        if x == row.chunk_id {
            anchors.len() - 1
        } else {
            let i = lemma_anchored_best_from(rules, rest, x);
            assert(rest[i] == anchors[i]);
            i
        }
    }
}

/// A chunk has a result exactly if a way of at most `max_hops` hops leads to it from
/// an anchor. The result is that of such a way, and no such way scores higher:
/// however many ways lead to a chunk, the best one counts, and scores are not summed.
pub proof fn law_score_is_the_best_over_all_ways(
    rules: Scoring,
    relations: Seq<RelationRow>,
    allowed: Seq<Seq<char>>,
    max_hops: int,
    anchors: Seq<(i64, u32)>,
)
    requires
        0 <= max_hops,
        pairwise(anchors, different_chunks()),
    ensures
        best_over_ways(
            rules,
            relations,
            allowed,
            anchors,
            max_hops,
            expanded(rules, relations, allowed, 1, max_hops, anchored(rules, anchors)).best,
        ),
{
    let e = anchored(rules, anchors);
    assert forall|w: Way| #[trigger]
        is_way(relations, allowed, anchors, w) && w.steps.len() <= 0 implies {
        &&& best_for(e.best, end_of(anchors, w)) is Some
        &&& !less_than(
            best_for(e.best, end_of(anchors, w))->0.score,
            score_along(rules, anchors, w),
        )
        &&& e.frontier.contains(point_of(rules, anchors, w))
    } by {
        lemma_anchored_best(rules, anchors, w.anchor);
        lemma_anchored_frontier(rules, anchors, w.anchor);
        assert(e.frontier[w.anchor] == point_of(rules, anchors, w));
    }
    assert forall|x: i64| (#[trigger] best_for(e.best, x)) is Some implies comes_by_a_way(
        rules,
        relations,
        allowed,
        anchors,
        0,
        best_for(e.best, x)->0,
    ) by {
        let i = lemma_anchored_best_from(rules, anchors, x);
        let w = Way { anchor: i, steps: Seq::empty() };
        assert(is_way(relations, allowed, anchors, w));
    }
    assert forall|i: int| 0 <= i < e.frontier.len() implies lies_on_a_way(
        rules,
        relations,
        allowed,
        anchors,
        0,
        #[trigger] e.frontier[i],
    ) by {
        if anchors.len() > 0 {
            lemma_anchored_frontier(rules, anchors, 0);
            lemma_anchored_frontier(rules, anchors, i);
        }
        let w = Way { anchor: i, steps: Seq::empty() };
        assert(is_way(relations, allowed, anchors, w));
    }
    lemma_more_hops(rules, relations, allowed, anchors, 1, max_hops, e);
}

/// Every result of an expanded search is that of a way from an anchor of no more hops
/// than the settings say, and no such way to its chunk scores higher; and a chunk
/// that such a way leads to is left out only if no result scores lower.
pub proof fn law_results_are_the_best_ways(
    t: Tables,
    rules: Scoring,
    anchors: Seq<(i64, u32)>,
    top_k: usize,
)
    requires
        usize_setting(t.settings, "max_hops"@, 1) <= i64::MAX,
        pairwise(anchors, different_chunks()),
        ranked_results(t, rules, anchors, top_k) is Ok,
    ensures
        ({
            let r = ranked_results(t, rules, anchors, top_k)->Ok_0;
            let allowed = list_setting(t.settings, "expand_relation_types"@);
            let max_hops = usize_setting(t.settings, "max_hops"@, 1) as int;
            &&& forall|i: int|
                0 <= i < r.len() ==> comes_by_a_way(
                    rules,
                    t.relations,
                    allowed,
                    anchors,
                    max_hops,
                    #[trigger] r[i],
                )
            &&& forall|w: Way, i: int|
                #![trigger is_way(t.relations, allowed, anchors, w), r[i]]
                is_way(t.relations, allowed, anchors, w) && w.steps.len() <= max_hops && 0 <= i
                    < r.len() && r[i].chunk_id == end_of(anchors, w) ==> !less_than(
                    r[i].score,
                    score_along(rules, anchors, w),
                )
            &&& forall|w: Way, i: int|
                #![trigger is_way(t.relations, allowed, anchors, w), r[i]]
                is_way(t.relations, allowed, anchors, w) && w.steps.len() <= max_hops && 0 <= i
                    < r.len() && (forall|k: int|
                    0 <= k < r.len() ==> (#[trigger] r[k]).chunk_id != end_of(anchors, w))
                    ==> !less_than(r[i].score, score_along(rules, anchors, w))
        }),
{
    let allowed = list_setting(t.settings, "expand_relation_types"@);
    let max_hops = usize_setting(t.settings, "max_hops"@, 1) as int;
    let start = anchored(rules, anchors);
    let best = expanded(rules, t.relations, allowed, 1, max_hops, start).best;
    let r = ranked_results(t, rules, anchors, top_k)->Ok_0;
    lemma_anchored_tidy(rules, anchors);
    lemma_expanded_tidy(rules, t.relations, allowed, 1, max_hops, start);
    law_score_is_the_best_over_all_ways(rules, t.relations, allowed, max_hops, anchors);
    law_highest_scores_are_kept(best, top_k);
    assert forall|i: int| 0 <= i < r.len() implies best_for(best, (#[trigger] r[i]).chunk_id)
        == Some(r[i]) by {
        assert(best.contains(r[i]));
        let k = choose|k: int| 0 <= k < best.len() && best[k] == r[i];
        assert forall|j: int| 0 <= j < k implies !for_chunk(r[i].chunk_id)(#[trigger] best[j]) by {
            assert(one_per_chunk()(best[j], best[k]));
        }
        lemma_first_at(best, for_chunk(r[i].chunk_id), k);
    }
    assert forall|w: Way, i: int|
        #![trigger is_way(t.relations, allowed, anchors, w), r[i]]
        is_way(t.relations, allowed, anchors, w) && w.steps.len() <= max_hops && 0 <= i < r.len()
            && (forall|k: int|
            0 <= k < r.len() ==> (#[trigger] r[k]).chunk_id != end_of(anchors, w))
        implies !less_than(r[i].score, score_along(rules, anchors, w)) by {
        let x = end_of(anchors, w);
        let z = best_for(best, x)->0;
        let k = lemma_first_found(best, for_chunk(x));
        assert(best.contains(z));
        if r.contains(z) {
            let j = choose|j: int| 0 <= j < r.len() && r[j] == z;
            assert(r[j].chunk_id == x);
        }
        assert(rank_of(z.score) <= rank_of(r[i].score));
        if is_nan(z.score) {
            assert(is_nan(best[k].score));
            assert(best.len() < 2);
            assert(best.contains(r[i]));
        }
    }
}

} // verus!
