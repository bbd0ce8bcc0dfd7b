//! Expanding the nearest chunks over the relations between chunks.

use vstd::prelude::*;

use crate::ann::model::first_of;
use crate::bits::{is_nan, less, less_than, nan, rank_of, ranks_below, ONE_DOUBLE, ONE_SINGLE};
use crate::error::Error;
use crate::order::{arrange, arranged};
use crate::seqs::{
    first_where, lemma_filter_empty, lemma_filter_push, lemma_first_absent, lemma_first_at,
    pairwise,
};
use crate::storage::rows::{lemma_rows_push, position_where};
use crate::storage::settings::{
    get_f64, get_string_list, get_usize, list_setting, reads_as, setting_value, usize_setting,
};
use crate::storage::tables::{rows, Relation, RelationRow, Tables};
use crate::storage::Database;
use crate::text::{text_of, texts};

verus! {

/// Where a result comes from: the index, or a relation of another result.
#[derive(Clone, Copy, Debug, PartialEq, Eq, Structural)]
pub enum Origin {
    Ann,
    Graph,
}

/// One result of a search. The score is the bit pattern of a single.
pub struct RankedChunk {
    pub chunk_id: i64,
    pub score: u32,
    pub origin: Origin,
    pub relation_type: Option<String>,
    pub hop_count: Option<i64>,
}

pub struct RankedRow {
    pub chunk_id: i64,
    pub score: u32,
    pub origin: Origin,
    pub relation_type: Option<Seq<char>>,
    pub hop_count: Option<i64>,
}

impl View for RankedChunk {
    type V = RankedRow;

    open spec fn view(&self) -> RankedRow {
        RankedRow {
            chunk_id: self.chunk_id,
            score: self.score,
            origin: self.origin,
            relation_type: text_of(self.relation_type),
            hop_count: self.hop_count,
        }
    }
}

/// A chunk that another one is related to.
pub struct Neighbour {
    pub chunk_id: i64,
    pub relation_type: String,
    pub confidence: u64,
}

pub struct NeighbourRow {
    pub chunk_id: i64,
    pub relation_type: Seq<char>,
    pub confidence: u64,
}

impl View for Neighbour {
    type V = NeighbourRow;

    open spec fn view(&self) -> NeighbourRow {
        NeighbourRow {
            chunk_id: self.chunk_id,
            relation_type: self.relation_type@,
            confidence: self.confidence,
        }
    }
}

/// Having a type that may be followed: any type, if none is asked for.
pub open spec fn followed(r: RelationRow, allowed: Seq<Seq<char>>) -> bool {
    r.relation_type is Some && (allowed.len() == 0 || allowed.contains(r.relation_type->0))
}

/// The relations that start at a chunk and may be followed.
pub open spec fn outgoing(chunk_id: i64, allowed: Seq<Seq<char>>) -> spec_fn(RelationRow) -> bool {
    |r: RelationRow| r.from_chunk_id == chunk_id && followed(r, allowed)
}

/// The relations that end at a chunk and may be followed.
pub open spec fn incoming(chunk_id: i64, allowed: Seq<Seq<char>>) -> spec_fn(RelationRow) -> bool {
    |r: RelationRow| r.to_chunk_id == chunk_id && followed(r, allowed)
}

/// The confidence to reckon with: no penalty where none is stored.
pub open spec fn confidence_of(r: RelationRow) -> u64 {
    match r.confidence {
        Some(bits) => bits,
        None => ONE_DOUBLE,
    }
}

/// The far end of a relation, seen from its start.
pub open spec fn far_end() -> spec_fn(RelationRow) -> NeighbourRow {
    |r: RelationRow|
        NeighbourRow {
            chunk_id: r.to_chunk_id,
            relation_type: r.relation_type->0,
            confidence: confidence_of(r),
        }
}

/// The near end of a relation, seen from its end.
pub open spec fn near_end() -> spec_fn(RelationRow) -> NeighbourRow {
    |r: RelationRow|
        NeighbourRow {
            chunk_id: r.from_chunk_id,
            relation_type: r.relation_type->0,
            confidence: confidence_of(r),
        }
}

/// The neighbours of a chunk, in either direction.
pub open spec fn neighbours(
    relations: Seq<RelationRow>,
    chunk_id: i64,
    allowed: Seq<Seq<char>>,
) -> Seq<NeighbourRow> {
    relations.filter(outgoing(chunk_id, allowed)).map_values(far_end()) + relations.filter(
        incoming(chunk_id, allowed),
    ).map_values(near_end())
}

/// A chunk to expand from: the score of the result that the way to it started at,
/// and the product of the confidences along the way.
#[derive(Clone, Copy, Debug, PartialEq, Eq, Structural)]
pub struct Point {
    pub chunk_id: i64,
    pub anchor_score: u32,
    pub confidence: u32,
}

/// How scores are reckoned, all in bit patterns: the similarity for a distance,
/// the product of a confidence so far and the confidence of one more relation, and
/// the score for the score of an anchor, a product of confidences, the decay per
/// hop and the number of hops.
pub struct Scoring {
    pub similarity: spec_fn(u32) -> u32,
    pub combine: spec_fn(u32, u64) -> u32,
    pub score: spec_fn(u32, u32, u64, usize) -> u32,
    pub decay: u64,
}

/// The function that a deterministic closure computes.
pub open spec fn unary<S: Fn(u32) -> u32>(f: S) -> spec_fn(u32) -> u32 {
    |a: u32| choose|r: u32| call_ensures(f, (a,), r)
}

pub open spec fn binary<C: Fn(u32, u64) -> u32>(f: C) -> spec_fn(u32, u64) -> u32 {
    |a: u32, b: u64| choose|r: u32| call_ensures(f, (a, b), r)
}

pub open spec fn quaternary<W: Fn(u32, u32, u64, usize) -> u32>(f: W) -> spec_fn(
    u32,
    u32,
    u64,
    usize,
) -> u32 {
    |a: u32, b: u32, c: u64, d: usize| choose|r: u32| call_ensures(f, (a, b, c, d), r)
}

/// The scoring that three closures compute.
pub open spec fn scoring<
    S: Fn(u32) -> u32,
    C: Fn(u32, u64) -> u32,
    W: Fn(u32, u32, u64, usize) -> u32,
>(similarity: S, combine: C, score: W, decay: u64) -> Scoring {
    Scoring {
        similarity: unary(similarity),
        combine: binary(combine),
        score: quaternary(score),
        decay,
    }
}

/// The closures can be called on everything, and give the same result every time.
pub open spec fn computes<
    S: Fn(u32) -> u32,
    C: Fn(u32, u64) -> u32,
    W: Fn(u32, u32, u64, usize) -> u32,
>(similarity: S, combine: C, score: W) -> bool {
    &&& forall|a: u32| call_requires(similarity, (a,))
    &&& forall|a: u32, r: u32, s: u32|
        call_ensures(similarity, (a,), r) && call_ensures(similarity, (a,), s) ==> r == s
    &&& forall|a: u32, b: u64| call_requires(combine, (a, b))
    &&& forall|a: u32, b: u64, r: u32, s: u32|
        call_ensures(combine, (a, b), r) && call_ensures(combine, (a, b), s) ==> r == s
    &&& forall|a: u32, b: u32, c: u64, d: usize| call_requires(score, (a, b, c, d))
    &&& forall|a: u32, b: u32, c: u64, d: usize, r: u32, s: u32|
        call_ensures(score, (a, b, c, d), r) && call_ensures(score, (a, b, c, d), s) ==> r == s
}

/// The best result for each chunk so far, and the chunks to expand from next.
pub struct Expansion {
    pub best: Seq<RankedRow>,
    pub frontier: Seq<Point>,
}

/// Being the result for a chunk.
pub open spec fn for_chunk(chunk_id: i64) -> spec_fn(RankedRow) -> bool {
    |r: RankedRow| r.chunk_id == chunk_id
}

/// The result for a chunk.
pub open spec fn best_for(best: Seq<RankedRow>, chunk_id: i64) -> Option<RankedRow> {
    first_where(best, for_chunk(chunk_id))
}

/// Putting a result in the place of the chunk's earlier one.
pub open spec fn instead(row: RankedRow) -> spec_fn(RankedRow) -> RankedRow {
    |r: RankedRow|
        if r.chunk_id == row.chunk_id {
            row
        } else {
            r
        }
}

/// The results with the one for `row.chunk_id` set to `row`.
pub open spec fn put(best: Seq<RankedRow>, row: RankedRow) -> Seq<RankedRow> {
    if best_for(best, row.chunk_id) is Some {
        best.map_values(instead(row))
    } else {
        best.push(row)
    }
}

/// A score is better than what there is for the chunk.
pub open spec fn improves(best: Seq<RankedRow>, chunk_id: i64, score: u32) -> bool {
    match best_for(best, chunk_id) {
        Some(existing) => less_than(existing.score, score),
        None => true,
    }
}

/// The result for a chunk that the index found.
pub open spec fn anchor_row(rules: Scoring, anchor: (i64, u32)) -> RankedRow {
    RankedRow {
        chunk_id: anchor.0,
        score: (rules.similarity)(anchor.1),
        origin: Origin::Ann,
        relation_type: None,
        hop_count: None,
    }
}

/// The expansion as it starts: the chunks that the index found.
pub open spec fn anchored(rules: Scoring, anchors: Seq<(i64, u32)>) -> Expansion
    decreases anchors.len(),
{
    if anchors.len() == 0 {
        Expansion { best: Seq::empty(), frontier: Seq::empty() }
    } else {
        let e = anchored(rules, anchors.drop_last());
        let row = anchor_row(rules, anchors.last());
        Expansion {
            best: put(e.best, row),
            frontier: e.frontier.push(
                Point { chunk_id: row.chunk_id, anchor_score: row.score, confidence: ONE_SINGLE },
            ),
        }
    }
}

/// One neighbour reached: it is scored, kept if that is better than what there is
/// for it, and expanded from at the next hop.
pub open spec fn reached(
    rules: Scoring,
    hop: int,
    from: Point,
    n: NeighbourRow,
    e: Expansion,
) -> Expansion {
    let confidence = (rules.combine)(from.confidence, n.confidence);
    let score = (rules.score)(from.anchor_score, confidence, rules.decay, hop as usize);
    let row = RankedRow {
        chunk_id: n.chunk_id,
        score,
        origin: Origin::Graph,
        relation_type: Some(n.relation_type),
        hop_count: Some(hop as i64),
    };
    Expansion {
        best: if improves(e.best, n.chunk_id, score) {
            put(e.best, row)
        } else {
            e.best
        },
        frontier: e.frontier.push(
            Point { chunk_id: n.chunk_id, anchor_score: from.anchor_score, confidence },
        ),
    }
}

/// Several neighbours of one chunk reached, in order.
pub open spec fn reached_all(
    rules: Scoring,
    hop: int,
    from: Point,
    ns: Seq<NeighbourRow>,
    e: Expansion,
) -> Expansion
    decreases ns.len(),
{
    if ns.len() == 0 {
        e
    } else {
        reached(rules, hop, from, ns.last(), reached_all(rules, hop, from, ns.drop_last(), e))
    }
}

/// The neighbours of several chunks reached, in order.
pub open spec fn hopped(
    rules: Scoring,
    relations: Seq<RelationRow>,
    allowed: Seq<Seq<char>>,
    hop: int,
    points: Seq<Point>,
    e: Expansion,
) -> Expansion
    decreases points.len(),
{
    if points.len() == 0 {
        e
    } else {
        let before = hopped(rules, relations, allowed, hop, points.drop_last(), e);
        let from = points.last();
        reached_all(rules, hop, from, neighbours(relations, from.chunk_id, allowed), before)
    }
}

/// The expansion after the hops from `hop` to `max_hops`.
pub open spec fn expanded(
    rules: Scoring,
    relations: Seq<RelationRow>,
    allowed: Seq<Seq<char>>,
    hop: int,
    max_hops: int,
    e: Expansion,
) -> Expansion
    decreases max_hops - hop + 1,
{
    if hop > max_hops {
        e
    } else {
        let next = hopped(
            rules,
            relations,
            allowed,
            hop,
            e.frontier,
            Expansion { best: e.best, frontier: Seq::empty() },
        );
        expanded(rules, relations, allowed, hop + 1, max_hops, next)
    }
}

/// Having a higher score.
pub open spec fn higher() -> spec_fn(RankedRow, RankedRow) -> bool {
    |a: RankedRow, b: RankedRow| rank_of(b.score) < rank_of(a.score)
}

/// Some score is not a number.
pub open spec fn any_nan_score(best: Seq<RankedRow>) -> bool {
    exists|i: int| 0 <= i < best.len() && is_nan((#[trigger] best[i]).score)
}

/// The results with the highest scores, the highest first. Where there is something
/// to compare, every score has to be a number.
pub open spec fn top_of(best: Seq<RankedRow>, top_k: usize) -> Result<Seq<RankedRow>, Error> {
    if best.len() >= 2 && any_nan_score(best) {
        Err(Error::NotComparable)
    } else {
        Ok(first_of(arranged(best, higher()), top_k))
    }
}

/// The decay per hop where the settings say none: the bit pattern of 0.5.
pub const DEFAULT_HOP_DECAY: u64 = 0x3fe0_0000_0000_0000;

/// The decay per hop is what `parse` makes of the setting for it.
pub open spec fn decay_setting<P: Fn(&str) -> Option<u64>>(parse: P, t: Tables, decay: u64) -> bool {
    reads_as(parse, setting_value(t.settings, "hop_decay"@), DEFAULT_HOP_DECAY, decay)
}

/// The decay per hop that the settings say, as `parse` reads it.
pub fn hop_decay<P: Fn(&str) -> Option<u64>>(db: &Database, parse: P) -> (r: u64)
    requires
        forall|s: &str| call_requires(parse, (s,)),
    ensures
        decay_setting(parse, db@, r),
{
    get_f64(db, "hop_decay", DEFAULT_HOP_DECAY, parse)
}

/// What the anchors are expanded to, over the relations and under the settings of
/// the database.
pub open spec fn ranked_results(
    t: Tables,
    rules: Scoring,
    anchors: Seq<(i64, u32)>,
    top_k: usize,
) -> Result<Seq<RankedRow>, Error> {
    top_of(
        expanded(
            rules,
            t.relations,
            list_setting(t.settings, "expand_relation_types"@),
            1,
            usize_setting(t.settings, "max_hops"@, 1) as int,
            anchored(rules, anchors),
        ).best,
        top_k,
    )
}

/// A list of results, or why there is none.
pub open spec fn results_of(r: Result<Vec<RankedChunk>, Error>) -> Result<Seq<RankedRow>, Error> {
    match r {
        Ok(v) => Ok(rows(v@)),
        Err(e) => Err(e),
    }
}

/// The types that may be followed; empty for all.
pub open spec fn allowed_of(allowed: Option<Vec<String>>) -> Seq<Seq<char>> {
    match allowed {
        Some(v) => texts(v@),
        None => Seq::empty(),
    }
}

/// Tells whether a relation has a type that may be followed.
fn follows(r: &Relation, allowed: &Option<Vec<String>>) -> (b: bool)
    requires
        *allowed matches Some(v) ==> v@.len() > 0,
    ensures
        b == followed(r@, allowed_of(*allowed)),
{
    match &r.relation_type {
        Some(relation_type) => match allowed {
            Some(list) => {
                let ghost all = texts(list@);
                let mut i: usize = 0;
                while i < list.len()
                    invariant
                        i <= list@.len(),
                        all == texts(list@),
                        all == allowed_of(*allowed),
                        r@.relation_type == Some(relation_type@),
                        forall|k: int| 0 <= k < i ==> #[trigger] all[k] != relation_type@,
                    decreases list@.len() - i,
                {
                    proof {
                        assert(all[i as int] == list@[i as int]@);
                    }
                    if list[i] == *relation_type {
                        proof {
                            assert(all.contains(relation_type@));
                        }
                        return true;
                    }
                    i += 1;
                }
                proof {
                    assert(!all.contains(relation_type@));
                }
                false
            },
            None => true,
        },
        None => false,
    }
}

/// One end of a relation as a neighbour of the other.
fn neighbour(r: &Relation, chunk_id: i64) -> (n: Neighbour)
    requires
        r.relation_type is Some,
    ensures
        n@ == (NeighbourRow {
            chunk_id,
            relation_type: r@.relation_type->0,
            confidence: confidence_of(r@),
        }),
{
    let relation_type: String = match &r.relation_type {
        Some(relation_type) => relation_type.clone(),
        None => String::new(),
    };
    let confidence: u64 = match r.confidence {
        Some(bits) => bits,
        None => ONE_DOUBLE,
    };
    Neighbour { chunk_id, relation_type, confidence }
}

/// The neighbours of a chunk, in either direction. Pairs without a relation type
/// are no neighbours, and where the settings restrict the types, neither are those
/// of another type.
pub fn relation_neighbours(db: &Database, chunk_id: i64, allowed: &Option<Vec<String>>) -> (r: Vec<
    Neighbour,
>)
    requires
        *allowed matches Some(v) ==> v@.len() > 0,
    ensures
        rows(r@) == neighbours(db@.relations, chunk_id, allowed_of(*allowed)),
{
    let ghost all = db@.relations;
    let ghost types = allowed_of(*allowed);
    let ghost out = outgoing(chunk_id, types);
    let ghost back = incoming(chunk_id, types);
    let mut r: Vec<Neighbour> = Vec::new();
    let mut i: usize = 0;
    proof {
        assert(all.take(0) =~= Seq::empty());
        lemma_filter_empty(out);
        lemma_filter_empty(back);
        assert(rows(r@) =~= all.take(0).filter(out).map_values(far_end()));
    }
    while i < db.relations.len()
        invariant
            i <= db.relations@.len(),
            *allowed matches Some(v) ==> v@.len() > 0,
            all == db@.relations,
            types == allowed_of(*allowed),
            out == outgoing(chunk_id, types),
            rows(r@) == all.take(i as int).filter(out).map_values(far_end()),
        decreases db.relations@.len() - i,
    {
        let ghost row = all[i as int];
        proof {
            assert(row == db.relations@[i as int]@);
            assert(all.take(i + 1) =~= all.take(i as int).push(row));
            lemma_filter_push(all.take(i as int), row, out);
        }
        if db.relations[i].from_chunk_id == chunk_id && follows(&db.relations[i], allowed) {
            let n = neighbour(&db.relations[i], db.relations[i].to_chunk_id);
            proof {
                lemma_rows_push(r@, n);
                assert(all.take(i as int).filter(out).push(row).map_values(far_end()) =~= all.take(
                    i as int,
                ).filter(out).map_values(far_end()).push(far_end()(row)));
            }
            r.push(n);
        }
        i += 1;
    }
    let ghost first = rows(r@);
    let mut j: usize = 0;
    proof {
        assert(all.take(all.len() as int) =~= all);
        assert(rows(r@) =~= first + all.take(0).filter(back).map_values(near_end()));
    }
    while j < db.relations.len()
        invariant
            j <= db.relations@.len(),
            *allowed matches Some(v) ==> v@.len() > 0,
            all == db@.relations,
            types == allowed_of(*allowed),
            back == incoming(chunk_id, types),
            rows(r@) == first + all.take(j as int).filter(back).map_values(near_end()),
        decreases db.relations@.len() - j,
    {
        let ghost row = all[j as int];
        proof {
            assert(row == db.relations@[j as int]@);
            assert(all.take(j + 1) =~= all.take(j as int).push(row));
            lemma_filter_push(all.take(j as int), row, back);
        }
        if db.relations[j].to_chunk_id == chunk_id && follows(&db.relations[j], allowed) {
            let n = neighbour(&db.relations[j], db.relations[j].from_chunk_id);
            proof {
                lemma_rows_push(r@, n);
                assert(first + all.take(j as int).filter(back).push(row).map_values(near_end())
                    =~= (first + all.take(j as int).filter(back).map_values(near_end())).push(
                    near_end()(row),
                ));
            }
            r.push(n);
        }
        j += 1;
    }
    r
}

/// The index of the result for a chunk.
fn find_best(best: &Vec<RankedChunk>, chunk_id: i64) -> (r: Option<usize>)
    ensures
        match r {
            Some(i) => i < best@.len() && best_for(rows(best@), chunk_id) == Some(
                best@[i as int]@,
            ) && best@[i as int].chunk_id == chunk_id,
            None => best_for(rows(best@), chunk_id) is None,
        },
{
    let ghost p = for_chunk(chunk_id);
    let cond = |r: &RankedChunk| -> (b: bool)
        ensures
            b == p(r@),
        { r.chunk_id == chunk_id };
    let found = position_where(best, cond, Ghost(p));
    proof {
        let s = rows(best@);
        assert forall|k: int| 0 <= k < s.len() implies #[trigger] s[k] == best@[k]@ by {}
        match found {
            Some(i) => {
                lemma_first_at(s, p, i as int);
            },
            None => {
                lemma_first_absent(s, p);
            },
        }
    }
    found
}

/// No chunk has two results.
pub open spec fn one_per_chunk() -> spec_fn(RankedRow, RankedRow) -> bool {
    |a: RankedRow, b: RankedRow| a.chunk_id != b.chunk_id
}

/// Setting a result keeps one per chunk.
pub proof fn lemma_put_distinct(best: Seq<RankedRow>, row: RankedRow)
    requires
        pairwise(best, one_per_chunk()),
    ensures
        pairwise(put(best, row), one_per_chunk()),
{
    let r = put(best, row);
    if best_for(best, row.chunk_id) is Some {
        assert forall|i: int, j: int| #![trigger r[i], r[j]] 0 <= i < j
            < r.len() implies one_per_chunk()(r[i], r[j]) by {
            assert(one_per_chunk()(best[i], best[j]));
        }
    } else {
        assert forall|i: int| 0 <= i < best.len() implies one_per_chunk()(
            #[trigger] best[i],
            row,
        ) by {
            if best[i].chunk_id == row.chunk_id {
                crate::seqs::lemma_first_exists(best, for_chunk(row.chunk_id), i);
            }
        }
        crate::seqs::lemma_push_pairwise(best, row, one_per_chunk());
    }
}

/// Sets the result for a chunk.
fn put_best(best: &mut Vec<RankedChunk>, row: RankedChunk)
    requires
        pairwise(rows(old(best)@), one_per_chunk()),
    ensures
        rows(final(best)@) == put(rows(old(best)@), row@),
        pairwise(rows(final(best)@), one_per_chunk()),
{
    let ghost s = rows(best@);
    proof {
        lemma_put_distinct(s, row@);
    }
    match find_best(best, row.chunk_id) {
        Some(i) => {
            let ghost new = row@;
            best.set(i, row);
            proof {
                let want = put(s, new);
                assert forall|k: int| 0 <= k < s.len() implies rows(best@)[k] == want[k] by {
                    assert(s[k] == old(best)@[k]@);
                    assert(s[i as int] == old(best)@[i as int]@);
                    if k < i {
                        assert(one_per_chunk()(s[k], s[i as int]));
                    } else if i < k {
                        assert(one_per_chunk()(s[i as int], s[k]));
                    }
                }
                assert(rows(best@) =~= want);
            }
        },
        None => {
            proof {
                lemma_rows_push(best@, row);
            }
            best.push(row);
        },
    }
}

/// The results with the highest scores, the highest first.
pub fn top_results(best: Vec<RankedChunk>, top_k: usize) -> (r: Result<Vec<RankedChunk>, Error>)
    ensures
        results_of(r) == top_of(rows(best@), top_k),
{
    let ghost all = rows(best@);
    proof {
        assert forall|k: int| 0 <= k < all.len() implies #[trigger] all[k] == best@[k]@ by {}
    }
    if best.len() >= 2 {
        let mut i: usize = 0;
        while i < best.len()
            invariant
                i <= best@.len(),
                best@.len() >= 2,
                all == rows(best@),
                forall|k: int| 0 <= k < i ==> !is_nan((#[trigger] all[k]).score),
            decreases best@.len() - i,
        {
            proof {
                assert(all[i as int] == best@[i as int]@);
            }
            if nan(best[i].score) {
                return Err(Error::NotComparable);
            }
            i += 1;
        }
    }
    let ghost before = higher();
    let cond = |a: &RankedChunk, b: &RankedChunk| -> (c: bool)
        ensures
            c == before(a@, b@),
        { ranks_below(b.score, a.score) };
    let mut sorted = arrange(best, cond, Ghost(before));
    let ghost full = rows(sorted@);
    sorted.truncate(top_k);
    proof {
        assert(!(all.len() >= 2 && any_nan_score(all)));
        assert(rows(sorted@) =~= first_of(full, top_k));
    }
    Ok(sorted)
}

/// Without a chunk to expand from, further hops change nothing.
proof fn lemma_expanded_idle(
    rules: Scoring,
    relations: Seq<RelationRow>,
    allowed: Seq<Seq<char>>,
    hop: int,
    max_hops: int,
    e: Expansion,
)
    requires
        e.frontier.len() == 0,
    ensures
        expanded(rules, relations, allowed, hop, max_hops, e) == e,
    decreases max_hops - hop + 1,
{
    if hop <= max_hops {
        let start = Expansion { best: e.best, frontier: Seq::empty() };
        assert(e.frontier =~= Seq::empty());
        assert(hopped(rules, relations, allowed, hop, e.frontier, start) == e);
        lemma_expanded_idle(rules, relations, allowed, hop + 1, max_hops, e);
    }
}

/// Expands from one chunk.
fn expand_from<C: Fn(u32, u64) -> u32, W: Fn(u32, u32, u64, usize) -> u32>(
    db: &Database,
    allowed: &Option<Vec<String>>,
    from: Point,
    hop: usize,
    decay: u64,
    combine: &C,
    score: &W,
    best: &mut Vec<RankedChunk>,
    next: &mut Vec<Point>,
    Ghost(rules): Ghost<Scoring>,
)
    requires
        *allowed matches Some(v) ==> v@.len() > 0,
        pairwise(rows(old(best)@), one_per_chunk()),
        rules.combine == binary(*combine),
        rules.score == quaternary(*score),
        rules.decay == decay,
        forall|a: u32, b: u64| call_requires(*combine, (a, b)),
        forall|a: u32, b: u64, r: u32, s: u32|
            call_ensures(*combine, (a, b), r) && call_ensures(*combine, (a, b), s) ==> r == s,
        forall|a: u32, b: u32, c: u64, d: usize| call_requires(*score, (a, b, c, d)),
        forall|a: u32, b: u32, c: u64, d: usize, r: u32, s: u32|
            call_ensures(*score, (a, b, c, d), r) && call_ensures(*score, (a, b, c, d), s) ==> r
                == s,
    ensures
        pairwise(rows(final(best)@), one_per_chunk()),
        (Expansion { best: rows(final(best)@), frontier: final(next)@ }) == reached_all(
            rules,
            hop as int,
            from,
            neighbours(db@.relations, from.chunk_id, allowed_of(*allowed)),
            Expansion { best: rows(old(best)@), frontier: old(next)@ },
        ),
{
    let list = relation_neighbours(db, from.chunk_id, allowed);
    let ghost ns = rows(list@);
    let ghost start = Expansion { best: rows(best@), frontier: next@ };
    let mut i: usize = 0;
    proof {
        assert(ns.take(0) =~= Seq::empty());
    }
    while i < list.len()
        invariant
            i <= list@.len(),
            ns == rows(list@),
            pairwise(rows(best@), one_per_chunk()),
            rules.combine == binary(*combine),
            rules.score == quaternary(*score),
            rules.decay == decay,
            forall|a: u32, b: u64| call_requires(*combine, (a, b)),
            forall|a: u32, b: u64, r: u32, s: u32|
                call_ensures(*combine, (a, b), r) && call_ensures(*combine, (a, b), s) ==> r == s,
            forall|a: u32, b: u32, c: u64, d: usize| call_requires(*score, (a, b, c, d)),
            forall|a: u32, b: u32, c: u64, d: usize, r: u32, s: u32|
                call_ensures(*score, (a, b, c, d), r) && call_ensures(*score, (a, b, c, d), s)
                    ==> r == s,
            (Expansion { best: rows(best@), frontier: next@ }) == reached_all(
                rules,
                hop as int,
                from,
                ns.take(i as int),
                start,
            ),
        decreases list@.len() - i,
    {
        let chunk_id = list[i].chunk_id;
        let confidence = combine(from.confidence, list[i].confidence);
        let reached_score = score(from.anchor_score, confidence, decay, hop);
        let ghost n = ns[i as int];
        let ghost before = Expansion { best: rows(best@), frontier: next@ };
        proof {
            assert(n == list@[i as int]@);
            assert(ns.take(i + 1).drop_last() =~= ns.take(i as int));
            assert(ns.take(i + 1).last() == n);
            assert((rules.combine)(from.confidence, n.confidence) == confidence);
            assert((rules.score)(from.anchor_score, confidence, decay, hop) == reached_score);
        }
        let is_better = match find_best(best, chunk_id) {
            Some(k) => less(best[k].score, reached_score),
            None => true,
        };
        if is_better {
            put_best(
                best,
                RankedChunk {
                    chunk_id,
                    score: reached_score,
                    origin: Origin::Graph,
                    relation_type: Some(list[i].relation_type.clone()),
                    hop_count: Some(hop as i64),
                },
            );
        }
        next.push(Point { chunk_id, anchor_score: from.anchor_score, confidence });
        proof {
            assert((Expansion { best: rows(best@), frontier: next@ }) == reached(
                rules,
                hop as int,
                from,
                n,
                before,
            ));
        }
        i += 1;
    }
    proof {
        assert(ns.take(ns.len() as int) =~= ns);
    }
}

/// Expands the nearest chunks over their relations, up to the number of hops that
/// the settings say, scores what is reached, and returns one list of results, the
/// highest score first and one per chunk. `similarity`, `combine` and `score` are
/// the arithmetic on scores; the decay per hop is the setting, as `parse` reads it.
pub fn expand_and_rank<
    S: Fn(u32) -> u32,
    C: Fn(u32, u64) -> u32,
    W: Fn(u32, u32, u64, usize) -> u32,
    P: Fn(&str) -> Option<u64>,
>(
    db: &Database,
    anchors: &Vec<(i64, u32)>,
    top_k: usize,
    similarity: S,
    combine: C,
    score: W,
    parse: P,
) -> (r: Result<Vec<RankedChunk>, Error>)
    requires
        computes(similarity, combine, score),
        forall|s: &str| call_requires(parse, (s,)),
    ensures
        exists|decay: u64| #[trigger]
            decay_setting(parse, db@, decay) && results_of(r) == ranked_results(
                db@,
                scoring(similarity, combine, score, decay),
                anchors@,
                top_k,
            ),
{
    let decay = hop_decay(db, parse);
    let max_hops = get_usize(db, "max_hops", 1);
    let allowed = get_string_list(db, "expand_relation_types");
    let ghost rules = scoring(similarity, combine, score, decay);
    let ghost types = allowed_of(allowed);
    let mut best: Vec<RankedChunk> = Vec::new();
    let mut frontier: Vec<Point> = Vec::new();
    let mut i: usize = 0;
    proof {
        assert(types =~= list_setting(db@.settings, "expand_relation_types"@));
        assert(anchors@.take(0) =~= Seq::empty());
        assert(rows(best@) =~= Seq::empty());
    }
    while i < anchors.len()
        invariant
            i <= anchors@.len(),
            computes(similarity, combine, score),
            rules == scoring(similarity, combine, score, decay),
            pairwise(rows(best@), one_per_chunk()),
            (Expansion { best: rows(best@), frontier: frontier@ }) == anchored(
                rules,
                anchors@.take(i as int),
            ),
        decreases anchors@.len() - i,
    {
        let chunk_id = anchors[i].0;
        let anchor_score = similarity(anchors[i].1);
        proof {
            assert(anchors@.take(i + 1).drop_last() =~= anchors@.take(i as int));
            assert(anchors@.take(i + 1).last() == anchors@[i as int]);
            assert((rules.similarity)(anchors@[i as int].1) == anchor_score);
        }
        put_best(
            &mut best,
            RankedChunk {
                chunk_id,
                score: anchor_score,
                origin: Origin::Ann,
                relation_type: None,
                hop_count: None,
            },
        );
        frontier.push(Point { chunk_id, anchor_score, confidence: ONE_SINGLE });
        i += 1;
    }
    let ghost start = Expansion { best: rows(best@), frontier: frontier@ };
    proof {
        assert(anchors@.take(anchors@.len() as int) =~= anchors@);
    }
    let mut hop: usize = 0;
    while hop < max_hops && frontier.len() > 0
        invariant
            hop <= max_hops,
            allowed matches Some(v) ==> v@.len() > 0,
            types == allowed_of(allowed),
            computes(similarity, combine, score),
            rules == scoring(similarity, combine, score, decay),
            pairwise(rows(best@), one_per_chunk()),
            expanded(rules, db@.relations, types, 1, max_hops as int, start) == expanded(
                rules,
                db@.relations,
                types,
                hop + 1,
                max_hops as int,
                Expansion { best: rows(best@), frontier: frontier@ },
            ),
        decreases max_hops - hop,
    {
        hop += 1;
        let ghost e = Expansion { best: rows(best@), frontier: frontier@ };
        let ghost begun = Expansion { best: rows(best@), frontier: Seq::empty() };
        let mut next: Vec<Point> = Vec::new();
        let mut j: usize = 0;
        proof {
            assert(frontier@.take(0) =~= Seq::empty());
            assert(next@ =~= Seq::empty());
        }
        while j < frontier.len()
            invariant
                j <= frontier@.len(),
                allowed matches Some(v) ==> v@.len() > 0,
                types == allowed_of(allowed),
                computes(similarity, combine, score),
                rules == scoring(similarity, combine, score, decay),
                pairwise(rows(best@), one_per_chunk()),
                (Expansion { best: rows(best@), frontier: next@ }) == hopped(
                    rules,
                    db@.relations,
                    types,
                    hop as int,
                    frontier@.take(j as int),
                    begun,
                ),
            decreases frontier@.len() - j,
        {
            proof {
                assert(frontier@.take(j + 1).drop_last() =~= frontier@.take(j as int));
                assert(frontier@.take(j + 1).last() == frontier@[j as int]);
            }
            expand_from(
                db,
                &allowed,
                frontier[j],
                hop,
                decay,
                &combine,
                &score,
                &mut best,
                &mut next,
                Ghost(rules),
            );
            j += 1;
        }
        proof {
            assert(frontier@.take(frontier@.len() as int) =~= frontier@);
        }
        frontier = next;
    }
    proof {
        let e = Expansion { best: rows(best@), frontier: frontier@ };
        if frontier@.len() == 0 {
            lemma_expanded_idle(rules, db@.relations, types, hop + 1, max_hops as int, e);
        }
    }
    top_results(best, top_k)
}

} // verus!
