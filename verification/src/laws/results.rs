//! What a search answers: how many results, in what order, and with what scores.

use vstd::prelude::*;

use crate::ann::model::searched;
use crate::bits::{is_nan, words};
use crate::error::Error;
use crate::graph::wanted;
use crate::laws::index::different_chunks;
use crate::laws::numbers::{law_places_are_ordered_as_numbers, number_of};
use crate::laws::ranking::{
    law_results_are_ranked_and_distinct, lemma_anchored_tidy, lemma_expanded_tidy,
};
use crate::laws::ways::{end_of, is_way, law_score_is_the_best_over_all_ways, result_along, Way};
use crate::order::{arranged, lemma_arranged_keeps, lemma_arranged_same};
use crate::ranking::expand::{
    anchored, best_for, computes, decay_setting, expanded, for_chunk, higher, one_per_chunk,
    ranked_results, results_of, scoring, unary, Origin, RankedChunk, RankedRow, Scoring,
};
use crate::ranking::{answered, expanded_outcome, outcome, plain_outcome, search};
use crate::seqs::{lemma_first_at, lemma_first_found, pairwise};
use crate::storage::Database;
use crate::storage::settings::{list_setting, usize_setting};
use crate::storage::tables::Tables;

verus! {

/// Whatever a way leads to has a result, unless there are as many results as are
/// wanted already. There are never more; they come with the highest score first.
pub proof fn law_results_are_as_many_as_are_wanted(
    t: Tables,
    rules: Scoring,
    anchors: Seq<(i64, u32)>,
    top_k: usize,
    w: Way,
)
    requires
        usize_setting(t.settings, "max_hops"@, 1) <= i64::MAX,
        pairwise(anchors, different_chunks()),
        ranked_results(t, rules, anchors, top_k) is Ok,
        is_way(t.relations, list_setting(t.settings, "expand_relation_types"@), anchors, w),
        w.steps.len() <= usize_setting(t.settings, "max_hops"@, 1),
    ensures
        ({
            let r = ranked_results(t, rules, anchors, top_k)->Ok_0;
            &&& r.len() <= top_k
            &&& r.len() == top_k || exists|i: int|
                0 <= i < r.len() && (#[trigger] r[i]).chunk_id == end_of(anchors, w)
            &&& forall|i: int, j: int|
                0 <= i < j < r.len() ==> number_of((#[trigger] r[j]).score) <= number_of(
                    (#[trigger] r[i]).score,
                )
        }),
{
    let allowed = list_setting(t.settings, "expand_relation_types"@);
    let max_hops = usize_setting(t.settings, "max_hops"@, 1) as int;
    let best = expanded(rules, t.relations, allowed, 1, max_hops, anchored(rules, anchors)).best;
    let all = arranged(best, higher());
    let r = ranked_results(t, rules, anchors, top_k)->Ok_0;
    law_results_are_ranked_and_distinct(t, rules, anchors, top_k);
    law_score_is_the_best_over_all_ways(rules, t.relations, allowed, max_hops, anchors);
    lemma_arranged_same(best, higher());
    if r.len() < top_k {
        let x = end_of(anchors, w);
        assert(best_for(best, x) is Some);
        let k = lemma_first_found(best, for_chunk(x));
        lemma_arranged_keeps(best, higher(), k);
        let i = choose|i: int| 0 <= i < all.len() && all[i] == best[k];
        assert(r[i].chunk_id == x);
    }
    assert forall|i: int, j: int| 0 <= i < j < r.len() implies number_of((#[trigger] r[j]).score)
        <= number_of((#[trigger] r[i]).score) by {
        law_places_are_ordered_as_numbers(r[i].score, r[j].score);
    }
}

/// Ranking fails only where a way leads to a score that is no number, and then says
/// that the results cannot be compared.
pub proof fn law_ranking_fails_for_no_number_only(
    t: Tables,
    rules: Scoring,
    anchors: Seq<(i64, u32)>,
    top_k: usize,
) -> (w: Way)
    requires
        usize_setting(t.settings, "max_hops"@, 1) <= i64::MAX,
        pairwise(anchors, different_chunks()),
        ranked_results(t, rules, anchors, top_k) is Err,
    ensures
        ranked_results(t, rules, anchors, top_k) == Err::<Seq<RankedRow>, Error>(
            Error::NotComparable,
        ),
        is_way(t.relations, list_setting(t.settings, "expand_relation_types"@), anchors, w),
        w.steps.len() <= usize_setting(t.settings, "max_hops"@, 1),
        is_nan(result_along(rules, anchors, w).score),
{
    let allowed = list_setting(t.settings, "expand_relation_types"@);
    let max_hops = usize_setting(t.settings, "max_hops"@, 1) as int;
    let start = anchored(rules, anchors);
    let best = expanded(rules, t.relations, allowed, 1, max_hops, start).best;
    law_score_is_the_best_over_all_ways(rules, t.relations, allowed, max_hops, anchors);
    lemma_anchored_tidy(rules, anchors);
    lemma_expanded_tidy(rules, t.relations, allowed, 1, max_hops, start);
    let i = choose|i: int| 0 <= i < best.len() && is_nan((#[trigger] best[i]).score);
    let x = best[i].chunk_id;
    assert forall|k: int| 0 <= k < i implies !for_chunk(x)(#[trigger] best[k]) by {
        assert(one_per_chunk()(best[k], best[i]));
    }
    lemma_first_at(best, for_chunk(x), i);
    assert(best_for(best, x) == Some(best[i]));
    choose|w: Way| #[trigger]
        is_way(t.relations, allowed, anchors, w) && w.steps.len() <= max_hops && best[i]
            == result_along(rules, anchors, w)
}

/// A search looks in the index for the vector that the bytes hold, for as many as are
/// wanted. Where the caller wants no expansion, there is one result for each that is
/// found, in that order, with the similarity of its distance as its score. Otherwise
/// what is found is expanded and ranked, with the decay that the settings say. Where
/// the index cannot be searched, the caller is told why. Gives the query and what was
/// found.
pub proof fn law_search_answers_from_what_is_found<
    N: Fn(i64, &Vec<u32>, usize, usize) -> Vec<i64>,
    D: Fn(&Vec<u32>, &Vec<u32>) -> u32,
    S: Fn(u32) -> u32,
    C: Fn(u32, u64) -> u32,
    W: Fn(u32, u32, u64, usize) -> u32,
    P: Fn(&str) -> Option<u64>,
>(
    db: &Database,
    vector: &Vec<u8>,
    top_k: Option<i64>,
    expand: Option<bool>,
    nearest: N,
    distance: D,
    similarity: S,
    combine: C,
    score: W,
    parse: P,
    r: Result<Vec<RankedChunk>, Error>,
) -> (looked: (Vec<u32>, Result<Seq<(i64, u32)>, Error>))
    requires
        computes(similarity, combine, score),
        call_ensures(
            search::<N, D, S, C, W, P>,
            (db, vector, top_k, expand, nearest, distance, similarity, combine, score, parse),
            r,
        ),
    ensures
        looked.0@ == words(vector@),
        searched(nearest, distance, db@, &looked.0, wanted(db@, top_k), looked.1),
        looked.1 is Err ==> r is Err && r->Err_0 == looked.1->Err_0,
        looked.1 is Ok && expand == Some(false) ==> {
            &&& r is Ok
            &&& r->Ok_0@.len() == looked.1->Ok_0.len()
            &&& forall|i: int|
                0 <= i < looked.1->Ok_0.len() ==> {
                    &&& (#[trigger] r->Ok_0@[i])@.chunk_id == looked.1->Ok_0[i].0
                    &&& forall|s: u32|
                        call_ensures(similarity, (looked.1->Ok_0[i].1,), s)
                            ==> r->Ok_0@[i]@.score == s
                    &&& r->Ok_0@[i]@.origin == Origin::Ann
                    &&& r->Ok_0@[i]@.relation_type is None
                    &&& r->Ok_0@[i]@.hop_count is None
                }
        },
        looked.1 is Ok && expand != Some(false) ==> exists|decay: u64| #[trigger]
            decay_setting(parse, db@, decay) && results_of(r) == ranked_results(
                db@,
                scoring(similarity, combine, score, decay),
                looked.1->Ok_0,
                wanted(db@, top_k),
            ),
{
    let t = db@;
    let all = results_of(r);
    assert(answered(
        t,
        vector@,
        top_k,
        expand,
        nearest,
        distance,
        similarity,
        combine,
        score,
        parse,
        all,
    ));
    let k = wanted(t, top_k);
    let expanding = expand != Some(false);
    let (query, found) = choose|query: &Vec<u32>, found: Result<Seq<(i64, u32)>, Error>|
        {
            &&& query@ == words(vector@)
            &&& #[trigger] searched(nearest, distance, t, query, k, found)
            &&& outcome(t, found, k, expanding, similarity, combine, score, parse, all)
        };
    if found is Ok && expand == Some(false) {
        let f = found->Ok_0;
        let rows = all->Ok_0;
        assert(all == plain_outcome(unary(similarity), found));
        assert(all is Ok && r is Ok);
        assert(rows == crate::storage::tables::rows(r->Ok_0@));
        assert(rows.len() == f.len());
        assert forall|i: int| 0 <= i < f.len() implies {
            &&& (#[trigger] r->Ok_0@[i])@.chunk_id == f[i].0
            &&& forall|s: u32| call_ensures(similarity, (f[i].1,), s) ==> r->Ok_0@[i]@.score == s
            &&& r->Ok_0@[i]@.origin == Origin::Ann
            &&& r->Ok_0@[i]@.relation_type is None
            &&& r->Ok_0@[i]@.hop_count is None
        } by {
            assert(rows[i] == r->Ok_0@[i]@);
        }
    }
    if found is Ok && expanding {
        let decay = choose|decay: u64| #[trigger]
            decay_setting(parse, t, decay) && all == expanded_outcome(
                t,
                scoring(similarity, combine, score, decay),
                found,
                k,
            );
        assert(decay_setting(parse, db@, decay));
    }
    (*query, found)
}

/// The rules that results are scored by are what the given functions compute, with the
/// given decay.
pub proof fn law_scores_are_what_is_computed<
    S: Fn(u32) -> u32,
    C: Fn(u32, u64) -> u32,
    W: Fn(u32, u32, u64, usize) -> u32,
>(
    similarity: S,
    combine: C,
    score: W,
    decay: u64,
    a: u32,
    b: u32,
    c: u64,
    d: usize,
    r: u32,
)
    requires
        computes(similarity, combine, score),
    ensures
        ({
            let rules = scoring(similarity, combine, score, decay);
            &&& rules.decay == decay
            &&& call_ensures(similarity, (a,), r) ==> (rules.similarity)(a) == r
            &&& call_ensures(combine, (a, c), r) ==> (rules.combine)(a, c) == r
            &&& call_ensures(score, (a, b, c, d), r) ==> (rules.score)(a, b, c, d) == r
        }),
{
}

} // verus!
