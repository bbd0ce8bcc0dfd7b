//! What a search finds: everything that the segments name, measured as it is stored.

use vstd::prelude::*;

use crate::ann::model::{
    any_nan, asked, closest_of, found_in, listed, live, measured, measures, node_of, searched,
};
use crate::bits::{is_nan, words};
use crate::embedding::{candidates, first_others, of_others, one_more, other_than};
use crate::error::Error;
use crate::graph::{embedding_of, embeds, get_candidates, wanted};
use crate::laws::index::law_search_returns_the_nearest;
use crate::laws::numbers::{law_places_are_ordered_as_numbers, number_of};
use crate::ranking::expand::{decay_setting, scoring, RankedRow};
use crate::ranking::{answered, expanded_outcome, outcome};
use crate::seqs::{
    lemma_filter_empty, lemma_filter_keeps, lemma_filter_member, lemma_filter_pairwise,
    lemma_first_absent, lemma_first_at,
};
use crate::storage::Database;
use crate::storage::settings::{setting_value, usize_setting};
use crate::storage::tables::{embedding_order, EmbeddingRow, Tables};

verus! {

/// Some segment names the chunk.
pub open spec fn named_by(answers: Seq<Vec<i64>>, chunk_id: i64) -> bool {
    exists|i: int| 0 <= i < answers.len() && (#[trigger] answers[i])@.contains(chunk_id)
}

/// The chunk is in the pool.
pub open spec fn in_pool(pool: Seq<(i64, u32)>, chunk_id: i64) -> bool {
    exists|j: int| 0 <= j < pool.len() && (#[trigger] pool[j]).0 == chunk_id
}

/// The distance is one from the query to the vector that is stored for the chunk.
pub open spec fn measured_as_stored<D: Fn(&Vec<u32>, &Vec<u32>) -> u32>(
    distance: D,
    t: Tables,
    query: &Vec<u32>,
    chunk_id: i64,
    d: u32,
) -> bool {
    exists|k: int, v: &Vec<u32>|
        0 <= k < t.embeddings.len() && (#[trigger] t.embeddings[k]).chunk_id == chunk_id && v@
            == words(t.embeddings[k].vector) && #[trigger] call_ensures(distance, (query, v), d)
}

/// A search asks every segment, for as many as are wanted and as widely as the
/// settings say. What is pooled is every chunk that a segment names and that has an
/// embedding, once, at its distance from the query; what is found is the nearest of
/// the pool, as many as are wanted or all of it, the nearest first. Only a distance
/// that is no number, where there is another to compare it with, makes it fail.
/// Gives what the segments answer, and the pool.
pub proof fn law_search_finds_the_nearest_of_all_that_is_named<
    N: Fn(i64, &Vec<u32>, usize, usize) -> Vec<i64>,
    D: Fn(&Vec<u32>, &Vec<u32>) -> u32,
>(
    nearest: N,
    distance: D,
    t: Tables,
    query: &Vec<u32>,
    top_k: usize,
    found: Result<Seq<(i64, u32)>, Error>,
) -> (r: (Seq<Vec<i64>>, Seq<(i64, u32)>))
    requires
        t.wf(),
        searched(nearest, distance, t, query, top_k, found),
    ensures
        ({
            let answers = r.0;
            let pool = r.1;
            &&& answers.len() == t.segments.len()
            &&& forall|i: int|
                0 <= i < t.segments.len() ==> call_ensures(
                    nearest,
                    (t.segments[i].id, query, top_k, usize_setting(t.settings, "ef_search"@, 100)),
                    #[trigger] answers[i],
                )
            &&& forall|k: int|
                0 <= k < t.embeddings.len() && named_by(
                    answers,
                    (#[trigger] t.embeddings[k]).chunk_id,
                ) ==> in_pool(pool, t.embeddings[k].chunk_id)
            &&& forall|j: int|
                0 <= j < pool.len() ==> named_by(answers, (#[trigger] pool[j]).0)
                    && measured_as_stored(distance, t, query, pool[j].0, pool[j].1)
            &&& forall|i: int, j: int|
                0 <= i < j < pool.len() ==> (#[trigger] pool[i]).0 != (#[trigger] pool[j]).0
            &&& match found {
                Ok(f) => {
                    &&& pool.len() >= 2 ==> forall|j: int|
                        0 <= j < pool.len() ==> !is_nan((#[trigger] pool[j]).1)
                    &&& f.len() == if top_k < pool.len() {
                        top_k as int
                    } else {
                        pool.len() as int
                    }
                    &&& forall|i: int| 0 <= i < f.len() ==> pool.contains(#[trigger] f[i])
                    &&& forall|i: int, j: int|
                        0 <= i < j < f.len() ==> number_of((#[trigger] f[i]).1) <= number_of(
                            (#[trigger] f[j]).1,
                        )
                    &&& forall|i: int, j: int|
                        0 <= i < f.len() && 0 <= j < pool.len() && !f.contains(#[trigger] pool[j])
                            ==> number_of((#[trigger] f[i]).1) <= number_of(pool[j].1)
                },
                Err(e) => {
                    &&& e == Error::NotComparable
                    &&& pool.len() >= 2
                    &&& exists|j: int| 0 <= j < pool.len() && is_nan((#[trigger] pool[j]).1)
                },
            }
        }),
{
    let (answers, pool) = choose|answers: Seq<Vec<i64>>, pool: Seq<(i64, u32)>|
        {
            &&& #[trigger] asked(nearest, t, query, top_k, answers)
            &&& #[trigger] measured(distance, query, live(t, found_in(answers)), pool)
            &&& found == closest_of(pool, top_k)
        };
    let wanted_ids = found_in(answers);
    let p = |e: EmbeddingRow| wanted_ids(e.chunk_id);
    let kept = t.embeddings.filter(p);
    let nodes = live(t, wanted_ids);
    lemma_filter_pairwise(t.embeddings, p, embedding_order());
    assert forall|j: int| 0 <= j < pool.len() implies (#[trigger] pool[j]).0 == kept[j].chunk_id
        && measures(distance, query, words(kept[j].vector), pool[j].1) by {
        assert(nodes[j] == node_of(kept[j]));
    }
    assert forall|k: int|
        0 <= k < t.embeddings.len() && named_by(
            answers,
            (#[trigger] t.embeddings[k]).chunk_id,
        ) implies in_pool(pool, t.embeddings[k].chunk_id) by {
        assert(p(t.embeddings[k]));
        let j = lemma_filter_keeps(t.embeddings, p, k);
        assert(pool[j].0 == t.embeddings[k].chunk_id);
    }
    assert forall|j: int| 0 <= j < pool.len() implies named_by(answers, (#[trigger] pool[j]).0)
        && measured_as_stored(distance, t, query, pool[j].0, pool[j].1) by {
        lemma_filter_member(t.embeddings, p, j);
        let k = choose|k: int| 0 <= k < t.embeddings.len() && #[trigger] t.embeddings[k] == kept[j];
        assert(wanted_ids(pool[j].0));
        let v = choose|v: &Vec<u32>|
            v@ == words(kept[j].vector) && #[trigger] call_ensures(distance, (query, v), pool[j].1);
        assert(t.embeddings[k].chunk_id == pool[j].0 && call_ensures(
            distance,
            (query, v),
            pool[j].1,
        ));
    }
    assert forall|i: int, j: int| 0 <= i < j < pool.len() implies (#[trigger] pool[i]).0 != (
    #[trigger] pool[j]).0 by {
        assert(embedding_order()(kept[i], kept[j]));
    }
    if found is Ok {
        let f = found->Ok_0;
        law_search_returns_the_nearest(pool, top_k);
        assert forall|i: int, j: int| 0 <= i < j < f.len() implies number_of((#[trigger] f[i]).1)
            <= number_of((#[trigger] f[j]).1) by {
            law_places_are_ordered_as_numbers(f[j].1, f[i].1);
        }
        assert forall|i: int, j: int|
            0 <= i < f.len() && 0 <= j < pool.len() && !f.contains(
                #[trigger] pool[j],
            ) implies number_of((#[trigger] f[i]).1) <= number_of(pool[j].1) by {
            assert(pool.contains(pool[j]));
            law_places_are_ordered_as_numbers(pool[j].1, f[i].1);
        }
        if pool.len() >= 2 {
            assert(!any_nan(pool));
        }
    }
    (answers, pool)
}

/// The first `k` of what was found, passing over one chunk.
pub open spec fn passing_over(found: Seq<(i64, u32)>, chunk_id: i64, k: int) -> Seq<(i64, u32)>
    decreases found.len(),
{
    if k <= 0 || found.len() == 0 {
        Seq::empty()
    } else if found[0].0 == chunk_id {
        passing_over(found.drop_first(), chunk_id, k)
    } else {
        seq![found[0]] + passing_over(found.drop_first(), chunk_id, k - 1)
    }
}

proof fn lemma_passing_over(found: Seq<(i64, u32)>, chunk_id: i64, k: int)
    requires
        0 <= k,
    ensures
        ({
            let others = of_others(found, chunk_id);
            passing_over(found, chunk_id, k) == (if k < others.len() {
                others.take(k)
            } else {
                others
            })
        }),
    decreases found.len(),
{
    let p = other_than(chunk_id);
    if found.len() == 0 {
        assert(found =~= Seq::<(i64, u32)>::empty());
        lemma_filter_empty(p);
        assert(of_others(found, chunk_id).take(0) =~= Seq::<(i64, u32)>::empty());
    } else {
        let rest = found.drop_first();
        assert(found =~= seq![found[0]] + rest);
        Seq::filter_distributes_over_add(seq![found[0]], rest, p);
        crate::seqs::lemma_filter_push(Seq::<(i64, u32)>::empty(), found[0], p);
        lemma_filter_empty(p);
        assert(Seq::<(i64, u32)>::empty().push(found[0]) =~= seq![found[0]]);
        let others = of_others(found, chunk_id);
        let fewer = of_others(rest, chunk_id);
        if found[0].0 == chunk_id {
            assert(others =~= fewer);
            lemma_passing_over(rest, chunk_id, k);
        } else {
            assert(others =~= seq![found[0]] + fewer);
            if k > 0 {
                lemma_passing_over(rest, chunk_id, k - 1);
                if k < others.len() {
                    assert(others.take(k) =~= seq![found[0]] + fewer.take(k - 1));
                }
            } else {
                assert(others.take(0) =~= Seq::<(i64, u32)>::empty());
            }
        }
        if k == 0 {
            assert(others.take(0) =~= Seq::<(i64, u32)>::empty());
            assert(passing_over(found, chunk_id, k) =~= Seq::<(i64, u32)>::empty());
            if others.len() == 0 {
                assert(others =~= Seq::<(i64, u32)>::empty());
            }
        }
    }
}

/// The chunks near to a chunk are what a search for its stored vector finds, for one
/// more than are wanted, passing over the chunk itself; without an embedding there
/// is no search. Gives the query and what the search found.
pub proof fn law_candidates_are_near_the_stored_vector<
    N: Fn(i64, &Vec<u32>, usize, usize) -> Vec<i64>,
    D: Fn(&Vec<u32>, &Vec<u32>) -> u32,
>(
    db: &Database,
    chunk_id: i64,
    top_k: Option<i64>,
    nearest: N,
    distance: D,
    r: Result<Vec<(i64, u32)>, Error>,
    at: int,
) -> (search: (&Vec<u32>, Result<Seq<(i64, u32)>, Error>))
    requires
        db.wf(),
        wanted(db@, top_k) < usize::MAX,
        call_ensures(get_candidates::<N, D>, (db, chunk_id, top_k, nearest, distance), r),
        0 <= at < db@.embeddings.len(),
        db@.embeddings[at].chunk_id == chunk_id,
    ensures
        search.0@ == words(db@.embeddings[at].vector),
        searched(
            nearest,
            distance,
            db@,
            search.0,
            (wanted(db@, top_k) + 1) as usize,
            search.1,
        ),
        match search.1 {
            Ok(found) => r is Ok && r->Ok_0@ == passing_over(
                found,
                chunk_id,
                wanted(db@, top_k) as int,
            ),
            Err(e) => r is Err && r->Err_0 == e,
        },
{
    let s = db@.embeddings;
    assert forall|k: int| 0 <= k < at implies !embeds(chunk_id)(#[trigger] s[k]) by {
        assert(embedding_order()(s[k], s[at]));
    }
    lemma_first_at(s, embeds(chunk_id), at);
    let k = wanted(db@, top_k);
    let (query, found) = choose|query: &Vec<u32>, found: Result<Seq<(i64, u32)>, Error>|
        {
            &&& query@ == words(s[at].vector)
            &&& #[trigger] searched(nearest, distance, db@, query, (k + 1) as usize, found)
            &&& listed(r) == first_others(found, chunk_id, k)
        };
    if found is Ok {
        lemma_passing_over(found->Ok_0, chunk_id, k as int);
    }
    (query, found)
}

/// Without an embedding a chunk has no candidates, and the caller is told so.
pub proof fn law_candidates_want_an_embedding<
    N: Fn(i64, &Vec<u32>, usize, usize) -> Vec<i64>,
    D: Fn(&Vec<u32>, &Vec<u32>) -> u32,
>(
    db: &Database,
    chunk_id: i64,
    top_k: Option<i64>,
    nearest: N,
    distance: D,
    r: Result<Vec<(i64, u32)>, Error>,
)
    requires
        call_ensures(get_candidates::<N, D>, (db, chunk_id, top_k, nearest, distance), r),
        forall|i: int|
            0 <= i < db@.embeddings.len() ==> (#[trigger] db@.embeddings[i]).chunk_id != chunk_id,
    ensures
        listed(r) == Err::<Seq<(i64, u32)>, Error>(Error::NoEmbedding { chunk_id }),
{
    lemma_first_absent(db@.embeddings, embeds(chunk_id));
    assert(embedding_of(db@, chunk_id) is None);
}

/// The candidates for a chunk that was just embedded are what a search for the vector
/// finds, for one more than the settings say, passing over the chunk itself. Gives
/// what the search found.
pub proof fn law_candidates_are_near_the_given_vector<
    N: Fn(i64, &Vec<u32>, usize, usize) -> Vec<i64>,
    D: Fn(&Vec<u32>, &Vec<u32>) -> u32,
>(
    db: &Database,
    chunk_id: i64,
    query: &Vec<u32>,
    nearest: N,
    distance: D,
    r: Result<Vec<(i64, u32)>, Error>,
) -> (search: (usize, Result<Seq<(i64, u32)>, Error>))
    requires
        call_ensures(candidates::<N, D>, (db, chunk_id, query, nearest, distance), r),
    ensures
        wanted(db@, None) < usize::MAX ==> search.0 == wanted(db@, None) + 1,
        wanted(db@, None) == usize::MAX ==> search.0 == usize::MAX,
        searched(nearest, distance, db@, query, search.0, search.1),
        match search.1 {
            Ok(found) => r is Ok && r->Ok_0@ == passing_over(
                found,
                chunk_id,
                wanted(db@, None) as int,
            ),
            Err(e) => r is Err && r->Err_0 == e,
        },
{
    let k = wanted(db@, None);
    let found = choose|found: Result<Seq<(i64, u32)>, Error>|
        {
            &&& #[trigger] searched(nearest, distance, db@, query, one_more(k), found)
            &&& listed(r) == first_others(found, chunk_id, k)
        };
    if found is Ok {
        lemma_passing_over(found->Ok_0, chunk_id, k as int);
    }
    (one_more(k), found)
}

/// The two hold the same but for what they say of the count.
pub open spec fn differ_in_count_only(t: Tables, u: Tables) -> bool {
    &&& u == Tables { settings: u.settings, ..t }
    &&& forall|key: Seq<char>|
        key != "top_k"@ ==> #[trigger] setting_value(u.settings, key) == setting_value(
            t.settings,
            key,
        )
}

/// What a search of the index finds, for a given count, does not rest on the count in
/// the settings.
proof fn lemma_search_ignores_the_count<
    N: Fn(i64, &Vec<u32>, usize, usize) -> Vec<i64>,
    D: Fn(&Vec<u32>, &Vec<u32>) -> u32,
>(
    t: Tables,
    u: Tables,
    query: &Vec<u32>,
    top_k: usize,
    nearest: N,
    distance: D,
    found: Result<Seq<(i64, u32)>, Error>,
)
    requires
        differ_in_count_only(t, u),
        searched(nearest, distance, t, query, top_k, found),
    ensures
        searched(nearest, distance, u, query, top_k, found),
{
    reveal_strlit("top_k");
    reveal_strlit("ef_search");
    assert("ef_search"@.len() != "top_k"@.len());
    assert(setting_value(u.settings, "ef_search"@) == setting_value(t.settings, "ef_search"@));
    let (answers, pool) = choose|answers: Seq<Vec<i64>>, pool: Seq<(i64, u32)>|
        {
            &&& #[trigger] asked(nearest, t, query, top_k, answers)
            &&& #[trigger] measured(distance, query, live(t, found_in(answers)), pool)
            &&& found == closest_of(pool, top_k)
        };
    assert(asked(nearest, u, query, top_k, answers));
    assert(live(u, found_in(answers)) == live(t, found_in(answers)));
}

/// A search for which the caller gives a count has the same outcomes whatever count
/// the settings say.
pub proof fn law_search_for_a_given_count_ignores_the_setting<
    N: Fn(i64, &Vec<u32>, usize, usize) -> Vec<i64>,
    D: Fn(&Vec<u32>, &Vec<u32>) -> u32,
    S: Fn(u32) -> u32,
    C: Fn(u32, u64) -> u32,
    W: Fn(u32, u32, u64, usize) -> u32,
    P: Fn(&str) -> Option<u64>,
>(
    t: Tables,
    u: Tables,
    vector: Seq<u8>,
    count: i64,
    expand: Option<bool>,
    nearest: N,
    distance: D,
    similarity: S,
    combine: C,
    score: W,
    parse: P,
    r: Result<Seq<RankedRow>, Error>,
)
    requires
        differ_in_count_only(t, u),
        answered(
            t,
            vector,
            Some(count),
            expand,
            nearest,
            distance,
            similarity,
            combine,
            score,
            parse,
            r,
        ),
    ensures
        answered(
            u,
            vector,
            Some(count),
            expand,
            nearest,
            distance,
            similarity,
            combine,
            score,
            parse,
            r,
        ),
{
    reveal_strlit("top_k");
    reveal_strlit("max_hops");
    reveal_strlit("hop_decay");
    reveal_strlit("expand_relation_types");
    assert("max_hops"@.len() != "top_k"@.len());
    assert("hop_decay"@.len() != "top_k"@.len());
    assert("expand_relation_types"@.len() != "top_k"@.len());
    assert(setting_value(u.settings, "max_hops"@) == setting_value(t.settings, "max_hops"@));
    assert(setting_value(u.settings, "hop_decay"@) == setting_value(t.settings, "hop_decay"@));
    assert(setting_value(u.settings, "expand_relation_types"@) == setting_value(
        t.settings,
        "expand_relation_types"@,
    ));
    let k = wanted(t, Some(count));
    let expanding = expand != Some(false);
    let (query, found) = choose|query: &Vec<u32>, found: Result<Seq<(i64, u32)>, Error>|
        {
            &&& query@ == words(vector)
            &&& #[trigger] searched(nearest, distance, t, query, k, found)
            &&& outcome(t, found, k, expanding, similarity, combine, score, parse, r)
        };
    lemma_search_ignores_the_count(t, u, query, k, nearest, distance, found);
    if expanding && found is Ok {
        let decay = choose|decay: u64| #[trigger]
            decay_setting(parse, t, decay) && r == expanded_outcome(
                t,
                scoring(similarity, combine, score, decay),
                found,
                k,
            );
        assert(decay_setting(parse, u, decay));
    }
    assert(wanted(u, Some(count)) == k);
    assert(searched(nearest, distance, u, query, wanted(u, Some(count)), found));
    assert(outcome(
        u,
        found,
        wanted(u, Some(count)),
        expanding,
        similarity,
        combine,
        score,
        parse,
        r,
    ));
}

} // verus!
