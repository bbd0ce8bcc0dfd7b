//! Ranking Engine: searching, and merging what the index and the relations find.

use vstd::prelude::*;

pub mod expand;

use crate::ann;
use crate::ann::model::{listed, searched};
use crate::bits::{bytes_to_f32, words};
use crate::error::Error;
use crate::graph::{top_count, wanted};
use crate::ranking::expand::{
    computes, decay_setting, expand_and_rank, ranked_results, results_of, scoring, Origin,
    RankedChunk, RankedRow, Scoring,
};
use crate::storage::rows::lemma_rows_push;
use crate::storage::tables::{rows, Tables};
use crate::storage::Database;
use crate::text::{decimal, lemma_texts_push, push_decimal, texts};
use crate::util::{json_array, json_array_of, json_escape, json_escaped};

verus! {

/// Candidates as results, in the order in which they come.
pub fn plain_results<S: Fn(u32) -> u32>(candidates: &Vec<(i64, u32)>, similarity: S) -> (r: Vec<
    RankedChunk,
>)
    requires
        forall|a: u32| call_requires(similarity, (a,)),
        forall|a: u32, r: u32, s: u32|
            call_ensures(similarity, (a,), r) && call_ensures(similarity, (a,), s) ==> r == s,
    ensures
        rows(r@) == unexpanded(expand::unary(similarity), candidates@),
{
    let mut r: Vec<RankedChunk> = Vec::new();
    let mut i: usize = 0;
    let ghost all = unexpanded(expand::unary(similarity), candidates@);
    proof {
        assert(rows(r@) =~= all.take(0));
    }
    while i < candidates.len()
        invariant
            i <= candidates@.len(),
            forall|a: u32| call_requires(similarity, (a,)),
            forall|a: u32, r: u32, s: u32|
                call_ensures(similarity, (a,), r) && call_ensures(similarity, (a,), s) ==> r == s,
            all == unexpanded(expand::unary(similarity), candidates@),
            rows(r@) == all.take(i as int),
        decreases candidates@.len() - i,
    {
        let score = similarity(candidates[i].1);
        let row = RankedChunk {
            chunk_id: candidates[i].0,
            score,
            origin: Origin::Ann,
            relation_type: None,
            hop_count: None,
        };
        proof {
            assert(expand::unary(similarity)(candidates@[i as int].1) == score);
            lemma_rows_push(r@, row);
            assert(all[i as int] == row@);
            assert(all.take(i + 1) =~= all.take(i as int).push(all[i as int]));
        }
        r.push(row);
        i += 1;
    }
    proof {
        assert(all.take(all.len() as int) =~= all);
    }
    r
}

/// Candidates as results: the similarity for each distance.
pub open spec fn unexpanded(similarity: spec_fn(u32) -> u32, c: Seq<(i64, u32)>) -> Seq<
    RankedRow,
> {
    c.map_values(
        |a: (i64, u32)|
            RankedRow {
                chunk_id: a.0,
                score: similarity(a.1),
                origin: Origin::Ann,
                relation_type: None,
                hop_count: None,
            },
    )
}

/// The results for what a search of the index found, not expanded.
pub open spec fn plain_outcome(
    similarity: spec_fn(u32) -> u32,
    found: Result<Seq<(i64, u32)>, Error>,
) -> Result<Seq<RankedRow>, Error> {
    match found {
        Ok(anchors) => Ok(unexpanded(similarity, anchors)),
        Err(e) => Err(e),
    }
}

/// The results for what a search of the index found, expanded over the relations.
pub open spec fn expanded_outcome(
    t: Tables,
    rules: Scoring,
    found: Result<Seq<(i64, u32)>, Error>,
    top_k: usize,
) -> Result<Seq<RankedRow>, Error> {
    match found {
        Ok(anchors) => ranked_results(t, rules, anchors, top_k),
        Err(e) => Err(e),
    }
}

/// `r` is what the caller gets for what a search of the index found: expanded, with
/// the decay that the settings say, unless the caller says otherwise.
pub open spec fn outcome<
    S: Fn(u32) -> u32,
    C: Fn(u32, u64) -> u32,
    W: Fn(u32, u32, u64, usize) -> u32,
    P: Fn(&str) -> Option<u64>,
>(
    t: Tables,
    found: Result<Seq<(i64, u32)>, Error>,
    top_k: usize,
    expanding: bool,
    similarity: S,
    combine: C,
    score: W,
    parse: P,
    r: Result<Seq<RankedRow>, Error>,
) -> bool {
    if expanding && found is Ok {
        exists|decay: u64| #[trigger]
            decay_setting(parse, t, decay) && r == expanded_outcome(
                t,
                scoring(similarity, combine, score, decay),
                found,
                top_k,
            )
    } else {
        r == plain_outcome(expand::unary(similarity), found)
    }
}

/// `r` is an outcome of a search: of the index for the query's vector, and then over
/// the relations unless the caller says otherwise.
pub open spec fn answered<
    N: Fn(i64, &Vec<u32>, usize, usize) -> Vec<i64>,
    D: Fn(&Vec<u32>, &Vec<u32>) -> u32,
    S: Fn(u32) -> u32,
    C: Fn(u32, u64) -> u32,
    W: Fn(u32, u32, u64, usize) -> u32,
    P: Fn(&str) -> Option<u64>,
>(
    t: Tables,
    vector: Seq<u8>,
    top_k: Option<i64>,
    expand: Option<bool>,
    nearest: N,
    distance: D,
    similarity: S,
    combine: C,
    score: W,
    parse: P,
    r: Result<Seq<RankedRow>, Error>,
) -> bool {
    exists|query: &Vec<u32>, found: Result<Seq<(i64, u32)>, Error>|
        {
            &&& query@ == words(vector)
            &&& #[trigger] searched(nearest, distance, t, query, wanted(t, top_k), found)
            &&& outcome(
                t,
                found,
                wanted(t, top_k),
                expand != Some(false),
                similarity,
                combine,
                score,
                parse,
                r,
            )
        }
}

/// Searches for the chunks that a query is about: the nearest ones and, unless
/// the caller says otherwise, what they are related to.
pub fn search<
    N: Fn(i64, &Vec<u32>, usize, usize) -> Vec<i64>,
    D: Fn(&Vec<u32>, &Vec<u32>) -> u32,
    S: Fn(u32) -> u32,
    C: Fn(u32, u64) -> u32,
    W: Fn(u32, u32, u64, usize) -> u32,
    P: Fn(&str) -> Option<u64>,
>(
    db: &Database,
    vector: &Vec<u8>,
    top_k: Option<i64>,
    expand: Option<bool>,
    nearest: N,
    distance: D,
    similarity: S,
    combine: C,
    score: W,
    parse: P,
) -> (r: Result<Vec<RankedChunk>, Error>)
    requires
        forall|s: &str| call_requires(parse, (s,)),
        forall|segment_id: i64, query: &Vec<u32>, top_k: usize, ef_search: usize|
            call_requires(nearest, (segment_id, query, top_k, ef_search)),
        forall|query: &Vec<u32>, v: &Vec<u32>| call_requires(distance, (query, v)),
        computes(similarity, combine, score),
    ensures
        answered(
            db@,
            vector@,
            top_k,
            expand,
            nearest,
            distance,
            similarity,
            combine,
            score,
            parse,
            results_of(r),
        ),
{
    let query = bytes_to_f32(vector);
    let count = top_count(db, top_k);
    let expanding = match expand {
        Some(value) => value,
        None => true,
    };
    let found = ann::search(db, &query, count, nearest, distance);
    proof {
        assert(searched(nearest, distance, db@, &query, count, listed(found)));
    }
    match found {
        Ok(anchors) => {
            if expanding {
                expand_and_rank(db, &anchors, count, similarity, combine, score, parse)
            } else {
                Ok(plain_results(&anchors, similarity))
            }
        },
        Err(e) => Err(e),
    }
}

/// The name of an origin, as the caller gets it.
pub open spec fn origin_name(origin: Origin) -> Seq<char> {
    match origin {
        Origin::Ann => "ann"@,
        Origin::Graph => "graph"@,
    }
}

/// A result in JSON, its score already written out.
pub open spec fn result_json(r: RankedRow, score: Seq<char>) -> Seq<char> {
    "{\"chunk_id\":"@ + decimal(r.chunk_id as int) + ",\"score\":"@ + score + ",\"origin\":\""@
        + origin_name(r.origin) + "\",\"relation_type\":"@ + (match r.relation_type {
        Some(value) => "\""@ + json_escaped(value) + "\""@,
        None => "null"@,
    }) + ",\"hop_count\":"@ + (match r.hop_count {
        Some(value) => decimal(value as int),
        None => "null"@,
    }) + "}"@
}

/// One result in JSON.
fn result_to_json(result: &RankedChunk, score: &String) -> (r: String)
    ensures
        r@ == result_json(result@, score@),
{
    let mut r = String::new();
    r.append("{\"chunk_id\":");
    push_decimal(&mut r, result.chunk_id);
    r.append(",\"score\":");
    r.append(score.as_str());
    r.append(",\"origin\":\"");
    match result.origin {
        Origin::Ann => {
            r.append("ann");
        },
        Origin::Graph => {
            r.append("graph");
        },
    }
    r.append("\",\"relation_type\":");
    match &result.relation_type {
        Some(value) => {
            let escaped = json_escape(value.as_str());
            r.append("\"");
            r.append(escaped.as_str());
            r.append("\"");
        },
        None => {
            r.append("null");
        },
    }
    r.append(",\"hop_count\":");
    match result.hop_count {
        Some(value) => {
            push_decimal(&mut r, value);
        },
        None => {
            r.append("null");
        },
    }
    r.append("}");
    proof {
        assert(r@ =~= result_json(result@, score@));
    }
    r
}

/// Results in JSON, as the caller gets them. The scores come written out.
pub fn results_to_json(results: &Vec<RankedChunk>, scores: &Vec<String>) -> (r: String)
    requires
        scores@.len() == results@.len(),
    ensures
        r@ == json_array_of(
            Seq::new(
                results@.len(),
                |i: int| result_json(rows(results@)[i], texts(scores@)[i]),
            ),
        ),
{
    let mut items: Vec<String> = Vec::new();
    let mut i: usize = 0;
    let ghost all = Seq::new(
        results@.len(),
        |i: int| result_json(rows(results@)[i], texts(scores@)[i]),
    );
    proof {
        assert(texts(items@) =~= all.take(0));
    }
    while i < results.len()
        invariant
            i <= results@.len(),
            scores@.len() == results@.len(),
            all == Seq::new(
                results@.len(),
                |i: int| result_json(rows(results@)[i], texts(scores@)[i]),
            ),
            texts(items@) == all.take(i as int),
        decreases results@.len() - i,
    {
        let item = result_to_json(&results[i], &scores[i]);
        proof {
            lemma_texts_push(items@, item);
            assert(all[i as int] == item@);
            assert(all.take(i + 1) =~= all.take(i as int).push(all[i as int]));
        }
        items.push(item);
        i += 1;
    }
    proof {
        assert(all.take(all.len() as int) =~= all);
    }
    json_array(&items)
}

} // verus!
