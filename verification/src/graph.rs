//! Graph Engine: the relations that the caller judged, and the candidates to judge.

use vstd::prelude::*;

use crate::ann::model::{listed, searched};
use crate::ann::search;
use crate::bits::{bytes_to_f32, is_nan_double, nan_double, words};
use crate::embedding::{chunk_exists, first_others, keep_first_others};
use crate::error::Error;
use crate::seqs::{
    first_where, lemma_filter_member, lemma_filter_pairwise, lemma_first_absent, lemma_first_at,
    lemma_push_pairwise,
};
use crate::storage::references::{
    accepted, has_chunk, keyed_throughout, lemma_accepted_self, lemma_accepted_step,
    lemma_keyed_step,
};
use crate::storage::rows::position_where;
use crate::storage::settings::{get_usize, usize_setting};
use crate::storage::tables::{
    distinct_pairs, Change, Embedding, EmbeddingRow, Relation, RelationRow, Tables,
};
use crate::storage::{extends, lemma_extends_self, lemma_extends_step, Database};
use crate::text::{given_text, own_text};

verus! {

/// Being the relation of another pair.
pub open spec fn other_pair(from_chunk_id: i64, to_chunk_id: i64) -> spec_fn(RelationRow) -> bool {
    |r: RelationRow| r.from_chunk_id != from_chunk_id || r.to_chunk_id != to_chunk_id
}

/// Storing a relation: it takes the place of the pair's earlier one. Where foreign
/// keys are enforced, both chunks have to exist. A confidence that is not a number
/// is stored as none.
pub open spec fn related(t: Tables, row: RelationRow) -> (Tables, Result<bool, Error>) {
    if t.foreign_keys && !(has_chunk(t, row.from_chunk_id) && has_chunk(t, row.to_chunk_id)) {
        (t, Err(Error::ForeignKey))
    } else {
        let confidence = match row.confidence {
            Some(bits) => if is_nan_double(bits) {
                None
            } else {
                Some(bits)
            },
            None => None,
        };
        (
            Tables {
                relations: t.relations.filter(
                    other_pair(row.from_chunk_id, row.to_chunk_id),
                ).push(RelationRow { confidence, ..row }),
                ..t
            },
            Ok(true),
        )
    }
}

/// Stores the caller's judgement on a pair of chunks. No relation type means that
/// the pair was evaluated and has no relation.
pub fn store_relation(
    db: &mut Database,
    from_chunk_id: i64,
    to_chunk_id: i64,
    relation_type: Option<&str>,
    confidence: Option<u64>,
) -> (r: Result<bool, Error>)
    requires
        old(db).wf(),
    ensures
        final(db).wf(),
        extends(*old(db), *final(db)),
        keyed_throughout(*old(db), *final(db)),
        r is Err ==> final(db).changes@ == old(db).changes@,
        old(db)@.foreign_keys || (has_chunk(old(db)@, from_chunk_id) && has_chunk(
            old(db)@,
            to_chunk_id,
        )) ==> accepted(*old(db), *final(db)),
        (final(db)@, r) == related(
            old(db)@,
            RelationRow {
                from_chunk_id,
                to_chunk_id,
                relation_type: given_text(relation_type),
                confidence,
            },
        ),
{
    proof {
        lemma_extends_self(*old(db), *db);
        lemma_accepted_self(*old(db), *db);
    }
    if db.foreign_keys && !(chunk_exists(db, from_chunk_id) && chunk_exists(db, to_chunk_id)) {
        return Err(Error::ForeignKey);
    }
    let confidence: Option<u64> = match confidence {
        Some(bits) => {
            if nan_double(bits) {
                None
            } else {
                Some(bits)
            }
        },
        None => None,
    };
    let row = Relation {
        from_chunk_id,
        to_chunk_id,
        relation_type: own_text(relation_type),
        confidence,
    };
    db.put_relation(row);
    proof {
        lemma_extends_step(*old(db), *old(db), *db, Change::PutRelation(row));
        lemma_keyed_step(*old(db), *old(db), *db, Change::PutRelation(row));
        if old(db)@.foreign_keys || (has_chunk(old(db)@, from_chunk_id) && has_chunk(
            old(db)@,
            to_chunk_id,
        )) {
            lemma_accepted_step(*old(db), *old(db), *db, Change::PutRelation(row));
        }
        let s = old(db)@.relations;
        let p = other_pair(from_chunk_id, to_chunk_id);
        let q = |r: RelationRow|
            r.from_chunk_id != row.from_chunk_id || r.to_chunk_id != row.to_chunk_id;
        crate::seqs::lemma_filter_same(s, p, q);
        lemma_filter_pairwise(s, p, distinct_pairs());
        assert forall|i: int| 0 <= i < s.filter(p).len() implies distinct_pairs()(
            #[trigger] s.filter(p)[i],
            row@,
        ) by {
            lemma_filter_member(s, p, i);
        }
        lemma_push_pairwise(s.filter(p), row@, distinct_pairs());
    }
    Ok(true)
}

/// Being the embedding of a chunk.
pub open spec fn embeds(chunk_id: i64) -> spec_fn(EmbeddingRow) -> bool {
    |e: EmbeddingRow| e.chunk_id == chunk_id
}

/// The stored embedding of a chunk.
pub open spec fn embedding_of(t: Tables, chunk_id: i64) -> Option<EmbeddingRow> {
    first_where(t.embeddings, embeds(chunk_id))
}

/// How many results are wanted: what the caller says, or what the settings say.
pub open spec fn wanted(t: Tables, top_k: Option<i64>) -> usize {
    match top_k {
        Some(value) => value as usize,
        None => usize_setting(t.settings, "top_k"@, 16),
    }
}

/// How many results are wanted.
pub fn top_count(db: &Database, top_k: Option<i64>) -> (r: usize)
    ensures
        r == wanted(db@, top_k),
{
    match top_k {
        Some(value) => value as usize,
        None => get_usize(db, "top_k", 16),
    }
}

/// The stored embedding of a chunk, by its index.
fn find_embedding(db: &Database, chunk_id: i64) -> (r: Option<usize>)
    ensures
        match r {
            Some(i) => i < db.embeddings@.len() && embedding_of(db@, chunk_id) == Some(
                db.embeddings@[i as int]@,
            ),
            None => embedding_of(db@, chunk_id) is None,
        },
{
    let ghost p = embeds(chunk_id);
    let cond = |e: &Embedding| -> (b: bool)
        ensures
            b == p(e@),
        { e.chunk_id == chunk_id };
    let found = position_where(&db.embeddings, cond, Ghost(p));
    proof {
        let s = db@.embeddings;
        assert forall|k: int| 0 <= k < s.len() implies #[trigger] s[k] == db.embeddings@[k]@ by {}
        match found {
            Some(i) => {
                lemma_first_at(s, p, i as int);
            },
            None => {
                lemma_first_absent(s, p);
            },
        }
    }
    found
}

/// The chunks nearest to a chunk, other than itself. One more than wanted is
/// searched for, since the chunk is its own nearest neighbour.
pub fn get_candidates<
    N: Fn(i64, &Vec<u32>, usize, usize) -> Vec<i64>,
    D: Fn(&Vec<u32>, &Vec<u32>) -> u32,
>(db: &Database, chunk_id: i64, top_k: Option<i64>, nearest: N, distance: D) -> (r: Result<
    Vec<(i64, u32)>,
    Error,
>)
    requires
        embedding_of(db@, chunk_id) is Some ==> wanted(db@, top_k) < usize::MAX,
        forall|segment_id: i64, query: &Vec<u32>, top_k: usize, ef_search: usize|
            call_requires(nearest, (segment_id, query, top_k, ef_search)),
        forall|query: &Vec<u32>, v: &Vec<u32>| call_requires(distance, (query, v)),
    ensures
        match embedding_of(db@, chunk_id) {
            Some(e) => exists|query: &Vec<u32>, found: Result<Seq<(i64, u32)>, Error>|
                {
                    &&& query@ == words(e.vector)
                    &&& #[trigger] searched(
                        nearest,
                        distance,
                        db@,
                        query,
                        (wanted(db@, top_k) + 1) as usize,
                        found,
                    )
                    &&& listed(r) == first_others(found, chunk_id, wanted(db@, top_k))
                },
            None => listed(r) == Err::<Seq<(i64, u32)>, Error>(Error::NoEmbedding { chunk_id }),
        },
{
    let at: usize = match find_embedding(db, chunk_id) {
        Some(i) => i,
        None => {
            return Err(Error::NoEmbedding { chunk_id });
        },
    };
    let k = top_count(db, top_k);
    let query = bytes_to_f32(&db.embeddings[at].vector);
    let found = search(db, &query, k + 1, nearest, distance);
    proof {
        assert(searched(nearest, distance, db@, &query, (k + 1) as usize, listed(found)));
    }
    match found {
        Ok(c) => Ok(keep_first_others(&c, chunk_id, k)),
        Err(e) => Err(e),
    }
}

} // verus!
