//! Embedding Engine: storing the vectors that the caller computes.

use vstd::prelude::*;

use crate::ann::model::{
    can_index, first_of, indexed, lemma_with_target_wf, listed, looks_at_clock, searched, target,
    time_of, with_target,
};
use crate::ann::{insert_at, search, segment_open};
use crate::bits::{bytes_to_f32, words};
use crate::error::Error;
use crate::graph::{top_count, wanted};
use crate::seqs::{
    first_where, lemma_filter_empty, lemma_filter_pairwise, lemma_filter_push, lemma_first_absent,
    lemma_first_at, lemma_first_found, lemma_push_pairwise, pairwise,
};
use crate::storage::references::{
    accepted, embedding_sound, has_chunk, keyed_throughout, lemma_accepted_chain,
    lemma_accepted_self, lemma_accepted_step, lemma_keyed_step,
};
use crate::storage::rows::position_where;
use crate::storage::tables::{
    copy_bytes, embedding_order, model_order, next_model_id, put_embedding, Change, Chunk, ChunkRow,
    Embedding, EmbeddingRow, Model, ModelRow, Tables,
};
use crate::storage::{
    extends, lemma_extends_chain, lemma_extends_self, lemma_extends_step, Database,
};
use crate::util::unix_timestamp;

verus! {

/// Being the row of a model with a dimension.
pub open spec fn is_model(model_name: Seq<char>, dimension: i64) -> spec_fn(ModelRow) -> bool {
    |m: ModelRow| m.model_name == model_name && m.dimension == dimension
}

/// The row of a model with a dimension, if there is one.
pub open spec fn known_model(t: Tables, model_name: Seq<char>, dimension: i64) -> Option<ModelRow> {
    first_where(t.models, is_model(model_name, dimension))
}

/// Being the row of a model with another dimension than the given one.
pub open spec fn of_another_dimension(model_name: Seq<char>, dimension: i64) -> spec_fn(
    ModelRow,
) -> bool {
    |m: ModelRow| m.model_name == model_name && m.dimension != dimension
}

/// The row of a model that is registered, but not with the given dimension, if there
/// is one.
pub open spec fn conflicting_model(t: Tables, model_name: Seq<char>, dimension: i64) -> Option<
    ModelRow,
> {
    if known_model(t, model_name, dimension) is Some {
        None
    } else {
        first_where(t.models, of_another_dimension(model_name, dimension))
    }
}

/// The row that a new model gets.
pub open spec fn new_model(t: Tables, model_name: Seq<char>, dimension: i64, now: i64) -> ModelRow {
    ModelRow { id: next_model_id(t.models) as i64, model_name, dimension, generated_at: now }
}

/// The row of a model with a dimension, new or not.
pub open spec fn model_of(t: Tables, model_name: Seq<char>, dimension: i64, now: i64) -> ModelRow {
    match known_model(t, model_name, dimension) {
        Some(m) => m,
        None => new_model(t, model_name, dimension, now),
    }
}

/// The tables with a row for the model.
pub open spec fn with_model(t: Tables, model_name: Seq<char>, dimension: i64, now: i64) -> Tables {
    match known_model(t, model_name, dimension) {
        Some(_) => t,
        None => Tables {
            models: t.models.push(new_model(t, model_name, dimension, now)),
            ..t
        },
    }
}

/// There are row ids for the model and the segment that storing may add, and the
/// dimension is one whose vectors have a length.
pub open spec fn can_store(t: Tables, model_name: Seq<char>, dimension: i64) -> bool {
    &&& 0 <= dimension
    &&& dimension * 4 <= usize::MAX
    &&& can_index(t)
    &&& known_model(t, model_name, dimension) is None ==> next_model_id(t.models) <= i64::MAX
}

/// Storing an embedding: the tables afterwards. A vector of another length than
/// the dimension says is refused, and so is a dimension that the model is not
/// registered with, where it is registered with another. The vector is indexed, and then takes the place
/// of the chunk's earlier one; where foreign keys are enforced, that last step is
/// refused for a chunk that does not exist.
pub open spec fn stored(
    t: Tables,
    chunk_id: i64,
    vector: Seq<u8>,
    model_name: Seq<char>,
    dimension: i64,
    clock: Option<i64>,
) -> (Tables, Result<(), Error>) {
    let now = time_of(clock);
    let known = known_model(t, model_name, dimension) is Some;
    if vector.len() != dimension * 4 {
        (
            t,
            Err(
                Error::VectorLength {
                    bytes: vector.len() as usize,
                    dimension,
                    expected: (dimension * 4) as u64,
                },
            ),
        )
    } else if conflicting_model(t, model_name, dimension) is Some {
        let registered = conflicting_model(t, model_name, dimension)->0.dimension;
        (t, Err(Error::ModelDimension { dimension, registered }))
    } else if clock is None && (!known || looks_at_clock(t)) {
        (t, Err(Error::ClockBeforeEpoch))
    } else {
        let u = with_model(t, model_name, dimension, now);
        let v = indexed(u, chunk_id, words(vector), now);
        if t.foreign_keys && !has_chunk(t, chunk_id) {
            (v, Err(Error::ForeignKey))
        } else {
            let row = EmbeddingRow {
                chunk_id,
                embedding_model_id: model_of(t, model_name, dimension, now).id,
                segment_id: target(u, now).id,
                vector,
            };
            (Tables { embeddings: put_embedding(v.embeddings, row), ..v }, Ok(()))
        }
    }
}

pub proof fn lemma_with_model_wf(t: Tables, model_name: Seq<char>, dimension: i64, now: i64)
    requires
        t.wf(),
        known_model(t, model_name, dimension) is None ==> next_model_id(t.models) <= i64::MAX,
    ensures
        with_model(t, model_name, dimension, now).wf(),
{
    let s = t.models;
    let row = new_model(t, model_name, dimension, now);
    if known_model(t, model_name, dimension) is None {
        assert forall|i: int| 0 <= i < s.len() implies model_order()(#[trigger] s[i], row) by {
            if i < s.len() - 1 {
                assert(model_order()(s[i], s[s.len() - 1]));
            }
        }
        lemma_push_pairwise(s, row, model_order());
    }
}

/// The embedding that is stored refers to rows that exist, if its chunk does.
pub proof fn lemma_stored_row_sound(
    t: Tables,
    chunk_id: i64,
    vector: Seq<u8>,
    model_name: Seq<char>,
    dimension: i64,
    now: i64,
)
    requires
        t.wf(),
        can_store(t, model_name, dimension),
        vector.len() == dimension * 4,
        has_chunk(t, chunk_id),
    ensures
        ({
            let m = with_model(t, model_name, dimension, now);
            embedding_sound(
                indexed(m, chunk_id, words(vector), now),
                EmbeddingRow {
                    chunk_id,
                    embedding_model_id: model_of(t, model_name, dimension, now).id,
                    segment_id: target(m, now).id,
                    vector,
                },
            )
        }),
{
    let m = with_model(t, model_name, dimension, now);
    let v = indexed(m, chunk_id, words(vector), now);
    let model = model_of(t, model_name, dimension, now);
    let i = choose|i: int| 0 <= i < t.chunks.len() && (#[trigger] t.chunks[i]).id == chunk_id;
    assert(v.chunks[i].id == chunk_id);
    if known_model(t, model_name, dimension) is Some {
        let k = lemma_first_found(t.models, is_model(model_name, dimension));
        assert(v.models[k] == model);
    } else {
        assert(v.models[t.models.len() as int] == model);
    }
    lemma_with_model_wf(t, model_name, dimension, now);
    lemma_with_target_wf(m, now);
    let w = with_target(m, now).segments;
    let j = choose|j: int| 0 <= j < w.len() && #[trigger] w[j] == target(m, now);
    assert(v.segments[j].id == target(m, now).id);
}

/// Setting an embedding keeps them in chunk order.
pub proof fn lemma_put_embedding_order(s: Seq<EmbeddingRow>, row: EmbeddingRow)
    requires
        pairwise(s, embedding_order()),
    ensures
        pairwise(put_embedding(s, row), embedding_order()),
{
    let below = |e: EmbeddingRow| e.chunk_id < row.chunk_id;
    let above = |e: EmbeddingRow| e.chunk_id > row.chunk_id;
    let a = s.filter(below);
    let b = s.filter(above);
    lemma_filter_pairwise(s, below, embedding_order());
    lemma_filter_pairwise(s, above, embedding_order());
    let r = put_embedding(s, row);
    assert(r == a.push(row) + b);
    assert forall|i: int, j: int| #![trigger r[i], r[j]] 0 <= i < j
        < r.len() implies embedding_order()(r[i], r[j]) by {
        if i < a.len() {
            assert(r[i] == a[i]);
            crate::seqs::lemma_filter_member(s, below, i);
        } else if i > a.len() {
            assert(r[i] == b[i - a.len() - 1]);
        }
        if j < a.len() {
            assert(r[j] == a[j]);
            assert(embedding_order()(a[i], a[j]));
        } else if j > a.len() {
            assert(r[j] == b[j - a.len() - 1]);
            crate::seqs::lemma_filter_member(s, above, j - a.len() - 1);
            if i > a.len() {
                assert(embedding_order()(b[i - a.len() - 1], b[j - a.len() - 1]));
            }
        }
    }
}

/// The row of a model with a dimension, by its index.
fn find_model(db: &Database, model_name: &str, dimension: i64) -> (r: Option<usize>)
    ensures
        match r {
            Some(i) => i < db.models@.len() && known_model(db@, model_name@, dimension) == Some(
                db.models@[i as int]@,
            ),
            None => known_model(db@, model_name@, dimension) is None,
        },
{
    let wanted = model_name.to_owned();
    let ghost p = is_model(model_name@, dimension);
    let cond = |m: &Model| -> (b: bool)
        ensures
            b == p(m@),
        { m.model_name == wanted && m.dimension == dimension };
    let found = position_where(&db.models, cond, Ghost(p));
    proof {
        let s = db@.models;
        assert forall|k: int| 0 <= k < s.len() implies #[trigger] s[k] == db.models@[k]@ by {}
        match found {
            Some(i) => {
                lemma_first_at(s, p, i as int);
            },
            None => {
                lemma_first_absent(s, p);
            },
        }
    }
    found
}

/// The row of a model that is registered, but not with the given dimension, by its
/// index.
fn find_conflict(db: &Database, model_name: &str, dimension: i64) -> (r: Option<usize>)
    ensures
        match r {
            Some(i) => i < db.models@.len() && conflicting_model(db@, model_name@, dimension)
                == Some(db.models@[i as int]@),
            None => conflicting_model(db@, model_name@, dimension) is None,
        },
{
    if find_model(db, model_name, dimension).is_some() {
        return None;
    }
    let wanted = model_name.to_owned();
    let ghost p = of_another_dimension(model_name@, dimension);
    let cond = |m: &Model| -> (b: bool)
        ensures
            b == p(m@),
        { m.model_name == wanted && m.dimension != dimension };
    let found = position_where(&db.models, cond, Ghost(p));
    proof {
        let s = db@.models;
        assert forall|k: int| 0 <= k < s.len() implies #[trigger] s[k] == db.models@[k]@ by {}
        match found {
            Some(i) => {
                lemma_first_at(s, p, i as int);
            },
            None => {
                lemma_first_absent(s, p);
            },
        }
    }
    found
}

/// Tells whether there is a chunk with the id.
pub fn chunk_exists(db: &Database, chunk_id: i64) -> (r: bool)
    ensures
        r == has_chunk(db@, chunk_id),
{
    let ghost p = |c: ChunkRow| c.id == chunk_id;
    let cond = |c: &Chunk| -> (b: bool)
        ensures
            b == p(c@),
        { c.id == chunk_id };
    let found = position_where(&db.chunks, cond, Ghost(p));
    proof {
        let s = db@.chunks;
        assert forall|k: int| 0 <= k < s.len() implies #[trigger] s[k] == db.chunks@[k]@ by {}
        if found is Some {
            assert(s[found->0 as int].id == chunk_id);
        }
    }
    found.is_some()
}

/// Tells whether an embedding can be stored: whether the dimension is one whose
/// vectors have a length, and whether there is room for the rows.
pub fn check_store(db: &Database, model_name: &str, dimension: i64) -> (r: bool)
    ensures
        r == can_store(db@, model_name@, dimension),
{
    let n = db.segments.len();
    let m = db.models.len();
    proof {
        if n > 0 {
            assert(db@.segments.last() == db.segments@[n - 1]@);
        }
        if m > 0 {
            assert(db@.models.last() == db.models@[m - 1]@);
        }
    }
    let sized = 0 <= dimension && dimension as u128 * 4 <= usize::MAX as u128;
    let indexable = segment_open(db) || n == 0 || db.segments[n - 1].id < i64::MAX;
    let known = find_model(db, model_name, dimension).is_some() || m == 0 || db.models[m - 1].id
        < i64::MAX;
    sized && indexable && known
}

/// The row id of a model with a dimension, which gets a row if it has none.
fn resolve_embedding_model(db: &mut Database, model_name: &str, dimension: i64, now: i64) -> (r:
    i64)
    requires
        old(db).wf(),
        known_model(old(db)@, model_name@, dimension) is None ==> next_model_id(old(db)@.models)
            <= i64::MAX,
    ensures
        final(db).wf(),
        extends(*old(db), *final(db)),
        accepted(*old(db), *final(db)),
        final(db)@ == with_model(old(db)@, model_name@, dimension, now),
        r == model_of(old(db)@, model_name@, dimension, now).id,
{
    proof {
        lemma_extends_self(*old(db), *db);
        lemma_accepted_self(*old(db), *db);
        lemma_with_model_wf(db@, model_name@, dimension, now);
    }
    match find_model(db, model_name, dimension) {
        Some(i) => db.models[i].id,
        None => {
            let n = db.models.len();
            let id: i64 = if n == 0 {
                1
            } else {
                proof {
                    assert(db@.models.last() == db.models@[n - 1]@);
                }
                db.models[n - 1].id + 1
            };
            let row = Model { id, model_name: model_name.to_owned(), dimension, generated_at: now };
            db.insert_model(row);
            proof {
                lemma_extends_step(*old(db), *old(db), *db, Change::InsertModel(row));
                lemma_accepted_step(*old(db), *old(db), *db, Change::InsertModel(row));
            }
            id
        },
    }
}

/// Stores a chunk's embedding at a given reading of the clock.
pub fn store_embedding_at(
    db: &mut Database,
    chunk_id: i64,
    vector: &Vec<u8>,
    model_name: &str,
    dimension: i64,
    clock: Option<i64>,
) -> (r: Result<(), Error>)
    requires
        old(db).wf(),
        can_store(old(db)@, model_name@, dimension),
    ensures
        final(db).wf(),
        extends(*old(db), *final(db)),
        keyed_throughout(*old(db), *final(db)),
        old(db)@.foreign_keys || has_chunk(old(db)@, chunk_id) ==> accepted(*old(db), *final(db)),
        r is Err && r->Err_0 !is ForeignKey ==> final(db).changes@ == old(db).changes@,
        (final(db)@, r) == stored(
            old(db)@,
            chunk_id,
            vector@,
            model_name@,
            dimension,
            clock,
        ),
{
    proof {
        lemma_extends_self(*old(db), *db);
        lemma_accepted_self(*old(db), *db);
    }
    let expected: usize = dimension as usize * 4;
    if vector.len() != expected {
        return Err(
            Error::VectorLength { bytes: vector.len(), dimension, expected: expected as u64 },
        );
    }
    if let Some(i) = find_conflict(db, model_name, dimension) {
        return Err(Error::ModelDimension { dimension, registered: db.models[i].dimension });
    }
    let known = find_model(db, model_name, dimension).is_some();
    let looks = crate::ann::index_looks_at_clock(db);
    let now: i64 = match clock {
        Some(now) => now,
        None => {
            if !known || looks {
                return Err(Error::ClockBeforeEpoch);
            }
            0
        },
    };
    let chunk_there = chunk_exists(db, chunk_id);
    let ghost t = db@;
    let embedding_model_id = resolve_embedding_model(db, model_name, dimension, now);
    let ghost d1 = *db;
    let query_vector = bytes_to_f32(vector);
    let inserted = insert_at(db, chunk_id, &query_vector, clock);
    let ghost d2 = *db;
    proof {
        lemma_extends_chain(*old(db), d1, d2);
        lemma_accepted_chain(*old(db), d1, d2);
        assert(d1@.segments == t.segments);
        assert(d1@.settings == t.settings);
    }
    let segment_id: i64 = match inserted {
        Ok(segment_id) => segment_id,
        Err(e) => {
            return Err(e);
        },
    };
    if db.foreign_keys && !chunk_there {
        return Err(Error::ForeignKey);
    }
    let row = Embedding { chunk_id, embedding_model_id, segment_id, vector: copy_bytes(vector) };
    db.put_embedding(row);
    proof {
        lemma_extends_step(*old(db), d2, *db, Change::PutEmbedding(row));
        lemma_keyed_step(*old(db), d2, *db, Change::PutEmbedding(row));
        if chunk_there {
            lemma_stored_row_sound(t, chunk_id, vector@, model_name@, dimension, now);
            lemma_accepted_step(*old(db), d2, *db, Change::PutEmbedding(row));
        }
        lemma_put_embedding_order(d2@.embeddings, row@);
    }
    Ok(())
}

/// Stores a chunk's embedding: checks its length against the declared dimension and
/// the dimension against the registered model, indexes it, and puts it in the place of the chunk's earlier one.
pub fn store_embedding(
    db: &mut Database,
    chunk_id: i64,
    vector: &Vec<u8>,
    model_name: &str,
    dimension: i64,
) -> (r: Result<(), Error>)
    requires
        old(db).wf(),
        can_store(old(db)@, model_name@, dimension),
    ensures
        final(db).wf(),
        extends(*old(db), *final(db)),
        keyed_throughout(*old(db), *final(db)),
        old(db)@.foreign_keys || has_chunk(old(db)@, chunk_id) ==> accepted(*old(db), *final(db)),
        r is Err && r->Err_0 !is ForeignKey ==> final(db).changes@ == old(db).changes@,
        exists|clock: Option<i64>|
            (final(db)@, r) == #[trigger] stored(
                old(db)@,
                chunk_id,
                vector@,
                model_name@,
                dimension,
                clock,
            ),
{
    store_embedding_at(db, chunk_id, vector, model_name, dimension, unix_timestamp())
}

/// Being a candidate of another chunk.
pub open spec fn other_than(chunk_id: i64) -> spec_fn((i64, u32)) -> bool {
    |x: (i64, u32)| x.0 != chunk_id
}

/// Candidates without those of one chunk.
pub open spec fn of_others(c: Seq<(i64, u32)>, chunk_id: i64) -> Seq<(i64, u32)> {
    c.filter(other_than(chunk_id))
}

/// Leaves out the candidates of one chunk.
pub fn keep_others(c: &Vec<(i64, u32)>, chunk_id: i64) -> (r: Vec<(i64, u32)>)
    ensures
        r@ == of_others(c@, chunk_id),
{
    let mut r: Vec<(i64, u32)> = Vec::new();
    let mut i: usize = 0;
    let ghost p = other_than(chunk_id);
    proof {
        assert(c@.take(0) =~= Seq::empty());
        lemma_filter_empty(p);
    }
    while i < c.len()
        invariant
            i <= c@.len(),
            p == other_than(chunk_id),
            r@ == c@.take(i as int).filter(p),
        decreases c@.len() - i,
    {
        proof {
            assert(c@.take(i + 1) =~= c@.take(i as int).push(c@[i as int]));
            lemma_filter_push(c@.take(i as int), c@[i as int], p);
        }
        if c[i].0 != chunk_id {
            r.push(c[i]);
        }
        i += 1;
    }
    proof {
        assert(c@.take(c@.len() as int) =~= c@);
    }
    r
}

/// The outcome of a search without the candidates of one chunk.
pub open spec fn found_others(r: Result<Seq<(i64, u32)>, Error>, chunk_id: i64) -> Result<
    Seq<(i64, u32)>,
    Error,
> {
    match r {
        Ok(c) => Ok(of_others(c, chunk_id)),
        Err(e) => Err(e),
    }
}

/// The first `k` of the candidates found, without those of one chunk.
pub open spec fn first_others(
    found: Result<Seq<(i64, u32)>, Error>,
    chunk_id: i64,
    k: usize,
) -> Result<Seq<(i64, u32)>, Error> {
    match found_others(found, chunk_id) {
        Ok(c) => Ok(first_of(c, k)),
        Err(e) => Err(e),
    }
}

/// One more, where there is such a number.
pub open spec fn one_more(k: usize) -> usize {
    if k < usize::MAX {
        (k + 1) as usize
    } else {
        k
    }
}

/// The chunks nearest to the embedding just stored for a chunk, other than itself:
/// candidates for the caller to judge relations on, as many as the settings say. One
/// more is searched for, since the chunk is its own nearest neighbour.
pub fn candidates<
    N: Fn(i64, &Vec<u32>, usize, usize) -> Vec<i64>,
    D: Fn(&Vec<u32>, &Vec<u32>) -> u32,
>(db: &Database, chunk_id: i64, query: &Vec<u32>, nearest: N, distance: D) -> (r: Result<
    Vec<(i64, u32)>,
    Error,
>)
    requires
        forall|segment_id: i64, top_k: usize, ef_search: usize|
            call_requires(nearest, (segment_id, query, top_k, ef_search)),
        forall|v: &Vec<u32>| call_requires(distance, (query, v)),
    ensures
        exists|found: Result<Seq<(i64, u32)>, Error>|
            {
                &&& #[trigger] searched(
                    nearest,
                    distance,
                    db@,
                    query,
                    one_more(wanted(db@, None)),
                    found,
                )
                &&& listed(r) == first_others(found, chunk_id, wanted(db@, None))
            },
{
    let top_k = top_count(db, None);
    let asked: usize = if top_k < usize::MAX {
        top_k + 1
    } else {
        top_k
    };
    let found = search(db, query, asked, nearest, distance);
    proof {
        assert(searched(nearest, distance, db@, query, one_more(top_k), listed(found)));
    }
    match found {
        Ok(c) => Ok(keep_first_others(&c, chunk_id, top_k)),
        Err(e) => Err(e),
    }
}

/// The first `k` candidates that are not those of one chunk.
pub(crate) fn keep_first_others(c: &Vec<(i64, u32)>, chunk_id: i64, k: usize) -> (r: Vec<
    (i64, u32),
>)
    ensures
        r@ == first_of(of_others(c@, chunk_id), k),
{
    let mut others = keep_others(c, chunk_id);
    let ghost all = others@;
    others.truncate(k);
    proof {
        assert(others@ =~= first_of(all, k));
    }
    others
}

} // verus!
