//! What storing embeddings and relations does, and when it is refused.

use vstd::prelude::*;

use crate::embedding::{can_store, is_model, of_another_dimension, stored};
use crate::error::Error;
use crate::graph::related;
use crate::laws::segments::law_insertion_without_a_clock;
use crate::seqs::{lemma_first_absent, lemma_first_exists};
use crate::storage::references::has_chunk;
use crate::storage::tables::{ModelRow, RelationRow, SegmentStatus, Tables};

verus! {

/// A vector is refused where it has not four bytes for every dimension, whatever else
/// holds, and nothing is stored.
pub proof fn law_wrong_length_is_refused(
    t: Tables,
    chunk_id: i64,
    vector: Seq<u8>,
    model_name: Seq<char>,
    dimension: i64,
    clock: Option<i64>,
)
    requires
        vector.len() != 4 * dimension,
    ensures
        stored(t, chunk_id, vector, model_name, dimension, clock) == (
            t,
            Err::<(), Error>(
                Error::VectorLength {
                    bytes: vector.len() as usize,
                    dimension,
                    expected: (4 * dimension) as u64,
                },
            ),
        ),
{
}

/// A model that is known with other dimensions only is refused, naming the dimension
/// that it was first known with, and nothing is stored.
pub proof fn law_other_dimension_is_refused(
    t: Tables,
    chunk_id: i64,
    vector: Seq<u8>,
    model_name: Seq<char>,
    dimension: i64,
    clock: Option<i64>,
    i: int,
)
    requires
        vector.len() == 4 * dimension,
        0 <= i < t.models.len(),
        t.models[i].model_name == model_name,
        forall|j: int|
            0 <= j < t.models.len() && (#[trigger] t.models[j]).model_name == model_name
                ==> t.models[j].dimension != dimension && i <= j,
    ensures
        stored(t, chunk_id, vector, model_name, dimension, clock) == (
            t,
            Err::<(), Error>(
                Error::ModelDimension { dimension, registered: t.models[i].dimension },
            ),
        ),
{
    lemma_first_absent(t.models, is_model(model_name, dimension));
    crate::seqs::lemma_first_at(t.models, of_another_dimension(model_name, dimension), i);
}

/// A vector of the right length is stored where its model is known with its dimension
/// or not at all, there is a clock, and its chunk exists or need not.
pub proof fn law_fitting_embedding_is_stored(
    t: Tables,
    chunk_id: i64,
    vector: Seq<u8>,
    model_name: Seq<char>,
    dimension: i64,
    now: i64,
)
    requires
        vector.len() == 4 * dimension,
        (exists|j: int|
            0 <= j < t.models.len() && (#[trigger] t.models[j]).model_name == model_name
                && t.models[j].dimension == dimension) || (forall|j: int|
            0 <= j < t.models.len() ==> (#[trigger] t.models[j]).model_name != model_name),
        !t.foreign_keys || exists|j: int|
            0 <= j < t.chunks.len() && (#[trigger] t.chunks[j]).id == chunk_id,
    ensures
        stored(t, chunk_id, vector, model_name, dimension, Some(now)).1 is Ok,
{
    if exists|j: int|
        0 <= j < t.models.len() && (#[trigger] t.models[j]).model_name == model_name
            && t.models[j].dimension == dimension {
        let j = choose|j: int|
            0 <= j < t.models.len() && (#[trigger] t.models[j]).model_name == model_name
                && t.models[j].dimension == dimension;
        lemma_first_exists(t.models, is_model(model_name, dimension), j);
    } else {
        lemma_first_absent(t.models, of_another_dimension(model_name, dimension));
    }
}

/// Where foreign keys are enforced, an embedding of no chunk is refused, and no row of
/// it is stored.
pub proof fn law_embedding_of_no_chunk_is_refused(
    t: Tables,
    chunk_id: i64,
    vector: Seq<u8>,
    model_name: Seq<char>,
    dimension: i64,
    clock: Option<i64>,
)
    requires
        t.foreign_keys,
        forall|j: int| 0 <= j < t.chunks.len() ==> (#[trigger] t.chunks[j]).id != chunk_id,
    ensures
        stored(t, chunk_id, vector, model_name, dimension, clock).1 is Err,
        stored(t, chunk_id, vector, model_name, dimension, clock).0.embeddings == t.embeddings,
        stored(t, chunk_id, vector, model_name, dimension, clock).0.chunks == t.chunks,
{
    assert(!has_chunk(t, chunk_id));
}

/// Storing under a model that is known adds no model. Under one that is not, it adds
/// one behind the others, with the next id, the name, the dimension and the time.
pub proof fn law_models_are_added_once(
    t: Tables,
    chunk_id: i64,
    vector: Seq<u8>,
    model_name: Seq<char>,
    dimension: i64,
    now: i64,
)
    requires
        can_store(t, model_name, dimension),
        stored(t, chunk_id, vector, model_name, dimension, Some(now)).1 is Ok,
    ensures
        ({
            let u = stored(t, chunk_id, vector, model_name, dimension, Some(now)).0;
            let known = exists|j: int|
                0 <= j < t.models.len() && (#[trigger] t.models[j]).model_name == model_name
                    && t.models[j].dimension == dimension;
            let id: int = if t.models.len() == 0 {
                1
            } else {
                t.models.last().id + 1
            };
            &&& known ==> u.models == t.models
            &&& !known ==> u.models == t.models.push(
                ModelRow { id: id as i64, model_name, dimension, generated_at: now },
            )
        }),
{
    if exists|j: int|
        0 <= j < t.models.len() && (#[trigger] t.models[j]).model_name == model_name
            && t.models[j].dimension == dimension {
        let j = choose|j: int|
            0 <= j < t.models.len() && (#[trigger] t.models[j]).model_name == model_name
                && t.models[j].dimension == dimension;
        lemma_first_exists(t.models, is_model(model_name, dimension), j);
    } else {
        lemma_first_absent(t.models, is_model(model_name, dimension));
    }
}

/// A relation is refused where foreign keys are enforced and one of its chunks does
/// not exist, and then nothing is stored. Otherwise it is the last relation, with its
/// type, and with its confidence unless that is not a number; the relation that its
/// pair had is gone, and every other stays.
pub proof fn law_relating_replaces_the_pair(t: Tables, row: RelationRow, r: RelationRow)
    ensures
        ({
            let (u, outcome) = related(t, row);
            let missing = t.foreign_keys && ((forall|j: int|
                0 <= j < t.chunks.len() ==> (#[trigger] t.chunks[j]).id != row.from_chunk_id) || (
            forall|j: int|
                0 <= j < t.chunks.len() ==> (#[trigger] t.chunks[j]).id != row.to_chunk_id));
            &&& missing ==> u == t && outcome == Err::<bool, Error>(Error::ForeignKey)
            &&& !missing ==> {
                &&& outcome == Ok::<bool, Error>(true)
                &&& u == (Tables { relations: u.relations, ..t })
                &&& u.relations.len() > 0
                &&& u.relations.last().from_chunk_id == row.from_chunk_id
                &&& u.relations.last().to_chunk_id == row.to_chunk_id
                &&& u.relations.last().relation_type == row.relation_type
                &&& row.confidence is None ==> u.relations.last().confidence is None
                &&& row.confidence is Some ==> u.relations.last().confidence == (
                if row.confidence->0 % 0x8000_0000_0000_0000 > 0x7ff0_0000_0000_0000 {
                    None
                } else {
                    row.confidence
                })
                &&& u.relations.drop_last().contains(r) <==> t.relations.contains(r) && !(
                r.from_chunk_id == row.from_chunk_id && r.to_chunk_id == row.to_chunk_id)
            }
        }),
{
    let (u, outcome) = related(t, row);
    assert(has_chunk(t, row.from_chunk_id) <==> !(forall|j: int|
        0 <= j < t.chunks.len() ==> (#[trigger] t.chunks[j]).id != row.from_chunk_id));
    assert(has_chunk(t, row.to_chunk_id) <==> !(forall|j: int|
        0 <= j < t.chunks.len() ==> (#[trigger] t.chunks[j]).id != row.to_chunk_id));
    let p = crate::graph::other_pair(row.from_chunk_id, row.to_chunk_id);
    crate::laws::rows::lemma_filter_contains(t.relations, p, r);
    if outcome is Ok {
        assert(u.relations.drop_last() =~= t.relations.filter(p));
    }
}

/// Without a clock, a vector that fits is refused where its model would have to be
/// dated, or a segment; otherwise it is stored all the same.
pub proof fn law_storing_without_a_clock(
    t: Tables,
    chunk_id: i64,
    vector: Seq<u8>,
    model_name: Seq<char>,
    dimension: i64,
)
    requires
        t.wf(),
        !t.foreign_keys,
        vector.len() == 4 * dimension,
        forall|j: int|
            0 <= j < t.models.len() && (#[trigger] t.models[j]).model_name == model_name
                ==> t.models[j].dimension == dimension,
    ensures
        ({
            let known = exists|j: int|
                0 <= j < t.models.len() && (#[trigger] t.models[j]).model_name == model_name;
            let open = exists|i: int|
                0 <= i < t.segments.len() && (#[trigger] t.segments[i]).status
                    == SegmentStatus::Appendable && t.segments[i].node_count + 1 < 10_000;
            let r = stored(t, chunk_id, vector, model_name, dimension, None);
            &&& known && open ==> r.1 is Ok
            &&& !(known && open) ==> r == (t, Err::<(), Error>(Error::ClockBeforeEpoch))
        }),
{
    law_insertion_without_a_clock(t, chunk_id, Seq::empty());
    lemma_first_absent(t.models, of_another_dimension(model_name, dimension));
    if exists|j: int| 0 <= j < t.models.len() && (#[trigger] t.models[j]).model_name == model_name {
        let j = choose|j: int|
            0 <= j < t.models.len() && (#[trigger] t.models[j]).model_name == model_name;
        lemma_first_exists(t.models, is_model(model_name, dimension), j);
    } else {
        lemma_first_absent(t.models, is_model(model_name, dimension));
    }
}

} // verus!
