//! What the functions that only read and write out answer.

use vstd::prelude::*;

use crate::ann::model::segment_json;
use crate::ann::persistence::{dump_to_blob, is_framed, law_blob_round_trip, load_from_blob};
use crate::ann::{closest, current_vectors_for_chunks, stats, ChunkVector};
use crate::bits::{bytes_to_f32, is_nan, less, words};
use crate::document::check_add;
use crate::document::chunk::{can_cut, chunk_text, Chunking};
use crate::document::model::new_id;
use crate::embedding::check_store;
use crate::error::Error;
use crate::laws::blobs::law_blob_starts_with_the_length;
use crate::laws::chunks::{
    law_consecutive_pieces_overlap, law_pieces_have_the_size, law_pieces_hold_the_whole_text,
    reassembled,
};
use crate::laws::graph::{
    law_neighbours_have_a_listed_type, law_relations_of_any_listed_type_make_neighbours,
    stated_confidence,
};
use crate::laws::json::law_statistics_list_every_segment;
use crate::laws::numbers::{
    law_less_is_less_as_numbers, law_places_are_ordered_as_numbers, law_vectors_are_written_back,
    number_of, written,
};
use crate::laws::ranking::law_highest_scores_are_kept;
use crate::laws::rows::law_whatever_fits_can_be_added;
use crate::laws::segments::law_whatever_fits_can_be_stored;
use crate::laws::settings::{distinct, law_setting_is_the_row_with_its_key};
use crate::order::{arranged, lemma_arranged_order, lemma_arranged_same};
use crate::ranking::expand::{
    higher, relation_neighbours, results_of, top_results, Neighbour, NeighbourRow, RankedChunk,
    RankedRow,
};
use crate::storage::Database;
use crate::storage::settings::get_string_list;
use crate::storage::tables::{rows, EmbeddingRow};
use crate::text::{decimal, given_text, list_items, texts};
use crate::util::json_array_of;

verus! {

/// The vector read from bytes has a component for every full four of them, and is
/// written out as these.
pub proof fn law_reading_a_vector(bytes: &Vec<u8>, r: Vec<u32>)
    requires
        call_ensures(bytes_to_f32, (bytes,), r),
    ensures
        r@.len() == bytes@.len() / 4,
        written(r@) == bytes@.take(4 * (bytes@.len() as int / 4)),
{
    law_vectors_are_written_back(bytes@);
    assert(r@ == words(bytes@));
}

/// Of two singles that are numbers, one is less where the number is.
pub proof fn law_comparing_two_singles(a: u32, b: u32, r: bool)
    requires
        call_ensures(less, (a, b), r),
    ensures
        r <==> !is_nan(a) && !is_nan(b) && number_of(a) < number_of(b),
{
    law_less_is_less_as_numbers(a, b);
}

/// The pieces of a text are of the size, but for the last, which may be shorter; each
/// starts with what overlaps of the one before, and together they are the text.
pub proof fn law_cutting_a_text(text: &str, chunk_size: usize, overlap: usize, r: Vec<String>, i: int)
    requires
        text@.len() <= chunk_size || overlap < chunk_size,
        call_ensures(chunk_text, (text, chunk_size, overlap), r),
        0 <= i < r@.len(),
    ensures
        reassembled(texts(r@), overlap as int) == text@,
        0 < r@[i]@.len() <= chunk_size,
        i + 1 < r@.len() ==> {
            &&& r@[i]@.len() == chunk_size
            &&& overlap < r@[i + 1]@.len()
            &&& r@[i]@.skip(chunk_size - overlap) == r@[i + 1]@.take(overlap as int)
        },
{
    let size = chunk_size as int;
    assert(can_cut(text@.len() as int, size, overlap as int));
    law_pieces_hold_the_whole_text(text@, size, overlap as int);
    law_pieces_have_the_size(text@, size, overlap as int, i);
    assert(texts(r@)[i] == r@[i]@);
    if i + 1 < r@.len() {
        law_consecutive_pieces_overlap(text@, size, overlap as int, i);
        assert(texts(r@)[i + 1] == r@[i + 1]@);
    }
}

/// An empty text has no pieces, and any other has some.
pub proof fn law_cutting_nothing(text: &str, chunk_size: usize, overlap: usize, r: Vec<String>)
    requires
        text@.len() <= chunk_size || overlap < chunk_size,
        call_ensures(chunk_text, (text, chunk_size, overlap), r),
    ensures
        r@.len() == 0 <==> text@.len() == 0,
{
    let size = chunk_size as int;
    assert(can_cut(text@.len() as int, size, overlap as int));
    law_pieces_hold_the_whole_text(text@, size, overlap as int);
    assert(texts(r@).len() == r@.len());
    if r@.len() == 0 {
        assert(reassembled(texts(r@), overlap as int).len() == 0);
    }
}

/// The neighbours of a chunk are the other ends of its relations, one for each end
/// that a relation of a listed type has there; without a list, of any type.
pub proof fn law_reading_neighbours(
    db: &Database,
    chunk_id: i64,
    allowed: &Option<Vec<String>>,
    r: Vec<Neighbour>,
    i: int,
    k: int,
)
    requires
        call_ensures(relation_neighbours, (db, chunk_id, allowed), r),
        *allowed matches Some(v) ==> v@.len() > 0,
        0 <= i < db@.relations.len(),
        db@.relations[i].relation_type is Some,
        *allowed matches Some(v) ==> 0 <= k < v@.len() && db@.relations[i].relation_type == Some(
            v@[k]@,
        ),
    ensures
        db@.relations[i].from_chunk_id == chunk_id ==> rows(r@).contains(
            NeighbourRow {
                chunk_id: db@.relations[i].to_chunk_id,
                relation_type: db@.relations[i].relation_type->0,
                confidence: stated_confidence(db@.relations[i]),
            },
        ),
        db@.relations[i].to_chunk_id == chunk_id ==> rows(r@).contains(
            NeighbourRow {
                chunk_id: db@.relations[i].from_chunk_id,
                relation_type: db@.relations[i].relation_type->0,
                confidence: stated_confidence(db@.relations[i]),
            },
        ),
{
    let types = crate::ranking::expand::allowed_of(*allowed);
    if *allowed is Some {
        assert(types[k] == (*allowed)->0@[k]@);
    }
    law_relations_of_any_listed_type_make_neighbours(db@.relations, types, i, k);
}

/// Every neighbour that is read comes from a relation of the chunk, of a listed type.
pub proof fn law_reading_no_other_neighbours(
    db: &Database,
    chunk_id: i64,
    allowed: &Option<Vec<String>>,
    r: Vec<Neighbour>,
    n: int,
) -> (from: (int, int))
    requires
        call_ensures(relation_neighbours, (db, chunk_id, allowed), r),
        *allowed matches Some(v) ==> v@.len() > 0,
        0 <= n < r@.len(),
    ensures
        ({
            let found = r@[n]@;
            let relation = db@.relations[from.0];
            &&& 0 <= from.0 < db@.relations.len()
            &&& relation.relation_type == Some(found.relation_type)
            &&& found.confidence == stated_confidence(relation)
            &&& (relation.from_chunk_id == chunk_id && relation.to_chunk_id == found.chunk_id) || (
            relation.to_chunk_id == chunk_id && relation.from_chunk_id == found.chunk_id)
            &&& *allowed matches Some(v) ==> 0 <= from.1 < v@.len() && v@[from.1]@
                == found.relation_type
        }),
{
    let types = crate::ranking::expand::allowed_of(*allowed);
    assert(rows(r@)[n] == r@[n]@);
    assert(rows(r@).len() == r@.len());
    let from = law_neighbours_have_a_listed_type(db@.relations, chunk_id, types, n);
    if *allowed is Some {
        assert(types[from.1] == (*allowed)->0@[from.1]@);
    }
    from
}

/// Of some distances, the nearest are kept: as many as are wanted or all there are,
/// each of them one that was given, the nearest first, and none that is left out is
/// nearer. They cannot be compared where there are two or more and one is no number.
pub proof fn law_keeping_the_nearest(
    given: Vec<(i64, u32)>,
    top_k: usize,
    r: Result<Vec<(i64, u32)>, Error>,
)
    requires
        call_ensures(closest, (given, top_k), r),
    ensures
        r is Err <==> given@.len() >= 2 && exists|i: int|
            0 <= i < given@.len() && is_nan((#[trigger] given@[i]).1),
        r is Err ==> r->Err_0 == Error::NotComparable,
        r is Ok ==> {
            let kept = r->Ok_0@;
            &&& kept.len() == if top_k < given@.len() {
                top_k as int
            } else {
                given@.len() as int
            }
            &&& forall|i: int| 0 <= i < kept.len() ==> given@.contains(#[trigger] kept[i])
            &&& forall|i: int, j: int|
                0 <= i < j < kept.len() ==> number_of((#[trigger] kept[i]).1) <= number_of(
                    (#[trigger] kept[j]).1,
                )
            &&& forall|i: int, j: int|
                0 <= i < kept.len() && 0 <= j < given@.len() && !kept.contains(
                    #[trigger] given@[j],
                ) ==> number_of((#[trigger] kept[i]).1) <= number_of(given@[j].1)
        },
{
    let c = given@;
    if r is Ok {
        let kept = r->Ok_0@;
        crate::laws::index::law_search_returns_the_nearest(c, top_k);
        assert forall|i: int, j: int| 0 <= i < j < kept.len() implies number_of(
            (#[trigger] kept[i]).1,
        ) <= number_of((#[trigger] kept[j]).1) by {
            law_places_are_ordered_as_numbers(kept[j].1, kept[i].1);
        }
        assert forall|i: int, j: int|
            0 <= i < kept.len() && 0 <= j < c.len() && !kept.contains(
                #[trigger] c[j],
            ) implies number_of((#[trigger] kept[i]).1) <= number_of(c[j].1) by {
            assert(c.contains(c[j]));
            law_places_are_ordered_as_numbers(c[j].1, kept[i].1);
        }
    }
    assert(crate::ann::model::any_nan(c) <==> exists|i: int|
        0 <= i < c.len() && is_nan((#[trigger] c[i]).1));
}

/// Of some results, those with the highest scores are kept: as many as are wanted or
/// all there are, the highest first, and none that is left out is higher.
pub proof fn law_keeping_the_highest(
    given: Vec<RankedChunk>,
    top_k: usize,
    r: Result<Vec<RankedChunk>, Error>,
)
    requires
        call_ensures(top_results, (given, top_k), r),
    ensures
        r is Err <==> given@.len() >= 2 && exists|i: int|
            0 <= i < given@.len() && is_nan((#[trigger] rows(given@)[i]).score),
        r is Err ==> r->Err_0 == Error::NotComparable,
        r is Ok ==> {
            let kept = rows(r->Ok_0@);
            &&& kept.len() == if top_k < given@.len() {
                top_k as int
            } else {
                given@.len() as int
            }
            &&& forall|i: int| 0 <= i < kept.len() ==> rows(given@).contains(#[trigger] kept[i])
            &&& forall|i: int, j: int|
                0 <= i < j < kept.len() ==> number_of((#[trigger] kept[j]).score) <= number_of(
                    (#[trigger] kept[i]).score,
                )
            &&& forall|x: RankedRow, i: int|
                #![trigger rows(given@).contains(x), kept[i]]
                rows(given@).contains(x) && !kept.contains(x) && 0 <= i < kept.len() ==> number_of(
                    x.score,
                ) <= number_of(kept[i].score)
        },
{
    let best = rows(given@);
    assert(best.len() == given@.len());
    let all = arranged(best, higher());
    lemma_arranged_same(best, higher());
    lemma_arranged_order(best, higher());
    assert(crate::ranking::expand::any_nan_score(best) <==> exists|i: int|
        0 <= i < best.len() && is_nan((#[trigger] best[i]).score));
    if r is Ok {
        let kept = rows(r->Ok_0@);
        assert(results_of(r) == Ok::<Seq<RankedRow>, Error>(kept));
        law_highest_scores_are_kept(best, top_k);
        assert forall|i: int, j: int| 0 <= i < j < kept.len() implies number_of(
            (#[trigger] kept[j]).score,
        ) <= number_of((#[trigger] kept[i]).score) by {
            assert(kept[i] == all[i] && kept[j] == all[j]);
            assert(!higher()(all[j], all[i]));
            law_places_are_ordered_as_numbers(kept[i].score, kept[j].score);
        }
        assert forall|x: RankedRow, i: int|
            #![trigger best.contains(x), kept[i]]
            best.contains(x) && !kept.contains(x) && 0 <= i < kept.len() implies number_of(x.score)
            <= number_of(kept[i].score) by {
            law_places_are_ordered_as_numbers(kept[i].score, x.score);
        }
    }
}

/// The vectors read for some chunks are those that are stored for them, each once, in
/// chunk order, whatever other chunks are asked for.
pub proof fn law_reading_current_vectors(
    db: &Database,
    chunk_ids: &Vec<i64>,
    r: Vec<ChunkVector>,
    e: EmbeddingRow,
    n: int,
)
    requires
        db.wf(),
        call_ensures(current_vectors_for_chunks, (db, chunk_ids), r),
    ensures
        db@.embeddings.contains(e) && chunk_ids@.contains(e.chunk_id) ==> exists|k: int|
            0 <= k < r@.len() && (#[trigger] r@[k]).chunk_id == e.chunk_id && r@[k].vector@ == words(
                e.vector,
            ),
        0 <= n < r@.len() ==> chunk_ids@.contains(r@[n].chunk_id) && exists|k: int|
            0 <= k < db@.embeddings.len() && (#[trigger] db@.embeddings[k]).chunk_id
                == r@[n].chunk_id && words(db@.embeddings[k].vector) == r@[n].vector@,
{
    let s = db@.embeddings;
    let wanted = crate::document::model::among(chunk_ids@);
    let p = |e: EmbeddingRow| wanted(e.chunk_id);
    let kept = s.filter(p);
    assert(rows(r@) == kept.map_values(|e: EmbeddingRow| crate::ann::model::node_of(e)));
    assert(rows(r@).len() == r@.len());
    if s.contains(e) && chunk_ids@.contains(e.chunk_id) {
        let j = choose|j: int| 0 <= j < s.len() && s[j] == e;
        let k = crate::seqs::lemma_filter_keeps(s, p, j);
        assert(rows(r@)[k] == r@[k]@);
        assert(r@[k].chunk_id == e.chunk_id);
    }
    if 0 <= n < r@.len() {
        crate::seqs::lemma_filter_member(s, p, n);
        let k = choose|k: int| 0 <= k < s.len() && #[trigger] s[k] == kept[n];
        assert(rows(r@)[n] == r@[n]@);
        assert(s[k].chunk_id == r@[n].chunk_id);
    }
}

/// A dumped index is the length of its graph in four bytes, the graph and the data,
/// can be told from what is none, and is loaded as it was dumped.
pub proof fn law_dumping_and_loading(
    graph: &Vec<u8>,
    data: &Vec<u8>,
    blob: Vec<u8>,
    whole: bool,
    r: (Vec<u8>, Vec<u8>),
)
    requires
        graph@.len() < 0x1_0000_0000,
        call_ensures(dump_to_blob, (graph, data), blob),
        call_ensures(is_framed, (&blob,), whole),
        call_ensures(load_from_blob, (&blob,), r),
    ensures
        blob@ == written(seq![graph@.len() as u32]) + graph@ + data@,
        whole,
        r.0@ == graph@,
        r.1@ == data@,
{
    law_blob_starts_with_the_length(graph@, data@);
    law_blob_round_trip(graph@, data@);
}

/// A list in the settings is read as its items, and one without items, or none at all,
/// as no restriction.
pub proof fn law_reading_a_list(db: &Database, key: &str, r: Option<Vec<String>>, i: int)
    requires
        call_ensures(get_string_list, (db, key), r),
        distinct(db@.settings),
        0 <= i < db@.settings.len(),
        db@.settings[i].key == key@,
    ensures
        list_items(db@.settings[i].value).len() == 0 ==> r is None,
        list_items(db@.settings[i].value).len() > 0 ==> r is Some && texts(r->0@) == list_items(
            db@.settings[i].value,
        ),
{
    law_setting_is_the_row_with_its_key(db@.settings, i);
}

/// A document can be added, and an embedding stored, where the machine limits allow it.
pub proof fn law_checks_refuse_no_more_than_they_must(
    db: &Database,
    content: &str,
    external_id: Option<&str>,
    chunking: Chunking,
    adding: bool,
    model_name: &str,
    dimension: i64,
    storing: bool,
)
    requires
        call_ensures(check_add, (db, content, external_id, chunking), adding),
        call_ensures(check_store, (db, model_name, dimension), storing),
        content@.len() <= chunking.size || chunking.overlap < chunking.size,
        content@.len() < i64::MAX,
        db@.chunks.len() > 0 ==> db@.chunks.last().id + content@.len() <= i64::MAX,
        forall|i: int|
            0 <= i < db@.documents.len() ==> (#[trigger] db@.documents[i]).version < i64::MAX,
        new_id(db@, given_text(external_id)) <= i64::MAX,
        db@.segments.len() > 0 ==> db@.segments.last().id < i64::MAX,
        db@.models.len() > 0 ==> db@.models.last().id < i64::MAX,
        0 <= dimension,
        dimension * 4 <= usize::MAX,
    ensures
        adding,
        storing,
{
    law_whatever_fits_can_be_added(
        db@,
        given_text(external_id),
        content@,
        crate::document::hash_of(content@),
        chunking,
    );
    law_whatever_fits_can_be_stored(db@, model_name@, dimension);
}

/// What an error says holds the identity, the chunk and every number that it is about.
pub proof fn law_errors_name_what_they_are_about(e: Error, r: String)
    requires
        call_ensures(Error::message, (&e,), r),
    ensures
        match e {
            Error::UnknownDocument { external_id } => exists|a: Seq<char>, b: Seq<char>|
                r@ == #[trigger] (a + external_id@ + b),
            Error::VectorLength { bytes, dimension, expected } => exists|
                a: Seq<char>,
                b: Seq<char>,
                c: Seq<char>,
                d: Seq<char>,
            |
                r@ == #[trigger] (a + decimal(bytes as int) + b + decimal(dimension as int) + c
                    + decimal(expected as int) + d),
            Error::ModelDimension { dimension, registered } => exists|
                a: Seq<char>,
                b: Seq<char>,
                c: Seq<char>,
            |
                r@ == #[trigger] (a + decimal(dimension as int) + b + decimal(registered as int)
                    + c),
            Error::NoEmbedding { chunk_id } => exists|a: Seq<char>, b: Seq<char>|
                r@ == #[trigger] (a + decimal(chunk_id as int) + b),
            _ => true,
        },
{
    assert(r@ == crate::error::message_of(e));
}

/// The statistics are one array of what each segment says, in order. Gives its items.
pub proof fn law_reading_statistics(db: &Database, r: String) -> (items: Seq<Seq<char>>)
    requires
        call_ensures(stats, (db,), r),
    ensures
        r@ == json_array_of(items),
        items.len() == db@.segments.len(),
        forall|i: int|
            0 <= i < items.len() ==> #[trigger] items[i] == segment_json(db@, db@.segments[i]),
{
    law_statistics_list_every_segment(db@)
}

} // verus!
