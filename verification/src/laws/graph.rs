//! What holds of stored embeddings and relations: what a write is read back as.

use vstd::prelude::*;

use crate::ann::model::{target, time_of};
use crate::bits::is_nan_double;
use crate::embedding::{
    can_store, is_model, known_model, lemma_put_embedding_order, model_of, new_model, stored,
    with_model,
};
use crate::graph::{embedding_of, embeds, other_pair, related};
use crate::laws::numbers::{law_vectors_are_written_back, written};
use crate::ranking::expand::{
    far_end, followed, incoming, near_end, neighbours, outgoing, NeighbourRow,
};
use crate::seqs::{
    first_where, lemma_filter_empty, lemma_filter_keeps, lemma_filter_member, lemma_filter_push,
    lemma_first_absent, lemma_first_at, lemma_first_exists, lemma_first_filter, lemma_first_found,
    lemma_first_push, pairwise,
};
use crate::storage::tables::{embedding_order, put_embedding, EmbeddingRow, RelationRow, Tables};

verus! {

/// In chunk order, a chunk's embedding is the only one that it has.
proof fn lemma_embedding_at(s: Seq<EmbeddingRow>, i: int)
    requires
        pairwise(s, embedding_order()),
        0 <= i < s.len(),
    ensures
        first_where(s, embeds(s[i].chunk_id)) == Some(s[i]),
{
    assert forall|k: int| 0 <= k < i implies !embeds(s[i].chunk_id)(#[trigger] s[k]) by {
        assert(embedding_order()(s[k], s[i]));
    }
    lemma_first_at(s, embeds(s[i].chunk_id), i);
}

/// Setting an embedding changes that of its chunk and no other.
proof fn lemma_put_embedding(s: Seq<EmbeddingRow>, row: EmbeddingRow, chunk_id: i64)
    requires
        pairwise(s, embedding_order()),
    ensures
        first_where(put_embedding(s, row), embeds(chunk_id)) == (if chunk_id == row.chunk_id {
            Some(row)
        } else {
            first_where(s, embeds(chunk_id))
        }),
{
    let below = |e: EmbeddingRow| e.chunk_id < row.chunk_id;
    let above = |e: EmbeddingRow| e.chunk_id > row.chunk_id;
    let a = s.filter(below);
    let b = s.filter(above);
    let r = put_embedding(s, row);
    lemma_put_embedding_order(s, row);
    if chunk_id == row.chunk_id {
        assert(r[a.len() as int] == row);
        lemma_embedding_at(r, a.len() as int);
    } else if first_where(s, embeds(chunk_id)) is Some {
        let j = lemma_first_found(s, embeds(chunk_id));
        let k = if s[j].chunk_id < row.chunk_id {
            lemma_filter_keeps(s, below, j)
        } else {
            a.len() + 1 + lemma_filter_keeps(s, above, j)
        };
        assert(r[k] == s[j]);
        lemma_embedding_at(r, k);
    } else {
        assert forall|k: int| 0 <= k < r.len() implies !embeds(chunk_id)(#[trigger] r[k]) by {
            if embeds(chunk_id)(r[k]) {
                if k < a.len() {
                    assert(r[k] == a[k]);
                    lemma_filter_member(s, below, k);
                } else if k > a.len() {
                    assert(r[k] == b[k - a.len() - 1]);
                    lemma_filter_member(s, above, k - a.len() - 1);
                }
                let j = choose|j: int| 0 <= j < s.len() && #[trigger] s[j] == r[k];
                lemma_first_exists(s, embeds(chunk_id), j);
            }
        }
        lemma_first_absent(r, embeds(chunk_id));
    }
}

/// A stored embedding is read back as it was given, under a model row with the
/// given name and dimension. Storing again replaces it; the embeddings of other
/// chunks, the documents, chunks and relations stay as they are.
pub proof fn law_stored_embedding_is_read_back(
    t: Tables,
    chunk_id: i64,
    vector: Seq<u8>,
    model_name: Seq<char>,
    dimension: i64,
    clock: Option<i64>,
)
    requires
        t.wf(),
        can_store(t, model_name, dimension),
        stored(t, chunk_id, vector, model_name, dimension, clock).1 is Ok,
    ensures
        ({
            let u = stored(t, chunk_id, vector, model_name, dimension, clock).0;
            &&& embedding_of(u, chunk_id) is Some
            &&& embedding_of(u, chunk_id)->0.vector == vector
            &&& known_model(u, model_name, dimension) is Some
            &&& known_model(u, model_name, dimension)->0.id == embedding_of(
                u,
                chunk_id,
            )->0.embedding_model_id
            &&& forall|x: i64|
                x != chunk_id ==> #[trigger] embedding_of(u, x) == embedding_of(t, x)
            &&& u.documents == t.documents
            &&& u.chunks == t.chunks
            &&& u.relations == t.relations
        }),
{
    let now = time_of(clock);
    let u = stored(t, chunk_id, vector, model_name, dimension, clock).0;
    let m = with_model(t, model_name, dimension, now);
    let row = EmbeddingRow {
        chunk_id,
        embedding_model_id: model_of(t, model_name, dimension, now).id,
        segment_id: target(m, now).id,
        vector,
    };
    assert(u.embeddings == put_embedding(t.embeddings, row));
    lemma_put_embedding(t.embeddings, row, chunk_id);
    assert forall|x: i64| x != chunk_id implies #[trigger] embedding_of(u, x) == embedding_of(
        t,
        x,
    ) by {
        lemma_put_embedding(t.embeddings, row, x);
    }
    if known_model(t, model_name, dimension) is None {
        lemma_first_push(
            t.models,
            new_model(t, model_name, dimension, now),
            is_model(model_name, dimension),
        );
    }
}

/// Being the relation of a pair.
pub open spec fn of_pair(from_chunk_id: i64, to_chunk_id: i64) -> spec_fn(RelationRow) -> bool {
    |r: RelationRow| r.from_chunk_id == from_chunk_id && r.to_chunk_id == to_chunk_id
}

/// The stored relation of a pair.
pub open spec fn relation_of(t: Tables, from_chunk_id: i64, to_chunk_id: i64) -> Option<
    RelationRow,
> {
    first_where(t.relations, of_pair(from_chunk_id, to_chunk_id))
}

/// A stored relation is read back as it was given, with no confidence where that
/// is not a number. Storing again replaces it; the relations of other pairs stay
/// as they are.
pub proof fn law_stored_relation_is_read_back(t: Tables, row: RelationRow)
    requires
        related(t, row).1 is Ok,
    ensures
        ({
            let u = related(t, row).0;
            &&& relation_of(u, row.from_chunk_id, row.to_chunk_id) == Some(
                RelationRow {
                    confidence: if row.confidence is Some && is_nan_double(row.confidence->0) {
                        None
                    } else {
                        row.confidence
                    },
                    ..row
                },
            )
            &&& forall|from: i64, to: i64|
                from != row.from_chunk_id || to != row.to_chunk_id ==> #[trigger] relation_of(
                    u,
                    from,
                    to,
                ) == relation_of(t, from, to)
        }),
{
    let u = related(t, row).0;
    let keep = other_pair(row.from_chunk_id, row.to_chunk_id);
    let kept = t.relations.filter(keep);
    let stored_row = u.relations.last();
    let p = of_pair(row.from_chunk_id, row.to_chunk_id);
    assert(u.relations =~= kept.push(stored_row));
    assert forall|i: int| 0 <= i < kept.len() implies !p(#[trigger] kept[i]) by {
        lemma_filter_member(t.relations, keep, i);
    }
    lemma_first_absent(kept, p);
    lemma_first_push(kept, stored_row, p);
    assert forall|from: i64, to: i64|
        from != row.from_chunk_id || to != row.to_chunk_id implies #[trigger] relation_of(
        u,
        from,
        to,
    ) == relation_of(t, from, to) by {
        lemma_first_push(kept, stored_row, of_pair(from, to));
        lemma_first_filter(t.relations, of_pair(from, to), keep);
    }
}

/// A relation that may be followed makes each of its two chunks a neighbour of the other.
pub proof fn law_relations_are_followed_both_ways(
    relations: Seq<RelationRow>,
    allowed: Seq<Seq<char>>,
    i: int,
)
    requires
        0 <= i < relations.len(),
        followed(relations[i], allowed),
    ensures
        neighbours(relations, relations[i].from_chunk_id, allowed).contains(
            far_end()(relations[i]),
        ),
        neighbours(relations, relations[i].to_chunk_id, allowed).contains(
            near_end()(relations[i]),
        ),
{
    let r = relations[i];
    let out = outgoing(r.from_chunk_id, allowed);
    let k = lemma_filter_keeps(relations, out, i);
    assert(neighbours(relations, r.from_chunk_id, allowed)[k] == far_end()(r));
    let back = incoming(r.to_chunk_id, allowed);
    let j = lemma_filter_keeps(relations, back, i);
    let before = relations.filter(outgoing(r.to_chunk_id, allowed)).len() as int;
    assert(neighbours(relations, r.to_chunk_id, allowed)[before + j] == near_end()(r));
}

/// Every neighbour of a chunk comes from a relation of that chunk which may be
/// followed: a pair without a relation type, or with one that is not asked for,
/// makes no neighbours.
pub proof fn law_neighbours_come_from_followed_relations(
    relations: Seq<RelationRow>,
    chunk_id: i64,
    allowed: Seq<Seq<char>>,
    k: int,
)
    requires
        0 <= k < neighbours(relations, chunk_id, allowed).len(),
    ensures
        exists|i: int|
            0 <= i < relations.len() && followed(#[trigger] relations[i], allowed) && ({
                ||| relations[i].from_chunk_id == chunk_id && neighbours(
                    relations,
                    chunk_id,
                    allowed,
                )[k] == far_end()(relations[i])
                ||| relations[i].to_chunk_id == chunk_id && neighbours(
                    relations,
                    chunk_id,
                    allowed,
                )[k] == near_end()(relations[i])
            }),
{
    let out = outgoing(chunk_id, allowed);
    let back = incoming(chunk_id, allowed);
    let a = relations.filter(out);
    let b = relations.filter(back);
    if k < a.len() {
        lemma_filter_member(relations, out, k);
        let i = choose|i: int| 0 <= i < relations.len() && #[trigger] relations[i] == a[k];
        assert(followed(relations[i], allowed));
    } else {
        lemma_filter_member(relations, back, k - a.len());
        let i = choose|i: int|
            0 <= i < relations.len() && #[trigger] relations[i] == b[k - a.len()];
        assert(followed(relations[i], allowed));
    }
}

/// How confident a relation is taken to be: fully where it does not say.
pub open spec fn stated_confidence(r: RelationRow) -> u64 {
    if r.confidence is Some {
        r.confidence->0
    } else {
        0x3ff0_0000_0000_0000
    }
}

/// A relation makes each of its two chunks a neighbour of the other, with its type
/// and confidence, where its type is any of the items of the list, wherever in the
/// list that is. With an empty list every relation of some type does.
pub proof fn law_relations_of_any_listed_type_make_neighbours(
    relations: Seq<RelationRow>,
    allowed: Seq<Seq<char>>,
    i: int,
    k: int,
)
    requires
        0 <= i < relations.len(),
        relations[i].relation_type is Some,
        allowed.len() == 0 || (0 <= k < allowed.len() && relations[i].relation_type == Some(
            allowed[k],
        )),
    ensures
        neighbours(relations, relations[i].from_chunk_id, allowed).contains(
            NeighbourRow {
                chunk_id: relations[i].to_chunk_id,
                relation_type: relations[i].relation_type->0,
                confidence: stated_confidence(relations[i]),
            },
        ),
        neighbours(relations, relations[i].to_chunk_id, allowed).contains(
            NeighbourRow {
                chunk_id: relations[i].from_chunk_id,
                relation_type: relations[i].relation_type->0,
                confidence: stated_confidence(relations[i]),
            },
        ),
{
    if allowed.len() > 0 {
        assert(allowed.contains(allowed[k]));
    }
    law_relations_are_followed_both_ways(relations, allowed, i);
}

/// A neighbour of a chunk is the other end of a relation of that chunk, with its type
/// and confidence; and where the list is not empty, that type is one of its items.
/// A relation without a type, or with one that is not in the list, makes none.
pub proof fn law_neighbours_have_a_listed_type(
    relations: Seq<RelationRow>,
    chunk_id: i64,
    allowed: Seq<Seq<char>>,
    n: int,
) -> (from: (int, int))
    requires
        0 <= n < neighbours(relations, chunk_id, allowed).len(),
    ensures
        ({
            let found = neighbours(relations, chunk_id, allowed)[n];
            let r = relations[from.0];
            &&& 0 <= from.0 < relations.len()
            &&& r.relation_type == Some(found.relation_type)
            &&& found.confidence == stated_confidence(r)
            &&& (r.from_chunk_id == chunk_id && r.to_chunk_id == found.chunk_id) || (r.to_chunk_id
                == chunk_id && r.from_chunk_id == found.chunk_id)
            &&& allowed.len() > 0 ==> 0 <= from.1 < allowed.len() && allowed[from.1]
                == found.relation_type
        }),
{
    law_neighbours_come_from_followed_relations(relations, chunk_id, allowed, n);
    let i = choose|i: int|
        0 <= i < relations.len() && followed(#[trigger] relations[i], allowed) && ({
            ||| relations[i].from_chunk_id == chunk_id && neighbours(
                relations,
                chunk_id,
                allowed,
            )[n] == far_end()(relations[i])
            ||| relations[i].to_chunk_id == chunk_id && neighbours(
                relations,
                chunk_id,
                allowed,
            )[n] == near_end()(relations[i])
        });
    let k: int = if allowed.len() > 0 {
        choose|k: int| 0 <= k < allowed.len() && allowed[k] == relations[i].relation_type->0
    } else {
        0
    };
    (i, k)
}

/// How many ends a relation has at a chunk, where its type is asked for.
pub open spec fn ends_at(r: RelationRow, chunk_id: i64, allowed: Seq<Seq<char>>) -> int {
    if r.relation_type is None || (allowed.len() > 0 && !exists|k: int|
        0 <= k < allowed.len() && #[trigger] allowed[k] == r.relation_type->0) {
        0
    } else {
        (if r.from_chunk_id == chunk_id {
            1int
        } else {
            0int
        }) + (if r.to_chunk_id == chunk_id {
            1int
        } else {
            0int
        })
    }
}

/// How many such ends some relations have.
pub open spec fn all_ends_at(
    relations: Seq<RelationRow>,
    chunk_id: i64,
    allowed: Seq<Seq<char>>,
) -> int
    decreases relations.len(),
{
    if relations.len() == 0 {
        0
    } else {
        all_ends_at(relations.drop_last(), chunk_id, allowed) + ends_at(
            relations.last(),
            chunk_id,
            allowed,
        )
    }
}

/// Every relation that is followed counts once for each of its ends: a chunk has as
/// many neighbours as relations end at it.
pub proof fn law_every_end_is_one_neighbour(
    relations: Seq<RelationRow>,
    chunk_id: i64,
    allowed: Seq<Seq<char>>,
)
    ensures
        neighbours(relations, chunk_id, allowed).len() == all_ends_at(relations, chunk_id, allowed),
    decreases relations.len(),
{
    let out = outgoing(chunk_id, allowed);
    let back = incoming(chunk_id, allowed);
    if relations.len() == 0 {
        assert(relations =~= Seq::<RelationRow>::empty());
        lemma_filter_empty(out);
        lemma_filter_empty(back);
    } else {
        let rest = relations.drop_last();
        let r = relations.last();
        law_every_end_is_one_neighbour(rest, chunk_id, allowed);
        lemma_filter_push(rest, r, out);
        lemma_filter_push(rest, r, back);
        assert(rest.push(r) =~= relations);
    }
}

/// An embedding that is stored with a dimension joins the index of its segment as a
/// vector of that many components, which are the stored bytes.
pub proof fn law_stored_vector_is_indexed_whole(
    t: Tables,
    chunk_id: i64,
    vector: Seq<u8>,
    model_name: Seq<char>,
    dimension: i64,
    clock: Option<i64>,
)
    requires
        t.wf(),
        can_store(t, model_name, dimension),
        stored(t, chunk_id, vector, model_name, dimension, clock).1 is Ok,
    ensures
        ({
            let u = stored(t, chunk_id, vector, model_name, dimension, clock).0;
            let e = embedding_of(u, chunk_id)->0;
            let node = u.index[e.segment_id].nodes.last();
            &&& embedding_of(u, chunk_id) is Some
            &&& u.index.contains_key(e.segment_id)
            &&& u.index[e.segment_id].nodes.len() > 0
            &&& node.chunk_id == chunk_id
            &&& node.vector.len() == dimension
            &&& written(node.vector) == vector
        }),
{
    law_stored_embedding_is_read_back(t, chunk_id, vector, model_name, dimension, clock);
    law_vectors_are_written_back(vector);
    assert(vector.take(vector.len() as int) =~= vector);
    let now = time_of(clock);
    let m = with_model(t, model_name, dimension, now);
    let row = EmbeddingRow {
        chunk_id,
        embedding_model_id: model_of(t, model_name, dimension, now).id,
        segment_id: target(m, now).id,
        vector,
    };
    lemma_put_embedding(t.embeddings, row, chunk_id);
}

} // verus!
