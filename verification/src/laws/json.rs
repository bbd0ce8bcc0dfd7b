//! What holds of the JSON that callers get.

use vstd::prelude::*;

use crate::ann::candidates_to_json;
use crate::ann::model::{candidate_json, in_segment, segment_json, stats_json};
use crate::laws::text::{digit_number, lemma_positional_push, positional};
use crate::ranking::expand::{Origin, RankedChunk, RankedRow};
use crate::ranking::{result_json, results_to_json};
use crate::seqs::lemma_filter_push;
use crate::storage::tables::{rows, EmbeddingRow, Segment, SegmentStatus, Tables};
use crate::text::{decimal, digit, texts};
use crate::util::{hex_pair, joined, json_array_of, json_escaped, timestamp_at};

verus! {

/// A text is escaped character by character.
pub proof fn law_escaping_goes_character_by_character(a: Seq<char>, b: Seq<char>)
    ensures
        json_escaped(a + b) == json_escaped(a) + json_escaped(b),
    decreases b.len(),
{
    if b.len() == 0 {
        assert(a + b =~= a);
        assert(json_escaped(a) + json_escaped(b) =~= json_escaped(a));
    } else {
        law_escaping_goes_character_by_character(a, b.drop_last());
        assert((a + b).drop_last() =~= a + b.drop_last());
        assert((a + b).last() == b.last());
        assert(json_escaped(a + b) =~= json_escaped(a) + json_escaped(b));
    }
}

/// What one character is escaped as.
proof fn lemma_one_escaped(c: char)
    ensures
        json_escaped(seq![c]) == crate::util::json_char(c),
{
    assert(seq![c].drop_last() =~= Seq::<char>::empty());
    assert(json_escaped(Seq::<char>::empty()) =~= Seq::<char>::empty());
    assert(Seq::<char>::empty() + crate::util::json_char(c) =~= crate::util::json_char(c));
}

/// The quote and the backslash get a backslash in front, a line feed, a carriage
/// return and a tabulator become the letter for them behind one, every other control
/// character its number in four hexadecimal digits, and any other character stays.
pub proof fn law_what_a_character_is_escaped_as(c: char)
    ensures
        c == '"' ==> json_escaped(seq![c]) == seq!['\\', '"'],
        c == '\\' ==> json_escaped(seq![c]) == seq!['\\', '\\'],
        c == '\n' ==> json_escaped(seq![c]) == seq!['\\', 'n'],
        c == '\r' ==> json_escaped(seq![c]) == seq!['\\', 'r'],
        c == '\t' ==> json_escaped(seq![c]) == seq!['\\', 't'],
        (c as u32) < 0x20 && c != '\n' && c != '\r' && c != '\t' ==> {
            &&& json_escaped(seq![c]).len() == 6
            &&& json_escaped(seq![c]).take(2) == seq!['\\', 'u']
            &&& positional(json_escaped(seq![c]).skip(2), 16) == c as int
        },
        (c as u32) >= 0x20 && c != '"' && c != '\\' ==> json_escaped(seq![c]) == seq![c],
{
    lemma_one_escaped(c);
    reveal_strlit("\\\"");
    reveal_strlit("\\\\");
    reveal_strlit("\\n");
    reveal_strlit("\\r");
    reveal_strlit("\\t");
    reveal_strlit("\\u00");
    let r = json_escaped(seq![c]);
    if c == '"' {
        assert(r =~= seq!['\\', '"']);
    } else if c == '\\' {
        assert(r =~= seq!['\\', '\\']);
    } else if c == '\n' {
        assert(r =~= seq!['\\', 'n']);
    } else if c == '\r' {
        assert(r =~= seq!['\\', 'r']);
    } else if c == '\t' {
        assert(r =~= seq!['\\', 't']);
    } else if (c as u32) < 0x20 {
        let n: int = c as int;
        let hex = hex_pair(n);
        assert(r.take(2) =~= seq!['\\', 'u']);
        assert(r.skip(2) =~= seq!['0', '0', digit(n / 16), digit(n % 16)]);
        assert(digit_number(digit(n / 16)) == n / 16);
        assert(digit_number(digit(n % 16)) == n % 16);
        let none = Seq::<char>::empty();
        lemma_positional_push(none, '0', 16);
        lemma_positional_push(none.push('0'), '0', 16);
        lemma_positional_push(none.push('0').push('0'), digit(n / 16), 16);
        lemma_positional_push(none.push('0').push('0').push(digit(n / 16)), digit(n % 16), 16);
        assert(r.skip(2) =~= none.push('0').push('0').push(digit(n / 16)).push(digit(n % 16)));
        assert(positional(none, 16) == 0);
    }
}

/// An array is its items between brackets, with a comma between each two.
pub proof fn law_arrays_list_their_items(items: Seq<Seq<char>>, x: Seq<char>)
    ensures
        json_array_of(Seq::empty()) == seq!['[', ']'],
        json_array_of(seq![x]) == seq!['['] + x + seq![']'],
        items.len() > 0 ==> json_array_of(items.push(x)) == json_array_of(items).drop_last()
            + seq![','] + x + seq![']'],
{
    reveal_strlit("[");
    reveal_strlit("]");
    reveal_strlit(",");
    assert(json_array_of(Seq::empty()) =~= seq!['[', ']']);
    assert(json_array_of(seq![x]) =~= seq!['['] + x + seq![']']);
    if items.len() > 0 {
        assert(items.push(x).drop_last() =~= items);
        assert(joined(items.push(x)) == joined(items) + ","@ + x);
        assert(json_array_of(items).drop_last() =~= "["@ + joined(items));
        assert(json_array_of(items.push(x)) =~= json_array_of(items).drop_last() + seq![','] + x
            + seq![']']);
    }
}

/// A member of a JSON object: its name in quotes, a colon and its value.
pub open spec fn member(name: Seq<char>, value: Seq<char>) -> Seq<char> {
    seq!['"'] + name + seq!['"', ':'] + value
}

/// A text in JSON.
pub open spec fn quoted(s: Seq<char>) -> Seq<char> {
    seq!['"'] + s + seq!['"']
}

/// What JSON says of nothing.
pub open spec fn null() -> Seq<char> {
    seq!['n', 'u', 'l', 'l']
}

/// The start of a JSON object, with its first member.
pub open spec fn object_with(m: Seq<char>) -> Seq<char> {
    seq!['{'] + m
}

/// One more member of a JSON object.
pub open spec fn and_with(object: Seq<char>, m: Seq<char>) -> Seq<char> {
    object + seq![','] + m
}

/// The whole JSON object.
pub open spec fn complete(object: Seq<char>) -> Seq<char> {
    object + seq!['}']
}

/// A candidate is an object of its chunk and its distance.
pub proof fn law_candidates_are_objects(chunk_id: i64, distance: Seq<char>)
    ensures
        candidate_json((chunk_id, distance)) == complete(
            and_with(
                object_with(member("chunk_id"@, decimal(chunk_id as int))),
                member("distance"@, distance),
            ),
        ),
{
    reveal_strlit("{\"chunk_id\":");
    reveal_strlit(",\"distance\":");
    reveal_strlit("}");
    reveal_strlit("chunk_id");
    reveal_strlit("distance");
    let first = object_with(member("chunk_id"@, decimal(chunk_id as int)));
    assert("{\"chunk_id\":"@ + decimal(chunk_id as int) =~= first);
    assert(first + ",\"distance\":"@ + distance =~= and_with(first, member("distance"@, distance)));
    assert("}"@ =~= seq!['}']);
}

/// A result is an object of its chunk, its score, where it came from, and the
/// relation type and the hops that led to it, null where there are none.
pub proof fn law_results_are_objects(r: RankedRow, score: Seq<char>)
    ensures
        result_json(r, score) == complete(
            and_with(
                and_with(
                    and_with(
                        and_with(
                            object_with(member("chunk_id"@, decimal(r.chunk_id as int))),
                            member("score"@, score),
                        ),
                        member(
                            "origin"@,
                            quoted(
                                if r.origin == Origin::Ann {
                                    "ann"@
                                } else {
                                    "graph"@
                                },
                            ),
                        ),
                    ),
                    member(
                        "relation_type"@,
                        if r.relation_type is Some {
                            quoted(json_escaped(r.relation_type->0))
                        } else {
                            null()
                        },
                    ),
                ),
                member(
                    "hop_count"@,
                    if r.hop_count is Some {
                        decimal(r.hop_count->0 as int)
                    } else {
                        null()
                    },
                ),
            ),
        ),
{
    reveal_strlit("{\"chunk_id\":");
    reveal_strlit(",\"score\":");
    reveal_strlit(",\"origin\":\"");
    reveal_strlit("\",\"relation_type\":");
    reveal_strlit("\"");
    reveal_strlit("null");
    reveal_strlit(",\"hop_count\":");
    reveal_strlit("}");
    reveal_strlit("chunk_id");
    reveal_strlit("score");
    reveal_strlit("origin");
    reveal_strlit("relation_type");
    reveal_strlit("hop_count");
    let origin = if r.origin == Origin::Ann {
        "ann"@
    } else {
        "graph"@
    };
    let relation_type = if r.relation_type is Some {
        quoted(json_escaped(r.relation_type->0))
    } else {
        null()
    };
    let hop_count = if r.hop_count is Some {
        decimal(r.hop_count->0 as int)
    } else {
        null()
    };
    assert((match r.relation_type {
        Some(value) => "\""@ + json_escaped(value) + "\""@,
        None => "null"@,
    }) =~= relation_type);
    assert((match r.hop_count {
        Some(value) => decimal(value as int),
        None => "null"@,
    }) =~= hop_count);
    let a = object_with(member("chunk_id"@, decimal(r.chunk_id as int)));
    assert("{\"chunk_id\":"@ + decimal(r.chunk_id as int) =~= a);
    let b = and_with(a, member("score"@, score));
    assert(a + ",\"score\":"@ + score =~= b);
    let c = and_with(b, member("origin"@, quoted(origin)));
    let d = and_with(c, member("relation_type"@, relation_type));
    assert(b + ",\"origin\":\""@ + origin + "\",\"relation_type\":"@ =~= c + seq![','] + (seq![
        '"',
    ] + "relation_type"@ + seq!['"', ':']));
    assert(b + ",\"origin\":\""@ + origin + "\",\"relation_type\":"@ + relation_type =~= d);
    let e = and_with(d, member("hop_count"@, hop_count));
    assert(d + ",\"hop_count\":"@ + hop_count =~= e);
    assert("}"@ =~= seq!['}']);
}

/// How many embeddings are in a segment.
pub open spec fn embeddings_in(embeddings: Seq<EmbeddingRow>, segment_id: i64) -> int
    decreases embeddings.len(),
{
    if embeddings.len() == 0 {
        0
    } else {
        embeddings_in(embeddings.drop_last(), segment_id) + if embeddings.last().segment_id
            == segment_id {
            1int
        } else {
            0int
        }
    }
}

proof fn lemma_embeddings_in(embeddings: Seq<EmbeddingRow>, segment_id: i64)
    ensures
        embeddings.filter(in_segment(segment_id)).len() == embeddings_in(embeddings, segment_id),
    decreases embeddings.len(),
{
    if embeddings.len() == 0 {
        assert(embeddings =~= Seq::<EmbeddingRow>::empty());
        crate::seqs::lemma_filter_empty(in_segment(segment_id));
    } else {
        let rest = embeddings.drop_last();
        lemma_embeddings_in(rest, segment_id);
        lemma_filter_push(rest, embeddings.last(), in_segment(segment_id));
        assert(rest.push(embeddings.last()) =~= embeddings);
    }
}

/// The statistics of a segment are an object of its id, its status, the nodes that it
/// was given and the embeddings that are still in it.
pub proof fn law_statistics_are_objects(t: Tables, s: Segment)
    ensures
        segment_json(t, s) == complete(
            and_with(
                and_with(
                    and_with(
                        object_with(member("segment_id"@, decimal(s.id as int))),
                        member(
                            "status"@,
                            quoted(
                                if s.status == SegmentStatus::Appendable {
                                    "appendable"@
                                } else {
                                    "sealed"@
                                },
                            ),
                        ),
                    ),
                    member("total_nodes"@, decimal(s.node_count as int)),
                ),
                member("live_nodes"@, decimal(embeddings_in(t.embeddings, s.id))),
            ),
        ),
{
    reveal_strlit("{\"segment_id\":");
    reveal_strlit(",\"status\":\"");
    reveal_strlit("\",\"total_nodes\":");
    reveal_strlit(",\"live_nodes\":");
    reveal_strlit("}");
    reveal_strlit("segment_id");
    reveal_strlit("status");
    reveal_strlit("total_nodes");
    reveal_strlit("live_nodes");
    lemma_embeddings_in(t.embeddings, s.id);
    let status = if s.status == SegmentStatus::Appendable {
        "appendable"@
    } else {
        "sealed"@
    };
    let total = decimal(s.node_count as int);
    let live = decimal(embeddings_in(t.embeddings, s.id));
    let a = object_with(member("segment_id"@, decimal(s.id as int)));
    assert("{\"segment_id\":"@ + decimal(s.id as int) =~= a);
    let b = and_with(a, member("status"@, quoted(status)));
    let c = and_with(b, member("total_nodes"@, total));
    assert(a + ",\"status\":\""@ + status + "\",\"total_nodes\":"@ =~= b + seq![','] + (seq!['"']
        + "total_nodes"@ + seq!['"', ':']));
    assert(a + ",\"status\":\""@ + status + "\",\"total_nodes\":"@ + total =~= c);
    let d = and_with(c, member("live_nodes"@, live));
    assert(c + ",\"live_nodes\":"@ + live =~= d);
    assert("}"@ =~= seq!['}']);
}

/// The statistics list every segment, in order.
pub proof fn law_statistics_list_every_segment(t: Tables) -> (items: Seq<Seq<char>>)
    ensures
        stats_json(t) == json_array_of(items),
        items.len() == t.segments.len(),
        forall|i: int|
            0 <= i < items.len() ==> #[trigger] items[i] == segment_json(t, t.segments[i]),
{
    t.segments.map_values(|s: Segment| segment_json(t, s))
}

/// A reading of the clock is the timestamp, where a signed number can hold it, and
/// otherwise the number with the same bits.
pub proof fn law_timestamps_are_readings(reading: Option<u64>)
    ensures
        reading is None <==> timestamp_at(reading) is None,
        reading is Some ==> timestamp_at(reading)->0 as u64 == reading->0,
        reading is Some && reading->0 <= i64::MAX ==> timestamp_at(reading)->0 == reading->0,
{
    if reading is Some && reading->0 > i64::MAX {
        let s = reading->0;
        let t = timestamp_at(reading)->0;
        assert(t == s - 0x1_0000_0000_0000_0000);
        assert(t < 0 ==> (t as u64) == t + 0x1_0000_0000_0000_0000) by (bit_vector);
    }
}

/// What is written out of candidates and results is an array of one object for each,
/// in order.
pub proof fn law_arrays_have_an_object_for_each(
    candidates: &Vec<(i64, String)>,
    results: &Vec<RankedChunk>,
    scores: &Vec<String>,
    a: String,
    b: String,
) -> (items: (Seq<Seq<char>>, Seq<Seq<char>>))
    requires
        scores@.len() == results@.len(),
        call_ensures(candidates_to_json, (candidates,), a),
        call_ensures(results_to_json, (results, scores), b),
    ensures
        a@ == json_array_of(items.0),
        items.0.len() == candidates@.len(),
        forall|i: int|
            0 <= i < candidates@.len() ==> #[trigger] items.0[i] == candidate_json(
                (candidates@[i].0, candidates@[i].1@),
            ),
        b@ == json_array_of(items.1),
        items.1.len() == results@.len(),
        forall|i: int|
            0 <= i < results@.len() ==> #[trigger] items.1[i] == result_json(
                results@[i]@,
                scores@[i]@,
            ),
{
    let x = rows(candidates@).map_values(|c: (i64, Seq<char>)| candidate_json(c));
    let y = Seq::new(
        results@.len(),
        |i: int| result_json(rows(results@)[i], texts(scores@)[i]),
    );
    (x, y)
}

} // verus!
