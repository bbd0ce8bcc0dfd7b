//! What holds of the byte strings that dumped indexes are stored as.

use vstd::prelude::*;

use crate::ann::persistence::{
    data_in, framed, graph_in, law_blob_round_trip, length_prefix, prefix_length, well_framed,
};
use crate::laws::numbers::{byte_of, written};

verus! {

/// A stored index is the length of the graph as one word, the graph and the data.
pub proof fn law_blob_starts_with_the_length(graph: Seq<u8>, data: Seq<u8>)
    requires
        graph.len() < 0x1_0000_0000,
    ensures
        framed(graph, data) == written(seq![graph.len() as u32]) + graph + data,
{
    let w = graph.len() as u32;
    let head = written(seq![w]);
    assert(head[0] == byte_of(w, 0));
    assert(head[1] == byte_of(w, 1));
    assert(head[2] == byte_of(w, 2));
    assert(head[3] == byte_of(w, 3));
    assert(w / 0x100_0000 % 0x100 == w / 0x100_0000);
    assert(head =~= length_prefix(graph.len()));
}

/// What is taken out of a byte string is all of it: put together again, it is the
/// byte string.
pub proof fn law_nothing_of_a_blob_is_lost(blob: Seq<u8>)
    requires
        well_framed(blob),
    ensures
        framed(graph_in(blob), data_in(blob)) == blob,
        graph_in(blob).len() < 0x1_0000_0000,
{
    let n: int = prefix_length(blob);
    let a: int = blob[0] as int;
    let x: int = blob[1] + blob[2] * 0x100 + blob[3] * 0x1_0000;
    let y: int = blob[2] + blob[3] * 0x100;
    assert(n == a + x * 0x100);
    assert(n / 0x100 == x && n % 0x100 == a);
    assert(x / 0x100 == y && x % 0x100 == blob[1]);
    assert(y / 0x100 == blob[3] && y % 0x100 == blob[2]);
    assert(n / 0x1_0000 == x / 0x100);
    assert(n / 0x100_0000 == y / 0x100);
    assert(graph_in(blob).len() == n);
    assert(length_prefix(n as nat) =~= blob.take(4));
    assert(framed(graph_in(blob), data_in(blob)) =~= blob);
}

/// A byte string can be taken apart where it is a graph and data put together, and
/// nowhere else.
pub proof fn law_blobs_are_what_was_put_together(blob: Seq<u8>)
    ensures
        well_framed(blob) <==> exists|graph: Seq<u8>, data: Seq<u8>|
            graph.len() < 0x1_0000_0000 && #[trigger] framed(graph, data) == blob,
{
    if well_framed(blob) {
        law_nothing_of_a_blob_is_lost(blob);
    }
    if exists|graph: Seq<u8>, data: Seq<u8>|
        graph.len() < 0x1_0000_0000 && #[trigger] framed(graph, data) == blob {
        let (graph, data) = choose|graph: Seq<u8>, data: Seq<u8>|
            graph.len() < 0x1_0000_0000 && #[trigger] framed(graph, data) == blob;
        law_blob_round_trip(graph, data);
    }
}

} // verus!
