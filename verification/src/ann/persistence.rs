//! The dumped index of a sealed segment as one byte string: the length of its
//! graph, the graph, and the data.

use vstd::prelude::*;

verus! {

/// The length prefix: the lowest four bytes, the lowest first.
pub open spec fn length_prefix(n: nat) -> Seq<u8> {
    seq![
        (n % 0x100) as u8,
        (n / 0x100 % 0x100) as u8,
        (n / 0x1_0000 % 0x100) as u8,
        (n / 0x100_0000 % 0x100) as u8,
    ]
}

/// The length that a byte string starts with.
pub open spec fn prefix_length(blob: Seq<u8>) -> int {
    blob[0] + blob[1] * 0x100 + blob[2] * 0x1_0000 + blob[3] * 0x100_0000
}

/// The byte string of a graph and its data.
pub open spec fn framed(graph: Seq<u8>, data: Seq<u8>) -> Seq<u8> {
    length_prefix(graph.len()) + graph + data
}

/// The byte string starts with a length, and holds a graph that long.
pub open spec fn well_framed(blob: Seq<u8>) -> bool {
    blob.len() >= 4 && 4 + prefix_length(blob) <= blob.len()
}

/// The graph in a byte string.
pub open spec fn graph_in(blob: Seq<u8>) -> Seq<u8> {
    blob.subrange(4, 4 + prefix_length(blob))
}

/// The data in a byte string.
pub open spec fn data_in(blob: Seq<u8>) -> Seq<u8> {
    blob.skip(4 + prefix_length(blob))
}

/// Appends `bytes[from..to]`.
fn push_bytes(out: &mut Vec<u8>, bytes: &Vec<u8>, from: usize, to: usize)
    requires
        from <= to <= bytes@.len(),
    ensures
        final(out)@ == old(out)@ + bytes@.subrange(from as int, to as int),
{
    let mut i: usize = from;
    proof {
        assert(out@ =~= old(out)@ + bytes@.subrange(from as int, from as int));
    }
    while i < to
        invariant
            from <= i <= to <= bytes@.len(),
            out@ == old(out)@ + bytes@.subrange(from as int, i as int),
        decreases to - i,
    {
        out.push(bytes[i]);
        proof {
            assert(out@ =~= old(out)@ + bytes@.subrange(from as int, i + 1));
        }
        i += 1;
    }
}

/// Puts a dumped graph and its data into one byte string.
pub fn dump_to_blob(graph: &Vec<u8>, data: &Vec<u8>) -> (r: Vec<u8>)
    ensures
        r@ == framed(graph@, data@),
{
    let n = graph.len();
    let mut r: Vec<u8> = Vec::new();
    r.push((n % 0x100) as u8);
    r.push((n / 0x100 % 0x100) as u8);
    r.push((n / 0x1_0000 % 0x100) as u8);
    r.push((n / 0x100_0000 % 0x100) as u8);
    proof {
        assert(r@ =~= length_prefix(graph@.len()));
    }
    push_bytes(&mut r, graph, 0, graph.len());
    push_bytes(&mut r, data, 0, data.len());
    proof {
        assert(graph@.subrange(0, graph@.len() as int) =~= graph@);
        assert(data@.subrange(0, data@.len() as int) =~= data@);
    }
    r
}

/// Tells whether a byte string holds the graph that it says it holds.
pub fn is_framed(blob: &Vec<u8>) -> (r: bool)
    ensures
        r == well_framed(blob@),
{
    if blob.len() < 4 {
        return false;
    }
    let graph_len: u64 = blob[0] as u64 + blob[1] as u64 * 0x100 + blob[2] as u64 * 0x1_0000
        + blob[3] as u64 * 0x100_0000;
    4 + graph_len <= blob.len() as u64
}

/// Takes the dumped graph and its data out of a byte string.
pub fn load_from_blob(blob: &Vec<u8>) -> (r: (Vec<u8>, Vec<u8>))
    requires
        well_framed(blob@),
    ensures
        r.0@ == graph_in(blob@),
        r.1@ == data_in(blob@),
{
    let len: usize = blob.len();
    let announced: u64 = blob[0] as u64 + blob[1] as u64 * 0x100 + blob[2] as u64 * 0x1_0000
        + blob[3] as u64 * 0x100_0000;
    proof {
        assert(4 + announced <= len);
    }
    let graph_len: usize = announced as usize;
    let mut graph: Vec<u8> = Vec::new();
    push_bytes(&mut graph, blob, 4, 4 + graph_len);
    let mut data: Vec<u8> = Vec::new();
    push_bytes(&mut data, blob, 4 + graph_len, blob.len());
    proof {
        assert(graph@ =~= graph_in(blob@));
        assert(data@ =~= data_in(blob@));
    }
    (graph, data)
}

/// What is put into a byte string is taken out of it again, as long as the length
/// of the graph fits in its prefix.
pub proof fn law_blob_round_trip(graph: Seq<u8>, data: Seq<u8>)
    requires
        graph.len() < 0x1_0000_0000,
    ensures
        well_framed(framed(graph, data)),
        graph_in(framed(graph, data)) == graph,
        data_in(framed(graph, data)) == data,
{
    let blob = framed(graph, data);
    let n = graph.len();
    assert(prefix_length(blob) == n) by {
        assert(n % 0x100 + (n / 0x100 % 0x100) * 0x100 + (n / 0x1_0000 % 0x100) * 0x1_0000 + (n
            / 0x100_0000 % 0x100) * 0x100_0000 == n) by (nonlinear_arith)
            requires
                n < 0x1_0000_0000,
        ;
    }
    assert(graph_in(blob) =~= graph);
    assert(data_in(blob) =~= data);
}

} // verus!
