//! Floating-point numbers by their bit patterns: how they are ordered, and how
//! vectors of them are stored as bytes.

use vstd::prelude::*;

verus! {

/// The bit pattern of 1.0 in single precision.
pub const ONE_SINGLE: u32 = 0x3f80_0000;

/// The bit pattern of 1.0 in double precision.
pub const ONE_DOUBLE: u64 = 0x3ff0_0000_0000_0000;

/// The bit pattern is that of a single that is not a number.
pub open spec fn is_nan(bits: u32) -> bool {
    bits % 0x8000_0000 > 0x7f80_0000
}

/// The bit pattern is that of a double that is not a number.
pub open spec fn is_nan_double(bits: u64) -> bool {
    bits % 0x8000_0000_0000_0000 > 0x7ff0_0000_0000_0000
}

/// The place of a single among the others: the sign bit makes the rest of the
/// pattern negative, and the two zeros have the same place.
pub open spec fn rank_of(bits: u32) -> int {
    if bits < 0x8000_0000 {
        bits as int
    } else {
        0x8000_0000 - bits
    }
}

/// The single `a` is less than the single `b`.
pub open spec fn less_than(a: u32, b: u32) -> bool {
    !is_nan(a) && !is_nan(b) && rank_of(a) < rank_of(b)
}

/// Tells whether a single is not a number.
pub fn nan(bits: u32) -> (r: bool)
    ensures
        r == is_nan(bits),
{
    bits % 0x8000_0000 > 0x7f80_0000
}

/// Tells whether a double is not a number.
pub fn nan_double(bits: u64) -> (r: bool)
    ensures
        r == is_nan_double(bits),
{
    bits % 0x8000_0000_0000_0000 > 0x7ff0_0000_0000_0000
}

/// Compares the places of two singles.
pub fn ranks_below(a: u32, b: u32) -> (r: bool)
    ensures
        r == (rank_of(a) < rank_of(b)),
{
    if a < 0x8000_0000 {
        b < 0x8000_0000 && a < b
    } else if b < 0x8000_0000 {
        a > 0x8000_0000 || b > 0
    } else {
        a > b
    }
}

/// Compares two singles; what is not a number is less than nothing.
pub fn less(a: u32, b: u32) -> (r: bool)
    ensures
        r == less_than(a, b),
{
    !nan(a) && !nan(b) && ranks_below(a, b)
}

/// Four bytes as a number, the lowest byte first.
pub open spec fn word(a: u8, b: u8, c: u8, d: u8) -> u32 {
    (a + b * 0x100 + c * 0x1_0000 + d * 0x100_0000) as u32
}

/// A byte string as the singles stored in it, four bytes each. Bytes beyond the
/// last full four are left out.
pub open spec fn words(bytes: Seq<u8>) -> Seq<u32> {
    Seq::new(
        bytes.len() / 4,
        |i: int|
            word(bytes[4 * i], bytes[4 * i + 1], bytes[4 * i + 2], bytes[4 * i + 3]),
    )
}

/// Reads the singles stored in a byte string.
pub fn bytes_to_f32(bytes: &Vec<u8>) -> (r: Vec<u32>)
    ensures
        r@ == words(bytes@),
{
    let mut r: Vec<u32> = Vec::new();
    let len: usize = bytes.len();
    let count: usize = len / 4;
    let mut i: usize = 0;
    while i < count
        invariant
            len == bytes@.len(),
            count == len / 4,
            i <= count,
            r@ == words(bytes@).take(i as int),
        decreases count - i,
    {
        let a = bytes[4 * i] as u32;
        let b = bytes[4 * i + 1] as u32;
        let c = bytes[4 * i + 2] as u32;
        let d = bytes[4 * i + 3] as u32;
        r.push(a + b * 0x100 + c * 0x1_0000 + d * 0x100_0000);
        proof {
            assert(words(bytes@).take(i + 1) =~= words(bytes@).take(i as int).push(
                words(bytes@)[i as int],
            ));
        }
        i += 1;
    }
    proof {
        assert(words(bytes@).take(count as int) =~= words(bytes@));
    }
    r
}

} // verus!
