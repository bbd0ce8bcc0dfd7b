//! What holds of the numbers that bit patterns and bytes stand for.

use vstd::prelude::*;

use crate::bits::{is_nan, is_nan_double, less_than, rank_of, word, words};

verus! {

/// One of the four bytes of a word, the lowest first.
pub open spec fn byte_of(w: u32, k: int) -> u8 {
    if k == 0 {
        (w % 0x100) as u8
    } else if k == 1 {
        (w / 0x100 % 0x100) as u8
    } else if k == 2 {
        (w / 0x1_0000 % 0x100) as u8
    } else {
        (w / 0x100_0000) as u8
    }
}

/// Words written out as bytes, four each, the lowest byte first.
pub open spec fn written(v: Seq<u32>) -> Seq<u8> {
    Seq::new((4 * v.len()) as nat, |j: int| byte_of(v[j / 4], j % 4))
}

/// The bytes of a word are those that it was made of.
proof fn lemma_word_bytes(a: u8, b: u8, c: u8, d: u8)
    ensures
        byte_of(word(a, b, c, d), 0) == a,
        byte_of(word(a, b, c, d), 1) == b,
        byte_of(word(a, b, c, d), 2) == c,
        byte_of(word(a, b, c, d), 3) == d,
{
    let w: int = word(a, b, c, d) as int;
    let x: int = b + c * 0x100 + d * 0x1_0000;
    let y: int = c + d * 0x100;
    assert(w == a + x * 0x100);
    assert(w / 0x100 == x && w % 0x100 == a);
    assert(x == b + y * 0x100);
    assert(x / 0x100 == y && x % 0x100 == b);
    assert(y / 0x100 == d && y % 0x100 == c);
    assert(w / 0x1_0000 == x / 0x100);
    assert(w / 0x100_0000 == y / 0x100);
}

/// The vector read from a byte string has one component for every full four bytes,
/// and writing its components out gives those bytes again.
pub proof fn law_vectors_are_written_back(bytes: Seq<u8>)
    ensures
        words(bytes).len() == bytes.len() / 4,
        written(words(bytes)) == bytes.take(4 * (bytes.len() as int / 4)),
{
    let v = words(bytes);
    let n: int = 4 * (bytes.len() as int / 4);
    assert forall|j: int| 0 <= j < n implies #[trigger] written(v)[j] == bytes[j] by {
        let i: int = j / 4;
        lemma_word_bytes(bytes[4 * i], bytes[4 * i + 1], bytes[4 * i + 2], bytes[4 * i + 3]);
        assert(v[i] == word(bytes[4 * i], bytes[4 * i + 1], bytes[4 * i + 2], bytes[4 * i + 3]));
        assert(j == 4 * i + j % 4);
    }
    assert(written(v) =~= bytes.take(n));
}

/// Every vector is the one that is read from its bytes.
pub proof fn law_written_vectors_are_read_back(v: Seq<u32>)
    ensures
        words(written(v)) == v,
{
    let bytes = written(v);
    assert forall|i: int| 0 <= i < v.len() implies #[trigger] words(bytes)[i] == v[i] by {
        let w = v[i];
        assert(bytes[4 * i] == byte_of(w, 0));
        assert(bytes[4 * i + 1] == byte_of(w, 1));
        assert(bytes[4 * i + 2] == byte_of(w, 2));
        assert(bytes[4 * i + 3] == byte_of(w, 3));
        assert(w == w % 0x100 + (w / 0x100 % 0x100) * 0x100 + (w / 0x1_0000 % 0x100) * 0x1_0000 + (
        w / 0x100_0000) * 0x100_0000);
    }
    assert(words(bytes) =~= v);
}

/// Two byte strings of full fours that hold the same vector are the same.
pub proof fn law_vectors_tell_their_bytes_apart(a: Seq<u8>, b: Seq<u8>)
    requires
        a.len() % 4 == 0,
        b.len() % 4 == 0,
        words(a) == words(b),
    ensures
        a == b,
{
    law_vectors_are_written_back(a);
    law_vectors_are_written_back(b);
    assert(a.take(a.len() as int) =~= a);
    assert(b.take(b.len() as int) =~= b);
}

/// A power of two: one for the exponents zero and one, and twice as much for each further.
pub open spec fn scale(exponent: int) -> int
    decreases exponent,
{
    if exponent <= 1 {
        1
    } else {
        2 * scale(exponent - 1)
    }
}

/// The size of the single with the given pattern below the sign bit, in units of the
/// smallest one: the fraction, with the leading one that all but the smallest
/// exponent imply, times a power of two. Infinity is what follows the largest number.
pub open spec fn magnitude(pattern: int) -> int {
    let exponent = pattern / 0x80_0000;
    let fraction = pattern % 0x80_0000;
    if exponent == 0 {
        fraction
    } else {
        (0x80_0000 + fraction) * scale(exponent)
    }
}

/// The number that a single is, in units of the smallest one.
pub open spec fn number_of(bits: u32) -> int {
    if bits < 0x8000_0000 {
        magnitude(bits as int)
    } else {
        -magnitude(bits - 0x8000_0000)
    }
}

proof fn lemma_scale(exponent: int)
    ensures
        scale(exponent) > 0,
    decreases exponent,
{
    if exponent > 1 {
        lemma_scale(exponent - 1);
    }
}

proof fn lemma_magnitude_step(n: int)
    requires
        0 <= n,
    ensures
        magnitude(n) < magnitude(n + 1),
{
    let e: int = n / 0x80_0000;
    let m: int = n % 0x80_0000;
    let s: int = scale(e);
    lemma_scale(e);
    lemma_scale(e + 1);
    if m + 1 < 0x80_0000 {
        assert((n + 1) / 0x80_0000 == e);
        assert((n + 1) % 0x80_0000 == m + 1);
        assert((0x80_0000 + m) * s < (0x80_0000 + m + 1) * s) by (nonlinear_arith)
            requires
                s > 0,
        ;
    } else {
        assert((n + 1) / 0x80_0000 == e + 1);
        assert((n + 1) % 0x80_0000 == 0);
        if e > 0 {
            assert((0x80_0000 + m) * s < 0x80_0000 * (2 * s)) by (nonlinear_arith)
                requires
                    s > 0,
                    m < 0x80_0000,
            ;
        }
    }
}

proof fn lemma_magnitude_grows(a: int, b: int)
    requires
        0 <= a < b,
    ensures
        magnitude(a) < magnitude(b),
    decreases b - a,
{
    lemma_magnitude_step(b - 1);
    if a < b - 1 {
        lemma_magnitude_grows(a, b - 1);
    }
}

/// Singles are ordered as the numbers that they are: the places of two that are
/// numbers compare as these do, so that the two zeros have one place.
pub proof fn law_places_are_ordered_as_numbers(a: u32, b: u32)
    ensures
        rank_of(a) < rank_of(b) <==> number_of(a) < number_of(b),
        rank_of(a) == rank_of(b) <==> number_of(a) == number_of(b),
{
    let m: int = if a < 0x8000_0000 {
        a as int
    } else {
        a - 0x8000_0000
    };
    let n: int = if b < 0x8000_0000 {
        b as int
    } else {
        b - 0x8000_0000
    };
    assert(magnitude(0) == 0);
    if m > 0 {
        lemma_magnitude_grows(0, m);
    }
    if n > 0 {
        lemma_magnitude_grows(0, n);
    }
    if m < n {
        lemma_magnitude_grows(m, n);
    }
    if n < m {
        lemma_magnitude_grows(n, m);
    }
}

/// One single is less than another where both are numbers and the first is the smaller.
pub proof fn law_less_is_less_as_numbers(a: u32, b: u32)
    ensures
        less_than(a, b) <==> !is_nan(a) && !is_nan(b) && number_of(a) < number_of(b),
{
    law_places_are_ordered_as_numbers(a, b);
}

/// A single is no number where its exponent has every bit set and its fraction has
/// any; so with a double.
pub proof fn law_what_is_not_a_number(single: u32, double: u64)
    ensures
        is_nan(single) <==> single / 0x80_0000 % 0x100 == 0xff && single % 0x80_0000 != 0,
        is_nan_double(double) <==> double / 0x10_0000_0000_0000 % 0x800 == 0x7ff && double
            % 0x10_0000_0000_0000 != 0,
{
}

} // verus!
