//! What holds of text: white space, lists, and numbers written out and read back.

use vstd::prelude::*;

use crate::seqs::{lemma_filter_empty, lemma_filter_push};
use crate::text::{
    decimal, digit, digits_value, fields, is_blank, is_white, list_items, numeral, trim_end,
    trim_start, trimmed, trimmed_items, usize_value,
};

verus! {

/// White space is what Unicode lists as such, and nothing else.
pub proof fn law_white_space_is_what_unicode_lists(c: char)
    ensures
        is_white(c) <==> seq![
            '\u{9}',
            '\u{a}',
            '\u{b}',
            '\u{c}',
            '\u{d}',
            '\u{20}',
            '\u{85}',
            '\u{a0}',
            '\u{1680}',
            '\u{2000}',
            '\u{2001}',
            '\u{2002}',
            '\u{2003}',
            '\u{2004}',
            '\u{2005}',
            '\u{2006}',
            '\u{2007}',
            '\u{2008}',
            '\u{2009}',
            '\u{200a}',
            '\u{2028}',
            '\u{2029}',
            '\u{202f}',
            '\u{205f}',
            '\u{3000}',
        ].contains(c),
{
    let all = seq![
        '\u{9}',
        '\u{a}',
        '\u{b}',
        '\u{c}',
        '\u{d}',
        '\u{20}',
        '\u{85}',
        '\u{a0}',
        '\u{1680}',
        '\u{2000}',
        '\u{2001}',
        '\u{2002}',
        '\u{2003}',
        '\u{2004}',
        '\u{2005}',
        '\u{2006}',
        '\u{2007}',
        '\u{2008}',
        '\u{2009}',
        '\u{200a}',
        '\u{2028}',
        '\u{2029}',
        '\u{202f}',
        '\u{205f}',
        '\u{3000}',
    ];
    let v = c as u32;
    if is_white(c) {
        let at: int = if v <= 0x0d {
            v - 0x09
        } else if v == 0x20 {
            5
        } else if v == 0x85 {
            6
        } else if v == 0xa0 {
            7
        } else if v == 0x1680 {
            8
        } else if v <= 0x200a {
            9 + (v - 0x2000)
        } else if v == 0x2028 {
            20
        } else if v == 0x2029 {
            21
        } else if v == 0x202f {
            22
        } else if v == 0x205f {
            23
        } else {
            24
        };
        assert(all[at] == c);
    }
}

proof fn lemma_trim_start(s: Seq<char>) -> (from: int)
    ensures
        0 <= from <= s.len(),
        trim_start(s) == s.skip(from),
        forall|i: int| 0 <= i < from ==> is_white(#[trigger] s[i]),
        from < s.len() ==> !is_white(s[from]),
    decreases s.len(),
{
    if s.len() > 0 && is_white(s[0]) {
        let rest = s.drop_first();
        let from: int = lemma_trim_start(rest) + 1;
        assert(rest.skip(from - 1) =~= s.skip(from));
        assert forall|i: int| 0 <= i < from implies is_white(#[trigger] s[i]) by {
            if i > 0 {
                assert(rest[i - 1] == s[i]);
            }
        }
        if from < s.len() {
            assert(rest[from - 1] == s[from]);
        }
        from
    } else {
        assert(s.skip(0) =~= s);
        0
    }
}

proof fn lemma_trim_end(s: Seq<char>) -> (to: int)
    ensures
        0 <= to <= s.len(),
        trim_end(s) == s.take(to),
        forall|i: int| to <= i < s.len() ==> is_white(#[trigger] s[i]),
        to > 0 ==> !is_white(s[to - 1]),
    decreases s.len(),
{
    if s.len() > 0 && is_white(s.last()) {
        let rest = s.drop_last();
        let to: int = lemma_trim_end(rest);
        assert(rest.take(to) =~= s.take(to));
        assert forall|i: int| to <= i < s.len() implies is_white(#[trigger] s[i]) by {
            if i < s.len() - 1 {
                assert(rest[i] == s[i]);
            }
        }
        if to > 0 {
            assert(rest[to - 1] == s[to - 1]);
        }
        to
    } else {
        assert(s.take(s.len() as int) =~= s);
        s.len() as int
    }
}

/// What trimming leaves is a stretch of the text that neither starts nor ends with
/// white space, and nothing but white space lies outside it. Gives where that
/// stretch starts and ends.
pub proof fn law_trimming_takes_white_space_off_both_ends(s: Seq<char>) -> (ends: (int, int))
    ensures
        0 <= ends.0 <= ends.1 <= s.len(),
        trimmed(s) == s.subrange(ends.0, ends.1),
        forall|i: int| 0 <= i < ends.0 ==> is_white(#[trigger] s[i]),
        forall|i: int| ends.1 <= i < s.len() ==> is_white(#[trigger] s[i]),
        ends.0 < ends.1 ==> !is_white(s[ends.0]) && !is_white(s[ends.1 - 1]),
{
    let from: int = lemma_trim_start(s);
    let rest = s.skip(from);
    let n: int = lemma_trim_end(rest);
    assert(rest.take(n) =~= s.subrange(from, from + n));
    assert forall|i: int| from + n <= i < s.len() implies is_white(#[trigger] s[i]) by {
        assert(rest[i - from] == s[i]);
    }
    if n > 0 {
        assert(rest[n - 1] == s[from + n - 1]);
        if is_white(s[from]) {
            assert(from < s.len());
        }
    }
    (from, from + n)
}

/// A text is blank where trimming leaves nothing of it, which is where it holds no
/// character but white space.
pub proof fn law_blank_is_what_trimming_empties(s: Seq<char>)
    ensures
        is_blank(s) <==> trimmed(s).len() == 0,
        is_blank(s) <==> !exists|i: int| 0 <= i < s.len() && !is_white(#[trigger] s[i]),
{
    let ends = law_trimming_takes_white_space_off_both_ends(s);
    if is_blank(s) && ends.0 < ends.1 {
        assert(is_white(s[ends.0]));
    }
}

/// A piece after a separator is one more field.
proof fn lemma_fields_split(s: Seq<char>, p: Seq<char>, sep: char)
    requires
        !p.contains(sep),
    ensures
        fields(s.push(sep) + p, sep) == fields(s, sep).push(p),
    decreases p.len(),
{
    let whole = s.push(sep) + p;
    if p.len() == 0 {
        assert(whole =~= s.push(sep));
        assert(s.push(sep).drop_last() =~= s);
        assert(p =~= Seq::<char>::empty());
    } else {
        let rest = p.drop_last();
        assert forall|i: int| 0 <= i < rest.len() implies rest[i] != sep by {
            assert(p.contains(p[i]));
        }
        lemma_fields_split(s, rest, sep);
        assert(whole.drop_last() =~= s.push(sep) + rest);
        assert(whole.last() == p.last());
        assert(p.contains(p.last()));
        assert(rest.push(p.last()) =~= p);
        assert(fields(s, sep).push(rest).drop_last() =~= fields(s, sep));
    }
}

/// A text without a separator is one field.
proof fn lemma_single_field(p: Seq<char>, sep: char)
    requires
        !p.contains(sep),
    ensures
        fields(p, sep) == seq![p],
    decreases p.len(),
{
    if p.len() == 0 {
        assert(p =~= Seq::<char>::empty());
    } else {
        let rest = p.drop_last();
        assert forall|i: int| 0 <= i < rest.len() implies rest[i] != sep by {
            assert(p.contains(p[i]));
        }
        lemma_single_field(rest, sep);
        assert(p.contains(p.last()));
        assert(rest.push(p.last()) =~= p);
        assert(seq![rest].drop_last().push(p) =~= seq![p]);
    }
}

proof fn lemma_items_push(pieces: Seq<Seq<char>>, f: Seq<char>)
    ensures
        trimmed_items(pieces.push(f)) == (if trimmed(f).len() > 0 {
            trimmed_items(pieces).push(trimmed(f))
        } else {
            trimmed_items(pieces)
        }),
{
    let g = |f: Seq<char>| trimmed(f);
    assert(pieces.push(f).map_values(g) =~= pieces.map_values(g).push(trimmed(f)));
    lemma_filter_push(pieces.map_values(g), trimmed(f), |f: Seq<char>| f.len() > 0);
}

/// A list without a comma has one item, what trimming leaves of it, or none where
/// that is nothing.
pub proof fn law_list_of_one(p: Seq<char>)
    requires
        !p.contains(','),
    ensures
        list_items(p) == (if trimmed(p).len() > 0 {
            seq![trimmed(p)]
        } else {
            Seq::empty()
        }),
{
    lemma_single_field(p, ',');
    let none = Seq::<Seq<char>>::empty();
    lemma_items_push(none, p);
    assert(none.map_values(|f: Seq<char>| trimmed(f)) =~= none);
    lemma_filter_empty(|f: Seq<char>| f.len() > 0);
    assert(seq![p] =~= none.push(p));
    assert(none.push(trimmed(p)) =~= seq![trimmed(p)]);
}

/// What follows a further comma is a further item: the items of a list that goes on
/// are those it had, and those of what was added.
pub proof fn law_list_goes_on_behind_a_comma(s: Seq<char>, p: Seq<char>)
    requires
        !p.contains(','),
    ensures
        list_items(s.push(',') + p) == list_items(s) + list_items(p),
{
    lemma_fields_split(s, p, ',');
    lemma_items_push(fields(s, ','), p);
    law_list_of_one(p);
    assert(list_items(s.push(',') + p) =~= list_items(s) + list_items(p));
}

/// The number that a character stands for as a digit: the decimal digits, and the
/// lower-case letters from ten on.
pub open spec fn digit_number(c: char) -> int {
    if '0' <= c <= '9' {
        c as int - '0' as int
    } else if 'a' <= c <= 'z' {
        c as int - 'a' as int + 10
    } else {
        -1
    }
}

/// A power of a base.
pub open spec fn power(base: int, exponent: nat) -> int
    decreases exponent,
{
    if exponent == 0 {
        1
    } else {
        base * power(base, (exponent - 1) as nat)
    }
}

/// What a row of digits says: each digit times its power of the base, the last one
/// times one.
pub open spec fn positional(s: Seq<char>, base: int) -> int
    decreases s.len(),
{
    if s.len() == 0 {
        0
    } else {
        digit_number(s[0]) * power(base, (s.len() - 1) as nat) + positional(s.drop_first(), base)
    }
}

/// One more digit at the end moves the others up by one power.
pub proof fn lemma_positional_push(s: Seq<char>, c: char, base: int)
    ensures
        positional(s.push(c), base) == positional(s, base) * base + digit_number(c),
    decreases s.len(),
{
    let whole = s.push(c);
    if s.len() == 0 {
        assert(whole.drop_first() =~= Seq::<char>::empty());
        assert(power(base, 0) == 1);
        assert(positional(whole.drop_first(), base) == 0);
        assert(positional(s, base) == 0);
        assert(digit_number(c) * 1 == digit_number(c));
        assert(0 * base == 0);
    } else {
        lemma_positional_push(s.drop_first(), c, base);
        assert(whole.drop_first() =~= s.drop_first().push(c));
        let d = digit_number(s[0]);
        let p = power(base, (s.len() - 1) as nat);
        let rest = positional(s.drop_first(), base);
        assert(power(base, s.len()) == base * p);
        assert(d * (base * p) + (rest * base + digit_number(c)) == (d * p + rest) * base
            + digit_number(c)) by (nonlinear_arith);
    }
}

/// A number written out is a row of digits of the base that says the number, without
/// a zero in front of others.
pub proof fn law_written_numbers_say_the_number(n: nat, base: nat)
    requires
        2 <= base <= 36,
    ensures
        numeral(n, base).len() > 0,
        forall|i: int|
            0 <= i < numeral(n, base).len() ==> 0 <= digit_number(#[trigger] numeral(n, base)[i])
                < base,
        positional(numeral(n, base), base as int) == n,
        n > 0 ==> numeral(n, base)[0] != '0',
        n == 0 ==> numeral(n, base).len() == 1,
    decreases n,
{
    let s = numeral(n, base);
    if n < base {
        assert(digit_number(digit(n as int)) == n);
        assert(s =~= Seq::<char>::empty().push(digit(n as int)));
        lemma_positional_push(Seq::empty(), digit(n as int), base as int);
        assert(positional(Seq::<char>::empty(), base as int) * base == 0) by {
            assert(positional(Seq::<char>::empty(), base as int) == 0);
            assert(0 * base == 0);
        }
    } else {
        assert(0 < n / base < n) by (nonlinear_arith)
            requires
                n >= base,
                base >= 2,
        ;
        let rest = numeral(n / base, base);
        let d: int = (n % base) as int;
        law_written_numbers_say_the_number(n / base, base);
        assert(0 <= d < base) by (nonlinear_arith)
            requires
                base >= 2,
                d == n % base,
        ;
        assert(digit_number(digit(d)) == d);
        lemma_positional_push(rest, digit(d), base as int);
        assert((n / base) * base + d == n) by (nonlinear_arith)
            requires
                base >= 2,
                d == n % base,
        ;
        assert(s == rest.push(digit(d)));
        assert forall|i: int| 0 <= i < s.len() implies 0 <= digit_number(#[trigger] s[i])
            < base by {
            if i < rest.len() {
                assert(s[i] == rest[i]);
            }
        }
        assert(s[0] == rest[0]);
    }
}

/// Two numbers that are written out alike are the same.
pub proof fn law_written_numbers_differ(m: nat, n: nat, base: nat)
    requires
        2 <= base <= 36,
        numeral(m, base) == numeral(n, base),
    ensures
        m == n,
{
    law_written_numbers_say_the_number(m, base);
    law_written_numbers_say_the_number(n, base);
}

/// A whole number in decimal: its digits, and a minus sign in front where it is
/// negative. Two that are written alike are the same.
pub proof fn law_decimals_say_the_number(i: int)
    ensures
        i >= 0 ==> positional(decimal(i), 10) == i && decimal(i)[0] != '-',
        i < 0 ==> decimal(i).len() > 0 && decimal(i)[0] == '-' && positional(
            decimal(i).skip(1),
            10,
        ) == -i,
        forall|k: int|
            (if i < 0 {
                1int
            } else {
                0int
            }) <= k < decimal(i).len() ==> '0' <= #[trigger] decimal(i)[k] <= '9',
        i > 0 ==> decimal(i)[0] != '0',
        i < 0 ==> decimal(i).len() > 1 && decimal(i)[1] != '0',
        i == 0 ==> decimal(i).len() == 1,
{
    let n: nat = if i < 0 {
        (-i) as nat
    } else {
        i as nat
    };
    law_written_numbers_say_the_number(n, 10);
    let s = numeral(n, 10);
    assert(0 <= digit_number(s[0]) < 10);
    if i < 0 {
        assert(decimal(i).skip(1) =~= s);
        assert forall|k: int| 1 <= k < decimal(i).len() implies '0' <= #[trigger] decimal(i)[k]
            <= '9' by {
            assert(decimal(i)[k] == s[k - 1]);
            assert(0 <= digit_number(s[k - 1]) < 10);
        }
        assert(decimal(i)[1] == s[0]);
    } else {
        assert forall|k: int| 0 <= k < decimal(i).len() implies '0' <= #[trigger] decimal(i)[k]
            <= '9' by {
            assert(0 <= digit_number(s[k]) < 10);
        }
    }
}

/// What is read from a row of decimal digits is what they say.
proof fn lemma_digits_say(s: Seq<char>)
    requires
        forall|i: int| 0 <= i < s.len() ==> '0' <= #[trigger] s[i] <= '9',
    ensures
        digits_value(s) == positional(s, 10),
    decreases s.len(),
{
    if s.len() > 0 {
        let rest = s.drop_last();
        assert forall|i: int| 0 <= i < rest.len() implies '0' <= #[trigger] rest[i] <= '9' by {
            assert(rest[i] == s[i]);
        }
        lemma_digits_say(rest);
        lemma_positional_push(rest, s.last(), 10);
        assert(rest.push(s.last()) =~= s);
    }
}

/// A row of decimal digits, at least one, is read as the number that it says, with
/// or without a plus sign in front, where the machine can hold that number, and as
/// no number where it cannot.
pub proof fn law_numbers_are_read_as_they_are_written(s: Seq<char>)
    requires
        s.len() > 0,
        forall|i: int| 0 <= i < s.len() ==> '0' <= #[trigger] s[i] <= '9',
    ensures
        positional(s, 10) >= 0,
        positional(s, 10) <= usize::MAX ==> usize_value(s) == Some(positional(s, 10) as usize)
            && usize_value(seq!['+'] + s) == Some(positional(s, 10) as usize),
        positional(s, 10) > usize::MAX ==> usize_value(s) is None && usize_value(
            seq!['+'] + s,
        ) is None,
{
    lemma_digits_say(s);
    assert('0' <= s[0] <= '9');
    assert((seq!['+'] + s).skip(1) =~= s);
}

/// Whatever holds another character, or no digit, is read as no number.
pub proof fn law_what_is_not_digits_is_no_number(s: Seq<char>)
    ensures
        s.len() == 0 ==> usize_value(s) is None,
        s == seq!['+'] ==> usize_value(s) is None,
        s.len() > 0 && !('0' <= s[0] <= '9' || s[0] == '+') ==> usize_value(s) is None,
        (exists|i: int| 1 <= i < s.len() && !('0' <= #[trigger] s[i] <= '9')) ==> usize_value(
            s,
        ) is None,
{
    let body = if s.len() > 0 && s[0] == '+' {
        s.skip(1)
    } else {
        s
    };
    if exists|i: int| 1 <= i < s.len() && !('0' <= #[trigger] s[i] <= '9') {
        let i = choose|i: int| 1 <= i < s.len() && !('0' <= #[trigger] s[i] <= '9');
        if s[0] == '+' {
            assert(body[i - 1] == s[i]);
        } else {
            assert(body[i] == s[i]);
        }
    }
    if s.len() > 0 && !('0' <= s[0] <= '9' || s[0] == '+') {
        assert(body[0] == s[0]);
    }
}

/// A number that the machine can hold, written out, is read back.
pub proof fn law_written_numbers_are_read_back(n: usize)
    ensures
        usize_value(decimal(n as int)) == Some(n),
{
    law_decimals_say_the_number(n as int);
    law_numbers_are_read_as_they_are_written(decimal(n as int));
}

} // verus!
