//! Text: characters, white space, numbers written out and read back, and the
//! comma-separated lists that settings hold.

use vstd::prelude::*;

verus! {

/// `String::push` appends the given character to the end of the string.
pub assume_specification[ String::push ](s: &mut String, c: char)
    ensures
        final(s)@ == old(s)@.push(c),
;

/// The text that an optional string holds.
pub open spec fn text_of(o: Option<String>) -> Option<Seq<char>> {
    match o {
        Some(s) => Some(s@),
        None => None,
    }
}

/// The text that an optional string slice refers to.
pub open spec fn given_text(o: Option<&str>) -> Option<Seq<char>> {
    match o {
        Some(s) => Some(s@),
        None => None,
    }
}

/// Copies an optional string.
pub fn copy_text(o: &Option<String>) -> (r: Option<String>)
    ensures
        text_of(r) == text_of(*o),
{
    match o {
        Some(s) => Some(s.clone()),
        None => None,
    }
}

/// Makes an optional string of its own out of a borrowed one.
pub fn own_text(o: Option<&str>) -> (r: Option<String>)
    ensures
        text_of(r) == given_text(o),
{
    match o {
        Some(s) => Some(s.to_owned()),
        None => None,
    }
}

/// The characters of a string, in order.
pub fn chars_of(s: &str) -> (r: Vec<char>)
    ensures
        r@ == s@,
{
    let mut r: Vec<char> = Vec::new();
    for c in it: s.chars()
        invariant
            r@ == s@.take(it.index() as int),
            it.seq() == s@,
    {
        proof {
            let i: int = it.index() as int;
            assert(s@.take(i + 1) =~= s@.take(i).push(s@[i]));
        }
        r.push(c);
    }
    proof {
        assert(s@.take(s@.len() as int) =~= s@);
    }
    r
}

/// The string made of the characters `chars[from..to]`.
pub fn string_of(chars: &Vec<char>, from: usize, to: usize) -> (r: String)
    requires
        from <= to <= chars@.len(),
    ensures
        r@ == chars@.subrange(from as int, to as int),
{
    let mut r = String::new();
    let mut i: usize = from;
    while i < to
        invariant
            from <= i <= to <= chars@.len(),
            r@ == chars@.subrange(from as int, i as int),
        decreases to - i,
    {
        r.push(chars[i]);
        proof {
            assert(chars@.subrange(from as int, i as int).push(chars@[i as int])
                =~= chars@.subrange(from as int, i + 1));
        }
        i += 1;
    }
    r
}

/// The characters with the Unicode property `White_Space`.
pub open spec fn is_white(c: char) -> bool {
    let v = c as u32;
    ||| 0x09 <= v <= 0x0d
    ||| v == 0x20
    ||| v == 0x85
    ||| v == 0xa0
    ||| v == 0x1680
    ||| 0x2000 <= v <= 0x200a
    ||| v == 0x2028
    ||| v == 0x2029
    ||| v == 0x202f
    ||| v == 0x205f
    ||| v == 0x3000
}

/// Tells whether a character is white space.
pub fn white(c: char) -> (r: bool)
    ensures
        r == is_white(c),
{
    let v: u32 = c as u32;
    (0x09 <= v && v <= 0x0d) || v == 0x20 || v == 0x85 || v == 0xa0 || v == 0x1680 || (0x2000 <= v
        && v <= 0x200a) || v == 0x2028 || v == 0x2029 || v == 0x202f || v == 0x205f || v == 0x3000
}

/// Nothing but white space, or nothing at all.
pub open spec fn is_blank(s: Seq<char>) -> bool {
    forall|i: int| 0 <= i < s.len() ==> is_white(#[trigger] s[i])
}

/// Tells whether a string is empty once trimmed.
pub fn blank(s: &str) -> (r: bool)
    ensures
        r == is_blank(s@),
{
    let chars = chars_of(s);
    let mut i: usize = 0;
    while i < chars.len()
        invariant
            chars@ == s@,
            i <= chars@.len(),
            forall|k: int| 0 <= k < i ==> is_white(#[trigger] s@[k]),
        decreases chars@.len() - i,
    {
        if !white(chars[i]) {
            return false;
        }
        i += 1;
    }
    true
}

/// `s` without the white space at its start.
pub open spec fn trim_start(s: Seq<char>) -> Seq<char>
    decreases s.len(),
{
    if s.len() > 0 && is_white(s[0]) {
        trim_start(s.drop_first())
    } else {
        s
    }
}

/// `s` without the white space at its end.
pub open spec fn trim_end(s: Seq<char>) -> Seq<char>
    decreases s.len(),
{
    if s.len() > 0 && is_white(s.last()) {
        trim_end(s.drop_last())
    } else {
        s
    }
}

/// `s` without the white space at either end.
pub open spec fn trimmed(s: Seq<char>) -> Seq<char> {
    trim_end(trim_start(s))
}

/// A copy of the characters without the white space at either end.
pub fn trim(chars: &Vec<char>) -> (r: String)
    ensures
        r@ == trimmed(chars@),
{
    let mut from: usize = 0;
    proof {
        assert(chars@.skip(0) =~= chars@);
    }
    while from < chars.len() && white(chars[from])
        invariant
            from <= chars@.len(),
            trim_start(chars@) == trim_start(chars@.skip(from as int)),
        decreases chars@.len() - from,
    {
        proof {
            assert(chars@.skip(from as int)[0] == chars@[from as int]);
            assert(chars@.skip(from as int).drop_first() =~= chars@.skip(from + 1));
        }
        from += 1;
    }
    let ghost head = chars@.skip(from as int);
    proof {
        if head.len() > 0 {
            assert(head[0] == chars@[from as int]);
        }
        assert(trim_start(chars@) == head);
    }
    let mut to: usize = chars.len();
    proof {
        assert(head.take(head.len() as int) =~= head);
    }
    while from < to && white(chars[to - 1])
        invariant
            from <= to <= chars@.len(),
            head == chars@.skip(from as int),
            trim_end(head) == trim_end(head.take(to - from)),
        decreases to,
    {
        proof {
            assert(head.take(to - from).last() == chars@[to - 1]);
            assert(head.take(to - from).drop_last() =~= head.take(to - from - 1));
        }
        to -= 1;
    }
    proof {
        if from < to {
            assert(head.take(to - from).last() == chars@[to - 1]);
        }
        assert(chars@.subrange(from as int, to as int) =~= head.take(to - from));
    }
    string_of(chars, from, to)
}

/// The pieces of `s` between the separators, one more than there are separators.
pub open spec fn fields(s: Seq<char>, sep: char) -> Seq<Seq<char>>
    decreases s.len(),
{
    if s.len() == 0 {
        seq![Seq::<char>::empty()]
    } else {
        let rest = fields(s.drop_last(), sep);
        if s.last() == sep {
            rest.push(Seq::empty())
        } else {
            rest.drop_last().push(rest.last().push(s.last()))
        }
    }
}

/// The items of a comma-separated list: trimmed, the empty ones left out.
pub open spec fn list_items(s: Seq<char>) -> Seq<Seq<char>> {
    trimmed_items(fields(s, ','))
}

/// The given pieces trimmed, without those of which nothing is left.
pub open spec fn trimmed_items(pieces: Seq<Seq<char>>) -> Seq<Seq<char>> {
    pieces.map_values(|f: Seq<char>| trimmed(f)).filter(|f: Seq<char>| f.len() > 0)
}

proof fn lemma_trimmed_items_push(pieces: Seq<Seq<char>>, f: Seq<char>)
    ensures
        trimmed_items(pieces.push(f)) == (if trimmed(f).len() > 0 {
            trimmed_items(pieces).push(trimmed(f))
        } else {
            trimmed_items(pieces)
        }),
{
    let g = |f: Seq<char>| trimmed(f);
    let p = |f: Seq<char>| f.len() > 0;
    assert(pieces.push(f).map_values(g) =~= pieces.map_values(g).push(trimmed(f)));
    crate::seqs::lemma_filter_push(pieces.map_values(g), trimmed(f), p);
}

/// The texts of a list of strings.
pub open spec fn texts(v: Seq<String>) -> Seq<Seq<char>> {
    v.map_values(|s: String| s@)
}

pub proof fn lemma_texts_push(v: Seq<String>, s: String)
    ensures
        texts(v.push(s)) == texts(v).push(s@),
{
    assert(texts(v.push(s)) =~= texts(v).push(s@));
}

/// Reads a comma-separated list.
pub fn split_list(s: &str) -> (r: Vec<String>)
    ensures
        texts(r@) == list_items(s@),
{
    let chars = chars_of(s);
    let mut items: Vec<String> = Vec::new();
    let mut current: Vec<char> = Vec::new();
    let mut i: usize = 0;
    let ghost mut closed: Seq<Seq<char>> = Seq::empty();
    proof {
        assert(chars@.take(0) =~= Seq::<char>::empty());
        assert(fields(Seq::empty(), ',') =~= closed.push(Seq::<char>::empty()));
        assert(closed.map_values(|f: Seq<char>| trimmed(f)) =~= Seq::empty());
        crate::seqs::lemma_filter_empty(|f: Seq<char>| f.len() > 0);
        assert(texts(items@) =~= trimmed_items(closed));
    }
    while i < chars.len()
        invariant
            i <= chars@.len(),
            chars@ == s@,
            fields(chars@.take(i as int), ',') == closed.push(current@),
            texts(items@) == trimmed_items(closed),
        decreases chars@.len() - i,
    {
        let c = chars[i];
        let ghost before = chars@.take(i as int);
        proof {
            assert(chars@.take(i + 1) =~= before.push(c));
            assert(before.push(c).drop_last() =~= before);
        }
        if c == ',' {
            let item = trim(&current);
            proof {
                lemma_trimmed_items_push(closed, current@);
                lemma_texts_push(items@, item);
                closed = closed.push(current@);
            }
            if item.as_str().is_empty() {
            } else {
                items.push(item);
            }
            current = Vec::new();
        } else {
            proof {
                assert(closed.push(current@).drop_last() =~= closed);
            }
            current.push(c);
        }
        i += 1;
    }
    let item = trim(&current);
    proof {
        assert(chars@.take(chars@.len() as int) =~= s@);
        lemma_trimmed_items_push(closed, current@);
        lemma_texts_push(items@, item);
    }
    if item.as_str().is_empty() {
    } else {
        items.push(item);
    }
    items
}

/// The character of a digit below sixteen.
pub open spec fn digit(d: int) -> char {
    if d < 10 {
        (48 + d) as char
    } else {
        (87 + d) as char
    }
}

/// Writes a digit below sixteen.
pub fn digit_char(d: u64) -> (c: char)
    requires
        d < 16,
    ensures
        c == digit(d as int),
{
    if d < 10 {
        (48 + d) as u8 as char
    } else {
        (87 + d) as u8 as char
    }
}

/// `n` written in the given base, without leading zeros.
pub open spec fn numeral(n: nat, base: nat) -> Seq<char>
    decreases n,
{
    if base < 2 || n < base {
        seq![digit(n as int)]
    } else {
        proof {
            assert(n / base < n) by (nonlinear_arith)
                requires
                    n >= base,
                    base >= 2,
            ;
        }
        numeral(n / base, base).push(digit((n % base) as int))
    }
}

/// `i` in decimal, with a sign when negative.
pub open spec fn decimal(i: int) -> Seq<char> {
    if i < 0 {
        seq!['-'] + numeral((-i) as nat, 10)
    } else {
        numeral(i as nat, 10)
    }
}

/// Appends `n` in the given base.
pub fn push_numeral(out: &mut String, n: u64, base: u64)
    requires
        2 <= base <= 16,
    ensures
        final(out)@ == old(out)@ + numeral(n as nat, base as nat),
    decreases n,
{
    if n < base {
        out.push(digit_char(n));
        proof {
            assert(old(out)@.push(digit(n as int)) =~= old(out)@ + seq![digit(n as int)]);
        }
    } else {
        assert(n / base < n) by (nonlinear_arith)
            requires
                n >= base,
                base >= 2,
        ;
        push_numeral(out, n / base, base);
        let ghost mid = out@;
        out.push(digit_char(n % base));
        proof {
            assert(mid.push(digit((n % base) as int)) =~= old(out)@ + numeral(
                (n / base) as nat,
                base as nat,
            ).push(digit((n % base) as int)));
        }
    }
}

/// Appends `i` in decimal.
pub fn push_decimal(out: &mut String, i: i64)
    ensures
        final(out)@ == old(out)@ + decimal(i as int),
{
    if i < 0 {
        out.push('-');
        let magnitude: u64 = ((-(i + 1)) as u64) + 1;
        let ghost mid = out@;
        push_numeral(out, magnitude, 10);
        proof {
            assert(mid + numeral(magnitude as nat, 10) =~= old(out)@ + (seq!['-'] + numeral(
                magnitude as nat,
                10,
            )));
        }
    } else {
        push_numeral(out, i as u64, 10);
    }
}

/// `i` in decimal, as a string.
pub fn decimal_string(i: i64) -> (r: String)
    ensures
        r@ == decimal(i as int),
{
    let mut r = String::new();
    push_decimal(&mut r, i);
    proof {
        assert(Seq::<char>::empty() + decimal(i as int) =~= decimal(i as int));
    }
    r
}

/// A decimal digit.
pub open spec fn is_digit(c: char) -> bool {
    '0' <= c <= '9'
}

pub open spec fn all_digits(s: Seq<char>) -> bool {
    forall|i: int| 0 <= i < s.len() ==> is_digit(#[trigger] s[i])
}

/// The number that a row of decimal digits writes.
pub open spec fn digits_value(s: Seq<char>) -> nat
    decreases s.len(),
{
    if s.len() == 0 {
        0
    } else {
        digits_value(s.drop_last()) * 10 + ((s.last() as int) - 48) as nat
    }
}

/// What a text says as an unsigned machine integer: an optional plus sign and
/// at least one digit, no larger than the type holds.
pub open spec fn usize_value(s: Seq<char>) -> Option<usize> {
    let body = if s.len() > 0 && s[0] == '+' {
        s.skip(1)
    } else {
        s
    };
    if body.len() > 0 && all_digits(body) && digits_value(body) <= usize::MAX {
        Some(digits_value(body) as usize)
    } else {
        None
    }
}

proof fn lemma_digits_value_grows(s: Seq<char>, i: int)
    requires
        0 <= i <= s.len(),
        all_digits(s),
    ensures
        digits_value(s.take(i)) <= digits_value(s),
    decreases s.len() - i,
{
    if i < s.len() {
        lemma_digits_value_grows(s, i + 1);
        assert(s.take(i + 1).drop_last() =~= s.take(i));
        assert(s.take(i + 1).last() == s[i]);
    } else {
        assert(s.take(i) =~= s);
    }
}

/// Reads an unsigned machine integer.
pub fn parse_usize(s: &str) -> (r: Option<usize>)
    ensures
        r == usize_value(s@),
{
    let chars = chars_of(s);
    let from: usize = if chars.len() > 0 && chars[0] == '+' {
        1
    } else {
        0
    };
    let ghost body = s@.skip(from as int);
    proof {
        assert(s@.skip(0) =~= s@);
    }
    if from == chars.len() {
        return None;
    }
    let mut value: usize = 0;
    let mut i: usize = from;
    proof {
        assert(body.take(0) =~= Seq::<char>::empty());
    }
    while i < chars.len()
        invariant
            from <= i <= chars@.len(),
            chars@ == s@,
            body == s@.skip(from as int),
            body == (if s@.len() > 0 && s@[0] == '+' {
                s@.skip(1)
            } else {
                s@
            }),
            all_digits(body.take(i - from)),
            value == digits_value(body.take(i - from)),
        decreases chars@.len() - i,
    {
        let c = chars[i];
        let ghost k: int = i - from;
        proof {
            assert(body[k] == c);
            assert(body.take(k + 1) =~= body.take(k).push(c));
            assert(body.take(k + 1).drop_last() =~= body.take(k));
        }
        if c < '0' || '9' < c {
            proof {
                assert(!is_digit(body[k]));
            }
            return None;
        }
        let d: usize = (c as u32 - 48) as usize;
        if value > (usize::MAX - d) / 10 {
            proof {
                if all_digits(body) {
                    lemma_digits_value_grows(body, k + 1);
                }
            }
            return None;
        }
        value = value * 10 + d;
        proof {
            assert forall|j: int| 0 <= j < body.take(k + 1).len() implies is_digit(
                #[trigger] body.take(k + 1)[j],
            ) by {
                if j < k {
                    assert(body.take(k)[j] == body.take(k + 1)[j]);
                }
            }
        }
        i += 1;
    }
    proof {
        assert(body.take(body.len() as int) =~= body);
    }
    Some(value)
}

} // verus!
