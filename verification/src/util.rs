//! Helpers that several engines share: the clock, and JSON text.

use vstd::prelude::*;

use crate::text::{chars_of, digit, digit_char, texts};

verus! {

/// Reads the clock through `SystemTime::elapsed` of the Unix epoch: the whole
/// seconds from the epoch to now, or nothing when the clock reads an earlier
/// time. Nothing is claimed of the reading.
#[verifier::external_body]
fn seconds_since_epoch() -> (r: Option<u64>) {
    std::time::UNIX_EPOCH.elapsed().ok().map(|since| since.as_secs())
}

/// The timestamp for a reading of the clock: the same 64 bits, as a signed number.
pub open spec fn timestamp_at(reading: Option<u64>) -> Option<i64> {
    match reading {
        Some(s) => if s <= i64::MAX {
            Some(s as i64)
        } else {
            Some((s - 0x1_0000_0000_0000_0000) as i64)
        },
        None => None,
    }
}

/// Turns a reading of the clock into a timestamp.
pub fn timestamp_of(reading: Option<u64>) -> (r: Option<i64>)
    ensures
        r == timestamp_at(reading),
{
    match reading {
        Some(s) => {
            if s <= i64::MAX as u64 {
                Some(s as i64)
            } else {
                Some(-((u64::MAX - s) as i64) - 1)
            }
        },
        None => None,
    }
}

/// The current time in seconds since the Unix epoch, or nothing when the clock
/// reads an earlier time.
pub fn unix_timestamp() -> (r: Option<i64>)
    ensures
        exists|reading: Option<u64>| r == #[trigger] timestamp_at(reading),
{
    timestamp_of(seconds_since_epoch())
}

/// The two hexadecimal digits of a number below 256.
pub open spec fn hex_pair(n: int) -> Seq<char> {
    seq![digit(n / 16), digit(n % 16)]
}

/// A character as it is written inside a JSON string.
pub open spec fn json_char(c: char) -> Seq<char> {
    if c == '"' {
        "\\\""@
    } else if c == '\\' {
        "\\\\"@
    } else if c == '\n' {
        "\\n"@
    } else if c == '\r' {
        "\\r"@
    } else if c == '\t' {
        "\\t"@
    } else if (c as u32) < 0x20 {
        "\\u00"@ + hex_pair(c as int)
    } else {
        seq![c]
    }
}

/// A text as it is written inside a JSON string.
pub open spec fn json_escaped(s: Seq<char>) -> Seq<char>
    decreases s.len(),
{
    if s.len() == 0 {
        Seq::empty()
    } else {
        json_escaped(s.drop_last()) + json_char(s.last())
    }
}

fn push_json_char(out: &mut String, c: char)
    ensures
        final(out)@ == old(out)@ + json_char(c),
{
    let code: u32 = c as u32;
    if c == '"' {
        out.append("\\\"");
    } else if c == '\\' {
        out.append("\\\\");
    } else if c == '\n' {
        out.append("\\n");
    } else if c == '\r' {
        out.append("\\r");
    } else if c == '\t' {
        out.append("\\t");
    } else if code < 0x20 {
        out.append("\\u00");
        out.push(digit_char((code / 16) as u64));
        out.push(digit_char((code % 16) as u64));
        proof {
            assert(out@ =~= old(out)@ + ("\\u00"@ + hex_pair(c as int)));
        }
    } else {
        out.push(c);
        proof {
            assert(out@ =~= old(out)@ + seq![c]);
        }
    }
}

/// Writes a text for the inside of a JSON string.
pub fn json_escape(s: &str) -> (r: String)
    ensures
        r@ == json_escaped(s@),
{
    let chars = chars_of(s);
    let mut r = String::new();
    let mut i: usize = 0;
    proof {
        assert(r@ =~= json_escaped(chars@.take(0)));
    }
    while i < chars.len()
        invariant
            chars@ == s@,
            i <= chars@.len(),
            r@ == json_escaped(chars@.take(i as int)),
        decreases chars@.len() - i,
    {
        push_json_char(&mut r, chars[i]);
        proof {
            assert(chars@.take(i + 1).drop_last() =~= chars@.take(i as int));
            assert(chars@.take(i + 1).last() == chars@[i as int]);
        }
        i += 1;
    }
    proof {
        assert(chars@.take(chars@.len() as int) =~= s@);
    }
    r
}

/// Texts one after the other, with a comma between any two.
pub open spec fn joined(items: Seq<Seq<char>>) -> Seq<char>
    decreases items.len(),
{
    if items.len() == 0 {
        Seq::empty()
    } else if items.len() == 1 {
        items[0]
    } else {
        joined(items.drop_last()) + ","@ + items.last()
    }
}

/// A JSON array of items that are already written out.
pub open spec fn json_array_of(items: Seq<Seq<char>>) -> Seq<char> {
    "["@ + joined(items) + "]"@
}

/// Writes a JSON array of items that are already written out.
pub fn json_array(items: &Vec<String>) -> (r: String)
    ensures
        r@ == json_array_of(texts(items@)),
{
    let mut r = String::new();
    r.append("[");
    let mut i: usize = 0;
    proof {
        assert(r@ =~= "["@ + joined(texts(items@).take(0)));
    }
    while i < items.len()
        invariant
            i <= items@.len(),
            r@ == "["@ + joined(texts(items@).take(i as int)),
        decreases items@.len() - i,
    {
        let ghost all = texts(items@);
        let ghost before = r@;
        if i > 0 {
            r.append(",");
        }
        r.append(items[i].as_str());
        proof {
            assert(all.take(i + 1).drop_last() =~= all.take(i as int));
            assert(all.take(i + 1).last() == items@[i as int]@);
            if i == 0 {
                assert(all.take(1)[0] == items@[0]@);
                assert(all.take(0) =~= Seq::empty());
            }
            assert(r@ =~= "["@ + joined(all.take(i + 1)));
        }
        i += 1;
    }
    r.append("]");
    proof {
        assert(texts(items@).take(items@.len() as int) =~= texts(items@));
    }
    r
}

} // verus!
