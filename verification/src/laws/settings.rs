//! What holds of the settings: what a database starts with, and how they are read.

use vstd::prelude::*;

use crate::document::chunk_settings;
use crate::graph::{top_count, wanted};
use crate::laws::text::{law_numbers_are_read_as_they_are_written, positional};
use crate::ranking::expand::{decay_setting, hop_decay};
use crate::seqs::{lemma_first_absent, lemma_first_at, lemma_first_found, lemma_first_push};
use crate::storage::Database;
use crate::storage::schema::with_settings;
use crate::storage::settings::{
    get_f64, get_usize, list_setting, reads_as, setting_value, under, usize_setting,
};
use crate::storage::tables::{SettingRow, Tables};
use crate::text::{list_items, usize_value};

verus! {

/// A value that is stored is never overwritten by a default.
pub proof fn law_stored_settings_are_kept(s: Seq<SettingRow>, defaults: Seq<SettingRow>, key: Seq<
    char,
>)
    requires
        setting_value(s, key) is Some,
    ensures
        setting_value(with_settings(s, defaults), key) == setting_value(s, key),
    decreases defaults.len(),
{
    if defaults.len() > 0 {
        law_stored_settings_are_kept(s, defaults.drop_last(), key);
        lemma_first_push(with_settings(s, defaults.drop_last()), defaults.last(), under(key));
    }
}

/// Every default has a value afterwards.
pub proof fn law_every_default_is_set(s: Seq<SettingRow>, defaults: Seq<SettingRow>, i: int)
    requires
        0 <= i < defaults.len(),
    ensures
        setting_value(with_settings(s, defaults), defaults[i].key) is Some,
    decreases defaults.len(),
{
    let before = with_settings(s, defaults.drop_last());
    let key = defaults[i].key;
    lemma_first_push(before, defaults.last(), under(key));
    if i < defaults.len() - 1 {
        assert(defaults.drop_last()[i] == defaults[i]);
        law_every_default_is_set(s, defaults.drop_last(), i);
    }
}

/// Where every key has a value, nothing is added.
proof fn lemma_nothing_to_add(s: Seq<SettingRow>, defaults: Seq<SettingRow>)
    requires
        forall|i: int|
            0 <= i < defaults.len() ==> setting_value(s, (#[trigger] defaults[i]).key) is Some,
    ensures
        with_settings(s, defaults) == s,
    decreases defaults.len(),
{
    if defaults.len() > 0 {
        let rest = defaults.drop_last();
        assert forall|i: int| 0 <= i < rest.len() implies setting_value(
            s,
            (#[trigger] rest[i]).key,
        ) is Some by {
            assert(rest[i] == defaults[i]);
        }
        lemma_nothing_to_add(s, rest);
        assert(defaults.last() == defaults[defaults.len() - 1]);
    }
}

/// Setting the defaults once more changes nothing.
pub proof fn law_setting_defaults_twice_is_setting_them_once(
    s: Seq<SettingRow>,
    defaults: Seq<SettingRow>,
)
    ensures
        with_settings(with_settings(s, defaults), defaults) == with_settings(s, defaults),
{
    let u = with_settings(s, defaults);
    assert forall|i: int| 0 <= i < defaults.len() implies setting_value(
        u,
        (#[trigger] defaults[i]).key,
    ) is Some by {
        law_every_default_is_set(s, defaults, i);
    }
    lemma_nothing_to_add(u, defaults);
}

/// Where a key has one row, what is stored under it is the value in that row.
pub proof fn law_setting_is_the_row_with_its_key(s: Seq<SettingRow>, i: int)
    requires
        0 <= i < s.len(),
        forall|j: int| 0 <= j < s.len() && j != i ==> (#[trigger] s[j]).key != s[i].key,
    ensures
        setting_value(s, s[i].key) == Some(s[i].value),
{
    lemma_first_at(s, under(s[i].key), i);
}

/// Where no row has a key, nothing is stored under it.
pub proof fn law_setting_without_a_row_is_absent(s: Seq<SettingRow>, key: Seq<char>)
    requires
        forall|j: int| 0 <= j < s.len() ==> (#[trigger] s[j]).key != key,
    ensures
        setting_value(s, key) is None,
{
    lemma_first_absent(s, under(key));
}

/// A stored row of digits is the number used, whatever the default is, as long as
/// the machine can hold it.
pub proof fn law_stored_number_is_used(s: Seq<SettingRow>, i: int, default: usize)
    requires
        0 <= i < s.len(),
        forall|j: int| 0 <= j < s.len() && j != i ==> (#[trigger] s[j]).key != s[i].key,
        s[i].value.len() > 0,
        forall|k: int| 0 <= k < s[i].value.len() ==> '0' <= #[trigger] s[i].value[k] <= '9',
        positional(s[i].value, 10) <= usize::MAX,
    ensures
        usize_setting(s, s[i].key, default) == positional(s[i].value, 10),
{
    law_setting_is_the_row_with_its_key(s, i);
    law_numbers_are_read_as_they_are_written(s[i].value);
}

/// The default is used where nothing is stored, and where what is stored cannot be
/// read as a number.
pub proof fn law_default_number_is_for_want_of_another(
    s: Seq<SettingRow>,
    key: Seq<char>,
    default: usize,
)
    requires
        forall|j: int|
            0 <= j < s.len() && (#[trigger] s[j]).key == key ==> usize_value(s[j].value) is None,
    ensures
        usize_setting(s, key, default) == default,
{
    if setting_value(s, key) is Some {
        let j: int = lemma_first_found(s, under(key));
        assert(s[j].key == key);
    }
}

/// A stored list is used item by item, and nothing stored is an empty list.
pub proof fn law_stored_list_is_used(s: Seq<SettingRow>, i: int, other: Seq<char>)
    requires
        0 <= i < s.len(),
        forall|j: int| 0 <= j < s.len() && j != i ==> (#[trigger] s[j]).key != s[i].key,
        forall|j: int| 0 <= j < s.len() ==> (#[trigger] s[j]).key != other,
    ensures
        list_setting(s, s[i].key) == list_items(s[i].value),
        list_setting(s, other).len() == 0,
{
    law_setting_is_the_row_with_its_key(s, i);
    law_setting_without_a_row_is_absent(s, other);
}

/// No two rows have the same key.
pub open spec fn distinct(s: Seq<SettingRow>) -> bool {
    forall|i: int, j: int| 0 <= i < j < s.len() ==> (#[trigger] s[i]).key != (#[trigger] s[j]).key
}

/// The parser gives no other answer on a text.
pub open spec fn parses_as<P: Fn(&str) -> Option<u64>>(
    parse: P,
    text: Seq<char>,
    answer: Option<u64>,
) -> bool {
    forall|s: &str, parsed: Option<u64>|
        s@ == text && #[trigger] call_ensures(parse, (s,), parsed) ==> parsed == answer
}

/// Where a setting is stored and the parser makes a number of its text, the value
/// read is that number, whatever the default is. The default is read where nothing
/// is stored, or the parser makes nothing of what is.
pub proof fn law_parsed_setting_is_what_the_parser_says<P: Fn(&str) -> Option<u64>>(
    db: &Database,
    key: &str,
    default: u64,
    parse: P,
    r: u64,
)
    requires
        call_ensures(get_f64::<P>, (db, key, default, parse), r),
    ensures
        forall|i: int, bits: u64|
            0 <= i < db@.settings.len() && (#[trigger] db@.settings[i]).key == key@
                && distinct(db@.settings) && #[trigger] parses_as(
                parse,
                db@.settings[i].value,
                Some(bits),
            ) ==> r == bits,
        forall|i: int|
            0 <= i < db@.settings.len() && (#[trigger] db@.settings[i]).key == key@
                && distinct(db@.settings) && parses_as(parse, db@.settings[i].value, None) ==> r
                == default,
        (forall|i: int| 0 <= i < db@.settings.len() ==> (#[trigger] db@.settings[i]).key != key@)
            ==> r == default,
{
    let s = db@.settings;
    assert(reads_as(parse, setting_value(s, key@), default, r));
    if distinct(s) {
        assert forall|i: int| 0 <= i < s.len() && (#[trigger] s[i]).key == key@ implies setting_value(
            s,
            key@,
        ) == Some(s[i].value) by {
            law_setting_is_the_row_with_its_key(s, i);
        }
    }
    if forall|i: int| 0 <= i < s.len() ==> (#[trigger] s[i]).key != key@ {
        law_setting_without_a_row_is_absent(s, key@);
    }
}

/// The characters per token, the share that overlaps and the decay per hop are read
/// as the parser says, whatever their defaults are; the size is the stored number.
pub proof fn law_chunking_and_decay_are_what_is_stored<P: Fn(&str) -> Option<u64>>(
    db: &Database,
    parse: P,
    chunking: (usize, u64, u64),
    decay: u64,
    i: int,
    bits: u64,
)
    requires
        call_ensures(chunk_settings::<P>, (db, parse), chunking),
        call_ensures(hop_decay::<P>, (db, parse), decay),
        distinct(db@.settings),
        0 <= i < db@.settings.len(),
    ensures
        parses_as(parse, db@.settings[i].value, Some(bits)) ==> {
            &&& db@.settings[i].key == "chars_per_token"@ ==> chunking.1 == bits
            &&& db@.settings[i].key == "chunk_overlap"@ ==> chunking.2 == bits
            &&& db@.settings[i].key == "hop_decay"@ ==> decay == bits
        },
        parses_as(parse, db@.settings[i].value, None) ==> {
            &&& db@.settings[i].key == "chars_per_token"@ ==> chunking.1 == 0x400c_0000_0000_0000
            &&& db@.settings[i].key == "chunk_overlap"@ ==> chunking.2 == 0x3fc0_0000_0000_0000
            &&& db@.settings[i].key == "hop_decay"@ ==> decay == 0x3fe0_0000_0000_0000
        },
        db@.settings[i].key == "chunk_size"@ ==> {
            &&& usize_value(db@.settings[i].value) is Some ==> Some(chunking.0) == usize_value(
                db@.settings[i].value,
            )
            &&& usize_value(db@.settings[i].value) is None ==> chunking.0 == 1000
        },
{
    law_setting_is_the_row_with_its_key(db@.settings, i);
    assert(decay_setting(parse, db@, decay));
}

/// Where the settings say nothing of chunking and decay, a chunk is of a thousand
/// tokens of three and a half characters, of which an eighth overlaps, and every hop
/// halves.
pub proof fn law_chunking_and_decay_without_settings<P: Fn(&str) -> Option<u64>>(
    db: &Database,
    parse: P,
    chunking: (usize, u64, u64),
    decay: u64,
)
    requires
        call_ensures(chunk_settings::<P>, (db, parse), chunking),
        call_ensures(hop_decay::<P>, (db, parse), decay),
        db@.settings.len() == 0,
    ensures
        chunking == (1000usize, 0x400c_0000_0000_0000u64, 0x3fc0_0000_0000_0000u64),
        decay == 0x3fe0_0000_0000_0000,
{
    assert(decay_setting(parse, db@, decay));
    law_setting_without_a_row_is_absent(db@.settings, "chars_per_token"@);
    law_setting_without_a_row_is_absent(db@.settings, "chunk_overlap"@);
    law_setting_without_a_row_is_absent(db@.settings, "chunk_size"@);
    law_setting_without_a_row_is_absent(db@.settings, "hop_decay"@);
}

/// The number used is the one that is stored, or the default for want of one.
pub proof fn law_numbers_are_read_from_their_row(
    db: &Database,
    key: &str,
    default: usize,
    r: usize,
)
    requires
        call_ensures(get_usize, (db, key, default), r),
        distinct(db@.settings),
    ensures
        forall|i: int|
            0 <= i < db@.settings.len() && (#[trigger] db@.settings[i]).key == key@ ==> r == (
            if usize_value(db@.settings[i].value) is Some {
                usize_value(db@.settings[i].value)->0
            } else {
                default
            }),
        (forall|i: int| 0 <= i < db@.settings.len() ==> (#[trigger] db@.settings[i]).key != key@)
            ==> r == default,
{
    let s = db@.settings;
    assert(r == usize_setting(s, key@, default));
    assert forall|i: int| 0 <= i < s.len() && (#[trigger] s[i]).key == key@ implies setting_value(
        s,
        key@,
    ) == Some(s[i].value) by {
        law_setting_is_the_row_with_its_key(s, i);
    }
    if forall|i: int| 0 <= i < s.len() ==> (#[trigger] s[i]).key != key@ {
        law_setting_without_a_row_is_absent(s, key@);
    }
}

/// A count that the caller gives is the count used, whatever the settings say.
pub proof fn law_given_count_is_used(t: Tables, u: Tables, value: i64)
    ensures
        0 <= value <= usize::MAX ==> wanted(t, Some(value)) == value,
        wanted(t, Some(value)) == wanted(u, Some(value)),
        usize::BITS == 64 && value < 0 ==> wanted(t, Some(value)) == value
            + 0x1_0000_0000_0000_0000,
{
    if usize::BITS == 64 && value < 0 {
        assert(usize::BITS == 64 && value < 0 ==> (value as usize) == value
            + 0x1_0000_0000_0000_0000) by (bit_vector);
    }
}

/// The count that results are limited to is the one that the caller gives, and
/// otherwise the stored one, or sixteen for want of one.
pub proof fn law_count_is_given_or_stored(db: &Database, top_k: Option<i64>, r: usize)
    requires
        call_ensures(top_count, (db, top_k), r),
        distinct(db@.settings),
    ensures
        top_k is Some && 0 <= top_k->0 <= usize::MAX ==> r == top_k->0,
        top_k is None ==> forall|i: int|
            0 <= i < db@.settings.len() && (#[trigger] db@.settings[i]).key == "top_k"@ ==> r == (
            if usize_value(db@.settings[i].value) is Some {
                usize_value(db@.settings[i].value)->0
            } else {
                16
            }),
        top_k is None && (forall|i: int|
            0 <= i < db@.settings.len() ==> (#[trigger] db@.settings[i]).key != "top_k"@) ==> r
            == 16,
{
    let s = db@.settings;
    let key = "top_k"@;
    assert(r == wanted(db@, top_k));
    assert forall|i: int| 0 <= i < s.len() && (#[trigger] s[i]).key == key implies setting_value(
        s,
        key,
    ) == Some(s[i].value) by {
        law_setting_is_the_row_with_its_key(s, i);
    }
    if forall|i: int| 0 <= i < s.len() ==> (#[trigger] s[i]).key != key {
        law_setting_without_a_row_is_absent(s, key);
    }
}

/// Setting the defaults only adds rows behind those that were there, each of them
/// one of the defaults.
pub proof fn law_only_defaults_are_added(s: Seq<SettingRow>, defaults: Seq<SettingRow>)
    ensures
        s.len() <= with_settings(s, defaults).len(),
        with_settings(s, defaults).take(s.len() as int) == s,
        forall|i: int|
            s.len() <= i < with_settings(s, defaults).len() ==> defaults.contains(
                #[trigger] with_settings(s, defaults)[i],
            ),
    decreases defaults.len(),
{
    let u = with_settings(s, defaults);
    if defaults.len() == 0 {
        assert(u.take(s.len() as int) =~= s);
    } else {
        let rest = defaults.drop_last();
        let before = with_settings(s, rest);
        law_only_defaults_are_added(s, rest);
        assert(u.take(s.len() as int) =~= before.take(s.len() as int));
        assert forall|i: int| s.len() <= i < u.len() implies defaults.contains(
            #[trigger] u[i],
        ) by {
            if i < before.len() {
                assert(u[i] == before[i]);
                assert(rest.contains(before[i]));
                let k = choose|k: int| 0 <= k < rest.len() && rest[k] == before[i];
                assert(defaults[k] == u[i]);
            } else {
                assert(defaults[defaults.len() - 1] == u[i]);
            }
        }
    }
}

/// A default whose key no row has, and no earlier default either, is set as it is.
pub proof fn law_missing_default_is_set(s: Seq<SettingRow>, defaults: Seq<SettingRow>, i: int)
    requires
        0 <= i < defaults.len(),
        forall|j: int| 0 <= j < s.len() ==> (#[trigger] s[j]).key != defaults[i].key,
        forall|j: int| 0 <= j < i ==> (#[trigger] defaults[j]).key != defaults[i].key,
    ensures
        setting_value(with_settings(s, defaults), defaults[i].key) == Some(defaults[i].value),
    decreases defaults.len(),
{
    let rest = defaults.drop_last();
    let before = with_settings(s, rest);
    let key = defaults[i].key;
    if i < rest.len() {
        assert(rest[i] == defaults[i]);
        assert forall|j: int| 0 <= j < i implies (#[trigger] rest[j]).key != key by {
            assert(rest[j] == defaults[j]);
        }
        law_missing_default_is_set(s, rest, i);
    } else {
        law_only_defaults_are_added(s, rest);
        assert forall|j: int| 0 <= j < before.len() implies (#[trigger] before[j]).key != key by {
            if j < s.len() {
                assert(before.take(s.len() as int)[j] == s[j]);
            } else {
                assert(rest.contains(before[j]));
                let k = choose|k: int| 0 <= k < rest.len() && rest[k] == before[j];
                assert(defaults[k] == rest[k]);
            }
        }
        law_setting_without_a_row_is_absent(before, key);
    }
    lemma_first_push(before, defaults.last(), under(key));
}

} // verus!
