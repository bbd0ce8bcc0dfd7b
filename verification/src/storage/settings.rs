//! Key-value configuration, read by every engine.

use vstd::prelude::*;

use crate::seqs::{first_where, lemma_first_absent, lemma_first_at};
use crate::storage::rows::position_where;
use crate::storage::tables::{Setting, SettingRow};
use crate::storage::Database;
use crate::text::{list_items, parse_usize, split_list, texts, usize_value};

verus! {

/// The value stored under a key.
pub open spec fn setting_value(s: Seq<SettingRow>, key: Seq<char>) -> Option<Seq<char>> {
    match first_where(s, under(key)) {
        Some(row) => Some(row.value),
        None => None,
    }
}

/// Being the setting of a given key.
pub open spec fn under(key: Seq<char>) -> spec_fn(SettingRow) -> bool {
    |s: SettingRow| s.key == key
}

/// A setting read as a number: the default when it is absent or is no number.
pub open spec fn usize_setting(s: Seq<SettingRow>, key: Seq<char>, default: usize) -> usize {
    match setting_value(s, key) {
        Some(v) => match usize_value(v) {
            Some(n) => n,
            None => default,
        },
        None => default,
    }
}

/// A setting read as a list: its items, none when it is absent.
pub open spec fn list_setting(s: Seq<SettingRow>, key: Seq<char>) -> Seq<Seq<char>> {
    match setting_value(s, key) {
        Some(v) => list_items(v),
        None => Seq::empty(),
    }
}

/// The value stored under a key, if there is one.
pub fn get_raw(db: &Database, key: &str) -> (r: Option<String>)
    ensures
        crate::text::text_of(r) == setting_value(db@.settings, key@),
{
    let wanted = key.to_owned();
    let ghost p = under(key@);
    let cond = |s: &Setting| -> (b: bool)
        ensures
            b == p(s@),
        { s.key == wanted };
    let found = position_where(&db.settings, cond, Ghost(p));
    proof {
        let s = db@.settings;
        assert forall|k: int| 0 <= k < s.len() implies #[trigger] s[k] == db.settings@[k]@ by {}
        match found {
            Some(i) => {
                lemma_first_at(s, p, i as int);
            },
            None => {
                lemma_first_absent(s, p);
            },
        }
    }
    match found {
        Some(i) => Some(db.settings[i].value.clone()),
        None => None,
    }
}

/// A setting as a number, or `default` when it is absent or cannot be read as one.
pub fn get_usize(db: &Database, key: &str, default: usize) -> (r: usize)
    ensures
        r == usize_setting(db@.settings, key@, default),
{
    match get_raw(db, key) {
        Some(value) => match parse_usize(value.as_str()) {
            Some(n) => n,
            None => default,
        },
        None => default,
    }
}

/// `r` is what `parse` makes of a stored text, or the default when there is no
/// text or `parse` makes nothing of it.
pub open spec fn reads_as<P: Fn(&str) -> Option<u64>>(
    parse: P,
    text: Option<Seq<char>>,
    default: u64,
    r: u64,
) -> bool {
    match text {
        Some(v) => exists|s: &str, parsed: Option<u64>|
            {
                &&& s@ == v
                &&& #[trigger] call_ensures(parse, (s,), parsed)
                &&& r == (match parsed {
                    Some(bits) => bits,
                    None => default,
                })
            },
        None => r == default,
    }
}

/// A setting as the bit pattern of a double: what `parse` makes of the stored
/// text, or `default` when the setting is absent or `parse` makes nothing of it.
pub fn get_f64<P: Fn(&str) -> Option<u64>>(db: &Database, key: &str, default: u64, parse: P) -> (r:
    u64)
    requires
        forall|s: &str| call_requires(parse, (s,)),
    ensures
        reads_as(parse, setting_value(db@.settings, key@), default, r),
{
    match get_raw(db, key) {
        Some(value) => {
            let parsed = parse(value.as_str());
            match parsed {
                Some(bits) => bits,
                None => default,
            }
        },
        None => default,
    }
}

/// A comma-separated setting; absent or without items means no restriction.
pub fn get_string_list(db: &Database, key: &str) -> (r: Option<Vec<String>>)
    ensures
        match r {
            Some(items) => texts(items@) == list_setting(db@.settings, key@) && items@.len() > 0,
            None => list_setting(db@.settings, key@).len() == 0,
        },
{
    match get_raw(db, key) {
        Some(value) => {
            let items = split_list(value.as_str());
            proof {
                assert(texts(items@).len() == items@.len());
            }
            if items.len() == 0 {
                None
            } else {
                Some(items)
            }
        },
        None => None,
    }
}

} // verus!
