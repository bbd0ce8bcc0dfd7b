//! What a new database starts with.

use vstd::prelude::*;

use crate::seqs::{lemma_first_exists, lemma_push_pairwise, pairwise};
use crate::storage::references::{accepted, lemma_accepted_self, lemma_accepted_step};
use crate::storage::settings::{get_raw, setting_value, under};
use crate::storage::tables::{distinct_keys, rows, Change, Setting, SettingRow, Tables};
use crate::storage::{extends, lemma_extends_self, lemma_extends_step, Database};

verus! {

/// The settings that a new database starts with.
pub open spec fn default_settings() -> Seq<SettingRow> {
    seq![
        SettingRow { key: "chars_per_token"@, value: "3.5"@ },
        SettingRow { key: "chunk_size"@, value: "1000"@ },
        SettingRow { key: "chunk_overlap"@, value: "0.125"@ },
        SettingRow { key: "m"@, value: "16"@ },
        SettingRow { key: "ef_construction"@, value: "200"@ },
        SettingRow { key: "ef_search"@, value: "100"@ },
        SettingRow { key: "top_k"@, value: "16"@ },
        SettingRow { key: "max_hops"@, value: "1"@ },
        SettingRow { key: "hop_decay"@, value: "0.5"@ },
        SettingRow { key: "expand_relation_types"@, value: ""@ },
    ]
}

/// `s` with those of the given settings whose key it does not hold yet.
pub open spec fn with_settings(s: Seq<SettingRow>, added: Seq<SettingRow>) -> Seq<SettingRow>
    decreases added.len(),
{
    if added.len() == 0 {
        s
    } else {
        let before = with_settings(s, added.drop_last());
        if setting_value(before, added.last().key) is Some {
            before
        } else {
            before.push(added.last())
        }
    }
}

fn default_setting_list() -> (r: Vec<Setting>)
    ensures
        rows(r@) == default_settings(),
{
    let r = vec![
        Setting { key: "chars_per_token".to_owned(), value: "3.5".to_owned() },
        Setting { key: "chunk_size".to_owned(), value: "1000".to_owned() },
        Setting { key: "chunk_overlap".to_owned(), value: "0.125".to_owned() },
        Setting { key: "m".to_owned(), value: "16".to_owned() },
        Setting { key: "ef_construction".to_owned(), value: "200".to_owned() },
        Setting { key: "ef_search".to_owned(), value: "100".to_owned() },
        Setting { key: "top_k".to_owned(), value: "16".to_owned() },
        Setting { key: "max_hops".to_owned(), value: "1".to_owned() },
        Setting { key: "hop_decay".to_owned(), value: "0.5".to_owned() },
        Setting { key: "expand_relation_types".to_owned(), value: "".to_owned() },
    ];
    proof {
        assert(rows(r@) =~= default_settings());
    }
    r
}

/// Gives a database the default settings that it lacks.
pub fn create_schema(db: &mut Database)
    requires
        old(db).wf(),
    ensures
        final(db).wf(),
        final(db)@ == (Tables {
            settings: with_settings(old(db)@.settings, default_settings()),
            ..old(db)@
        }),
        extends(*old(db), *final(db)),
        accepted(*old(db), *final(db)),
{
    let defaults = default_setting_list();
    let mut i: usize = 0;
    let ghost start = *db;
    proof {
        lemma_extends_self(start, *db);
        lemma_accepted_self(start, *db);
    }
    while i < defaults.len()
        invariant
            i <= defaults@.len(),
            rows(defaults@) == default_settings(),
            db.wf(),
            db@ == (Tables {
                settings: with_settings(start@.settings, default_settings().take(i as int)),
                ..start@
            }),
            extends(start, *db),
            accepted(start, *db),
        decreases defaults@.len() - i,
    {
        let ghost row = default_settings()[i as int];
        proof {
            assert(rows(defaults@)[i as int] == defaults@[i as int]@);
            assert(default_settings().take(i + 1).drop_last() =~= default_settings().take(
                i as int,
            ));
            assert(default_settings().take(i + 1).last() == row);
        }
        if get_raw(db, defaults[i].key.as_str()).is_none() {
            let ghost before = *db;
            let copy = defaults[i].copy();
            db.insert_setting(copy);
            proof {
                lemma_absent_distinct(before@.settings, row);
                lemma_extends_step(
                    start,
                    before,
                    *db,
                    Change::InsertSetting(copy),
                );
                lemma_accepted_step(
                    start,
                    before,
                    *db,
                    Change::InsertSetting(copy),
                );
            }
        }
        i += 1;
    }
    proof {
        assert(default_settings().take(defaults@.len() as int) =~= default_settings());
    }
}

proof fn lemma_absent_distinct(s: Seq<SettingRow>, row: SettingRow)
    requires
        pairwise(s, distinct_keys()),
        setting_value(s, row.key) is None,
    ensures
        pairwise(s.push(row), distinct_keys()),
{
    assert forall|k: int| 0 <= k < s.len() implies (#[trigger] s[k]).key != row.key by {
        if s[k].key == row.key {
            lemma_first_exists(s, under(row.key), k);
        }
    }
    lemma_push_pairwise(s, row, distinct_keys());
}

} // verus!
