//! The table of settings by key that older archives carry.

use crate::text::{owned, same_str};
use vstd::prelude::*;

verus! {

/// A setting.
#[derive(Debug)]
pub struct SettingRow {
    pub key: String,
    pub value: String,
    pub updated_at_ms: i64,
}

/// The settings, at most one for each key.
#[derive(Debug)]
pub struct SettingsTable {
    pub rows: Vec<SettingRow>,
}

/// What is stored for a key.
pub struct SettingView {
    pub value: Seq<char>,
    pub updated_at_ms: i64,
}

impl SettingsTable {
    /// What is stored, by key.
    pub open spec fn entries(self) -> Map<Seq<char>, SettingView> {
        entries_of(self.rows@)
    }

    /// A table without settings.
    pub fn new() -> (r: SettingsTable)
        ensures
            r.entries() == Map::<Seq<char>, SettingView>::empty(),
    {
        SettingsTable { rows: Vec::new() }
    }
}

/// What a row stores for its key.
pub open spec fn entry_of(row: SettingRow) -> SettingView {
    SettingView { value: row.value@, updated_at_ms: row.updated_at_ms }
}

/// What rows store, by key; a later row wins.
pub open spec fn entries_of(rows: Seq<SettingRow>) -> Map<Seq<char>, SettingView>
    decreases rows.len(),
{
    if rows.len() == 0 {
        Map::empty()
    } else {
        entries_of(rows.drop_last()).insert(rows.last().key@, entry_of(rows.last()))
    }
}

/// The value of a setting.
pub fn get(table: &SettingsTable, key: &str) -> (r: Option<String>)
    ensures
        match r {
            Some(v) => table.entries().contains_key(key@) && table.entries()[key@].value == v@,
            None => !table.entries().contains_key(key@),
        },
{
    let ghost all = table.rows@;
    let mut i: usize = table.rows.len();
    proof {
        assert(all.take(all.len() as int) == all);
    }
    while i > 0
        invariant
            i <= table.rows.len(),
            all == table.rows@,
            table.entries() == entries_of(all),
            entries_of(all).contains_key(key@) == entries_of(all.take(i as int)).contains_key(key@),
            entries_of(all).contains_key(key@) ==> entries_of(all)[key@] == entries_of(
                all.take(i as int),
            )[key@],
        decreases i,
    {
        proof {
            assert(all.take(i as int).drop_last() == all.take(i - 1));
            assert(all.take(i as int).last() == all[i - 1]);
        }
        i -= 1;
        if same_str(table.rows[i].key.as_str(), key) {
            return Some(table.rows[i].value.clone());
        }
    }
    None
}

/// Sets a value, in place of the one that the key had, and keeps the time at
/// which it was set.
pub fn set(table: SettingsTable, key: &str, value: &str, now_ms: i64) -> (r: SettingsTable)
    ensures
        r.entries() == table.entries().insert(
            key@,
            SettingView { value: value@, updated_at_ms: now_ms },
        ),
{
    let table2 = delete(table, key);
    let ghost rest = table2.rows@;
    let ghost before = table2.entries();
    let mut rows = table2.rows;
    rows.push(SettingRow { key: owned(key), value: owned(value), updated_at_ms: now_ms });
    let r = SettingsTable { rows };
    proof {
        assert(r.rows@.drop_last() == rest);
        let e = SettingView { value: value@, updated_at_ms: now_ms };
        assert(entry_of(r.rows@.last()) == e);
        assert(before.insert(key@, e) == table.entries().insert(key@, e));
    }
    r
}

/// Removes a setting.
pub fn delete(table: SettingsTable, key: &str) -> (r: SettingsTable)
    ensures
        r.entries() == table.entries().remove(key@),
{
    let ghost all = table.rows@;
    let mut out: Vec<SettingRow> = Vec::new();
    let ghost mut n: int = 0;
    proof {
        assert(all.take(0).len() == 0);
        assert(entries_of(out@) == entries_of(all.take(0)).remove(key@));
    }
    for x in it: table.rows
        invariant
            it.seq() == all,
            n == it.index(),
            entries_of(out@) == entries_of(all.take(n)).remove(key@),
    {
        proof {
            assert(all.take(n + 1).drop_last() == all.take(n));
            assert(all.take(n + 1).last() == x);
        }
        let ghost before = entries_of(all.take(n));
        if !same_str(x.key.as_str(), key) {
            let ghost kept = out@;
            let ghost xv = x;
            out.push(x);
            proof {
                assert(out@.drop_last() == kept);
                assert(before.remove(key@).insert(xv.key@, entry_of(xv)) == before.insert(
                    xv.key@,
                    entry_of(xv),
                ).remove(key@));
            }
        } else {
            proof {
                assert(before.remove(key@) == before.insert(x.key@, entry_of(x)).remove(key@));
            }
        }
        proof {
            n = n + 1;
        }
    }
    proof {
        assert(all.take(all.len() as int) == all);
    }
    SettingsTable { rows: out }
}

} // verus!
