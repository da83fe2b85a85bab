//! RimSort's Steam Workshop database (`steamDB.json`): package id → Workshop id/name, used to
//! offer downloads for missing dependencies that don't carry a Workshop link themselves.

use vstd::prelude::*;

use crate::text::{eq_ignore_case, eq_ignore_ascii_case, lowercase, to_lower};

verus! {

broadcast use {vstd::string::group_string_axioms, vstd::seq_lib::group_seq_properties};

/// One record of the database file.
#[derive(Debug, Clone)]
pub struct SteamDbEntry {
    /// Workshop id (the record's key).
    pub id: String,
    pub package_id: String,
    pub name: String,
    pub steam_name: String,
    pub unpublished: bool,
}

/// A candidate row: lowercase package id, Workshop id, display name.
pub type DbRow = (Seq<char>, Seq<char>, Seq<char>);

/// The rows the records give: records without a package id, and unpublished ones, are
/// skipped; the name falls back to the Steam name.
pub open spec fn db_rows(es: Seq<SteamDbEntry>) -> Seq<DbRow>
    decreases es.len(),
{
    if es.len() == 0 {
        Seq::empty()
    } else {
        let r = db_rows(es.drop_last());
        let e = es.last();
        if e.package_id@.len() == 0 || e.unpublished {
            r
        } else {
            r.push((lowercase(e.package_id@), e.id@, if e.name@.len() == 0 { e.steam_name@ } else { e.name@ }))
        }
    }
}

/// The (Workshop id, name) candidates claiming package id `pid`, in order.
pub open spec fn candidates(rows: Seq<DbRow>, pid: Seq<char>) -> Seq<(Seq<char>, Seq<char>)>
    decreases rows.len(),
{
    if rows.len() == 0 {
        Seq::empty()
    } else {
        let r = candidates(rows.drop_last(), pid);
        let x = rows.last();
        if x.0 == pid {
            r.push((x.1, x.2))
        } else {
            r
        }
    }
}

/// The candidates named `hint`, ASCII case-insensitive (none for an empty hint).
pub open spec fn named_like(c: Seq<(Seq<char>, Seq<char>)>, hint: Seq<char>) -> Seq<(Seq<char>, Seq<char>)>
    decreases c.len(),
{
    if c.len() == 0 {
        Seq::empty()
    } else {
        let r = named_like(c.drop_last(), hint);
        if hint.len() > 0 && eq_ignore_case(c.last().1, hint) {
            r.push(c.last())
        } else {
            r
        }
    }
}

/// The unambiguous candidate: the only one, or the only one named `hint`.
pub open spec fn unique_match(c: Seq<(Seq<char>, Seq<char>)>, hint: Seq<char>) -> Option<(Seq<char>, Seq<char>)> {
    if c.len() == 1 {
        Some(c[0])
    } else if named_like(c, hint).len() == 1 {
        Some(named_like(c, hint)[0])
    } else {
        None
    }
}

/// Package id → Workshop items claiming it.
#[derive(Debug)]
pub struct SteamDb {
    rows: Vec<(String, String, String)>,
}

impl SteamDb {
    /// The rows: lowercase package id, Workshop id, name.
    pub closed spec fn rows_view(&self) -> Seq<DbRow> {
        self.rows@.map_values(|r: (String, String, String)| (r.0@, r.1@, r.2@))
    }

    /// The database of the records `entries`.
    pub fn from_entries(entries: &Vec<SteamDbEntry>) -> (r: SteamDb)
        ensures
            r.rows_view() == db_rows(entries@),
    {
        let mut rows: Vec<(String, String, String)> = Vec::new();
        let mut i: usize = 0;
        while i < entries.len()
            invariant
                0 <= i <= entries@.len(),
                rows@.map_values(|r: (String, String, String)| (r.0@, r.1@, r.2@)) == db_rows(entries@.take(i as int)),
            decreases entries@.len() - i,
        {
            let e = &entries[i];
            proof {
                assert(entries@.take(i + 1).drop_last() == entries@.take(i as int));
                assert(entries@.take(i + 1).last() == *e);
            }
            if !(e.package_id.as_str().unicode_len() == 0 || e.unpublished) {
                let name = if e.name.as_str().unicode_len() == 0 {
                    e.steam_name.clone()
                } else {
                    e.name.clone()
                };
                let row = (to_lower(e.package_id.as_str()), e.id.clone(), name);
                let ghost r0 = rows@;
                rows.push(row);
                proof {
                    assert(rows@.map_values(|r: (String, String, String)| (r.0@, r.1@, r.2@)) =~= r0.map_values(
                        |r: (String, String, String)| (r.0@, r.1@, r.2@),
                    ).push((row.0@, row.1@, row.2@)));
                }
            }
            i += 1;
        }
        proof {
            assert(entries@.take(i as int) == entries@);
        }
        SteamDb { rows }
    }

    /// The Workshop item for a package id — only when it is unambiguous (alone, or the single
    /// candidate named `name_hint`), because a wrong guess would download an unrelated mod.
    pub fn lookup(&self, package_id: &str, name_hint: &str) -> (r: Option<(&str, &str)>)
        ensures
            match unique_match(candidates(self.rows_view(), package_id@), name_hint@) {
                Some(m) => r matches Some(x) && x.0@ == m.0 && x.1@ == m.1,
                None => r is None,
            },
    {
        let ghost rv = self.rows_view();
        let mut all: Vec<(&str, &str)> = Vec::new();
        let mut named: Vec<(&str, &str)> = Vec::new();
        let has_hint = name_hint.unicode_len() > 0;
        let mut i: usize = 0;
        while i < self.rows.len()
            invariant
                0 <= i <= self.rows@.len(),
                rv == self.rows_view(),
                has_hint == (name_hint@.len() > 0),
                all@.map_values(|x: (&str, &str)| (x.0@, x.1@)) == candidates(rv.take(i as int), package_id@),
                named@.map_values(|x: (&str, &str)| (x.0@, x.1@)) == named_like(candidates(rv.take(i as int), package_id@), name_hint@),
            decreases self.rows@.len() - i,
        {
            let row = &self.rows[i];
            proof {
                assert(rv.take(i + 1).drop_last() == rv.take(i as int));
                assert(rv.take(i + 1).last() == (row.0@, row.1@, row.2@));
            }
            if crate::text::str_eq(row.0.as_str(), package_id) {
                let x = (row.1.as_str(), row.2.as_str());
                let ghost a0 = all@;
                let ghost n0 = named@;
                let ghost c0 = candidates(rv.take(i as int), package_id@);
                all.push(x);
                proof {
                    assert(all@.map_values(|x: (&str, &str)| (x.0@, x.1@)) =~= a0.map_values(|x: (&str, &str)| (x.0@, x.1@)).push((x.0@, x.1@)));
                    assert(c0.push((row.1@, row.2@)).drop_last() == c0);
                }
                if has_hint && eq_ignore_ascii_case(row.2.as_str(), name_hint) {
                    named.push(x);
                    proof {
                        assert(named@.map_values(|x: (&str, &str)| (x.0@, x.1@)) =~= n0.map_values(|x: (&str, &str)| (x.0@, x.1@)).push((x.0@, x.1@)));
                    }
                }
            }
            i += 1;
        }
        proof {
            assert(rv.take(i as int) == rv);
        }
        if all.len() == 1 {
            proof {
                assert(all@.map_values(|x: (&str, &str)| (x.0@, x.1@))[0] == (all@[0].0@, all@[0].1@));
            }
            Some(all[0])
        } else if named.len() == 1 {
            proof {
                assert(named@.map_values(|x: (&str, &str)| (x.0@, x.1@))[0] == (named@[0].0@, named@[0].1@));
            }
            Some(named[0])
        } else {
            None
        }
    }
}

} // verus!
