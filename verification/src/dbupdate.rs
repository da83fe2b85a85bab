//! The external rule databases kept in our own `dbs` folder: where each comes from and what
//! an update reports. Downloading them is the application's part.

use vstd::prelude::*;

use crate::text::chars_of;
use crate::validate::major_minor;

verus! {

broadcast use {vstd::string::group_string_axioms, vstd::seq_lib::group_seq_properties};

/// A database and where it is fetched from.
#[derive(Debug, Clone)]
pub struct Source {
    pub name: String,
    pub url: String,
    /// Path relative to our `dbs` folder (the layout the rule loader searches).
    pub dest: String,
}

/// How updating one database went.
#[derive(Debug, Clone, Copy, PartialEq, Eq, Structural)]
pub enum DbStatus {
    Updated,
    NotModified,
    Failed,
}

/// The outcome for one database.
#[derive(Debug, Clone)]
pub struct DbResult {
    pub name: String,
    pub status: DbStatus,
    /// Error text when `Failed`, else size info.
    pub detail: String,
}

/// The contents of a `Source`.
pub open spec fn source_is(s: Source, name: Seq<char>, url: Seq<char>, dest: Seq<char>) -> bool {
    s.name@ == name && s.url@ == url && s.dest@ == dest
}

/// The databases RimSort uses, from their default GitHub repositories: Community Rules and
/// Use This Instead, and NoVersionWarning's list for the game's `major.minor` when there is one.
pub open spec fn sources_ok(r: Seq<Source>, game_version: Seq<char>) -> bool {
    let mm = major_minor(game_version);
    &&& r.len() == if mm.len() > 0 { 3int } else { 2int }
    &&& source_is(r[0], "Community rules"@, "https://raw.githubusercontent.com/RimSort/Community-Rules-Database/main/communityRules.json"@, "Community-Rules-Database/communityRules.json"@)
    &&& source_is(r[1], "Use This Instead"@, "https://raw.githubusercontent.com/emipa606/UseThisInstead/main/replacements.json.gz"@, "UseThisInstead/replacements.json.gz"@)
    &&& mm.len() > 0 ==> source_is(r[2], "No version warning"@,
        "https://raw.githubusercontent.com/emipa606/NoVersionWarning/main/"@ + mm + "/ModIdsToFix.xml"@,
        "NoVersionWarning/"@ + mm + "/ModIdsToFix.xml"@)
}

/// The databases to fetch (see `sources_ok`).
pub fn sources(game_version: &str) -> (r: Vec<Source>)
    ensures
        sources_ok(r@, game_version@),
{
    let gv = chars_of(game_version);
    let mm = crate::validate::major_minor_of(gv.as_slice());
    let mut v: Vec<Source> = Vec::new();
    v.push(Source {
        name: String::from_str("Community rules"),
        url: String::from_str("https://raw.githubusercontent.com/RimSort/Community-Rules-Database/main/communityRules.json"),
        dest: String::from_str("Community-Rules-Database/communityRules.json"),
    });
    v.push(Source {
        name: String::from_str("Use This Instead"),
        url: String::from_str("https://raw.githubusercontent.com/emipa606/UseThisInstead/main/replacements.json.gz"),
        dest: String::from_str("UseThisInstead/replacements.json.gz"),
    });
    if mm.len() > 0 {
        let m = crate::text::string_of(mm.as_slice());
        let mut url = String::from_str("https://raw.githubusercontent.com/emipa606/NoVersionWarning/main/");
        url.append(m.as_str());
        url.append("/ModIdsToFix.xml");
        let mut dest = String::from_str("NoVersionWarning/");
        dest.append(m.as_str());
        dest.append("/ModIdsToFix.xml");
        v.push(Source { name: String::from_str("No version warning"), url, dest });
    }
    v
}

/// The ETag to send for `url`: the remembered one, when the file is still there.
pub fn etag_for(etags: &Vec<(String, String)>, url: &str, dest_exists: bool) -> (r: Option<String>)
    ensures
        match r {
            Some(t) => dest_exists && exists|i: int| 0 <= i < etags@.len() && #[trigger] etags@[i].0@ == url@
                && etags@[i].1@ == t@ && forall|j: int| 0 <= j < i ==> #[trigger] etags@[j].0@ != url@,
            None => !dest_exists || forall|i: int| 0 <= i < etags@.len() ==> #[trigger] etags@[i].0@ != url@,
        },
{
    if !dest_exists {
        return None;
    }
    let mut i: usize = 0;
    while i < etags.len()
        invariant
            0 <= i <= etags@.len(),
            dest_exists,
            forall|j: int| 0 <= j < i ==> #[trigger] etags@[j].0@ != url@,
        decreases etags@.len() - i,
    {
        if crate::text::str_eq(etags[i].0.as_str(), url) {
            return Some(etags[i].1.clone());
        }
        i += 1;
    }
    None
}

} // verus!
