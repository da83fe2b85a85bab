//! Troubleshooting resets: which files each reset moves to the Recycle Bin. Listing folders
//! and moving files is the application's part.

use vstd::prelude::*;

use crate::error::Error;
use crate::text::{has_prefix, has_suffix};

verus! {

broadcast use vstd::string::group_string_axioms;

/// A reset.
#[derive(Debug, Clone, Copy, PartialEq, Eq, Structural)]
pub enum Fix {
    /// `Config/Mod_*.xml`: per-mod settings written by the game.
    ModSettings,
    /// `Prefs.xml` and `KeyPrefs.xml`.
    GameSettings,
    /// Steam's half-finished Workshop downloads (`workshop/downloads`).
    SteamDownloadCache,
}

/// The files of its folder a reset takes, by name.
pub open spec fn fix_takes(fix: Fix, name: Seq<char>) -> bool {
    match fix {
        Fix::ModSettings => has_prefix(name, "Mod_"@) && has_suffix(name, ".xml"@),
        Fix::GameSettings => name == "Prefs.xml"@ || name == "KeyPrefs.xml"@,
        Fix::SteamDownloadCache => true,
    }
}

/// Whether a reset takes the file `name` of its folder (see `fix_takes`).
pub fn takes(fix: Fix, name: &str) -> (r: bool)
    ensures
        r == fix_takes(fix, name@),
{
    match fix {
        Fix::ModSettings => {
            let v = crate::text::chars_of(name);
            let p = crate::text::chars_of("Mod_");
            let x = crate::text::chars_of(".xml");
            proof {
                reveal_strlit("Mod_");
                reveal_strlit(".xml");
                assert(v@.subrange(0, v@.len() as int) == v@);
            }
            let pre = crate::text::starts_at(v.as_slice(), 0, p.as_slice());
            let suf = v.len() >= 4 && crate::text::starts_at(v.as_slice(), v.len() - 4, x.as_slice());
            proof {
                if v@.len() >= 4 {
                    let t = v@.subrange(v@.len() - 4, v@.len() as int);
                    assert(t.subrange(0, 4) == t);
                }
            }
            pre && suf
        },
        Fix::GameSettings => crate::text::str_eq(name, "Prefs.xml") || crate::text::str_eq(name, "KeyPrefs.xml"),
        Fix::SteamDownloadCache => true,
    }
}

/// The config folder the game resets work in: an empty setting is refused.
pub fn config_dir(config_folder: &str) -> (r: Result<String, Error>)
    ensures
        config_folder@.len() > 0 ==> (r matches Ok(d) && d@ == config_folder@),
        config_folder@.len() == 0 ==> (r matches Err(Error::Other(m)) && m@ == "Set the RimWorld config folder in Settings first"@),
{
    if config_folder.is_empty() {
        Err(Error::Other(String::from_str("Set the RimWorld config folder in Settings first")))
    } else {
        Ok(String::from_str(config_folder))
    }
}

} // verus!
