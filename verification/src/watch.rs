//! Filesystem watching: which changes the app is told about. The watcher itself lives with
//! the application; this decides what a changed path means.

use vstd::prelude::*;

use crate::text::{eq_ignore_case, sv};

verus! {

broadcast use {vstd::string::group_string_axioms, vstd::seq_lib::group_seq_properties};

/// What changed outside the app.
#[derive(Debug, Clone, Copy, PartialEq, Eq, Structural)]
pub enum Change {
    /// Something under a mods folder changed.
    Mods,
    /// `ModsConfig.xml` changed.
    Config,
}

/// `d` is a component-wise prefix of `p`.
pub open spec fn under(d: Seq<Seq<char>>, p: Seq<Seq<char>>) -> bool {
    d.len() <= p.len() && p.take(d.len() as int) == d
}

/// What a change of the path with components `p` means: nothing inside a `.git` folder;
/// `Config` for a file named `ModsConfig.xml` (any ASCII case) right in the config folder;
/// `Mods` for anything under a mods folder; else nothing.
pub open spec fn classify_spec(
    p: Seq<Seq<char>>,
    dirs: Seq<Seq<Seq<char>>>,
    cfg: Option<Seq<Seq<char>>>,
) -> Option<Change> {
    if p.contains(".git"@) {
        None
    } else if cfg matches Some(c) && p.len() == c.len() + 1 && p.take(c.len() as int) == c
        && eq_ignore_case(p.last(), "ModsConfig.xml"@) {
        Some(Change::Config)
    } else if exists|i: int| 0 <= i < dirs.len() && under(#[trigger] dirs[i], p) {
        Some(Change::Mods)
    } else {
        None
    }
}

/// The components of a list of paths.
pub open spec fn svv(v: Seq<Vec<String>>) -> Seq<Seq<Seq<char>>> {
    v.map_values(|x: Vec<String>| sv(x@))
}

/// `d` is a component-wise prefix of `p`.
fn is_under(d: &Vec<String>, p: &Vec<String>) -> (r: bool)
    ensures
        r == under(sv(d@), sv(p@)),
{
    if d.len() > p.len() {
        return false;
    }
    let mut i: usize = 0;
    while i < d.len()
        invariant
            0 <= i <= d@.len() <= p@.len(),
            forall|k: int| 0 <= k < i ==> #[trigger] d@[k]@ == p@[k]@,
        decreases d@.len() - i,
    {
        if !crate::text::str_eq(d[i].as_str(), p[i].as_str()) {
            proof {
                assert(sv(p@).take(d@.len() as int)[i as int] != sv(d@)[i as int]);
            }
            return false;
        }
        i += 1;
    }
    assert(sv(p@).take(d@.len() as int) =~= sv(d@));
    true
}

/// What a change of the path with components `parts` means (see `classify_spec`).
pub fn classify_parts(parts: &Vec<String>, mods_dirs: &Vec<Vec<String>>, config_dir: &Option<Vec<String>>) -> (r: Option<Change>)
    ensures
        r == classify_spec(sv(parts@), svv(mods_dirs@), match config_dir {
            Some(c) => Some(sv(c@)),
            None => None,
        }),
{
    let ghost p = sv(parts@);
    proof {
        reveal_strlit(".git");
    }
    let mut i: usize = 0;
    while i < parts.len()
        invariant
            0 <= i <= parts@.len(),
            p == sv(parts@),
            forall|k: int| 0 <= k < i ==> #[trigger] p[k] != ".git"@,
        decreases parts@.len() - i,
    {
        if crate::text::str_eq(parts[i].as_str(), ".git") {
            proof {
                assert(p[i as int] == ".git"@);
            }
            return None;
        }
        i += 1;
    }
    assert(!p.contains(".git"@));
    if let Some(c) = config_dir {
        if parts.len() > 0 && parts.len() - 1 == c.len() {
            let mut same = true;
            let mut k: usize = 0;
            while k < c.len()
                invariant
                    0 <= k <= c@.len(),
                    parts@.len() == c@.len() + 1,
                    same == forall|x: int| 0 <= x < k ==> #[trigger] c@[x]@ == parts@[x]@,
                decreases c@.len() - k,
            {
                if !crate::text::str_eq(c[k].as_str(), parts[k].as_str()) {
                    same = false;
                }
                k += 1;
            }
            proof {
                if same {
                    assert(sv(parts@).take(c@.len() as int) =~= sv(c@));
                } else {
                    let x = choose|x: int| 0 <= x < k && !(#[trigger] c@[x]@ == parts@[x]@);
                    assert(sv(parts@).take(c@.len() as int)[x] != sv(c@)[x]);
                }
            }
            if same && crate::text::eq_ignore_ascii_case(parts[parts.len() - 1].as_str(), "ModsConfig.xml") {
                return Some(Change::Config);
            }
        }
    }
    let ghost cv = match config_dir {
        Some(c) => Some(sv(c@)),
        None => None,
    };
    assert(!(cv matches Some(c) && p.len() == c.len() + 1 && p.take(c.len() as int) == c
        && eq_ignore_case(p.last(), "ModsConfig.xml"@)));
    let mut j: usize = 0;
    while j < mods_dirs.len()
        invariant
            0 <= j <= mods_dirs@.len(),
            p == sv(parts@),
            !p.contains(".git"@),
            cv == match config_dir {
                Some(c) => Some(sv(c@)),
                None => None,
            },
            !(cv matches Some(c) && p.len() == c.len() + 1 && p.take(c.len() as int) == c
                && eq_ignore_case(p.last(), "ModsConfig.xml"@)),
            forall|x: int| 0 <= x < j ==> !under(#[trigger] svv(mods_dirs@)[x], p),
        decreases mods_dirs@.len() - j,
    {
        if is_under(&mods_dirs[j], parts) {
            proof {
                assert(svv(mods_dirs@)[j as int] == sv(mods_dirs@[j as int]@));
            }
            return Some(Change::Mods);
        }
        proof {
            assert(svv(mods_dirs@)[j as int] == sv(mods_dirs@[j as int]@));
        }
        j += 1;
    }
    None
}

/// The `/`-separated pieces of `s`.
pub open spec fn pieces(s: Seq<char>) -> Seq<Seq<char>>
    decreases s.len(),
{
    let d = crate::xml::find_char(s, 0, '/');
    if d < 0 || d >= s.len() {
        seq![s]
    } else {
        seq![s.take(d)] + pieces(s.skip(d + 1))
    }
}

/// A path both Unix and Windows split at `/` alone: no `\\` and no `:` (so no Windows prefix),
/// an optional leading `/`, then pieces that are neither empty nor `.` or `..` (so nothing is
/// normalized away).
pub open spec fn plain_path(s: Seq<char>) -> bool {
    let rest = if s.len() > 0 && s[0] == '/' { s.drop_first() } else { s };
    &&& !s.contains('\\')
    &&& !s.contains(':')
    &&& forall|k: int| 0 <= k < pieces(rest).len() ==> {
        let q = #[trigger] pieces(rest)[k];
        q.len() > 0 && q != "."@ && q != ".."@
    }
}

/// The components of a plain path: `/` for a leading root, then its pieces.
pub open spec fn path_split(s: Seq<char>) -> Seq<Seq<char>> {
    if s.len() > 0 && s[0] == '/' {
        seq!["/"@] + pieces(s.drop_first())
    } else {
        pieces(s)
    }
}

/// The components of plain paths.
pub open spec fn split_all(v: Seq<String>) -> Seq<Seq<Seq<char>>> {
    v.map_values(|x: String| path_split(x@))
}

/// The path, every mods folder and the config folder are plain (see `plain_path`).
pub open spec fn all_plain(path: Seq<char>, mods_dirs: Seq<String>, config_dir: Option<String>) -> bool {
    &&& plain_path(path)
    &&& forall|k: int| 0 <= k < mods_dirs.len() ==> plain_path(#[trigger] mods_dirs[k]@)
    &&& (config_dir matches Some(c) ==> plain_path(c@))
}

/// Calls `std::path::Path::components`, each component as its text, the root as `/` on every
/// platform. Claimed, from the documentation of `components` (`/` separates components on
/// every platform, a leading one is the root): for a plain path (see `plain_path`) the result
/// is its pieces after the root. Other paths split the platform's way (`\\` and drive prefixes
/// on Windows, `.` and empty pieces normalized away), which is not claimed.
#[verifier::external_body]
fn path_parts(p: &str) -> (r: Vec<String>)
    ensures
        plain_path(p@) ==> sv(r@) == path_split(p@),
{
    std::path::Path::new(p)
        .components()
        .map(|c| match c {
            std::path::Component::Prefix(x) => x.as_os_str().to_string_lossy().into_owned(),
            std::path::Component::RootDir => "/".to_string(),
            std::path::Component::CurDir => ".".to_string(),
            std::path::Component::ParentDir => "..".to_string(),
            std::path::Component::Normal(x) => x.to_string_lossy().into_owned(),
        })
        .collect()
}

/// What a change of `path` means, with the paths split into components the platform's way
/// (see `classify_parts`).
pub fn classify(path: &str, mods_dirs: &Vec<String>, config_dir: &Option<String>) -> (r: Option<Change>)
    ensures
        r == Some(Change::Config) ==> config_dir is Some,
        r == Some(Change::Mods) ==> mods_dirs@.len() > 0,
        exists|p: Seq<Seq<char>>, d: Seq<Seq<Seq<char>>>, c: Option<Seq<Seq<char>>>|
            #![trigger classify_spec(p, d, c)]
            d.len() == mods_dirs@.len() && (c is Some <==> config_dir is Some) && r == classify_spec(p, d, c),
        all_plain(path@, mods_dirs@, *config_dir) ==> r == classify_spec(
            path_split(path@),
            split_all(mods_dirs@),
            match config_dir {
                Some(c) => Some(path_split(c@)),
                None => None,
            },
        ),
{
    let parts = path_parts(path);
    let mut dirs: Vec<Vec<String>> = Vec::new();
    let mut i: usize = 0;
    while i < mods_dirs.len()
        invariant
            0 <= i <= mods_dirs@.len(),
            dirs@.len() == i,
            forall|k: int| 0 <= k < i && plain_path(mods_dirs@[k]@) ==> #[trigger] sv(dirs@[k]@) == path_split(mods_dirs@[k]@),
        decreases mods_dirs@.len() - i,
    {
        let ghost d0 = dirs@;
        dirs.push(path_parts(mods_dirs[i].as_str()));
        proof {
            assert forall|k: int| 0 <= k < i + 1 && plain_path(mods_dirs@[k]@) implies #[trigger] sv(dirs@[k]@) == path_split(mods_dirs@[k]@) by {
                if k < i {
                    assert(dirs@[k] == d0[k]);
                }
            }
        }
        i += 1;
    }
    let cfg = match config_dir {
        Some(c) => Some(path_parts(c.as_str())),
        None => None,
    };
    let r = classify_parts(&parts, &dirs, &cfg);
    proof {
        let c = match cfg {
            Some(x) => Some(sv(x@)),
            None => None,
        };
        assert(svv(dirs@).len() == mods_dirs@.len());
        assert(r == classify_spec(sv(parts@), svv(dirs@), c));
        if all_plain(path@, mods_dirs@, *config_dir) {
            assert(svv(dirs@) =~= split_all(mods_dirs@)) by {
                assert forall|k: int| 0 <= k < mods_dirs@.len() implies #[trigger] svv(dirs@)[k] == split_all(mods_dirs@)[k] by {
                    assert(plain_path(mods_dirs@[k]@));
                    assert(sv(dirs@[k]@) == path_split(mods_dirs@[k]@));
                }
            }
        }
    }
    r
}

} // verus!
