//! Auto-detection of the game, its Steam libraries, the Workshop and the config folder, decided
//! from what was found on disk (the caller probes the folders and reads the Steam files).

use vstd::prelude::*;

use crate::error::decimal;
use crate::paths::{install_dir, install_dir_of, libraries_of, library_paths, DetectedPaths};
use crate::state::opt_view;
use crate::text::{contains_str, str_eq, sv};

verus! {

broadcast use {vstd::string::group_string_axioms, vstd::seq_lib::group_seq_properties};

/// A candidate game folder as found on disk.
#[derive(Debug, Clone)]
pub struct GameProbe {
    /// The folder, as it is shown.
    pub path: String,
    /// The folder exists.
    pub is_dir: bool,
    /// Its `Data` folder exists.
    pub has_data: bool,
    /// `RimWorldMac.app/Mods` inside it.
    pub mac_mods: String,
    /// That folder exists.
    pub mac_mods_is_dir: bool,
    /// `Mods` inside it.
    pub mods: String,
}

/// A Steam library folder as found on disk.
#[derive(Debug, Clone)]
pub struct LibraryProbe {
    /// The library folder, as it is written in Steam's files (or as the root was given).
    pub path: String,
    /// The folder exists.
    pub is_dir: bool,
    /// The text of its `steamapps/appmanifest_294100.acf`, when it could be read.
    pub manifest: Option<String>,
    /// The install folder the manifest names, with the probe of `steamapps/common/<it>`.
    pub game: Option<(String, GameProbe)>,
    /// `steamapps/workshop/content/294100` inside it.
    pub workshop: String,
    /// That folder exists.
    pub workshop_is_dir: bool,
}

/// A Steam install root as found on disk.
#[derive(Debug, Clone)]
pub struct RootProbe {
    pub path: String,
    pub is_dir: bool,
    /// The text of its `steamapps/libraryfolders.vdf`, when it could be read.
    pub library_folders: Option<String>,
}

/// What auto-detection reports, as character sequences.
pub struct DetectedView {
    pub game: Option<Seq<char>>,
    pub config: Option<Seq<char>>,
    pub local: Option<Seq<char>>,
    pub workshop: Option<Seq<char>>,
    pub notes: Seq<Seq<char>>,
}

impl View for DetectedPaths {
    type V = DetectedView;

    open spec fn view(&self) -> DetectedView {
        DetectedView {
            game: opt_view(self.game_folder),
            config: opt_view(self.config_folder),
            local: opt_view(self.local_folder),
            workshop: opt_view(self.workshop_folder),
            notes: sv(self.notes@),
        }
    }
}

/// Index of the first element of `s` that `f` holds of (-1 if none).
pub open spec fn first_where<T>(s: Seq<T>, f: spec_fn(T) -> bool) -> int
    decreases s.len(),
{
    if s.len() == 0 {
        -1
    } else {
        let k = first_where(s.drop_last(), f);
        if k >= 0 {
            k
        } else if f(s.last()) {
            s.len() - 1
        } else {
            -1
        }
    }
}

pub proof fn lemma_first_where<T>(s: Seq<T>, f: spec_fn(T) -> bool)
    ensures
        -1 <= first_where(s, f) < s.len(),
        first_where(s, f) >= 0 ==> f(s[first_where(s, f)]),
        forall|k: int| 0 <= k < s.len() && (first_where(s, f) < 0 || k < first_where(s, f)) ==> !f(#[trigger] s[k]),
    decreases s.len(),
{
    if s.len() > 0 {
        let d = s.drop_last();
        lemma_first_where(d, f);
        assert forall|k: int| 0 <= k < s.len() && (first_where(s, f) < 0 || k < first_where(s, f)) implies !f(#[trigger] s[k]) by {
            if k < s.len() - 1 {
                assert(s[k] == d[k]);
            }
        }
        if first_where(d, f) >= 0 {
            assert(s[first_where(d, f)] == d[first_where(d, f)]);
        }
    }
}

/// `i` is the first index of `s` that `f` holds of, or `s.len()` when there is none.
proof fn lemma_first_found<T>(s: Seq<T>, f: spec_fn(T) -> bool, i: int)
    requires
        0 <= i <= s.len(),
        i < s.len() ==> f(s[i]),
        forall|k: int| 0 <= k < i ==> !f(#[trigger] s[k]),
    ensures
        first_where(s, f) == if i < s.len() { i } else { -1 },
{
    lemma_first_where(s, f);
    let r = first_where(s, f);
    if r >= 0 && r < i {
        assert(!f(s[r]));
    }
    if i < s.len() && (r < 0 || i < r) {
        assert(!f(s[i]));
    }
}

/// The probe of the library at `p`.
pub open spec fn at_path(p: Seq<char>) -> spec_fn(LibraryProbe) -> bool {
    |l: LibraryProbe| l.path@ == p
}

/// Index of the first probe of the library at `p` (-1 if none).
pub open spec fn lib_index(libs: Seq<LibraryProbe>, p: Seq<char>) -> int {
    first_where(libs, at_path(p))
}

/// The library at `p` exists.
pub open spec fn lib_is_dir(libs: Seq<LibraryProbe>, p: Seq<char>) -> bool {
    lib_index(libs, p) >= 0 && libs[lib_index(libs, p)].is_dir
}

/// `ls` with each listed library that exists and is not in it yet appended, in order.
pub open spec fn add_listed(ls: Seq<Seq<char>>, listed: Seq<Seq<char>>, libs: Seq<LibraryProbe>) -> Seq<Seq<char>>
    decreases listed.len(),
{
    if listed.len() == 0 {
        ls
    } else {
        let r = add_listed(ls, listed.drop_last(), libs);
        let p = listed.last();
        if lib_is_dir(libs, p) && !r.contains(p) {
            r.push(p)
        } else {
            r
        }
    }
}

/// The Steam libraries to check, in order: each existing root, then the existing libraries its
/// `libraryfolders.vdf` lists, each folder once.
pub open spec fn library_order(roots: Seq<RootProbe>, libs: Seq<LibraryProbe>) -> Seq<Seq<char>>
    decreases roots.len(),
{
    if roots.len() == 0 {
        Seq::empty()
    } else {
        let ls = library_order(roots.drop_last(), libs);
        let r = roots.last();
        if !r.is_dir {
            ls
        } else {
            let ls2 = if ls.contains(r.path@) { ls } else { ls.push(r.path@) };
            match r.library_folders {
                Some(t) => add_listed(ls2, libraries_of(t@), libs),
                None => ls2,
            }
        }
    }
}

/// The game folder of a library: the folder its manifest names, when it exists.
pub open spec fn steam_game(l: LibraryProbe) -> Option<GameProbe> {
    match l.manifest {
        Some(t) => match install_dir_of(t@) {
            Some(d) => match l.game {
                Some((n, g)) => if n@ == d && g.is_dir { Some(g) } else { None },
                None => None,
            },
            None => None,
        },
        None => None,
    }
}

/// The game folder of the library at `p`.
pub open spec fn lib_game(libs: Seq<LibraryProbe>, p: Seq<char>) -> Option<GameProbe> {
    if lib_index(libs, p) >= 0 {
        steam_game(libs[lib_index(libs, p)])
    } else {
        None
    }
}

/// The library at a path holds the game.
pub open spec fn holds_game(libs: Seq<LibraryProbe>) -> spec_fn(Seq<char>) -> bool {
    |p: Seq<char>| lib_game(libs, p) is Some
}

/// The library at a path has a Workshop folder.
pub open spec fn has_workshop(libs: Seq<LibraryProbe>) -> spec_fn(Seq<char>) -> bool {
    |p: Seq<char>| lib_index(libs, p) >= 0 && libs[lib_index(libs, p)].workshop_is_dir
}

/// A game folder outside Steam: its `Data` folder exists.
pub open spec fn has_data() -> spec_fn(GameProbe) -> bool {
    |g: GameProbe| g.has_data
}

/// The folder exists.
pub open spec fn exists_dir() -> spec_fn((String, bool)) -> bool {
    |c: (String, bool)| c.1
}

/// Where local mods live for a game folder: `RimWorldMac.app/Mods` when it exists, else `Mods`.
pub open spec fn local_of(g: GameProbe) -> Seq<char> {
    if g.mac_mods_is_dir { g.mac_mods@ } else { g.mods@ }
}

pub open spec fn note_checked(n: nat) -> Seq<char> {
    "Steam libraries checked: "@ + decimal(n)
}

pub open spec fn note_found(lib: Seq<char>) -> Seq<char> {
    "RimWorld found via Steam library "@ + lib
}

pub open spec fn note_non_steam() -> Seq<char> {
    "RimWorld found in a non-Steam location"@
}

pub open spec fn note_no_game() -> Seq<char> {
    "RimWorld not found in any Steam library; pick the game folder manually"@
}

pub open spec fn note_no_config() -> Seq<char> {
    "RimWorld config folder not found (run the game once, or pick it manually)"@
}

/// The game folder: the first library (in `library_order`) that holds it, else the first
/// non-Steam candidate with a `Data` folder.
pub open spec fn found_game(ls: Seq<Seq<char>>, libs: Seq<LibraryProbe>, extra: Seq<GameProbe>) -> Option<GameProbe> {
    let gi = first_where(ls, holds_game(libs));
    let ei = first_where(extra, has_data());
    if gi >= 0 {
        lib_game(libs, ls[gi])
    } else if ei >= 0 {
        Some(extra[ei])
    } else {
        None
    }
}

/// The Workshop folder: that of the library holding the game when it exists, else the first
/// library's that exists.
pub open spec fn found_workshop(ls: Seq<Seq<char>>, libs: Seq<LibraryProbe>) -> Option<Seq<char>> {
    let gi = first_where(ls, holds_game(libs));
    let wi = first_where(ls, has_workshop(libs));
    if gi >= 0 && libs[lib_index(libs, ls[gi])].workshop_is_dir {
        Some(libs[lib_index(libs, ls[gi])].workshop@)
    } else if wi >= 0 {
        Some(libs[lib_index(libs, ls[wi])].workshop@)
    } else {
        None
    }
}

/// The notes that explain the outcome, in order.
pub open spec fn found_notes(ls: Seq<Seq<char>>, libs: Seq<LibraryProbe>, extra: Seq<GameProbe>, config_found: bool) -> Seq<Seq<char>> {
    let gi = first_where(ls, holds_game(libs));
    let ei = first_where(extra, has_data());
    let n1 = seq![note_checked(ls.len())];
    let n2 = if gi >= 0 {
        n1.push(note_found(ls[gi]))
    } else if ei >= 0 {
        n1.push(note_non_steam())
    } else {
        n1.push(note_no_game())
    };
    if config_found { n2 } else { n2.push(note_no_config()) }
}

/// What detection reports for the given probes.
pub open spec fn detected_spec(
    roots: Seq<RootProbe>,
    libs: Seq<LibraryProbe>,
    extra: Seq<GameProbe>,
    configs: Seq<(String, bool)>,
) -> DetectedView {
    let ls = library_order(roots, libs);
    let game = found_game(ls, libs, extra);
    let ci = first_where(configs, exists_dir());
    DetectedView {
        game: match game {
            Some(g) => Some(g.path@),
            None => None,
        },
        config: if ci >= 0 { Some(configs[ci].0@) } else { None },
        local: match game {
            Some(g) => Some(local_of(g)),
            None => None,
        },
        workshop: found_workshop(ls, libs),
        notes: found_notes(ls, libs, extra, ci >= 0),
    }
}


/// Position of the first probe of the library at `p` (`libs.len()` if none).
fn lib_pos(libs: &Vec<LibraryProbe>, p: &str) -> (r: usize)
    ensures
        r <= libs@.len(),
        lib_index(libs@, p@) == if r < libs@.len() { r as int } else { -1 },
{
    let mut i: usize = 0;
    while i < libs.len()
        invariant
            0 <= i <= libs@.len(),
            forall|k: int| 0 <= k < i ==> !at_path(p@)(#[trigger] libs@[k]),
        decreases libs@.len() - i,
    {
        if str_eq(libs[i].path.as_str(), p) {
            proof {
                lemma_first_found(libs@, at_path(p@), i as int);
            }
            return i;
        }
        i += 1;
    }
    proof {
        lemma_first_found(libs@, at_path(p@), i as int);
    }
    i
}

/// Whether the library at `p` exists.
fn lib_dir(libs: &Vec<LibraryProbe>, p: &str) -> (b: bool)
    ensures
        b == lib_is_dir(libs@, p@),
{
    let k = lib_pos(libs, p);
    k < libs.len() && libs[k].is_dir
}

/// The game folder of a library (see `steam_game`).
fn game_of(l: &LibraryProbe) -> (r: Option<&GameProbe>)
    ensures
        match r {
            Some(g) => steam_game(*l) == Some(*g),
            None => steam_game(*l) is None,
        },
{
    match &l.manifest {
        Some(t) => match install_dir(t.as_str()) {
            Some(d) => match &l.game {
                Some(ng) => {
                    if str_eq(ng.0.as_str(), d.as_str()) && ng.1.is_dir {
                        Some(&ng.1)
                    } else {
                        None
                    }
                },
                None => None,
            },
            None => None,
        },
        None => None,
    }
}

/// Appends the listed libraries that exist and are not in `out` yet (see `add_listed`).
fn add_listed_libraries(out: &mut Vec<String>, listed: &Vec<String>, libs: &Vec<LibraryProbe>)
    ensures
        sv(final(out)@) == add_listed(sv(old(out)@), sv(listed@), libs@),
{
    let ghost start = sv(out@);
    let mut j: usize = 0;
    while j < listed.len()
        invariant
            0 <= j <= listed@.len(),
            start == sv(old(out)@),
            sv(out@) == add_listed(start, sv(listed@).take(j as int), libs@),
        decreases listed@.len() - j,
    {
        proof {
            assert(sv(listed@).take(j + 1).drop_last() == sv(listed@).take(j as int));
            assert(sv(listed@).take(j + 1).last() == listed@[j as int]@);
        }
        let p = &listed[j];
        if lib_dir(libs, p.as_str()) && !contains_str(out, p) {
            let ghost o = out@;
            out.push(p.clone());
            proof {
                assert(sv(out@) == sv(o).push(p@));
            }
        }
        j += 1;
    }
    proof {
        assert(sv(listed@).take(listed@.len() as int) == sv(listed@));
    }
}

/// The libraries to check, in order (see `library_order`).
fn libraries_to_check(roots: &Vec<RootProbe>, libs: &Vec<LibraryProbe>) -> (r: Vec<String>)
    ensures
        sv(r@) == library_order(roots@, libs@),
{
    let mut out: Vec<String> = Vec::new();
    let mut i: usize = 0;
    proof {
        assert(sv(out@) == Seq::<Seq<char>>::empty());
    }
    while i < roots.len()
        invariant
            0 <= i <= roots@.len(),
            sv(out@) == library_order(roots@.take(i as int), libs@),
        decreases roots@.len() - i,
    {
        proof {
            assert(roots@.take(i + 1).drop_last() == roots@.take(i as int));
            assert(roots@.take(i + 1).last() == roots@[i as int]);
        }
        let r = &roots[i];
        if r.is_dir {
            if !contains_str(&out, &r.path) {
                let ghost o = out@;
                out.push(r.path.clone());
                proof {
                    assert(sv(out@) == sv(o).push(r.path@));
                }
            }
            match &r.library_folders {
                Some(t) => {
                    let listed = library_paths(t.as_str());
                    add_listed_libraries(&mut out, &listed, libs);
                },
                None => {},
            }
        }
        i += 1;
    }
    proof {
        assert(roots@.take(roots@.len() as int) == roots@);
    }
    out
}

/// Position of the first library holding the game (`ls.len()` if none).
fn game_library(ls: &Vec<String>, libs: &Vec<LibraryProbe>) -> (r: usize)
    ensures
        r <= ls@.len(),
        first_where(sv(ls@), holds_game(libs@)) == if r < ls@.len() { r as int } else { -1 },
{
    let mut i: usize = 0;
    while i < ls.len()
        invariant
            0 <= i <= ls@.len(),
            forall|k: int| 0 <= k < i ==> !holds_game(libs@)(#[trigger] sv(ls@)[k]),
        decreases ls@.len() - i,
    {
        let k = lib_pos(libs, ls[i].as_str());
        if k < libs.len() {
            if game_of(&libs[k]).is_some() {
                proof {
                    lemma_first_found(sv(ls@), holds_game(libs@), i as int);
                }
                return i;
            }
        }
        assert(!holds_game(libs@)(sv(ls@)[i as int]));
        i += 1;
    }
    proof {
        lemma_first_found(sv(ls@), holds_game(libs@), i as int);
    }
    i
}

/// Position of the first library with a Workshop folder (`ls.len()` if none).
fn workshop_library(ls: &Vec<String>, libs: &Vec<LibraryProbe>) -> (r: usize)
    ensures
        r <= ls@.len(),
        first_where(sv(ls@), has_workshop(libs@)) == if r < ls@.len() { r as int } else { -1 },
{
    let mut i: usize = 0;
    while i < ls.len()
        invariant
            0 <= i <= ls@.len(),
            forall|k: int| 0 <= k < i ==> !has_workshop(libs@)(#[trigger] sv(ls@)[k]),
        decreases ls@.len() - i,
    {
        let k = lib_pos(libs, ls[i].as_str());
        if k < libs.len() && libs[k].workshop_is_dir {
            proof {
                lemma_first_found(sv(ls@), has_workshop(libs@), i as int);
            }
            return i;
        }
        assert(!has_workshop(libs@)(sv(ls@)[i as int]));
        i += 1;
    }
    proof {
        lemma_first_found(sv(ls@), has_workshop(libs@), i as int);
    }
    i
}

/// Position of the first non-Steam game folder with a `Data` folder (`extra.len()` if none).
fn extra_game(extra: &Vec<GameProbe>) -> (r: usize)
    ensures
        r <= extra@.len(),
        first_where(extra@, has_data()) == if r < extra@.len() { r as int } else { -1 },
{
    let mut i: usize = 0;
    while i < extra.len()
        invariant
            0 <= i <= extra@.len(),
            forall|k: int| 0 <= k < i ==> !has_data()(#[trigger] extra@[k]),
        decreases extra@.len() - i,
    {
        if extra[i].has_data {
            proof {
                lemma_first_found(extra@, has_data(), i as int);
            }
            return i;
        }
        i += 1;
    }
    proof {
        lemma_first_found(extra@, has_data(), i as int);
    }
    i
}

/// Position of the first existing config folder (`configs.len()` if none).
fn config_found(configs: &Vec<(String, bool)>) -> (r: usize)
    ensures
        r <= configs@.len(),
        first_where(configs@, exists_dir()) == if r < configs@.len() { r as int } else { -1 },
{
    let mut i: usize = 0;
    while i < configs.len()
        invariant
            0 <= i <= configs@.len(),
            forall|k: int| 0 <= k < i ==> !exists_dir()(#[trigger] configs@[k]),
        decreases configs@.len() - i,
    {
        if configs[i].1 {
            proof {
                lemma_first_found(configs@, exists_dir(), i as int);
            }
            return i;
        }
        i += 1;
    }
    proof {
        lemma_first_found(configs@, exists_dir(), i as int);
    }
    i
}

/// The folder and local mods folder of a game probe.
fn game_folders(g: &GameProbe) -> (r: (String, String))
    ensures
        r.0@ == g.path@,
        r.1@ == local_of(*g),
{
    let local = if g.mac_mods_is_dir { g.mac_mods.clone() } else { g.mods.clone() };
    (g.path.clone(), local)
}

/// Decides what auto-detection reports from what was found on disk: the Steam roots (with their
/// `libraryfolders.vdf`), the probed library folders (with the game's app manifest), the
/// non-Steam game folders and the config folder candidates, each list in order of preference.
pub fn detect_from(
    roots: &Vec<RootProbe>,
    libs: &Vec<LibraryProbe>,
    extra_game_dirs: &Vec<GameProbe>,
    configs: &Vec<(String, bool)>,
) -> (r: DetectedPaths)
    ensures
        r@ == detected_spec(roots@, libs@, extra_game_dirs@, configs@),
{
    let ls = libraries_to_check(roots, libs);
    let ghost lsv = sv(ls@);
    let gi = game_library(&ls, libs);
    let wi = workshop_library(&ls, libs);
    let ei = extra_game(extra_game_dirs);
    let ci = config_found(configs);
    proof {
        lemma_first_where(lsv, holds_game(libs@));
        lemma_first_where(lsv, has_workshop(libs@));
        lemma_first_where(extra_game_dirs@, has_data());
        assert(ls@.len() == lsv.len());
    }
    let mut game_folder: Option<String> = None;
    let mut local_folder: Option<String> = None;
    let mut workshop_folder: Option<String> = None;
    let mut notes: Vec<String> = Vec::new();
    let mut n1 = String::from_str("Steam libraries checked: ");
    let count = crate::error::decimal_u64(ls.len() as u64);
    n1.append(count.as_str());
    notes.push(n1);
    if gi < ls.len() {
        let k = lib_pos(libs, ls[gi].as_str());
        assert(holds_game(libs@)(lsv[gi as int]));
        let g = game_of(&libs[k]).unwrap();
        let (gf, lf) = game_folders(g);
        game_folder = Some(gf);
        local_folder = Some(lf);
        if libs[k].workshop_is_dir {
            workshop_folder = Some(libs[k].workshop.clone());
        }
        let mut n2 = String::from_str("RimWorld found via Steam library ");
        n2.append(ls[gi].as_str());
        notes.push(n2);
    } else if ei < extra_game_dirs.len() {
        let (gf, lf) = game_folders(&extra_game_dirs[ei]);
        game_folder = Some(gf);
        local_folder = Some(lf);
        notes.push(String::from_str("RimWorld found in a non-Steam location"));
    } else {
        notes.push(String::from_str("RimWorld not found in any Steam library; pick the game folder manually"));
    }
    if workshop_folder.is_none() && wi < ls.len() {
        let k = lib_pos(libs, ls[wi].as_str());
        assert(has_workshop(libs@)(lsv[wi as int]));
        workshop_folder = Some(libs[k].workshop.clone());
    }
    let config_folder = if ci < configs.len() {
        Some(configs[ci].0.clone())
    } else {
        notes.push(String::from_str("RimWorld config folder not found (run the game once, or pick it manually)"));
        None
    };
    proof {
        reveal_strlit("Steam libraries checked: ");
        reveal_strlit("RimWorld found via Steam library ");
    }
    let r = DetectedPaths { game_folder, config_folder, local_folder, workshop_folder, notes };
    assert(r@.notes == found_notes(lsv, libs@, extra_game_dirs@, ci < configs.len()));
    r
}

} // verus!
