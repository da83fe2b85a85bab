//! Mod model and the in-memory index of everything found on disk.

use vstd::prelude::*;

use crate::mod_id::ModId;
use crate::rules::ExtRule;
use crate::text::{chars_eq, chars_lt, chars_of, clone_strings, extend_strings, lex_lt, lowercase, to_lower};

verus! {

broadcast use {vstd::string::group_string_axioms, vstd::seq_lib::group_to_multiset_ensures};

/// Package id given to mods whose About.xml has none.
pub const MISSING_PACKAGE_ID: &'static str = "missing.packageid";

/// Where a mod was installed from.
#[derive(Debug, Clone, Copy, PartialEq, Eq, Hash, Structural)]
pub enum ModType {
    Local,
    SteamWorkshop,
    SteamCmd,
    Ludeon,
    Git,
    Unknown,
}

/// A declared dependency (`modDependencies/li`).
#[derive(Debug, Clone)]
pub struct Dependency {
    pub package_id: String,
    pub display_name: String,
    pub workshop_url: String,
    pub alternatives: Vec<String>,
}

/// The contents of a `Dependency`.
pub struct DependencyView {
    pub package_id: Seq<char>,
    pub display_name: Seq<char>,
    pub workshop_url: Seq<char>,
    pub alternatives: Seq<Seq<char>>,
}

impl View for Dependency {
    type V = DependencyView;

    open spec fn view(&self) -> DependencyView {
        DependencyView {
            package_id: self.package_id@,
            display_name: self.display_name@,
            workshop_url: self.workshop_url@,
            alternatives: crate::text::sv(self.alternatives@),
        }
    }
}

/// The views of a list of dependencies.
pub open spec fn deps_view(d: Seq<Dependency>) -> Seq<DependencyView> {
    d.map_values(|x: Dependency| x@)
}

/// The contents of `Rules`.
pub struct RulesView {
    pub load_before: Seq<Seq<char>>,
    pub load_after: Seq<Seq<char>>,
    pub incompatible_with: Seq<Seq<char>>,
    pub dependencies: Seq<DependencyView>,
}

/// Load-order rules from About.xml.
#[derive(Debug, Clone)]
pub struct Rules {
    pub load_before: Vec<String>,
    pub load_after: Vec<String>,
    pub incompatible_with: Vec<String>,
    pub dependencies: Vec<Dependency>,
}

impl View for Rules {
    type V = RulesView;

    open spec fn view(&self) -> RulesView {
        RulesView {
            load_before: crate::text::sv(self.load_before@),
            load_after: crate::text::sv(self.load_after@),
            incompatible_with: crate::text::sv(self.incompatible_with@),
            dependencies: deps_view(self.dependencies@),
        }
    }
}

impl Rules {
    /// No rules.
    pub fn empty() -> (r: Rules)
        ensures
            r.load_before@.len() == 0,
            r.load_after@.len() == 0,
            r.incompatible_with@.len() == 0,
            r.dependencies@.len() == 0,
    {
        Rules {
            load_before: Vec::new(),
            load_after: Vec::new(),
            incompatible_with: Vec::new(),
            dependencies: Vec::new(),
        }
    }
}

/// One installed mod.
#[derive(Debug, Clone)]
pub struct Mod {
    pub id: ModId,
    /// Folder of the mod.
    pub path: String,
    pub folder: String,
    pub mod_type: ModType,
    /// False when About.xml is missing/unparseable.
    pub valid: bool,
    pub invalid_reason: Option<String>,
    /// Lowercased.
    pub package_id: String,
    pub name: String,
    pub authors: Vec<String>,
    pub description: String,
    pub url: String,
    pub mod_version: String,
    pub supported_versions: Vec<String>,
    pub published_file_id: Option<String>,
    pub steam_app_id: Option<u32>,
    pub rules: Rules,
    /// Community / user rules for this package id (empty when none).
    pub community: ExtRule,
    pub user: ExtRule,
    /// Unix seconds of the folder mtime, -1 if unknown.
    pub mtime: i64,
}

/// loadAfter from About.xml + community + user rules.
pub open spec fn load_after_of(m: Mod) -> Seq<String> {
    m.rules.load_after@ + m.community.load_after@ + m.user.load_after@
}

/// loadBefore from About.xml + community + user rules.
pub open spec fn load_before_of(m: Mod) -> Seq<String> {
    m.rules.load_before@ + m.community.load_before@ + m.user.load_before@
}

impl Mod {
    /// loadAfter from About.xml + community + user rules.
    pub fn load_after_all(&self) -> (r: Vec<String>)
        ensures
            r@ == load_after_of(*self),
    {
        let mut r = clone_strings(&self.rules.load_after);
        extend_strings(&mut r, &self.community.load_after);
        extend_strings(&mut r, &self.user.load_after);
        r
    }

    /// loadBefore from About.xml + community + user rules.
    pub fn load_before_all(&self) -> (r: Vec<String>)
        ensures
            r@ == load_before_of(*self),
    {
        let mut r = clone_strings(&self.rules.load_before);
        extend_strings(&mut r, &self.community.load_before);
        extend_strings(&mut r, &self.user.load_before);
        r
    }

    /// Community or user rules ask for tier 1.
    pub fn load_first(&self) -> (b: bool)
        ensures
            b == (self.community.load_top || self.user.load_top),
    {
        self.community.load_top || self.user.load_top
    }

    /// Community or user rules ask for tier 3.
    pub fn load_last(&self) -> (b: bool)
        ensures
            b == (self.community.load_bottom || self.user.load_bottom),
    {
        self.community.load_bottom || self.user.load_bottom
    }
}

/// Index order: case-insensitive name first, then path.
pub open spec fn mod_before(a: Mod, b: Mod) -> bool {
    ||| lex_lt(lowercase(a.name@), lowercase(b.name@))
    ||| (lowercase(a.name@) == lowercase(b.name@) && lex_lt(a.path@, b.path@))
}

/// Ordered by `mod_before`.
pub open spec fn sorted_mods(s: Seq<Mod>) -> bool {
    forall|i: int, j: int| 0 <= i < j < s.len() ==> !mod_before(#[trigger] s[j], #[trigger] s[i])
}

proof fn lemma_before_trans(a: Mod, b: Mod, c: Mod)
    requires
        mod_before(a, b),
        mod_before(b, c),
    ensures
        mod_before(a, c),
{
    let (x, y, z) = (lowercase(a.name@), lowercase(b.name@), lowercase(c.name@));
    if lex_lt(x, y) && lex_lt(y, z) {
        crate::text::lemma_lex_trans(x, y, z);
    } else if lex_lt(x, y) {
    } else if lex_lt(y, z) {
    } else {
        crate::text::lemma_lex_trans(a.path@, b.path@, c.path@);
    }
}

proof fn lemma_before_total(a: Mod, b: Mod)
    ensures
        mod_before(a, b) || mod_before(b, a) || (lowercase(a.name@) == lowercase(b.name@) && a.path@
            == b.path@),
{
    crate::text::lemma_lex_total(lowercase(a.name@), lowercase(b.name@));
    crate::text::lemma_lex_total(a.path@, b.path@);
}

proof fn lemma_before_asym(a: Mod, b: Mod)
    requires
        mod_before(a, b),
    ensures
        !mod_before(b, a),
{
    let (x, y) = (lowercase(a.name@), lowercase(b.name@));
    if lex_lt(x, y) {
        crate::text::lemma_lex_asym(x, y);
    } else {
        crate::text::lemma_lex_irreflexive(x);
        crate::text::lemma_lex_asym(a.path@, b.path@);
    }
}

/// `!before(c, b) && !before(b, a) ==> !before(c, a)`.
proof fn lemma_not_before_trans(a: Mod, b: Mod, c: Mod)
    requires
        !mod_before(c, b),
        !mod_before(b, a),
    ensures
        !mod_before(c, a),
{
    lemma_before_total(a, b);
    lemma_before_total(b, c);
    if mod_before(c, a) {
        if mod_before(a, b) {
            lemma_before_trans(c, a, b);
        } else {
            crate::text::lemma_lex_irreflexive(lowercase(b.name@));
        }
    }
}

/// Position of the last mod with id `id` (-1 if none): a later mod with the same id wins.
pub open spec fn last_with_id(mods: Seq<Mod>, id: ModId) -> int
    decreases mods.len(),
{
    if mods.len() == 0 {
        -1
    } else if mods.last().id == id {
        mods.len() - 1
    } else {
        last_with_id(mods.drop_last(), id)
    }
}

pub proof fn lemma_last_with_id(mods: Seq<Mod>, id: ModId)
    ensures
        -1 <= last_with_id(mods, id) < mods.len(),
        last_with_id(mods, id) >= 0 ==> mods[last_with_id(mods, id)].id == id,
        forall|k: int| last_with_id(mods, id) < k < mods.len() ==> mods[k].id != id,
    decreases mods.len(),
{
    if mods.len() > 0 && mods.last().id != id {
        lemma_last_with_id(mods.drop_last(), id);
        assert forall|k: int| last_with_id(mods, id) < k < mods.len() implies mods[k].id != id by {
            if k < mods.len() - 1 {
                assert(mods[k] == mods.drop_last()[k]);
            }
        }
    }
}

/// The valid mods with package id `pid`, in index order.
pub open spec fn pkg_mods(mods: Seq<Mod>, pid: Seq<char>) -> Seq<Mod>
    decreases mods.len(),
{
    if mods.len() == 0 {
        Seq::empty()
    } else {
        let rest = pkg_mods(mods.drop_last(), pid);
        if mods.last().valid && mods.last().package_id@ == pid {
            rest.push(mods.last())
        } else {
            rest
        }
    }
}

/// Positions of the valid mods with package id `pid`, in index order.
pub open spec fn pkg_positions(mods: Seq<Mod>, pid: Seq<char>) -> Seq<int>
    decreases mods.len(),
{
    if mods.len() == 0 {
        Seq::empty()
    } else {
        let rest = pkg_positions(mods.drop_last(), pid);
        if mods.last().valid && mods.last().package_id@ == pid {
            rest.push(mods.len() - 1)
        } else {
            rest
        }
    }
}

pub proof fn lemma_pkg_positions(mods: Seq<Mod>, pid: Seq<char>)
    ensures
        pkg_positions(mods, pid).len() == pkg_mods(mods, pid).len(),
        forall|k: int|
            0 <= k < pkg_positions(mods, pid).len() ==> {
                let p = #[trigger] pkg_positions(mods, pid)[k];
                &&& 0 <= p < mods.len()
                &&& mods[p] == pkg_mods(mods, pid)[k]
                &&& mods[p].valid
                &&& mods[p].package_id@ == pid
            },
        forall|a: int, b: int|
            0 <= a < b < pkg_positions(mods, pid).len() ==> #[trigger] pkg_positions(mods, pid)[a]
                < #[trigger] pkg_positions(mods, pid)[b],
        forall|p: int|
            0 <= p < mods.len() && mods[p].valid && mods[p].package_id@ == pid ==> #[trigger] pkg_positions(
                mods,
                pid,
            ).contains(p),
    decreases mods.len(),
{
    if mods.len() > 0 {
        let d = mods.drop_last();
        lemma_pkg_positions(d, pid);
        let r = pkg_positions(mods, pid);
        assert forall|k: int| 0 <= k < r.len() implies {
            let p = #[trigger] r[k];
            &&& 0 <= p < mods.len()
            &&& mods[p] == pkg_mods(mods, pid)[k]
            &&& mods[p].valid
            &&& mods[p].package_id@ == pid
        } by {
            if k < pkg_positions(d, pid).len() {
                assert(r[k] == pkg_positions(d, pid)[k]);
                assert(mods[r[k]] == d[r[k]]);
            }
        }
        assert forall|p: int|
            0 <= p < mods.len() && mods[p].valid && mods[p].package_id@ == pid implies #[trigger] r.contains(
            p,
        ) by {
            if p < mods.len() - 1 {
                assert(d[p] == mods[p]);
                assert(pkg_positions(d, pid).contains(p));
                let k = choose|k: int|
                    0 <= k < pkg_positions(d, pid).len() && pkg_positions(d, pid)[k] == p;
                assert(r[k] == p);
            } else {
                assert(r[r.len() - 1] == p);
            }
        }
    }
}

/// Immutable snapshot of everything found on disk.
#[derive(Debug)]
pub struct ModIndex {
    /// Sorted by name (case-insensitive), then path.
    pub mods: Vec<Mod>,
    pub game_version: String,
    pub scan_ms: u64,
}

impl ModIndex {
    /// An index over `mods`, sorted by case-insensitive name, then path.
    pub fn new(mods: Vec<Mod>, game_version: String, scan_ms: u64) -> (r: ModIndex)
        ensures
            r.mods@.to_multiset() == mods@.to_multiset(),
            sorted_mods(r.mods@),
            r.game_version == game_version,
            r.scan_ms == scan_ms,
    {
        let mut input = mods;
        let ghost orig = input@;
        let mut sorted: Vec<Mod> = Vec::new();
        let mut names: Vec<Vec<char>> = Vec::new();
        let mut paths: Vec<Vec<char>> = Vec::new();
        while input.len() > 0
            invariant
                input@.to_multiset().add(sorted@.to_multiset()) == orig.to_multiset(),
                sorted_mods(sorted@),
                names@.len() == sorted@.len(),
                paths@.len() == sorted@.len(),
                forall|k: int| 0 <= k < sorted@.len() ==> #[trigger] names@[k]@ == lowercase(sorted@[k].name@),
                forall|k: int| 0 <= k < sorted@.len() ==> #[trigger] paths@[k]@ == sorted@[k].path@,
            decreases input@.len(),
        {
            let ghost before = input@;
            let m = input.pop().unwrap();
            proof {
                assert(before == input@.push(m));
            }
            let lname = to_lower(m.name.as_str());
            let name = chars_of(lname.as_str());
            let path = chars_of(m.path.as_str());
            let mut p: usize = 0;
            let mut go = true;
            while go && p < sorted.len()
                invariant
                    !go ==> p < sorted@.len() && !mod_before(sorted@[p as int], m),
                    forall|k: int| 0 <= k < sorted@.len() ==> #[trigger] names@[k]@ == lowercase(sorted@[k].name@),
                    forall|k: int| 0 <= k < sorted@.len() ==> #[trigger] paths@[k]@ == sorted@[k].path@,
                    0 <= p <= sorted@.len(),
                    names@.len() == sorted@.len(),
                    paths@.len() == sorted@.len(),
                    forall|k: int|
                        0 <= k < sorted@.len() ==> #[trigger] names@[k]@ == lowercase(
                            sorted@[k].name@,
                        ) && paths@[k]@ == sorted@[k].path@,
                    name@ == lowercase(m.name@),
                    path@ == m.path@,
                    forall|k: int| 0 <= k < p ==> mod_before(#[trigger] sorted@[k], m),
                decreases sorted@.len() - p + (if go { 1int } else { 0int }),
            {
                let lt = chars_lt(names[p].as_slice(), name.as_slice()) || (chars_eq(
                    names[p].as_slice(),
                    name.as_slice(),
                ) && chars_lt(paths[p].as_slice(), path.as_slice()));
                if lt {
                    p += 1;
                } else {
                    go = false;
                }
            }
            proof {
                let s = sorted@;
                assert(p < s.len() ==> !mod_before(s[p as int], m));
                let s2 = s.insert(p as int, m);
                assert forall|i: int, j: int| 0 <= i < j < s2.len() implies !mod_before(
                    #[trigger] s2[j],
                    #[trigger] s2[i],
                ) by {
                    if j < p {
                        assert(s2[i] == s[i] && s2[j] == s[j]);
                    } else if j == p {
                        assert(s2[i] == s[i]);
                        lemma_before_asym(s[i], m);
                    } else if i == p {
                        assert(s2[j] == s[j - 1]);
                        if j - 1 > p {
                            assert(!mod_before(s[j - 1], s[p as int]));
                            lemma_not_before_trans(m, s[p as int], s[j - 1]);
                        }
                    } else if i < p {
                        assert(s2[i] == s[i] && s2[j] == s[j - 1]);
                    } else {
                        assert(s2[i] == s[i - 1] && s2[j] == s[j - 1]);
                    }
                }
            }
            let ghost (s0, n0, p0) = (sorted@, names@, paths@);
            sorted.insert(p, m);
            names.insert(p, name);
            paths.insert(p, path);
            proof {
                assert forall|k: int| 0 <= k < sorted@.len() implies names@[k]@
                    == lowercase(sorted@[k].name@) && paths@[k]@ == sorted@[k].path@ by {
                    if k < p {
                        assert(names@[k] == n0[k] && sorted@[k] == s0[k] && paths@[k] == p0[k]);
                    } else if k > p {
                        assert(names@[k] == n0[k - 1] && sorted@[k] == s0[k - 1] && paths@[k] == p0[k - 1]);
                    }
                }
            }
        }
        ModIndex { mods: sorted, game_version, scan_ms }
    }

    /// The mod with id `id` (the last one, should two share an id).
    pub fn get(&self, id: ModId) -> (r: Option<&Mod>)
        ensures
            r.is_some() == (last_with_id(self.mods@, id) >= 0),
            r matches Some(m) ==> *m == self.mods@[last_with_id(self.mods@, id)],
    {
        proof {
            lemma_last_with_id(self.mods@, id);
        }
        let mut i = self.mods.len();
        while i > 0
            invariant
                0 <= i <= self.mods@.len(),
                forall|k: int| i <= k < self.mods@.len() ==> self.mods@[k].id != id,
                -1 <= last_with_id(self.mods@, id) < self.mods@.len(),
                last_with_id(self.mods@, id) >= 0 ==> self.mods@[last_with_id(self.mods@, id)].id
                    == id,
                forall|k: int| last_with_id(self.mods@, id) < k < self.mods@.len() ==> self.mods@[k].id
                    != id,
            decreases i,
        {
            i -= 1;
            if self.mods[i].id == id {
                return Some(&self.mods[i]);
            }
        }
        None
    }

    /// Positions of all valid mods with package id `pid` (duplicates across sources).
    pub fn package_positions(&self, pid: &String) -> (r: Vec<usize>)
        ensures
            r@.len() == pkg_positions(self.mods@, pid@).len(),
            forall|k: int|
                0 <= k < r@.len() ==> #[trigger] r@[k] as int == pkg_positions(self.mods@, pid@)[k],
    {
        let mut r: Vec<usize> = Vec::new();
        let mut i: usize = 0;
        while i < self.mods.len()
            invariant
                0 <= i <= self.mods@.len(),
                r@.len() == pkg_positions(self.mods@.take(i as int), pid@).len(),
                forall|k: int|
                    0 <= k < r@.len() ==> #[trigger] r@[k] as int == pkg_positions(
                        self.mods@.take(i as int),
                        pid@,
                    )[k],
            decreases self.mods@.len() - i,
        {
            proof {
                assert(self.mods@.take(i + 1).drop_last() == self.mods@.take(i as int));
            }
            if self.mods[i].valid && self.mods[i].package_id == *pid {
                r.push(i);
            }
            i += 1;
        }
        proof {
            assert(self.mods@.take(i as int) == self.mods@);
        }
        r
    }

    /// All valid mods sharing a package id (duplicates across sources), in index order.
    pub fn by_package(&self, package_id: &str) -> (r: Vec<&Mod>)
        ensures
            r@.len() == pkg_mods(self.mods@, package_id@).len(),
            forall|k: int|
                0 <= k < r@.len() ==> *#[trigger] r@[k] == pkg_mods(self.mods@, package_id@)[k],
    {
        let pid = String::from_str(package_id);
        let pos = self.package_positions(&pid);
        proof {
            lemma_pkg_positions(self.mods@, pid@);
        }
        let mut r: Vec<&Mod> = Vec::new();
        let mut k: usize = 0;
        while k < pos.len()
            invariant
                0 <= k <= pos@.len(),
                pid@ == package_id@,
                pos@.len() == pkg_positions(self.mods@, pid@).len(),
                forall|j: int|
                    0 <= j < pos@.len() ==> #[trigger] pos@[j] as int == pkg_positions(
                        self.mods@,
                        pid@,
                    )[j],
                pkg_positions(self.mods@, pid@).len() == pkg_mods(self.mods@, pid@).len(),
                forall|j: int|
                    0 <= j < pkg_positions(self.mods@, pid@).len() ==> {
                        let p = #[trigger] pkg_positions(self.mods@, pid@)[j];
                        &&& 0 <= p < self.mods@.len()
                        &&& self.mods@[p] == pkg_mods(self.mods@, pid@)[j]
                    },
                r@.len() == k,
                forall|j: int| 0 <= j < k ==> *#[trigger] r@[j] == pkg_mods(self.mods@, pid@)[j],
            decreases pos@.len() - k,
        {
            assert(pkg_positions(self.mods@, pid@)[k as int] == pos@[k as int] as int);
            r.push(&self.mods[pos[k]]);
            k += 1;
        }
        r
    }

    /// Number of package ids shared by two or more valid mods.
    pub fn duplicate_package_count(&self) -> (n: usize)
        ensures
            n == dup_firsts(self.mods@, self.mods@.len() as int),
    {
        let mut n: usize = 0;
        let mut i: usize = 0;
        while i < self.mods.len()
            invariant
                0 <= i <= self.mods@.len(),
                n == dup_firsts(self.mods@, i as int),
                n <= i,
            decreases self.mods@.len() - i,
        {
            if self.mods[i].valid {
                let pos = self.package_positions(&self.mods[i].package_id);
                proof {
                    lemma_pkg_positions(self.mods@, self.mods@[i as int].package_id@);
                }
                if pos.len() >= 2 && pos[0] == i {
                    n += 1;
                }
            }
            i += 1;
        }
        n
    }
}

/// Among the first `k` mods, how many are the first valid mod of a package id that two or more
/// valid mods share.
pub open spec fn dup_firsts(mods: Seq<Mod>, k: int) -> nat
    decreases k,
{
    if k <= 0 {
        0
    } else {
        let i = k - 1;
        let pos = pkg_positions(mods, mods[i].package_id@);
        dup_firsts(mods, k - 1) + if mods[i].valid && pos.len() >= 2 && pos[0] == i {
            1nat
        } else {
            0nat
        }
    }
}

} // verus!
