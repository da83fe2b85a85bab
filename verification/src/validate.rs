//! Per-mod warnings for the active list. Messages are formatted by the UI from `kind` +
//! `other`. Semantics follow RimSort's mods panel: errors = missing dependency /
//! incompatibility, warnings = load-order violation / game-version mismatch. Ignored mods get
//! none.

use vstd::prelude::*;

use crate::mod_id::ModId;
use crate::mods::{Dependency, Mod, ModIndex, last_with_id, load_after_of, load_before_of, pkg_mods};
use crate::rules::{Replacement, RuleSources};
use crate::text::{chars_lt, lex_lt, lowercase, sv};
use crate::xml::find_char;

verus! {

broadcast use {vstd::string::group_string_axioms, vstd::seq_lib::group_seq_properties};

/// What a warning is about.
#[derive(Debug, Clone, Copy, PartialEq, Eq, Structural)]
pub enum WarningKind {
    /// `other` is a required package that isn't active.
    MissingDependency,
    /// `other` is an active mod declared incompatible (by either side).
    Incompatible,
    /// This mod should load before `other`, but comes after it.
    LoadBefore,
    /// This mod should load after `other`, but comes before it.
    LoadAfter,
    /// Mod doesn't list support for the running game version.
    VersionMismatch,
    /// A maintained replacement exists: `other` = its Workshop id, `other_name` = "Name by Author".
    UseThisInstead,
}

impl WarningKind {
    /// Missing dependencies and incompatibilities are errors; the rest are warnings.
    pub fn is_error(self) -> (b: bool)
        ensures
            b == (self is MissingDependency || self is Incompatible),
    {
        match self {
            WarningKind::MissingDependency | WarningKind::Incompatible => true,
            _ => false,
        }
    }
}

/// One warning.
#[derive(Debug, Clone)]
pub struct Warning {
    pub kind: WarningKind,
    pub other: String,
    pub other_name: String,
}

/// The warnings of one mod.
#[derive(Debug, Clone)]
pub struct ModWarnings {
    pub id: ModId,
    pub warnings: Vec<Warning>,
}

/// The validation of an active list.
#[derive(Debug, Clone)]
pub struct ValidationView {
    /// Only mods that have at least one warning.
    pub mods: Vec<ModWarnings>,
    /// Mods with an error-level warning.
    pub errors: u32,
    /// Mods with only warning-level issues.
    pub warnings: u32,
    /// Distinct packages required but not active.
    pub missing_dependencies: u32,
}

/// The digits of `s` from `i` on, as long as they run.
pub open spec fn digit_run(s: Seq<char>, i: int) -> Seq<char>
    decreases s.len() - i,
{
    if i < 0 || i >= s.len() || !('0' <= s[i] && s[i] <= '9') {
        Seq::empty()
    } else {
        seq![s[i]] + digit_run(s, i + 1)
    }
}

/// Position after the last occurrence of `k` in `s` (-1 if none).
pub open spec fn after_last(s: Seq<char>, k: Seq<char>) -> int
    decreases s.len(),
{
    if s.len() < k.len() {
        -1
    } else if s.subrange(s.len() - k.len(), s.len() as int) == k {
        s.len() as int
    } else {
        after_last(s.drop_last(), k)
    }
}

/// The Workshop id in a Steam link: the digits right after the later of the last
/// `CommunityFilePage/` and the last `id=`.
pub open spec fn workshop_id_of(url: Seq<char>) -> Option<Seq<char>> {
    let a = after_last(url, "CommunityFilePage/"@);
    let b = after_last(url, "id="@);
    let i = if a > b { a } else { b };
    if i < 0 || digit_run(url, i).len() == 0 {
        None
    } else {
        Some(digit_run(url, i))
    }
}

/// Position after the last occurrence of `k` in `v`, if any.
fn after_last_at(v: &[char], k: &[char]) -> (r: Option<usize>)
    ensures
        match r {
            Some(n) => n as int == after_last(v@, k@),
            None => after_last(v@, k@) == -1,
        },
{
    let mut n = v.len();
    proof {
        assert(v@.take(n as int) == v@);
    }
    while n >= k.len()
        invariant
            n <= v@.len(),
            after_last(v@, k@) == after_last(v@.take(n as int), k@),
        decreases n,
    {
        let ghost t = v@.take(n as int);
        let m = n - k.len();
        let hit = crate::text::starts_at(v, m, k);
        proof {
            assert(t.subrange(t.len() - k@.len(), t.len() as int) == v@.subrange(m as int, n as int));
            if k@.len() <= v@.len() - m {
                assert(v@.subrange(m as int, v@.len() as int).subrange(0, k@.len() as int) == v@.subrange(m as int, n as int));
            }
        }
        if hit {
            return Some(n);
        }
        if n == 0 {
            return None;
        }
        proof {
            assert(t.drop_last() == v@.take(n - 1));
        }
        n -= 1;
    }
    None
}

/// Steam Workshop id from `steam://url/CommunityFilePage/<id>` or `…filedetails/?id=<id>`
/// links.
pub fn workshop_id(url: &str) -> (r: Option<String>)
    ensures
        match workshop_id_of(url@) {
            Some(d) => r matches Some(s) && s@ == d,
            None => r is None,
        },
{
    let v = crate::text::chars_of(url);
    let a = after_last_at(v.as_slice(), crate::text::chars_of("CommunityFilePage/").as_slice());
    let b = after_last_at(v.as_slice(), crate::text::chars_of("id=").as_slice());
    let i: usize = match (a, b) {
        (Some(x), Some(y)) => if x > y { x } else { y },
        (Some(x), None) => x,
        (None, Some(y)) => y,
        (None, None) => {
            return None;
        },
    };
    proof {
        let sa = after_last(v@, "CommunityFilePage/"@);
        let sb = after_last(v@, "id="@);
        assert(i as int == if sa > sb { sa } else { sb });
        assert(i <= v@.len()) by {
            lemma_after_last_bound(v@, "CommunityFilePage/"@);
            lemma_after_last_bound(v@, "id="@);
        }
    }
    let mut k = i;
    let mut digits = String::new();
    proof {
        assert(digits@ == Seq::<char>::empty());
        assert(digit_run(v@, i as int) == digits@ + digit_run(v@, k as int));
    }
    while k < v.len() && '0' <= v[k] && v[k] <= '9'
        invariant
            i <= k <= v@.len(),
            digit_run(v@, i as int) == digits@ + digit_run(v@, k as int),
        decreases v@.len() - k,
    {
        crate::text::push_char(&mut digits, v[k]);
        proof {
            assert(digit_run(v@, k as int) == seq![v@[k as int]] + digit_run(v@, k + 1));
        }
        k += 1;
    }
    if digits.as_str().unicode_len() == 0 {
        None
    } else {
        Some(digits)
    }
}

proof fn lemma_after_last_bound(s: Seq<char>, k: Seq<char>)
    ensures
        after_last(s, k) <= s.len(),
    decreases s.len(),
{
    if s.len() >= k.len() && s.subrange(s.len() - k.len(), s.len() as int) != k {
        lemma_after_last_bound(s.drop_last(), k);
    }
}

/// `v` up to its second `.` (the whole of `v` when it has fewer): the running game's
/// `major.minor`.
pub open spec fn major_minor(v: Seq<char>) -> Seq<char> {
    let d1 = find_char(v, 0, '.');
    if d1 < 0 {
        v
    } else {
        let d2 = find_char(v, d1 + 1, '.');
        if d2 < 0 {
            v
        } else {
            v.take(d2)
        }
    }
}

/// `s` without leading `v`s.
pub open spec fn strip_vs(s: Seq<char>) -> Seq<char>
    decreases s.len(),
{
    if s.len() > 0 && s[0] == 'v' {
        strip_vs(s.drop_first())
    } else {
        s
    }
}

/// The mod lists supported versions, the running `major.minor` is not among them, and neither
/// the ignore list nor the NoVersionWarning list names it.
pub open spec fn version_mismatch_of(m: Mod, game_version: Seq<char>, src: RuleSources) -> bool {
    let mm = major_minor(game_version);
    &&& mm.len() > 0
    &&& m.supported_versions@.len() > 0
    &&& !sv(src.ignored@).contains(m.package_id@)
    &&& !sv(src.no_version_warning@).contains(m.package_id@)
    &&& !(exists|k: int| 0 <= k < m.supported_versions@.len() && #[trigger] strip_vs(m.supported_versions@[k]@) == mm)
}

/// `major_minor` of `v`.
pub(crate) fn major_minor_of(v: &[char]) -> (r: Vec<char>)
    ensures
        r@ == major_minor(v@),
{
    let d1 = crate::text::find_char_from(v, 0, '.');
    proof {
        crate::xml::lemma_find_char_pub(v@, 0, '.', d1 as int);
    }
    if d1 == v.len() {
        return crate::text::sub_chars(v, 0, v.len());
    }
    let d2 = crate::text::find_char_from(v, d1 + 1, '.');
    proof {
        crate::xml::lemma_find_char_pub(v@, d1 + 1, '.', d2 as int);
    }
    if d2 == v.len() {
        crate::text::sub_chars(v, 0, v.len())
    } else {
        crate::text::sub_chars(v, 0, d2)
    }
}

/// `s` without leading `v`s.
fn strip_vs_of(s: &[char]) -> (r: Vec<char>)
    ensures
        r@ == strip_vs(s@),
{
    let mut i: usize = 0;
    proof {
        assert(s@.skip(0) == s@);
    }
    while i < s.len() && s[i] == 'v'
        invariant
            0 <= i <= s@.len(),
            strip_vs(s@) == strip_vs(s@.skip(i as int)),
        decreases s@.len() - i,
    {
        proof {
            assert(s@.skip(i as int).drop_first() == s@.skip(i + 1));
        }
        i += 1;
    }
    crate::text::sub_chars(s, i, s.len())
}

/// True when the mod lists supported versions but not the running `major.minor`.
pub fn version_mismatch(m: &Mod, game_version: &str, src: &RuleSources) -> (r: bool)
    ensures
        r == version_mismatch_of(*m, game_version@, *src),
{
    let gv = crate::text::chars_of(game_version);
    let mm = major_minor_of(gv.as_slice());
    if mm.len() == 0 || m.supported_versions.len() == 0 || crate::text::contains_str(&src.ignored, &m.package_id)
        || crate::text::contains_str(&src.no_version_warning, &m.package_id) {
        return false;
    }
    let mut k: usize = 0;
    while k < m.supported_versions.len()
        invariant
            0 <= k <= m.supported_versions@.len(),
            mm@ == major_minor(game_version@),
            forall|j: int| 0 <= j < k ==> #[trigger] strip_vs(m.supported_versions@[j]@) != mm@,
        decreases m.supported_versions@.len() - k,
    {
        let c = crate::text::chars_of(m.supported_versions[k].as_str());
        let t = strip_vs_of(c.as_slice());
        if crate::text::chars_eq(t.as_slice(), mm.as_slice()) {
            return false;
        }
        k += 1;
    }
    true
}

/// A warning's contents.
pub type WarningView = (WarningKind, Seq<char>, Seq<char>);

/// The contents of a warning.
pub open spec fn warning_view(w: Warning) -> WarningView {
    (w.kind, w.other@, w.other_name@)
}

/// The valid mods the active ids name, in order.
pub open spec fn active_mods(mods: Seq<Mod>, active: Seq<ModId>) -> Seq<Mod>
    decreases active.len(),
{
    if active.len() == 0 {
        Seq::empty()
    } else {
        let r = active_mods(mods, active.drop_last());
        let k = last_with_id(mods, active.last());
        if k >= 0 && mods[k].valid {
            r.push(mods[k])
        } else {
            r
        }
    }
}

/// Position of the first active mod with package id `p` (-1 if none).
pub open spec fn pos_of(am: Seq<Mod>, p: Seq<char>) -> int
    decreases am.len(),
{
    if am.len() == 0 {
        -1
    } else {
        let r = pos_of(am.drop_last(), p);
        if r >= 0 {
            r
        } else if am.last().package_id@ == p {
            am.len() - 1
        } else {
            -1
        }
    }
}

/// The name shown for package id `p`: its first mod's name when non-empty, else `fallback`,
/// else `p`.
pub open spec fn name_of(mods: Seq<Mod>, p: Seq<char>, fallback: Seq<char>) -> Seq<char> {
    let ms = pkg_mods(mods, p);
    if ms.len() > 0 && ms[0].name@.len() > 0 {
        ms[0].name@
    } else if fallback.len() == 0 {
        p
    } else {
        fallback
    }
}

/// Some alternative of the dependency is active.
pub open spec fn alt_active(am: Seq<Mod>, alts: Seq<Seq<char>>) -> bool {
    exists|k: int| 0 <= k < alts.len() && #[trigger] pos_of(am, alts[k]) >= 0
}

/// Missing-dependency warnings for the dependencies `deps`.
pub open spec fn dep_warnings(mods: Seq<Mod>, am: Seq<Mod>, deps: Seq<Dependency>, alt: bool) -> Seq<WarningView>
    decreases deps.len(),
{
    if deps.len() == 0 {
        Seq::empty()
    } else {
        let r = dep_warnings(mods, am, deps.drop_last(), alt);
        let d = deps.last();
        if pos_of(am, d.package_id@) >= 0 || (alt && alt_active(am, sv(d.alternatives@))) {
            r
        } else {
            r.push((WarningKind::MissingDependency, d.package_id@, name_of(mods, d.package_id@, d.display_name@)))
        }
    }
}

/// Package ids of the active mods declaring `p` incompatible, once per declaration, in order.
pub open spec fn declared_by(am: Seq<Mod>, p: Seq<char>) -> Seq<Seq<char>>
    decreases am.len(),
{
    if am.len() == 0 {
        Seq::empty()
    } else {
        let m = am.last();
        declared_by(am.drop_last(), p) + Seq::new(count_of(sv(m.rules.incompatible_with@), p), |i: int| m.package_id@)
    }
}

/// How often `p` occurs in `s`.
pub open spec fn count_of(s: Seq<Seq<char>>, p: Seq<char>) -> nat
    decreases s.len(),
{
    if s.len() == 0 {
        0
    } else {
        count_of(s.drop_last(), p) + if s.last() == p { 1nat } else { 0nat }
    }
}

/// The ids of `own` that are active and not `pid`, then those of `decl` other than `pid`.
pub open spec fn raw_incompat(am: Seq<Mod>, own: Seq<Seq<char>>, decl: Seq<Seq<char>>, pid: Seq<char>) -> Seq<Seq<char>> {
    keep_active_other(am, own, pid) + keep_other(decl, pid)
}

/// The ids of `s` that are active and not `pid`.
pub open spec fn keep_active_other(am: Seq<Mod>, s: Seq<Seq<char>>, pid: Seq<char>) -> Seq<Seq<char>>
    decreases s.len(),
{
    if s.len() == 0 {
        Seq::empty()
    } else {
        let r = keep_active_other(am, s.drop_last(), pid);
        if s.last() != pid && pos_of(am, s.last()) >= 0 {
            r.push(s.last())
        } else {
            r
        }
    }
}

/// The ids of `s` other than `pid`.
pub open spec fn keep_other(s: Seq<Seq<char>>, pid: Seq<char>) -> Seq<Seq<char>>
    decreases s.len(),
{
    if s.len() == 0 {
        Seq::empty()
    } else {
        let r = keep_other(s.drop_last(), pid);
        if s.last() != pid {
            r.push(s.last())
        } else {
            r
        }
    }
}

/// Where `x` goes in the ascending list `l`, scanning from `j`.
pub open spec fn ins_pos(l: Seq<Seq<char>>, x: Seq<char>, j: int) -> int
    decreases l.len() - j,
{
    if j < 0 || j >= l.len() {
        l.len() as int
    } else if lex_lt(x, l[j]) {
        j
    } else {
        ins_pos(l, x, j + 1)
    }
}

/// `s` in ascending order without repetition.
pub open spec fn ordered(s: Seq<Seq<char>>) -> Seq<Seq<char>>
    decreases s.len(),
{
    if s.len() == 0 {
        Seq::empty()
    } else {
        let l = ordered(s.drop_last());
        let x = s.last();
        if l.contains(x) {
            l
        } else {
            l.insert(ins_pos(l, x, 0), x)
        }
    }
}

/// One warning of `kind` per id of `s`.
pub open spec fn list_warnings(mods: Seq<Mod>, kind: WarningKind, s: Seq<Seq<char>>) -> Seq<WarningView>
    decreases s.len(),
{
    if s.len() == 0 {
        Seq::empty()
    } else {
        list_warnings(mods, kind, s.drop_last()).push((kind, s.last(), name_of(mods, s.last(), Seq::empty())))
    }
}

/// Load-order warnings for the ids `s` of the rules of the mod at `i` (package id `pid`): a
/// loadBefore target placed at or before it, or a loadAfter target placed at or after it.
pub open spec fn order_warnings(mods: Seq<Mod>, am: Seq<Mod>, i: int, pid: Seq<char>, s: Seq<Seq<char>>, before: bool) -> Seq<WarningView>
    decreases s.len(),
{
    if s.len() == 0 {
        Seq::empty()
    } else {
        let r = order_warnings(mods, am, i, pid, s.drop_last(), before);
        let o = s.last();
        let j = pos_of(am, o);
        if o != pid && j >= 0 && (if before { i >= j } else { i <= j }) {
            r.push((if before { WarningKind::LoadBefore } else { WarningKind::LoadAfter }, o, name_of(mods, o, Seq::empty())))
        } else {
            r
        }
    }
}

/// Position of the replacement for Workshop id `p` (-1 if none).
pub open spec fn repl_pos(r: Seq<(String, Replacement)>, p: Seq<char>) -> int
    decreases r.len(),
{
    if r.len() == 0 {
        -1
    } else {
        let x = repl_pos(r.drop_last(), p);
        if x >= 0 {
            x
        } else if r.last().0@ == p {
            r.len() - 1
        } else {
            -1
        }
    }
}

/// The "use this instead" warning for the mod, if a replacement is recorded for its Workshop id.
pub open spec fn replacement_warnings(m: Mod, src: RuleSources) -> Seq<WarningView> {
    match m.published_file_id {
        Some(p) => {
            let k = repl_pos(src.replacements@, p@);
            if k >= 0 {
                let r = src.replacements@[k].1;
                seq![(WarningKind::UseThisInstead, r.new_workshop_id@, if r.new_author@.len() == 0 {
                    r.new_name@
                } else {
                    r.new_name@ + " by "@ + r.new_author@
                })]
            } else {
                Seq::empty()
            }
        },
        None => Seq::empty(),
    }
}

/// Every warning of the active mod at `i`, before removing repeats.
pub open spec fn mod_warnings(mods: Seq<Mod>, am: Seq<Mod>, i: int, src: RuleSources, alt: bool, gv: Seq<char>) -> Seq<WarningView> {
    let m = am[i];
    let pid = m.package_id@;
    dep_warnings(mods, am, m.rules.dependencies@, alt)
        + list_warnings(mods, WarningKind::Incompatible, ordered(raw_incompat(am, sv(m.rules.incompatible_with@), declared_by(am, pid), pid)))
        + order_warnings(mods, am, i, pid, sv(load_before_of(m)), true)
        + order_warnings(mods, am, i, pid, sv(load_after_of(m)), false)
        + (if version_mismatch_of(m, gv, src) { seq![(WarningKind::VersionMismatch, Seq::<char>::empty(), name_of(mods, Seq::empty(), Seq::empty()))] } else { Seq::empty() })
        + replacement_warnings(m, src)
}

/// The warnings without a repeated (kind, other) pair, first kept.
pub open spec fn first_of_each(w: Seq<WarningView>) -> Seq<WarningView>
    decreases w.len(),
{
    if w.len() == 0 {
        Seq::empty()
    } else {
        let r = first_of_each(w.drop_last());
        let x = w.last();
        if exists|k: int| 0 <= k < r.len() && #[trigger] r[k].0 == x.0 && r[k].1 == x.1 {
            r
        } else {
            r.push(x)
        }
    }
}

/// Some warning is an error.
pub open spec fn has_error(w: Seq<WarningView>) -> bool {
    exists|k: int| 0 <= k < w.len() && (#[trigger] w[k].0 is MissingDependency || w[k].0 is Incompatible)
}

/// The validation of the first `k` active mods: per mod with warnings its id and warnings
/// (repeats removed), and the numbers of mods with errors and with warnings only.
pub open spec fn validation(mods: Seq<Mod>, am: Seq<Mod>, src: RuleSources, alt: bool, gv: Seq<char>, k: int) -> (Seq<(ModId, Seq<WarningView>)>, nat, nat)
    decreases k,
{
    if k <= 0 {
        (Seq::empty(), 0, 0)
    } else {
        let r = validation(mods, am, src, alt, gv, k - 1);
        let i = k - 1;
        let m = am[i];
        let w = mod_warnings(mods, am, i, src, alt, gv);
        if sv(src.ignored@).contains(m.package_id@) || w.len() == 0 {
            r
        } else if has_error(w) {
            (r.0.push((m.id, first_of_each(w))), r.1 + 1, r.2)
        } else {
            (r.0.push((m.id, first_of_each(w))), r.1, r.2 + 1)
        }
    }
}

/// The ids of the missing-dependency warnings, in order.
pub open spec fn missing_ids(v: Seq<(ModId, Seq<WarningView>)>) -> Seq<Seq<char>>
    decreases v.len(),
{
    if v.len() == 0 {
        Seq::empty()
    } else {
        missing_ids(v.drop_last()) + missing_in(v.last().1)
    }
}

/// The ids of the missing-dependency warnings of one mod.
pub open spec fn missing_in(w: Seq<WarningView>) -> Seq<Seq<char>>
    decreases w.len(),
{
    if w.len() == 0 {
        Seq::empty()
    } else {
        missing_in(w.drop_last()) + if w.last().0 is MissingDependency { seq![w.last().1] } else { Seq::empty() }
    }
}

/// `s` without repetitions, first kept.
pub open spec fn uniq(s: Seq<Seq<char>>) -> Seq<Seq<char>>
    decreases s.len(),
{
    if s.len() == 0 {
        Seq::empty()
    } else {
        let r = uniq(s.drop_last());
        if r.contains(s.last()) {
            r
        } else {
            r.push(s.last())
        }
    }
}

/// The mods behind references.
pub open spec fn derefs(v: Seq<&Mod>) -> Seq<Mod> {
    v.map_values(|m: &Mod| *m)
}

/// The contents of warnings.
pub open spec fn wviews(v: Seq<Warning>) -> Seq<WarningView> {
    v.map_values(|w: Warning| warning_view(w))
}

/// The valid mods of the active ids.
fn collect_active<'a>(index: &'a ModIndex, active: &[ModId]) -> (r: Vec<&'a Mod>)
    ensures
        derefs(r@) == active_mods(index.mods@, active@),
{
    let mut r: Vec<&Mod> = Vec::new();
    let mut i: usize = 0;
    while i < active.len()
        invariant
            0 <= i <= active@.len(),
            derefs(r@) == active_mods(index.mods@, active@.take(i as int)),
        decreases active@.len() - i,
    {
        proof {
            assert(active@.take(i + 1).drop_last() == active@.take(i as int));
            assert(active@.take(i + 1).last() == active@[i as int]);
        }
        match index.get(active[i]) {
            Some(m) => {
                if m.valid {
                    let ghost r0 = r@;
                    r.push(m);
                    proof {
                        assert(derefs(r@) =~= derefs(r0).push(*m));
                    }
                }
            },
            None => {},
        }
        i += 1;
    }
    proof {
        assert(active@.take(i as int) == active@);
    }
    r
}

/// Position of the first active mod with package id `p`.
fn pos_in(am: &Vec<&Mod>, p: &String) -> (r: Option<usize>)
    ensures
        match r {
            Some(j) => j as int == pos_of(derefs(am@), p@) && j < am@.len(),
            None => pos_of(derefs(am@), p@) == -1,
        },
{
    let ghost d = derefs(am@);
    let mut j: usize = 0;
    proof {
        assert(d.take(0) =~= Seq::<Mod>::empty());
    }
    while j < am.len()
        invariant
            0 <= j <= am@.len(),
            d == derefs(am@),
            pos_of(d.take(j as int), p@) == -1,
        decreases am@.len() - j,
    {
        proof {
            assert(d.take(j + 1).drop_last() == d.take(j as int));
            assert(d.take(j + 1).last() == *am@[j as int]);
        }
        if am[j].package_id == *p {
            proof {
                lemma_pos_extend(d, j + 1, p@, j as int);
            }
            return Some(j);
        }
        j += 1;
    }
    proof {
        assert(d.take(j as int) == d);
    }
    None
}

proof fn lemma_pos_extend(d: Seq<Mod>, k: int, p: Seq<char>, x: int)
    requires
        0 <= x < k <= d.len(),
        pos_of(d.take(k), p) == x,
    ensures
        pos_of(d, p) == x,
    decreases d.len() - k,
{
    if k < d.len() {
        assert(d.take(k + 1).drop_last() == d.take(k));
        lemma_pos_extend(d, k + 1, p, x);
    } else {
        assert(d.take(k) == d);
    }
}

/// The name shown for package id `p`.
fn name_for(index: &ModIndex, p: &String, fallback: &String) -> (r: String)
    ensures
        r@ == name_of(index.mods@, p@, fallback@),
{
    let ms = index.by_package(p.as_str());
    if ms.len() > 0 && ms[0].name.as_str().unicode_len() > 0 {
        ms[0].name.clone()
    } else if fallback.as_str().unicode_len() == 0 {
        p.clone()
    } else {
        fallback.clone()
    }
}

/// Appends a warning.
fn push_warning(w: &mut Vec<Warning>, kind: WarningKind, other: String, other_name: String)
    ensures
        wviews(final(w)@) == wviews(old(w)@).push((kind, other@, other_name@)),
{
    let x = Warning { kind, other, other_name };
    let ghost w0 = w@;
    w.push(x);
    proof {
        assert(wviews(w@) =~= wviews(w0).push(warning_view(x)));
    }
}

/// Missing-dependency warnings.
fn push_dep_warnings(index: &ModIndex, am: &Vec<&Mod>, deps: &Vec<Dependency>, alt: bool, w: &mut Vec<Warning>)
    ensures
        wviews(final(w)@) == wviews(old(w)@) + dep_warnings(index.mods@, derefs(am@), deps@, alt),
{
    let ghost w0 = wviews(w@);
    let mut k: usize = 0;
    proof {
        assert(deps@.take(0) =~= Seq::<Dependency>::empty());
        assert(w0 + Seq::<WarningView>::empty() == w0);
    }
    while k < deps.len()
        invariant
            0 <= k <= deps@.len(),
            wviews(w@) == w0 + dep_warnings(index.mods@, derefs(am@), deps@.take(k as int), alt),
        decreases deps@.len() - k,
    {
        let d = &deps[k];
        proof {
            assert(deps@.take(k + 1).drop_last() == deps@.take(k as int));
            assert(deps@.take(k + 1).last() == *d);
        }
        let mut ok = pos_in(am, &d.package_id).is_some();
        if !ok && alt {
            let mut a: usize = 0;
            let mut found = false;
            while a < d.alternatives.len() && !found
                invariant
                    0 <= a <= d.alternatives@.len(),
                    found ==> a >= 1 && pos_of(derefs(am@), sv(d.alternatives@)[a - 1]) >= 0,
                    !found ==> forall|x: int| 0 <= x < a ==> #[trigger] pos_of(derefs(am@), sv(d.alternatives@)[x]) < 0,
                decreases d.alternatives@.len() - a,
            {
                proof {
                    assert(sv(d.alternatives@)[a as int] == d.alternatives@[a as int]@);
                }
                if pos_in(am, &d.alternatives[a]).is_some() {
                    found = true;
                }
                a += 1;
            }
            proof {
                if found {
                    assert(pos_of(derefs(am@), sv(d.alternatives@)[a - 1]) >= 0);
                }
            }
            ok = found;
        }
        if !ok {
            let other = d.package_id.clone();
            let name = name_for(index, &d.package_id, &d.display_name);
            let ghost wb = wviews(w@);
            push_warning(w, WarningKind::MissingDependency, other, name);
            proof {
                assert(wviews(w@) == wb.push((WarningKind::MissingDependency, d.package_id@, name_of(index.mods@, d.package_id@, d.display_name@))));
            }
        }
        k += 1;
    }
    proof {
        assert(deps@.take(k as int) == deps@);
    }
}

/// `declared_by` for the active mods.
fn declared_list(am: &Vec<&Mod>, pid: &String) -> (r: Vec<String>)
    ensures
        sv(r@) == declared_by(derefs(am@), pid@),
{
    let ghost d = derefs(am@);
    let mut r: Vec<String> = Vec::new();
    let mut j: usize = 0;
    proof {
        assert(d.take(0) =~= Seq::<Mod>::empty());
    }
    while j < am.len()
        invariant
            0 <= j <= am@.len(),
            d == derefs(am@),
            sv(r@) == declared_by(d.take(j as int), pid@),
        decreases am@.len() - j,
    {
        let m2 = am[j];
        let ghost base = sv(r@);
        let ghost inc = sv(m2.rules.incompatible_with@);
        let mut x: usize = 0;
        proof {
            assert(inc.take(0) =~= Seq::<Seq<char>>::empty());
            assert(base + Seq::new(count_of(inc.take(0), pid@), |i: int| m2.package_id@) =~= base);
        }
        while x < m2.rules.incompatible_with.len()
            invariant
                0 <= x <= inc.len(),
                inc == sv(m2.rules.incompatible_with@),
                sv(r@) == base + Seq::new(count_of(inc.take(x as int), pid@), |i: int| m2.package_id@),
            decreases inc.len() - x,
        {
            proof {
                assert(inc.take(x + 1).drop_last() == inc.take(x as int));
                assert(inc.take(x + 1).last() == m2.rules.incompatible_with@[x as int]@);
            }
            if m2.rules.incompatible_with[x] == *pid {
                let ghost r0 = sv(r@);
                r.push(m2.package_id.clone());
                proof {
                    assert(sv(r@) =~= r0.push(m2.package_id@));
                    let c = count_of(inc.take(x as int), pid@);
                    assert(Seq::new(c + 1, |i: int| m2.package_id@) =~= Seq::new(c, |i: int| m2.package_id@).push(m2.package_id@));
                }
            }
            x += 1;
        }
        proof {
            assert(inc.take(x as int) == inc);
            assert(d.take(j + 1).drop_last() == d.take(j as int));
            assert(d.take(j + 1).last() == *m2);
        }
        j += 1;
    }
    proof {
        assert(d.take(j as int) == d);
    }
    r
}

/// `ordered`, on strings.
fn ordered_list(raw: &Vec<String>) -> (r: Vec<String>)
    ensures
        sv(r@) == ordered(sv(raw@)),
{
    let ghost rv = sv(raw@);
    let mut l: Vec<String> = Vec::new();
    let mut k: usize = 0;
    proof {
        assert(rv.take(0) =~= Seq::<Seq<char>>::empty());
    }
    while k < raw.len()
        invariant
            0 <= k <= raw@.len(),
            rv == sv(raw@),
            sv(l@) == ordered(rv.take(k as int)),
        decreases raw@.len() - k,
    {
        let x = &raw[k];
        proof {
            assert(rv.take(k + 1).drop_last() == rv.take(k as int));
            assert(rv.take(k + 1).last() == x@);
        }
        if !crate::text::contains_str(&l, x) {
            let xc = crate::text::chars_of(x.as_str());
            let ghost lv = sv(l@);
            let mut j: usize = 0;
            while j < l.len() && !chars_lt(xc.as_slice(), crate::text::chars_of(l[j].as_str()).as_slice())
                invariant
                    0 <= j <= l@.len(),
                    lv == sv(l@),
                    xc@ == x@,
                    ins_pos(lv, x@, 0) == ins_pos(lv, x@, j as int),
                decreases l@.len() - j,
            {
                j += 1;
            }
            let ghost l0 = l@;
            l.insert(j, x.clone());
            proof {
                assert(sv(l@) =~= lv.insert(j as int, x@));
            }
        }
        k += 1;
    }
    proof {
        assert(rv.take(k as int) == rv);
    }
    l
}

/// Appends one warning of `kind` per id of `ids`.
fn push_list_warnings(index: &ModIndex, kind: WarningKind, ids: &Vec<String>, w: &mut Vec<Warning>)
    ensures
        wviews(final(w)@) == wviews(old(w)@) + list_warnings(index.mods@, kind, sv(ids@)),
{
    let ghost w0 = wviews(w@);
    let empty = String::new();
    let mut k: usize = 0;
    proof {
        assert(sv(ids@).take(0) =~= Seq::<Seq<char>>::empty());
        assert(w0 + Seq::<WarningView>::empty() == w0);
    }
    while k < ids.len()
        invariant
            0 <= k <= ids@.len(),
            empty@ == Seq::<char>::empty(),
            wviews(w@) == w0 + list_warnings(index.mods@, kind, sv(ids@).take(k as int)),
        decreases ids@.len() - k,
    {
        proof {
            assert(sv(ids@).take(k + 1).drop_last() == sv(ids@).take(k as int));
            assert(sv(ids@).take(k + 1).last() == ids@[k as int]@);
        }
        let name = name_for(index, &ids[k], &empty);
        push_warning(w, kind, ids[k].clone(), name);
        k += 1;
    }
    proof {
        assert(sv(ids@).take(k as int) == sv(ids@));
    }
}

/// Appends the load-order warnings for the ids `s` of the mod at `i`.
fn push_order_warnings(index: &ModIndex, am: &Vec<&Mod>, i: usize, pid: &String, s: &Vec<String>, before: bool, w: &mut Vec<Warning>)
    ensures
        wviews(final(w)@) == wviews(old(w)@) + order_warnings(index.mods@, derefs(am@), i as int, pid@, sv(s@), before),
{
    let ghost w0 = wviews(w@);
    let empty = String::new();
    let mut k: usize = 0;
    proof {
        assert(sv(s@).take(0) =~= Seq::<Seq<char>>::empty());
        assert(w0 + Seq::<WarningView>::empty() == w0);
    }
    while k < s.len()
        invariant
            0 <= k <= s@.len(),
            empty@ == Seq::<char>::empty(),
            wviews(w@) == w0 + order_warnings(index.mods@, derefs(am@), i as int, pid@, sv(s@).take(k as int), before),
        decreases s@.len() - k,
    {
        proof {
            assert(sv(s@).take(k + 1).drop_last() == sv(s@).take(k as int));
            assert(sv(s@).take(k + 1).last() == s@[k as int]@);
        }
        let o = &s[k];
        if !(*o == *pid) {
            match pos_in(am, o) {
                Some(j) => {
                    if (before && i >= j) || (!before && i <= j) {
                        let name = name_for(index, o, &empty);
                        let kind = if before {
                            WarningKind::LoadBefore
                        } else {
                            WarningKind::LoadAfter
                        };
                        push_warning(w, kind, o.clone(), name);
                    }
                },
                None => {},
            }
        }
        k += 1;
    }
    proof {
        assert(sv(s@).take(k as int) == sv(s@));
    }
}

/// `raw_incompat` for the mod with package id `pid` and incompatibility list `own`.
fn raw_incompat_list(am: &Vec<&Mod>, own: &Vec<String>, pid: &String) -> (r: Vec<String>)
    ensures
        sv(r@) == raw_incompat(derefs(am@), sv(own@), declared_by(derefs(am@), pid@), pid@),
{
    let mut r: Vec<String> = Vec::new();
    let mut k: usize = 0;
    proof {
        assert(sv(own@).take(0) =~= Seq::<Seq<char>>::empty());
    }
    while k < own.len()
        invariant
            0 <= k <= own@.len(),
            sv(r@) == keep_active_other(derefs(am@), sv(own@).take(k as int), pid@),
        decreases own@.len() - k,
    {
        proof {
            assert(sv(own@).take(k + 1).drop_last() == sv(own@).take(k as int));
            assert(sv(own@).take(k + 1).last() == own@[k as int]@);
        }
        if !(own[k] == *pid) && pos_in(am, &own[k]).is_some() {
            let ghost r0 = sv(r@);
            r.push(own[k].clone());
            proof {
                assert(sv(r@) =~= r0.push(own@[k as int]@));
            }
        }
        k += 1;
    }
    proof {
        assert(sv(own@).take(k as int) == sv(own@));
    }
    let decl = declared_list(am, pid);
    let ghost first = sv(r@);
    let mut k: usize = 0;
    proof {
        assert(sv(decl@).take(0) =~= Seq::<Seq<char>>::empty());
        assert(first + Seq::<Seq<char>>::empty() == first);
    }
    while k < decl.len()
        invariant
            0 <= k <= decl@.len(),
            sv(r@) == first + keep_other(sv(decl@).take(k as int), pid@),
        decreases decl@.len() - k,
    {
        proof {
            assert(sv(decl@).take(k + 1).drop_last() == sv(decl@).take(k as int));
            assert(sv(decl@).take(k + 1).last() == decl@[k as int]@);
        }
        if !(decl[k] == *pid) {
            let ghost r0 = sv(r@);
            r.push(decl[k].clone());
            proof {
                assert(sv(r@) =~= r0.push(decl@[k as int]@));
            }
        }
        k += 1;
    }
    proof {
        assert(sv(decl@).take(k as int) == sv(decl@));
    }
    r
}

/// Appends the "use this instead" warning, if any.
fn push_replacement(m: &Mod, src: &RuleSources, w: &mut Vec<Warning>)
    ensures
        wviews(final(w)@) == wviews(old(w)@) + replacement_warnings(*m, *src),
{
    match &m.published_file_id {
        Some(p) => {
            let mut k: usize = 0;
            let mut found: Option<usize> = None;
            let ghost rs = src.replacements@;
            proof {
                assert(rs.take(0) =~= Seq::<(String, Replacement)>::empty());
            }
            while k < src.replacements.len() && found.is_none()
                invariant
                    0 <= k <= rs.len(),
                    rs == src.replacements@,
                    found is None ==> repl_pos(rs.take(k as int), p@) == -1,
                    found matches Some(x) ==> x < rs.len() && x as int == repl_pos(rs, p@),
                decreases rs.len() - k,
            {
                proof {
                    assert(rs.take(k + 1).drop_last() == rs.take(k as int));
                    assert(rs.take(k + 1).last() == rs[k as int]);
                }
                if src.replacements[k].0 == *p {
                    proof {
                        lemma_repl_extend(rs, k + 1, p@, k as int);
                    }
                    found = Some(k);
                }
                k += 1;
            }
            proof {
                if found is None {
                    assert(rs.take(k as int) == rs);
                }
            }
            match found {
                Some(x) => {
                    let r = &src.replacements[x].1;
                    let name = if r.new_author.as_str().unicode_len() == 0 {
                        r.new_name.clone()
                    } else {
                        let mut t = r.new_name.clone();
                        t.append(" by ");
                        t.append(r.new_author.as_str());
                        t
                    };
                    let ghost w0 = wviews(w@);
                    push_warning(w, WarningKind::UseThisInstead, r.new_workshop_id.clone(), name);
                    proof {
                        assert(wviews(w@) =~= w0 + replacement_warnings(*m, *src));
                    }
                },
                None => {
                    proof {
                        assert(wviews(w@) =~= wviews(w@) + Seq::<WarningView>::empty());
                    }
                },
            }
        },
        None => {
            proof {
                assert(wviews(w@) =~= wviews(w@) + Seq::<WarningView>::empty());
            }
        },
    }
}

proof fn lemma_repl_extend(r: Seq<(String, Replacement)>, k: int, p: Seq<char>, x: int)
    requires
        0 <= x < k <= r.len(),
        repl_pos(r.take(k), p) == x,
    ensures
        repl_pos(r, p) == x,
    decreases r.len() - k,
{
    if k < r.len() {
        assert(r.take(k + 1).drop_last() == r.take(k));
        lemma_repl_extend(r, k + 1, p, x);
    } else {
        assert(r.take(k) == r);
    }
}

/// The warnings without a repeated (kind, other) pair, first kept.
fn first_each(w: Vec<Warning>) -> (r: Vec<Warning>)
    ensures
        wviews(r@) == first_of_each(wviews(w@)),
{
    let ghost wv = wviews(w@);
    let mut r: Vec<Warning> = Vec::new();
    let mut k: usize = 0;
    proof {
        assert(wv.take(0) =~= Seq::<WarningView>::empty());
    }
    while k < w.len()
        invariant
            0 <= k <= w@.len(),
            wv == wviews(w@),
            wviews(r@) == first_of_each(wv.take(k as int)),
        decreases w@.len() - k,
    {
        let x = &w[k];
        proof {
            assert(wv.take(k + 1).drop_last() == wv.take(k as int));
            assert(wv.take(k + 1).last() == warning_view(*x));
        }
        let mut j: usize = 0;
        let mut dup = false;
        while j < r.len() && !dup
            invariant
                0 <= j <= r@.len(),
                !dup ==> forall|y: int| 0 <= y < j ==> !(#[trigger] wviews(r@)[y].0 == x.kind && wviews(r@)[y].1 == x.other@),
                dup ==> j >= 1 && wviews(r@)[j - 1].0 == x.kind && wviews(r@)[j - 1].1 == x.other@,
            decreases r@.len() - j,
        {
            if r[j].kind == x.kind && r[j].other == x.other {
                dup = true;
            }
            j += 1;
        }
        if !dup {
            let ghost r0 = wviews(r@);
            r.push(Warning { kind: x.kind, other: x.other.clone(), other_name: x.other_name.clone() });
            proof {
                assert(wviews(r@) =~= r0.push(warning_view(*x)));
            }
        }
        k += 1;
    }
    proof {
        assert(wv.take(k as int) == wv);
    }
    r
}

/// Every warning of the active mod at `i`, before removing repeats.
fn warnings_for(index: &ModIndex, am: &Vec<&Mod>, i: usize, src: &RuleSources, alt: bool) -> (r: Vec<Warning>)
    requires
        i < am@.len(),
    ensures
        wviews(r@) == mod_warnings(index.mods@, derefs(am@), i as int, *src, alt, index.game_version@),
{
    let m = am[i];
    proof {
        assert(derefs(am@)[i as int] == *m);
    }
    let pid = &m.package_id;
    let mut w: Vec<Warning> = Vec::new();
    proof {
        assert(wviews(w@) =~= Seq::<WarningView>::empty());
    }
    push_dep_warnings(index, am, &m.rules.dependencies, alt, &mut w);
    let raw = raw_incompat_list(am, &m.rules.incompatible_with, pid);
    let inc = ordered_list(&raw);
    push_list_warnings(index, WarningKind::Incompatible, &inc, &mut w);
    let before = m.load_before_all();
    push_order_warnings(index, am, i, pid, &before, true, &mut w);
    let after = m.load_after_all();
    push_order_warnings(index, am, i, pid, &after, false, &mut w);
    let ghost w4 = wviews(w@);
    if version_mismatch(m, index.game_version.as_str(), src) {
        let empty = String::new();
        let name = name_for(index, &empty, &empty);
        push_warning(&mut w, WarningKind::VersionMismatch, String::new(), name);
        proof {
            assert(wviews(w@) == w4 + seq![(WarningKind::VersionMismatch, Seq::<char>::empty(), name_of(index.mods@, Seq::empty(), Seq::empty()))]);
        }
    } else {
        proof {
            assert(w4 + Seq::<WarningView>::empty() == w4);
        }
    }
    push_replacement(m, src, &mut w);
    w
}

/// The contents of per-mod warnings.
pub open spec fn mwviews(v: Seq<ModWarnings>) -> Seq<(ModId, Seq<WarningView>)> {
    v.map_values(|x: ModWarnings| (x.id, wviews(x.warnings@)))
}

proof fn lemma_active_mods_len(mods: Seq<Mod>, active: Seq<ModId>)
    ensures
        active_mods(mods, active).len() <= active.len(),
    decreases active.len(),
{
    if active.len() > 0 {
        lemma_active_mods_len(mods, active.drop_last());
    }
}

proof fn lemma_validation_counts(mods: Seq<Mod>, am: Seq<Mod>, src: RuleSources, alt: bool, gv: Seq<char>, k: int)
    requires
        k >= 0,
    ensures
        validation(mods, am, src, alt, gv, k).1 + validation(mods, am, src, alt, gv, k).2 <= k,
    decreases k,
{
    if k > 0 {
        lemma_validation_counts(mods, am, src, alt, gv, k - 1);
    }
}

/// Warnings for every active mod (ignored ones get none), repeats of a (kind, other) pair
/// removed, with the number of mods with errors, with only warnings, and of distinct missing
/// dependencies.
pub fn validate(index: &ModIndex, active: &[ModId], src: &RuleSources, use_alternative_ids: bool) -> (r: ValidationView)
    ensures
        ({
            let am = active_mods(index.mods@, active@);
            let v = validation(index.mods@, am, *src, use_alternative_ids, index.game_version@, am.len() as int);
            &&& mwviews(r.mods@) == v.0
            &&& r.errors == v.1 % 0x1_0000_0000
            &&& r.warnings == v.2 % 0x1_0000_0000
            &&& r.missing_dependencies == uniq(missing_ids(v.0)).len() as u32
        }),
{
    let am = collect_active(index, active);
    let ghost amv = derefs(am@);
    let ghost mods = index.mods@;
    let ghost gv = index.game_version@;
    proof {
        lemma_active_mods_len(mods, active@);
    }
    let mut out: Vec<ModWarnings> = Vec::new();
    let mut errors: u32 = 0;
    let mut warnings: u32 = 0;
    let mut i: usize = 0;
    while i < am.len()
        invariant
            0 <= i <= am@.len(),
            amv == derefs(am@),
            mods == index.mods@,
            gv == index.game_version@,
            mwviews(out@) == validation(mods, amv, *src, use_alternative_ids, gv, i as int).0,
            errors as nat == validation(mods, amv, *src, use_alternative_ids, gv, i as int).1 % 0x1_0000_0000,
            warnings as nat == validation(mods, amv, *src, use_alternative_ids, gv, i as int).2 % 0x1_0000_0000,
        decreases am@.len() - i,
    {
        proof {
            lemma_validation_counts(mods, amv, *src, use_alternative_ids, gv, i as int);
            assert(amv[i as int] == *am@[i as int]);
        }
        let m = am[i];
        if !crate::text::contains_str(&src.ignored, &m.package_id) {
            let w = warnings_for(index, &am, i, src, use_alternative_ids);
            if w.len() > 0 {
                let mut err = false;
                let mut k: usize = 0;
                while k < w.len() && !err
                    invariant
                        0 <= k <= w@.len(),
                        !err ==> forall|y: int| 0 <= y < k ==> !(#[trigger] w@[y].kind is MissingDependency || w@[y].kind is Incompatible),
                        err ==> has_error(wviews(w@)),
                    decreases w@.len() - k,
                {
                    if w[k].kind.is_error() {
                        err = true;
                        proof {
                            assert(wviews(w@)[k as int].0 == w@[k as int].kind);
                        }
                    }
                    k += 1;
                }
                proof {
                    if !err {
                        assert forall|y: int| 0 <= y < wviews(w@).len() implies !(#[trigger] wviews(w@)[y].0 is MissingDependency || wviews(w@)[y].0 is Incompatible) by {
                            assert(wviews(w@)[y].0 == w@[y].kind);
                        }
                    }
                }
                if err {
                    errors = errors.wrapping_add(1);
                } else {
                    warnings = warnings.wrapping_add(1);
                }
                let id = m.id;
                let kept = first_each(w);
                let ghost o0 = mwviews(out@);
                let item = ModWarnings { id, warnings: kept };
                out.push(item);
                proof {
                    assert(mwviews(out@) =~= o0.push((id, wviews(item.warnings@))));
                }
            }
        }
        i += 1;
    }
    let ghost v0 = mwviews(out@);
    let mut seen: Vec<String> = Vec::new();
    let mut a: usize = 0;
    proof {
        assert(v0.take(0) =~= Seq::<(ModId, Seq<WarningView>)>::empty());
    }
    while a < out.len()
        invariant
            0 <= a <= out@.len(),
            v0 == mwviews(out@),
            sv(seen@) == uniq(missing_ids(v0.take(a as int))),
        decreases out@.len() - a,
    {
        let ws = &out[a].warnings;
        let ghost wv = wviews(ws@);
        let ghost base = missing_ids(v0.take(a as int));
        proof {
            assert(v0.take(a + 1).drop_last() == v0.take(a as int));
            assert(v0.take(a + 1).last() == (out@[a as int].id, wv));
            assert(wv.take(0) =~= Seq::<WarningView>::empty());
            assert(base + missing_in(wv.take(0)) =~= base);
        }
        let mut b: usize = 0;
        while b < ws.len()
            invariant
                0 <= b <= ws@.len(),
                wv == wviews(ws@),
                sv(seen@) == uniq(base + missing_in(wv.take(b as int))),
            decreases ws@.len() - b,
        {
            proof {
                assert(wv.take(b + 1).drop_last() == wv.take(b as int));
                assert(wv.take(b + 1).last() == warning_view(ws@[b as int]));
            }
            if ws[b].kind == WarningKind::MissingDependency {
                let ghost s0 = base + missing_in(wv.take(b as int));
                proof {
                    assert(base + missing_in(wv.take(b + 1)) =~= s0.push(ws@[b as int].other@));
                    assert(s0.push(ws@[b as int].other@).drop_last() == s0);
                }
                if !crate::text::contains_str(&seen, &ws[b].other) {
                    let ghost q0 = sv(seen@);
                    seen.push(ws[b].other.clone());
                    proof {
                        assert(sv(seen@) =~= q0.push(ws@[b as int].other@));
                    }
                }
            } else {
                proof {
                    assert(base + missing_in(wv.take(b + 1)) =~= base + missing_in(wv.take(b as int)));
                }
            }
            b += 1;
        }
        proof {
            assert(wv.take(b as int) == wv);
        }
        a += 1;
    }
    proof {
        assert(v0.take(a as int) == v0);
    }
    let n = seen.len();
    #[verifier::truncate]
    let missing = n as u32;
    ValidationView { mods: out, errors, warnings, missing_dependencies: missing }
}

/// A required package that isn't active, aggregated over everything that needs it.
#[derive(Debug, Clone)]
pub struct MissingDep {
    pub package_id: String,
    pub name: String,
    pub workshop_id: Option<String>,
    /// Names of active mods that require it.
    pub required_by: Vec<String>,
    /// An installed (but inactive) mod that satisfies it.
    pub installed: Option<ModId>,
}

/// The contents of a `MissingDep`.
pub struct MissingView {
    pub package_id: Seq<char>,
    pub name: Seq<char>,
    pub workshop_id: Option<Seq<char>>,
    pub required_by: Seq<Seq<char>>,
    pub installed: Option<ModId>,
}

/// The contents of a `MissingDep`.
pub open spec fn mview(m: MissingDep) -> MissingView {
    MissingView {
        package_id: m.package_id@,
        name: m.name@,
        workshop_id: match m.workshop_id {
            Some(w) => Some(w@),
            None => None,
        },
        required_by: sv(m.required_by@),
        installed: m.installed,
    }
}

/// Neither the dependency nor (with `alt`) one of its alternatives is active.
pub open spec fn unmet(am: Seq<Mod>, d: Dependency, alt: bool) -> bool {
    !(pos_of(am, d.package_id@) >= 0 || (alt && alt_active(am, sv(d.alternatives@))))
}

/// (name of the requiring mod, dependency) for each unmet dependency in `deps`.
pub open spec fn deps_needs(am: Seq<Mod>, name: Seq<char>, deps: Seq<Dependency>, alt: bool) -> Seq<(Seq<char>, Dependency)>
    decreases deps.len(),
{
    if deps.len() == 0 {
        Seq::empty()
    } else {
        let r = deps_needs(am, name, deps.drop_last(), alt);
        if unmet(am, deps.last(), alt) {
            r.push((name, deps.last()))
        } else {
            r
        }
    }
}

/// The unmet dependencies of the mods `ms` that are not ignored, in order.
pub open spec fn needs(am: Seq<Mod>, ms: Seq<Mod>, ignored: Seq<Seq<char>>, alt: bool) -> Seq<(Seq<char>, Dependency)>
    decreases ms.len(),
{
    if ms.len() == 0 {
        Seq::empty()
    } else {
        let r = needs(am, ms.drop_last(), ignored, alt);
        let m = ms.last();
        if ignored.contains(m.package_id@) {
            r
        } else {
            r + deps_needs(am, m.name@, m.rules.dependencies@, alt)
        }
    }
}

/// The first installed mod among the package ids `ps`.
pub open spec fn first_installed(mods: Seq<Mod>, ps: Seq<Seq<char>>) -> Option<Mod>
    decreases ps.len(),
{
    if ps.len() == 0 {
        None
    } else if pkg_mods(mods, ps[0]).len() > 0 {
        Some(pkg_mods(mods, ps[0])[0])
    } else {
        first_installed(mods, ps.drop_first())
    }
}

/// The installed mod that would satisfy `d`: the package itself, else (with `alt`) an
/// alternative.
pub open spec fn installed_of(mods: Seq<Mod>, d: Dependency, alt: bool) -> Option<Mod> {
    first_installed(mods, if alt { seq![d.package_id@] + sv(d.alternatives@) } else { seq![d.package_id@] })
}

/// The entry a dependency opens: its display name (else the installed mod's name, else the
/// package id), its Workshop id (from its link, else the installed mod's) and the installed mod.
pub open spec fn new_entry(mods: Seq<Mod>, requirer: Seq<char>, d: Dependency, alt: bool) -> MissingView {
    let inst = installed_of(mods, d, alt);
    MissingView {
        package_id: d.package_id@,
        name: if d.display_name@.len() == 0 {
            match inst {
                Some(i) => i.name@,
                None => d.package_id@,
            }
        } else {
            d.display_name@
        },
        workshop_id: match workshop_id_of(d.workshop_url@) {
            Some(w) => Some(w),
            None => match inst {
                Some(i) => match i.published_file_id {
                    Some(p) => Some(p@),
                    None => None,
                },
                None => None,
            },
        },
        required_by: seq![requirer],
        installed: match inst {
            Some(i) => Some(i.id),
            None => None,
        },
    }
}

/// Position of the entry for `p` (-1 if none).
pub open spec fn group_pos(g: Seq<MissingView>, p: Seq<char>) -> int
    decreases g.len(),
{
    if g.len() == 0 {
        -1
    } else {
        let r = group_pos(g.drop_last(), p);
        if r >= 0 {
            r
        } else if g.last().package_id == p {
            g.len() - 1
        } else {
            -1
        }
    }
}

/// One entry per missing package, in the order first needed: the first need opens it, every
/// need adds its requirer.
pub open spec fn groups(mods: Seq<Mod>, ns: Seq<(Seq<char>, Dependency)>, alt: bool) -> Seq<MissingView>
    decreases ns.len(),
{
    if ns.len() == 0 {
        Seq::empty()
    } else {
        let g = groups(mods, ns.drop_last(), alt);
        let (nm, d) = ns.last();
        let k = group_pos(g, d.package_id@);
        if k >= 0 {
            g.update(k, MissingView { required_by: g[k].required_by.push(nm), ..g[k] })
        } else {
            g.push(new_entry(mods, nm, d, alt))
        }
    }
}

/// Entries listed by lowercased name, then package id.
pub open spec fn entry_lt(a: MissingView, b: MissingView) -> bool {
    ||| crate::text::lex_lt(lowercase(a.name), lowercase(b.name))
    ||| (lowercase(a.name) == lowercase(b.name) && crate::text::lex_lt(a.package_id, b.package_id))
}

proof fn lemma_group_pos(g: Seq<MissingView>, p: Seq<char>)
    ensures
        -1 <= group_pos(g, p) < g.len(),
        group_pos(g, p) >= 0 ==> g[group_pos(g, p)].package_id == p,
        group_pos(g, p) < 0 ==> forall|i: int| 0 <= i < g.len() ==> #[trigger] g[i].package_id != p,
    decreases g.len(),
{
    if g.len() > 0 {
        lemma_group_pos(g.drop_last(), p);
        if group_pos(g.drop_last(), p) >= 0 {
            assert(g[group_pos(g.drop_last(), p)] == g.drop_last()[group_pos(g.drop_last(), p)]);
        }
        assert forall|i: int| 0 <= i < g.len() && group_pos(g, p) < 0 implies #[trigger] g[i].package_id != p by {
            if i < g.len() - 1 {
                assert(g[i] == g.drop_last()[i]);
            }
        }
    }
}

/// Distinct keys.
pub open spec fn distinct_groups(g: Seq<MissingView>) -> bool {
    forall|i: int, j: int| 0 <= i < j < g.len() ==> #[trigger] g[i].package_id != #[trigger] g[j].package_id
}

proof fn lemma_groups_distinct(mods: Seq<Mod>, ns: Seq<(Seq<char>, Dependency)>, alt: bool)
    ensures
        distinct_groups(groups(mods, ns, alt)),
    decreases ns.len(),
{
    if ns.len() > 0 {
        lemma_groups_distinct(mods, ns.drop_last(), alt);
        let g = groups(mods, ns.drop_last(), alt);
        lemma_group_pos(g, ns.last().1.package_id@);
        let r = groups(mods, ns, alt);
        assert forall|i: int, j: int| 0 <= i < j < r.len() implies #[trigger] r[i].package_id != #[trigger] r[j].package_id by {
            if j < g.len() {
                assert(r[i].package_id == g[i].package_id);
                assert(r[j].package_id == g[j].package_id);
            } else {
                assert(r[i].package_id == g[i].package_id);
            }
        }
    }
}

/// Whether `d` is unmet among the active mods.
fn dep_unmet(am: &Vec<&Mod>, d: &Dependency, alt: bool) -> (r: bool)
    ensures
        r == unmet(derefs(am@), *d, alt),
{
    let mut ok = pos_in(am, &d.package_id).is_some();
    if !ok && alt {
        let mut a: usize = 0;
        let mut found = false;
        while a < d.alternatives.len() && !found
            invariant
                0 <= a <= d.alternatives@.len(),
                found ==> a >= 1 && pos_of(derefs(am@), sv(d.alternatives@)[a - 1]) >= 0,
                !found ==> forall|x: int| 0 <= x < a ==> #[trigger] pos_of(derefs(am@), sv(d.alternatives@)[x]) < 0,
            decreases d.alternatives@.len() - a,
        {
            proof {
                assert(sv(d.alternatives@)[a as int] == d.alternatives@[a as int]@);
            }
            if pos_in(am, &d.alternatives[a]).is_some() {
                found = true;
            }
            a += 1;
        }
        proof {
            if found {
                assert(pos_of(derefs(am@), sv(d.alternatives@)[a - 1]) >= 0);
            }
        }
        ok = found;
    }
    !ok
}

/// The installed mod that would satisfy `d` (see `installed_of`).
fn installed_for<'a>(index: &'a ModIndex, d: &Dependency, alt: bool) -> (r: Option<&'a Mod>)
    ensures
        match r {
            Some(m) => installed_of(index.mods@, *d, alt) == Some(*m),
            None => installed_of(index.mods@, *d, alt) is None,
        },
{
    let ghost ps = if alt { seq![d.package_id@] + sv(d.alternatives@) } else { seq![d.package_id@] };
    let first = index.by_package(d.package_id.as_str());
    proof {
        assert(ps[0] == d.package_id@);
    }
    if first.len() > 0 {
        return Some(first[0]);
    }
    assert(first_installed(index.mods@, ps) == first_installed(index.mods@, ps.drop_first()));
    if !alt {
        assert(ps.drop_first() =~= Seq::<Seq<char>>::empty());
        return None;
    }
    assert(ps.drop_first() =~= sv(d.alternatives@));
    let mut k: usize = 0;
    assert(sv(d.alternatives@).skip(0) == sv(d.alternatives@));
    while k < d.alternatives.len()
        invariant
            0 <= k <= d.alternatives@.len(),
            installed_of(index.mods@, *d, alt) == first_installed(index.mods@, sv(d.alternatives@).skip(k as int)),
        decreases d.alternatives@.len() - k,
    {
        let ms = index.by_package(d.alternatives[k].as_str());
        proof {
            let rest = sv(d.alternatives@).skip(k as int);
            assert(rest[0] == d.alternatives@[k as int]@);
            assert(rest.drop_first() == sv(d.alternatives@).skip(k + 1));
        }
        if ms.len() > 0 {
            return Some(ms[0]);
        }
        k += 1;
    }
    assert(sv(d.alternatives@).skip(k as int) =~= Seq::<Seq<char>>::empty());
    None
}

/// A copy of an entry.
fn copy_entry(m: &MissingDep) -> (r: MissingDep)
    ensures
        mview(r) == mview(*m),
{
    MissingDep {
        package_id: m.package_id.clone(),
        name: m.name.clone(),
        workshop_id: match &m.workshop_id {
            Some(w) => Some(w.clone()),
            None => None,
        },
        required_by: crate::text::clone_strings(&m.required_by),
        installed: m.installed,
    }
}

/// Record one unmet dependency of the mod named `requirer`.
fn add_need(index: &ModIndex, g: &mut Vec<MissingDep>, requirer: &String, d: &Dependency, alt: bool)
    ensures
        final(g)@.map_values(|x: MissingDep| mview(x)) == ({
            let g0 = old(g)@.map_values(|x: MissingDep| mview(x));
            let k = group_pos(g0, d.package_id@);
            if k >= 0 {
                g0.update(k, MissingView { required_by: g0[k].required_by.push(requirer@), ..g0[k] })
            } else {
                g0.push(new_entry(index.mods@, requirer@, *d, alt))
            }
        }),
{
    let ghost g0 = g@.map_values(|x: MissingDep| mview(x));
    proof {
        lemma_group_pos(g0, d.package_id@);
    }
    let mut k: usize = 0;
    while k < g.len()
        invariant
            0 <= k <= g@.len(),
            g0 == g@.map_values(|x: MissingDep| mview(x)),
            g0 == old(g)@.map_values(|x: MissingDep| mview(x)),
            -1 <= group_pos(g0, d.package_id@) < g0.len(),
            group_pos(g0, d.package_id@) >= 0 ==> g0[group_pos(g0, d.package_id@)].package_id == d.package_id@,
            group_pos(g0, d.package_id@) < 0 ==> forall|i: int| 0 <= i < g0.len() ==> #[trigger] g0[i].package_id != d.package_id@,
            forall|i: int| 0 <= i < k ==> #[trigger] g@[i].package_id@ != d.package_id@,
        decreases g@.len() - k,
    {
        if crate::text::str_eq(g[k].package_id.as_str(), d.package_id.as_str()) {
            proof {
                assert forall|i: int| 0 <= i < k implies #[trigger] g0[i].package_id != d.package_id@ by {
                    assert(g0[i] == mview(g@[i]));
                }
                assert(g0[k as int] == mview(g@[k as int]));
                lemma_group_first(g0, d.package_id@, k as int);
            }
            let mut e = copy_entry(&g[k]);
            let ghost before = e.required_by@;
            let ghost e0 = mview(e);
            assert(e0 == g0[k as int]);
            e.required_by.push(requirer.clone());
            proof {
                assert(sv(e.required_by@) =~= sv(before).push(requirer@));
                assert(mview(e) == MissingView { required_by: g0[k as int].required_by.push(requirer@), ..g0[k as int] });
            }
            g.set(k, e);
            proof {
                assert(g@.map_values(|x: MissingDep| mview(x)) =~= g0.update(k as int, MissingView { required_by: g0[k as int].required_by.push(requirer@), ..g0[k as int] }));
            }
            return;
        }
        k += 1;
    }
    proof {
        if group_pos(g0, d.package_id@) >= 0 {
            let j = group_pos(g0, d.package_id@);
            assert(g@[j].package_id@ == g0[j].package_id);
        }
    }
    let inst = installed_for(index, d, alt);
    let name = if d.display_name.as_str().is_empty() {
        match inst {
            Some(i) => i.name.clone(),
            None => d.package_id.clone(),
        }
    } else {
        d.display_name.clone()
    };
    let workshop = match workshop_id(d.workshop_url.as_str()) {
        Some(w) => Some(w),
        None => match inst {
            Some(i) => match &i.published_file_id {
                Some(p) => Some(p.clone()),
                None => None,
            },
            None => None,
        },
    };
    let mut req: Vec<String> = Vec::new();
    req.push(requirer.clone());
    let e = MissingDep {
        package_id: d.package_id.clone(),
        name,
        workshop_id: workshop,
        required_by: req,
        installed: match inst {
            Some(i) => Some(i.id),
            None => None,
        },
    };
    proof {
        assert(sv(e.required_by@) =~= seq![requirer@]);
        assert(mview(e) == new_entry(index.mods@, requirer@, *d, alt));
    }
    g.push(e);
    proof {
        assert(g@.map_values(|x: MissingDep| mview(x)) =~= g0.push(new_entry(index.mods@, requirer@, *d, alt)));
    }
}

proof fn lemma_group_first(g: Seq<MissingView>, p: Seq<char>, k: int)
    requires
        0 <= k < g.len(),
        g[k].package_id == p,
        forall|i: int| 0 <= i < k ==> #[trigger] g[i].package_id != p,
    ensures
        group_pos(g, p) == k,
    decreases g.len(),
{
    if k < g.len() - 1 {
        assert(g.drop_last()[k] == g[k]);
        assert forall|i: int| 0 <= i < k implies #[trigger] g.drop_last()[i].package_id != p by {
            assert(g.drop_last()[i] == g[i]);
        }
        lemma_group_first(g.drop_last(), p, k);
    } else {
        lemma_group_pos(g.drop_last(), p);
        if group_pos(g.drop_last(), p) >= 0 {
            let j = group_pos(g.drop_last(), p);
            assert(g[j] == g.drop_last()[j]);
        }
    }
}

/// The entries for the unmet dependencies of the active mods, in the order first needed.
fn collect_groups(index: &ModIndex, am: &Vec<&Mod>, src: &RuleSources, alt: bool) -> (g: Vec<MissingDep>)
    ensures
        g@.map_values(|x: MissingDep| mview(x)) == groups(index.mods@, needs(derefs(am@), derefs(am@), sv(src.ignored@), alt), alt),
{
    let ghost amv = derefs(am@);
    let mut g: Vec<MissingDep> = Vec::new();
    let mut i: usize = 0;
    let ghost mut ns: Seq<(Seq<char>, Dependency)> = Seq::empty();
    while i < am.len()
        invariant
            0 <= i <= am@.len(),
            amv == derefs(am@),
            ns == needs(amv, amv.take(i as int), sv(src.ignored@), alt),
            g@.map_values(|x: MissingDep| mview(x)) == groups(index.mods@, ns, alt),
        decreases am@.len() - i,
    {
        let m = am[i];
        proof {
            assert(amv.take(i + 1).drop_last() == amv.take(i as int));
            assert(amv.take(i + 1).last() == *m);
        }
        if !crate::text::contains_str(&src.ignored, &m.package_id) {
            let deps = &m.rules.dependencies;
            let ghost ns0 = ns;
            let mut k: usize = 0;
            while k < deps.len()
                invariant
                    0 <= k <= deps@.len(),
                    amv == derefs(am@),
                    *m == amv[i as int],
                    deps@ == m.rules.dependencies@,
                    ns == ns0 + deps_needs(amv, m.name@, deps@.take(k as int), alt),
                    g@.map_values(|x: MissingDep| mview(x)) == groups(index.mods@, ns, alt),
                decreases deps@.len() - k,
            {
                proof {
                    assert(deps@.take(k + 1).drop_last() == deps@.take(k as int));
                    assert(deps@.take(k + 1).last() == deps@[k as int]);
                }
                if dep_unmet(am, &deps[k], alt) {
                    add_need(index, &mut g, &m.name, &deps[k], alt);
                    proof {
                        let prev = ns;
                        ns = ns.push((m.name@, deps@[k as int]));
                        assert(ns.drop_last() == prev);
                        assert(ns0 + deps_needs(amv, m.name@, deps@.take(k + 1), alt) == ns);
                    }
                }
                k += 1;
            }
            proof {
                assert(deps@.take(deps@.len() as int) == deps@);
            }
        }
        i += 1;
    }
    proof {
        assert(amv.take(amv.len() as int) == amv);
    }
    g
}

/// The entries `g` (distinct package ids) listed by lowercased name, then package id.
/// Sort keys of the entries: lowercased names and package ids.
fn entry_keys(g: &Vec<MissingDep>) -> (r: (Vec<Vec<char>>, Vec<Vec<char>>))
    ensures
        r.0@.len() == g@.len(),
        r.1@.len() == g@.len(),
        forall|x: int| 0 <= x < g@.len() ==> #[trigger] r.0@[x]@ == lowercase(g@[x].name@),
        forall|x: int| 0 <= x < g@.len() ==> #[trigger] r.1@[x]@ == g@[x].package_id@,
{
    let mut names: Vec<Vec<char>> = Vec::new();
    let mut pids: Vec<Vec<char>> = Vec::new();
    let mut j: usize = 0;
    while j < g.len()
        invariant
            0 <= j <= g@.len(),
            names@.len() == j,
            pids@.len() == j,
            forall|x: int| 0 <= x < j ==> #[trigger] names@[x]@ == lowercase(g@[x].name@),
            forall|x: int| 0 <= x < j ==> #[trigger] pids@[x]@ == g@[x].package_id@,
        decreases g@.len() - j,
    {
        let l = crate::text::to_lower(g[j].name.as_str());
        names.push(crate::text::chars_of(l.as_str()));
        pids.push(crate::text::chars_of(g[j].package_id.as_str()));
        j += 1;
    }
    (names, pids)
}

/// `0, 1, .., n - 1`.
pub(crate) fn positions(n: usize) -> (r: Vec<usize>)
    ensures
        r@ == Seq::new(n as nat, |x: int| x as usize),
        r@.no_duplicates(),
{
    let mut idx: Vec<usize> = Vec::new();
    let mut j: usize = 0;
    while j < n
        invariant
            0 <= j <= n,
            idx@ == Seq::new(j as nat, |x: int| x as usize),
        decreases n - j,
    {
        idx.push(j);
        proof {
            assert(idx@ =~= Seq::new((j + 1) as nat, |x: int| x as usize));
        }
        j += 1;
    }
    idx
}

/// The entries `g` (distinct package ids) listed by lowercased name, then package id.
fn sorted_entries(g: &Vec<MissingDep>) -> (out: Vec<MissingDep>)
    requires
        distinct_groups(g@.map_values(|x: MissingDep| mview(x))),
    ensures
        ({
            let gv = g@.map_values(|x: MissingDep| mview(x));
            &&& out@.len() == gv.len()
            &&& forall|k: int| 0 <= k < out@.len() ==> exists|j: int| 0 <= j < gv.len() && #[trigger] gv[j] == mview(#[trigger] out@[k])
            &&& forall|j: int| 0 <= j < gv.len() ==> exists|k: int| 0 <= k < out@.len() && #[trigger] gv[j] == mview(#[trigger] out@[k])
            &&& forall|a: int, b: int| 0 <= a < b < out@.len() ==> entry_lt(mview(#[trigger] out@[a]), mview(#[trigger] out@[b]))
        }),
{
    let ghost gv = g@.map_values(|x: MissingDep| mview(x));
    let n = g.len();
    let (names, pids) = entry_keys(g);
    let idx = positions(n);
    proof {
        assert forall|a: int, b: int| 0 <= a < pids@.len() && 0 <= b < pids@.len() && a != b implies #[trigger] pids@[a]@ != #[trigger] pids@[b]@ by {
            if a < b {
                assert(gv[a].package_id != gv[b].package_id);
            } else {
                assert(gv[b].package_id != gv[a].package_id);
            }
        }
    }
    let sorted = crate::graph::sort_nodes(idx, &names, &pids);
    let ghost nm = names@.map_values(|s: Vec<char>| s@);
    let ghost pd = pids@.map_values(|s: Vec<char>| s@);
    proof {
        sorted@.to_multiset_ensures();
        idx@.to_multiset_ensures();
        assert forall|x: int| 0 <= x < sorted@.len() implies #[trigger] sorted@[x] < n by {
            assert(sorted@.contains(sorted@[x]));
            assert(sorted@.to_multiset().count(sorted@[x]) > 0);
            assert(idx@.contains(sorted@[x]));
        }
    }
    let mut out: Vec<MissingDep> = Vec::new();
    let mut t: usize = 0;
    while t < sorted.len()
        invariant
            0 <= t <= sorted@.len(),
            n == g@.len(),
            gv == g@.map_values(|x: MissingDep| mview(x)),
            forall|x: int| 0 <= x < sorted@.len() ==> #[trigger] sorted@[x] < n,
            out@.len() == t,
            forall|x: int| 0 <= x < t ==> mview(#[trigger] out@[x]) == gv[sorted@[x] as int],
        decreases sorted@.len() - t,
    {
        out.push(copy_entry(&g[sorted[t]]));
        t += 1;
    }
    proof {
        assert forall|k: int| 0 <= k < out@.len() implies exists|jj: int| 0 <= jj < gv.len() && #[trigger] gv[jj] == mview(#[trigger] out@[k]) by {
            assert(gv[sorted@[k] as int] == mview(out@[k]));
        }
        assert forall|jj: int| 0 <= jj < gv.len() implies exists|k: int| 0 <= k < out@.len() && #[trigger] gv[jj] == mview(#[trigger] out@[k]) by {
            assert(idx@[jj] == jj as usize);
            assert(idx@.contains(jj as usize));
            assert(idx@.to_multiset().count(jj as usize) > 0);
            assert(sorted@.contains(jj as usize));
            let k = choose|k: int| 0 <= k < sorted@.len() && sorted@[k] == jj as usize;
            assert(gv[jj] == mview(out@[k]));
        }
        assert forall|a: int, b: int| 0 <= a < b < out@.len() implies entry_lt(mview(#[trigger] out@[a]), mview(#[trigger] out@[b])) by {
            assert(crate::graph::node_lt(nm, pd, crate::graph::ints(sorted@)[a], crate::graph::ints(sorted@)[b]));
            assert(crate::graph::ints(sorted@)[a] == sorted@[a] as int);
            assert(crate::graph::ints(sorted@)[b] == sorted@[b] as int);
            assert(nm[sorted@[a] as int] == names@[sorted@[a] as int]@);
            assert(nm[sorted@[b] as int] == names@[sorted@[b] as int]@);
            assert(pd[sorted@[a] as int] == pids@[sorted@[a] as int]@);
            assert(pd[sorted@[b] as int] == pids@[sorted@[b] as int]@);
        }
    }
    out
}

/// Every required package that isn't active, one entry each with the names of the active mods
/// (not on the ignore list) that need it and, when one is installed, an inactive mod that
/// would satisfy it; listed by lowercased name, then package id.
pub fn missing_dependencies(index: &ModIndex, active: &[ModId], src: &RuleSources, use_alternative_ids: bool) -> (r: Vec<MissingDep>)
    ensures
        ({
            let am = active_mods(index.mods@, active@);
            let g = groups(index.mods@, needs(am, am, sv(src.ignored@), use_alternative_ids), use_alternative_ids);
            &&& r@.len() == g.len()
            &&& forall|k: int| 0 <= k < r@.len() ==> exists|j: int| 0 <= j < g.len() && #[trigger] g[j] == mview(#[trigger] r@[k])
            &&& forall|j: int| 0 <= j < g.len() ==> exists|k: int| 0 <= k < r@.len() && #[trigger] g[j] == mview(#[trigger] r@[k])
            &&& forall|a: int, b: int| 0 <= a < b < r@.len() ==> entry_lt(mview(#[trigger] r@[a]), mview(#[trigger] r@[b]))
            &&& forall|k: int| 0 <= k < r@.len() ==> exists|i: int, q: int|
                0 <= i < am.len() && !sv(src.ignored@).contains(am[i].package_id@)
                && 0 <= q < am[i].rules.dependencies@.len()
                && (#[trigger] am[i].rules.dependencies@[q]).package_id@ == (#[trigger] r@[k]).package_id@
                && (forall|a: int| 0 <= a < am.len() ==> (#[trigger] am[a]).package_id@ != r@[k].package_id@)
                && (use_alternative_ids ==> forall|a: int, z: int| 0 <= a < am.len() && 0 <= z < am[i].rules.dependencies@[q].alternatives@.len()
                    ==> (#[trigger] am[a]).package_id@ != (#[trigger] am[i].rules.dependencies@[q].alternatives@[z])@)
        }),
{
    let alt = use_alternative_ids;
    let am = collect_active(index, active);
    let g = collect_groups(index, &am, src, alt);
    proof {
        lemma_groups_distinct(index.mods@, needs(derefs(am@), derefs(am@), sv(src.ignored@), alt), alt);
    }
    let r = sorted_entries(&g);
    proof {
        let amv = active_mods(index.mods@, active@);
        lemma_entries_unmet(index.mods@, amv, sv(src.ignored@), alt, r@);
    }
    r
}

/// Removing repeats keeps a warning when there is one.
proof fn lemma_first_of_each_nonempty(w: Seq<WarningView>)
    ensures
        w.len() > 0 ==> first_of_each(w).len() > 0,
    decreases w.len(),
{
    if w.len() > 0 {
        lemma_first_of_each_nonempty(w.drop_last());
    }
}

/// Validation lists only active mods that are not on the ignore list, each with at least one
/// warning; every listed mod counts once, as an error or as a warning.
pub proof fn law_validation_lists_only_flagged_mods(
    mods: Seq<Mod>,
    am: Seq<Mod>,
    src: RuleSources,
    alt: bool,
    gv: Seq<char>,
    k: int,
)
    requires
        0 <= k <= am.len(),
    ensures
        ({
            let v = validation(mods, am, src, alt, gv, k);
            &&& v.1 + v.2 == v.0.len()
            &&& forall|i: int| 0 <= i < v.0.len() ==> (#[trigger] v.0[i]).1.len() > 0 && exists|j: int|
                0 <= j < k && am[j].id == v.0[i].0 && !sv(src.ignored@).contains(am[j].package_id@)
        }),
    decreases k,
{
    if k > 0 {
        law_validation_lists_only_flagged_mods(mods, am, src, alt, gv, k - 1);
        let r = validation(mods, am, src, alt, gv, k - 1);
        let v = validation(mods, am, src, alt, gv, k);
        let w = mod_warnings(mods, am, k - 1, src, alt, gv);
        lemma_first_of_each_nonempty(w);
        assert forall|i: int| 0 <= i < v.0.len() implies (#[trigger] v.0[i]).1.len() > 0 && exists|j: int|
            0 <= j < k && am[j].id == v.0[i].0 && !sv(src.ignored@).contains(am[j].package_id@) by {
            if i < r.0.len() {
                assert(v.0[i] == r.0[i]);
                let j = choose|j: int| 0 <= j < k - 1 && am[j].id == r.0[i].0 && !sv(src.ignored@).contains(am[j].package_id@);
                assert(0 <= j < k);
            } else {
                assert(am[k - 1].id == v.0[i].0);
            }
        }
    }
}


/// How many listed mods have an error among their warnings.
pub open spec fn error_entries(v: Seq<(ModId, Seq<WarningView>)>) -> nat
    decreases v.len(),
{
    if v.len() == 0 {
        0
    } else {
        error_entries(v.drop_last()) + if has_error(v.last().1) { 1nat } else { 0nat }
    }
}

/// No two warnings share kind and other mod.
pub open spec fn distinct_warnings(w: Seq<WarningView>) -> bool {
    forall|a: int, b: int| 0 <= a < b < w.len() ==> !(#[trigger] w[a].0 == #[trigger] w[b].0 && w[a].1 == w[b].1)
}

proof fn lemma_first_of_each_distinct(w: Seq<WarningView>)
    ensures
        distinct_warnings(first_of_each(w)),
    decreases w.len(),
{
    if w.len() > 0 {
        let d = w.drop_last();
        lemma_first_of_each_distinct(d);
        let r = first_of_each(d);
        let x = w.last();
        let f = first_of_each(w);
        if !(exists|k: int| 0 <= k < r.len() && #[trigger] r[k].0 == x.0 && r[k].1 == x.1) {
            assert(f == r.push(x));
            assert forall|a: int, b: int| 0 <= a < b < f.len() implies !(#[trigger] f[a].0 == #[trigger] f[b].0 && f[a].1 == f[b].1) by {
                if b < r.len() {
                    assert(f[a] == r[a] && f[b] == r[b]);
                } else {
                    assert(f[a] == r[a] && f[b] == x);
                }
            }
        }
    }
}

proof fn lemma_first_of_each_from(w: Seq<WarningView>)
    ensures
        forall|k: int| 0 <= k < first_of_each(w).len() ==> exists|j: int| 0 <= j < w.len() && #[trigger] first_of_each(w)[k] == w[j],
    decreases w.len(),
{
    if w.len() > 0 {
        let d = w.drop_last();
        lemma_first_of_each_from(d);
        let r = first_of_each(d);
        let f = first_of_each(w);
        assert forall|k: int| 0 <= k < f.len() implies exists|j: int| 0 <= j < w.len() && #[trigger] f[k] == w[j] by {
            if k < r.len() {
                assert(f[k] == r[k]);
                let j = choose|j: int| 0 <= j < d.len() && #[trigger] r[k] == d[j];
                assert(w[j] == d[j]);
            } else {
                assert(f[k] == w[w.len() - 1]);
            }
        }
    }
}

/// Some warning of `f` has the kind and other mod of `x`.
pub open spec fn covered(f: Seq<WarningView>, x: WarningView) -> bool {
    exists|k: int| 0 <= k < f.len() && (#[trigger] f[k]).0 == x.0 && f[k].1 == x.1
}

proof fn lemma_first_of_each_covers(w: Seq<WarningView>)
    ensures
        forall|j: int| 0 <= j < w.len() ==> covered(first_of_each(w), #[trigger] w[j]),
    decreases w.len(),
{
    if w.len() > 0 {
        let d = w.drop_last();
        lemma_first_of_each_covers(d);
        let r = first_of_each(d);
        let x = w.last();
        let f = first_of_each(w);
        assert forall|j: int| 0 <= j < w.len() implies covered(f, #[trigger] w[j]) by {
            if j < d.len() {
                assert(w[j] == d[j]);
                assert(covered(r, d[j]));
                let k = choose|k: int| 0 <= k < r.len() && (#[trigger] r[k]).0 == d[j].0 && r[k].1 == d[j].1;
                assert(f[k] == r[k]);
            } else if exists|k: int| 0 <= k < r.len() && #[trigger] r[k].0 == x.0 && r[k].1 == x.1 {
                let k = choose|k: int| 0 <= k < r.len() && #[trigger] r[k].0 == x.0 && r[k].1 == x.1;
                assert(f[k] == r[k]);
                assert(w[j] == x);
            } else {
                assert(f[r.len() as int] == w[j]);
            }
        }
    }
}

/// Keeping the first warning of each kind and other mod keeps whether there is an error.
proof fn lemma_first_of_each_error(w: Seq<WarningView>)
    ensures
        has_error(first_of_each(w)) == has_error(w),
{
    lemma_first_of_each_from(w);
    lemma_first_of_each_covers(w);
    let f = first_of_each(w);
    if has_error(w) {
        let j = choose|j: int| 0 <= j < w.len() && (#[trigger] w[j].0 is MissingDependency || w[j].0 is Incompatible);
        assert(covered(f, w[j]));
        let k = choose|k: int| 0 <= k < f.len() && (#[trigger] f[k]).0 == w[j].0 && f[k].1 == w[j].1;
        assert(f[k].0 is MissingDependency || f[k].0 is Incompatible);
    }
    if has_error(f) {
        let k = choose|k: int| 0 <= k < f.len() && (#[trigger] f[k].0 is MissingDependency || f[k].0 is Incompatible);
        let j = choose|j: int| 0 <= j < w.len() && #[trigger] f[k] == w[j];
        assert(w[j].0 is MissingDependency || w[j].0 is Incompatible);
    }
}

/// Each listed mod's warnings are pairwise distinct (by kind and other mod), and the error
/// count is the number of listed mods with an error (a missing dependency or an
/// incompatibility), the warning count the rest.
pub proof fn law_validation_warnings_distinct_and_counted(
    mods: Seq<Mod>,
    am: Seq<Mod>,
    src: RuleSources,
    alt: bool,
    gv: Seq<char>,
    k: int,
)
    requires
        0 <= k <= am.len(),
    ensures
        ({
            let v = validation(mods, am, src, alt, gv, k);
            &&& forall|i: int| 0 <= i < v.0.len() ==> distinct_warnings(#[trigger] v.0[i].1)
            &&& v.1 == error_entries(v.0)
            &&& v.2 == v.0.len() - error_entries(v.0)
        }),
    decreases k,
{
    law_validation_lists_only_flagged_mods(mods, am, src, alt, gv, k);
    if k > 0 {
        law_validation_warnings_distinct_and_counted(mods, am, src, alt, gv, k - 1);
        let r = validation(mods, am, src, alt, gv, k - 1);
        let v = validation(mods, am, src, alt, gv, k);
        let w = mod_warnings(mods, am, k - 1, src, alt, gv);
        lemma_first_of_each_distinct(w);
        lemma_first_of_each_error(w);
        if v.0.len() > r.0.len() {
            assert(v.0.drop_last() == r.0);
            assert(v.0.last().1 == first_of_each(w));
            assert forall|i: int| 0 <= i < v.0.len() implies distinct_warnings(#[trigger] v.0[i].1) by {
                if i < r.0.len() {
                    assert(v.0[i] == r.0[i]);
                }
            }
        }
    }
}


proof fn lemma_dep_warning_kinds(mods: Seq<Mod>, am: Seq<Mod>, deps: Seq<Dependency>, alt: bool)
    ensures
        forall|j: int| 0 <= j < dep_warnings(mods, am, deps, alt).len()
            ==> (#[trigger] dep_warnings(mods, am, deps, alt)[j]).0 is MissingDependency,
    decreases deps.len(),
{
    if deps.len() > 0 {
        lemma_dep_warning_kinds(mods, am, deps.drop_last(), alt);
    }
}

proof fn lemma_list_warning_kinds(mods: Seq<Mod>, kind: WarningKind, s: Seq<Seq<char>>)
    ensures
        forall|j: int| 0 <= j < list_warnings(mods, kind, s).len() ==> (#[trigger] list_warnings(mods, kind, s)[j]).0 == kind,
    decreases s.len(),
{
    if s.len() > 0 {
        lemma_list_warning_kinds(mods, kind, s.drop_last());
    }
}

proof fn lemma_order_warning_kinds(mods: Seq<Mod>, am: Seq<Mod>, i: int, pid: Seq<char>, s: Seq<Seq<char>>, before: bool)
    ensures
        forall|j: int| 0 <= j < order_warnings(mods, am, i, pid, s, before).len()
            ==> ((#[trigger] order_warnings(mods, am, i, pid, s, before)[j]).0 is LoadBefore
                || order_warnings(mods, am, i, pid, s, before)[j].0 is LoadAfter),
    decreases s.len(),
{
    if s.len() > 0 {
        lemma_order_warning_kinds(mods, am, i, pid, s.drop_last(), before);
    }
}

/// A game-version warning among a mod's warnings comes only from the version check.
proof fn lemma_version_warning_source(mods: Seq<Mod>, am: Seq<Mod>, i: int, src: RuleSources, alt: bool, gv: Seq<char>)
    requires
        0 <= i < am.len(),
    ensures
        forall|j: int| 0 <= j < mod_warnings(mods, am, i, src, alt, gv).len()
            && (#[trigger] mod_warnings(mods, am, i, src, alt, gv)[j]).0 is VersionMismatch
            ==> version_mismatch_of(am[i], gv, src),
{
    let m = am[i];
    let pid = m.package_id@;
    let a = dep_warnings(mods, am, m.rules.dependencies@, alt);
    let b = list_warnings(mods, WarningKind::Incompatible, ordered(raw_incompat(am, sv(m.rules.incompatible_with@), declared_by(am, pid), pid)));
    let c = order_warnings(mods, am, i, pid, sv(load_before_of(m)), true);
    let d = order_warnings(mods, am, i, pid, sv(load_after_of(m)), false);
    let e: Seq<WarningView> = if version_mismatch_of(m, gv, src) {
        seq![(WarningKind::VersionMismatch, Seq::<char>::empty(), name_of(mods, Seq::empty(), Seq::empty()))]
    } else {
        Seq::empty()
    };
    let f = replacement_warnings(m, src);
    let w = mod_warnings(mods, am, i, src, alt, gv);
    assert(w == a + b + c + d + e + f);
    lemma_dep_warning_kinds(mods, am, m.rules.dependencies@, alt);
    lemma_list_warning_kinds(mods, WarningKind::Incompatible, ordered(raw_incompat(am, sv(m.rules.incompatible_with@), declared_by(am, pid), pid)));
    lemma_order_warning_kinds(mods, am, i, pid, sv(load_before_of(m)), true);
    lemma_order_warning_kinds(mods, am, i, pid, sv(load_after_of(m)), false);
    assert forall|j: int| 0 <= j < w.len() && (#[trigger] w[j]).0 is VersionMismatch implies version_mismatch_of(m, gv, src) by {
        let la = a.len() as int;
        let lb = la + b.len();
        let lc = lb + c.len();
        let ld = lc + d.len();
        let le = ld + e.len();
        if j < la {
            assert(w[j] == a[j]);
        } else if j < lb {
            assert(w[j] == b[j - la]);
        } else if j < lc {
            assert(w[j] == c[j - lb]);
        } else if j < ld {
            assert(w[j] == d[j - lc]);
        } else if j < le {
            assert(e.len() > 0);
        } else {
            assert(w[j] == f[j - le]);
        }
    }
}

/// A mod gets a game-version warning only when it lists supported versions, the running game's
/// `major.minor` is known, and none of its supported versions (leading `v`s removed) is that
/// `major.minor`: a mod that supports the running version is never warned about it.
pub proof fn law_version_warning_only_when_unsupported(
    mods: Seq<Mod>,
    am: Seq<Mod>,
    src: RuleSources,
    alt: bool,
    gv: Seq<char>,
    k: int,
)
    requires
        0 <= k <= am.len(),
    ensures
        ({
            let v = validation(mods, am, src, alt, gv, k);
            forall|e: int, x: int|
                0 <= e < v.0.len() && 0 <= x < v.0[e].1.len() && (#[trigger] v.0[e].1[x]).0 is VersionMismatch
                ==> exists|j: int| 0 <= j < k && am[j].id == v.0[e].0
                    && major_minor(gv).len() > 0
                    && #[trigger] am[j].supported_versions@.len() > 0
                    && forall|q: int| 0 <= q < am[j].supported_versions@.len()
                        ==> strip_vs(#[trigger] am[j].supported_versions@[q]@) != major_minor(gv)
        }),
    decreases k,
{
    if k > 0 {
        law_version_warning_only_when_unsupported(mods, am, src, alt, gv, k - 1);
        let r = validation(mods, am, src, alt, gv, k - 1);
        let v = validation(mods, am, src, alt, gv, k);
        let w = mod_warnings(mods, am, k - 1, src, alt, gv);
        lemma_first_of_each_from(w);
        lemma_version_warning_source(mods, am, k - 1, src, alt, gv);
        assert forall|e: int, x: int|
            0 <= e < v.0.len() && 0 <= x < v.0[e].1.len() && (#[trigger] v.0[e].1[x]).0 is VersionMismatch
            implies exists|j: int| 0 <= j < k && am[j].id == v.0[e].0
                && major_minor(gv).len() > 0
                && #[trigger] am[j].supported_versions@.len() > 0
                && forall|q: int| 0 <= q < am[j].supported_versions@.len()
                    ==> strip_vs(#[trigger] am[j].supported_versions@[q]@) != major_minor(gv) by {
            if e < r.0.len() {
                assert(v.0[e] == r.0[e]);
                assert(r.0[e].1[x].0 is VersionMismatch);
            } else {
                assert(v.0[e] == (am[k - 1].id, first_of_each(w)));
                let f = first_of_each(w);
                let jj = choose|jj: int| 0 <= jj < w.len() && #[trigger] f[x] == w[jj];
                assert(w[jj].0 is VersionMismatch);
                assert(version_mismatch_of(am[k - 1], gv, src));
                let m = am[k - 1];
                assert forall|q: int| 0 <= q < m.supported_versions@.len()
                    implies strip_vs(#[trigger] m.supported_versions@[q]@) != major_minor(gv) by {
                    if strip_vs(m.supported_versions@[q]@) == major_minor(gv) {
                        assert(exists|kk: int| 0 <= kk < m.supported_versions@.len()
                            && #[trigger] strip_vs(m.supported_versions@[kk]@) == major_minor(gv));
                    }
                }
                assert(am[k - 1].supported_versions@.len() > 0);
            }
        }
    }
}


/// No active mod has package id `p` when `pos_of` finds none.
proof fn lemma_pos_of_absent(am: Seq<Mod>, p: Seq<char>)
    requires
        pos_of(am, p) < 0,
    ensures
        forall|a: int| 0 <= a < am.len() ==> (#[trigger] am[a]).package_id@ != p,
    decreases am.len(),
{
    if am.len() > 0 {
        lemma_pos_of_absent(am.drop_last(), p);
        assert forall|a: int| 0 <= a < am.len() implies (#[trigger] am[a]).package_id@ != p by {
            if a < am.len() - 1 {
                assert(am[a] == am.drop_last()[a]);
            }
        }
    }
}

/// An unmet dependency: neither its package nor, with `alt`, any alternative is the package of
/// an active mod.
proof fn lemma_unmet_absent(am: Seq<Mod>, d: Dependency, alt: bool)
    requires
        unmet(am, d, alt),
    ensures
        forall|a: int| 0 <= a < am.len() ==> (#[trigger] am[a]).package_id@ != d.package_id@,
        alt ==> forall|a: int, z: int| 0 <= a < am.len() && 0 <= z < d.alternatives@.len()
            ==> (#[trigger] am[a]).package_id@ != (#[trigger] d.alternatives@[z])@,
{
    lemma_pos_of_absent(am, d.package_id@);
    if alt {
        assert forall|a: int, z: int| 0 <= a < am.len() && 0 <= z < d.alternatives@.len()
            implies (#[trigger] am[a]).package_id@ != (#[trigger] d.alternatives@[z])@ by {
            assert(sv(d.alternatives@)[z] == d.alternatives@[z]@);
            if pos_of(am, sv(d.alternatives@)[z]) >= 0 {
                assert(alt_active(am, sv(d.alternatives@)));
            }
            lemma_pos_of_absent(am, sv(d.alternatives@)[z]);
        }
    }
}

proof fn lemma_deps_needs_sound(am: Seq<Mod>, name: Seq<char>, deps: Seq<Dependency>, alt: bool)
    ensures
        forall|n: int| 0 <= n < deps_needs(am, name, deps, alt).len() ==> {
            let d = (#[trigger] deps_needs(am, name, deps, alt)[n]).1;
            &&& unmet(am, d, alt)
            &&& exists|q: int| 0 <= q < deps.len() && #[trigger] deps[q] == d
        },
    decreases deps.len(),
{
    if deps.len() > 0 {
        let dl = deps.drop_last();
        lemma_deps_needs_sound(am, name, dl, alt);
        let r = deps_needs(am, name, dl, alt);
        let t = deps_needs(am, name, deps, alt);
        assert forall|n: int| 0 <= n < t.len() implies {
            let d = (#[trigger] t[n]).1;
            &&& unmet(am, d, alt)
            &&& exists|q: int| 0 <= q < deps.len() && #[trigger] deps[q] == d
        } by {
            if n < r.len() {
                assert(t[n] == r[n]);
                let q = choose|q: int| 0 <= q < dl.len() && #[trigger] dl[q] == r[n].1;
                assert(deps[q] == dl[q]);
            } else {
                assert(t[n].1 == deps[deps.len() - 1]);
            }
        }
    }
}

proof fn lemma_needs_sound(am: Seq<Mod>, ms: Seq<Mod>, ignored: Seq<Seq<char>>, alt: bool)
    ensures
        forall|n: int| 0 <= n < needs(am, ms, ignored, alt).len() ==> {
            let d = (#[trigger] needs(am, ms, ignored, alt)[n]).1;
            &&& unmet(am, d, alt)
            &&& exists|i: int, q: int| 0 <= i < ms.len() && !ignored.contains(ms[i].package_id@)
                && 0 <= q < ms[i].rules.dependencies@.len() && #[trigger] ms[i].rules.dependencies@[q] == d
        },
    decreases ms.len(),
{
    if ms.len() > 0 {
        let dm = ms.drop_last();
        lemma_needs_sound(am, dm, ignored, alt);
        let r = needs(am, dm, ignored, alt);
        let t = needs(am, ms, ignored, alt);
        let m = ms.last();
        lemma_deps_needs_sound(am, m.name@, m.rules.dependencies@, alt);
        assert forall|n: int| 0 <= n < t.len() implies {
            let d = (#[trigger] t[n]).1;
            &&& unmet(am, d, alt)
            &&& exists|i: int, q: int| 0 <= i < ms.len() && !ignored.contains(ms[i].package_id@)
                && 0 <= q < ms[i].rules.dependencies@.len() && #[trigger] ms[i].rules.dependencies@[q] == d
        } by {
            if n < r.len() {
                assert(t[n] == r[n]);
                let (i, q) = choose|i: int, q: int| 0 <= i < dm.len() && !ignored.contains(dm[i].package_id@)
                    && 0 <= q < dm[i].rules.dependencies@.len() && #[trigger] dm[i].rules.dependencies@[q] == r[n].1;
                assert(ms[i] == dm[i]);
            } else {
                let dn = deps_needs(am, m.name@, m.rules.dependencies@, alt);
                assert(t == r + dn);
                assert(t[n] == dn[n - r.len()]);
                let q = choose|q: int| 0 <= q < m.rules.dependencies@.len() && #[trigger] m.rules.dependencies@[q] == dn[n - r.len()].1;
                assert(ms[ms.len() - 1] == m);
                assert(ms[ms.len() - 1].rules.dependencies@[q] == t[n].1);
            }
        }
    }
}

proof fn lemma_groups_from_needs(mods: Seq<Mod>, ns: Seq<(Seq<char>, Dependency)>, alt: bool)
    ensures
        forall|e: int| 0 <= e < groups(mods, ns, alt).len()
            ==> exists|z: int| 0 <= z < ns.len() && (#[trigger] ns[z]).1.package_id@ == (#[trigger] groups(mods, ns, alt)[e]).package_id,
    decreases ns.len(),
{
    if ns.len() > 0 {
        let dn = ns.drop_last();
        lemma_groups_from_needs(mods, dn, alt);
        let g = groups(mods, dn, alt);
        let h = groups(mods, ns, alt);
        let d = ns.last().1;
        lemma_group_pos(g, d.package_id@);
        let kp = group_pos(g, d.package_id@);
        assert forall|e: int| 0 <= e < h.len()
            implies exists|z: int| 0 <= z < ns.len() && (#[trigger] ns[z]).1.package_id@ == (#[trigger] h[e]).package_id by {
            if e < g.len() {
                if kp >= 0 && e == kp {
                    assert(h[e].package_id == g[e].package_id);
                } else {
                    assert(h[e] == g[e]);
                }
                let z = choose|z: int| 0 <= z < dn.len() && (#[trigger] dn[z]).1.package_id@ == g[e].package_id;
                assert(ns[z] == dn[z]);
            } else {
                assert(ns[ns.len() - 1].1.package_id@ == h[e].package_id);
            }
        }
    }
}

/// Every missing-dependency entry names a package that some active mod (not on the ignore
/// list) declares as a dependency, that no active mod provides, and, with
/// `use_alternative_ids`, none of whose alternatives that mod lists is active either: a
/// dependency met by an active alternative is never reported.
pub proof fn law_missing_dependencies_unmet(mods: Seq<Mod>, am: Seq<Mod>, ignored: Seq<Seq<char>>, alt: bool)
    ensures
        ({
            let g = groups(mods, needs(am, am, ignored, alt), alt);
            forall|e: int| 0 <= e < g.len() ==> exists|i: int, q: int|
                0 <= i < am.len() && !ignored.contains(am[i].package_id@)
                && 0 <= q < am[i].rules.dependencies@.len()
                && (#[trigger] am[i].rules.dependencies@[q]).package_id@ == (#[trigger] g[e]).package_id
                && (forall|a: int| 0 <= a < am.len() ==> (#[trigger] am[a]).package_id@ != g[e].package_id)
                && (alt ==> forall|a: int, z: int| 0 <= a < am.len() && 0 <= z < am[i].rules.dependencies@[q].alternatives@.len()
                    ==> (#[trigger] am[a]).package_id@ != (#[trigger] am[i].rules.dependencies@[q].alternatives@[z])@)
        }),
{
    let ns = needs(am, am, ignored, alt);
    let g = groups(mods, ns, alt);
    lemma_needs_sound(am, am, ignored, alt);
    lemma_groups_from_needs(mods, ns, alt);
    assert forall|e: int| 0 <= e < g.len() implies exists|i: int, q: int|
        0 <= i < am.len() && !ignored.contains(am[i].package_id@)
        && 0 <= q < am[i].rules.dependencies@.len()
        && (#[trigger] am[i].rules.dependencies@[q]).package_id@ == (#[trigger] g[e]).package_id
        && (forall|a: int| 0 <= a < am.len() ==> (#[trigger] am[a]).package_id@ != g[e].package_id)
        && (alt ==> forall|a: int, z: int| 0 <= a < am.len() && 0 <= z < am[i].rules.dependencies@[q].alternatives@.len()
            ==> (#[trigger] am[a]).package_id@ != (#[trigger] am[i].rules.dependencies@[q].alternatives@[z])@) by {
        let z = choose|z: int| 0 <= z < ns.len() && (#[trigger] ns[z]).1.package_id@ == g[e].package_id;
        let d = ns[z].1;
        let (i, q) = choose|i: int, q: int| 0 <= i < am.len() && !ignored.contains(am[i].package_id@)
            && 0 <= q < am[i].rules.dependencies@.len() && #[trigger] am[i].rules.dependencies@[q] == d;
        lemma_unmet_absent(am, d, alt);
        assert(am[i].rules.dependencies@[q] == d);
    }
}


/// What `law_missing_dependencies_unmet` says of the entries, for entries that each equal one
/// of the groups.
proof fn lemma_entries_unmet(mods: Seq<Mod>, amv: Seq<Mod>, ign: Seq<Seq<char>>, alt: bool, r: Seq<MissingDep>)
    requires
        ({
            let g = groups(mods, needs(amv, amv, ign, alt), alt);
            forall|k: int| 0 <= k < r.len() ==> exists|j: int| 0 <= j < g.len() && #[trigger] g[j] == mview(#[trigger] r[k])
        }),
    ensures
        forall|k: int| 0 <= k < r.len() ==> exists|i: int, q: int|
            0 <= i < amv.len() && !ign.contains(amv[i].package_id@)
            && 0 <= q < amv[i].rules.dependencies@.len()
            && (#[trigger] amv[i].rules.dependencies@[q]).package_id@ == (#[trigger] r[k]).package_id@
            && (forall|a: int| 0 <= a < amv.len() ==> (#[trigger] amv[a]).package_id@ != r[k].package_id@)
            && (alt ==> forall|a: int, z: int| 0 <= a < amv.len() && 0 <= z < amv[i].rules.dependencies@[q].alternatives@.len()
                ==> (#[trigger] amv[a]).package_id@ != (#[trigger] amv[i].rules.dependencies@[q].alternatives@[z])@),
{
    let gv = groups(mods, needs(amv, amv, ign, alt), alt);
    law_missing_dependencies_unmet(mods, amv, ign, alt);
    assert forall|k: int| 0 <= k < r.len() implies exists|i: int, q: int|
        0 <= i < amv.len() && !ign.contains(amv[i].package_id@)
        && 0 <= q < amv[i].rules.dependencies@.len()
        && (#[trigger] amv[i].rules.dependencies@[q]).package_id@ == (#[trigger] r[k]).package_id@
        && (forall|a: int| 0 <= a < amv.len() ==> (#[trigger] amv[a]).package_id@ != r[k].package_id@)
        && (alt ==> forall|a: int, z: int| 0 <= a < amv.len() && 0 <= z < amv[i].rules.dependencies@[q].alternatives@.len()
            ==> (#[trigger] amv[a]).package_id@ != (#[trigger] amv[i].rules.dependencies@[q].alternatives@[z])@) by {
        let j = choose|j: int| 0 <= j < gv.len() && #[trigger] gv[j] == mview(#[trigger] r[k]);
        assert(gv[j].package_id == r[k].package_id@);
    }
}


/// A mod that lists supported versions, none of which (leading `v`s removed) is the running
/// game's known `major.minor`, and that is on neither the ignore list nor the NoVersionWarning
/// list, is listed with a game-version warning.
pub proof fn law_version_warning_when_unsupported(
    mods: Seq<Mod>,
    am: Seq<Mod>,
    src: RuleSources,
    alt: bool,
    gv: Seq<char>,
    k: int,
    j: int,
)
    requires
        0 <= j < k <= am.len(),
        major_minor(gv).len() > 0,
        am[j].supported_versions@.len() > 0,
        forall|q: int| 0 <= q < am[j].supported_versions@.len()
            ==> strip_vs(#[trigger] am[j].supported_versions@[q]@) != major_minor(gv),
        !sv(src.ignored@).contains(am[j].package_id@),
        !sv(src.no_version_warning@).contains(am[j].package_id@),
    ensures
        ({
            let v = validation(mods, am, src, alt, gv, k);
            exists|e: int, x: int| 0 <= e < v.0.len() && 0 <= x < v.0[e].1.len()
                && v.0[e].0 == am[j].id && (#[trigger] v.0[e].1[x]).0 is VersionMismatch
        }),
    decreases k,
{
    let r = validation(mods, am, src, alt, gv, k - 1);
    let v = validation(mods, am, src, alt, gv, k);
    if j < k - 1 {
        law_version_warning_when_unsupported(mods, am, src, alt, gv, k - 1, j);
        let (e, x) = choose|e: int, x: int| 0 <= e < r.0.len() && 0 <= x < r.0[e].1.len()
            && r.0[e].0 == am[j].id && (#[trigger] r.0[e].1[x]).0 is VersionMismatch;
        assert(v.0[e] == r.0[e]);
        assert(v.0[e].1[x].0 is VersionMismatch);
    } else {
        let m = am[j];
        let w = mod_warnings(mods, am, j, src, alt, gv);
        assert(version_mismatch_of(m, gv, src));
        let m5 = dep_warnings(mods, am, m.rules.dependencies@, alt)
            + list_warnings(mods, WarningKind::Incompatible, ordered(raw_incompat(am, sv(m.rules.incompatible_with@), declared_by(am, m.package_id@), m.package_id@)))
            + order_warnings(mods, am, j, m.package_id@, sv(load_before_of(m)), true)
            + order_warnings(mods, am, j, m.package_id@, sv(load_after_of(m)), false);
        let e5: Seq<WarningView> = seq![(WarningKind::VersionMismatch, Seq::<char>::empty(), name_of(mods, Seq::empty(), Seq::empty()))];
        assert(w == m5 + e5 + replacement_warnings(m, src));
        assert(w[m5.len() as int] == e5[0]);
        lemma_first_of_each_covers(w);
        assert(covered(first_of_each(w), w[m5.len() as int]));
        let f = first_of_each(w);
        let x = choose|x: int| 0 <= x < f.len() && (#[trigger] f[x]).0 == w[m5.len() as int].0 && f[x].1 == w[m5.len() as int].1;
        assert(v.0 == r.0.push((m.id, f)));
        assert(v.0[r.0.len() as int].1[x].0 is VersionMismatch);
    }
}


proof fn lemma_deps_needs_complete(am: Seq<Mod>, name: Seq<char>, deps: Seq<Dependency>, alt: bool, q: int)
    requires
        0 <= q < deps.len(),
        unmet(am, deps[q], alt),
    ensures
        deps_needs(am, name, deps, alt).contains((name, deps[q])),
    decreases deps.len(),
{
    let r = deps_needs(am, name, deps.drop_last(), alt);
    if q < deps.len() - 1 {
        assert(deps.drop_last()[q] == deps[q]);
        lemma_deps_needs_complete(am, name, deps.drop_last(), alt, q);
        let n = choose|n: int| 0 <= n < r.len() && r[n] == (name, deps[q]);
        assert(deps_needs(am, name, deps, alt)[n] == r[n]);
    } else {
        assert(deps_needs(am, name, deps, alt) == r.push((name, deps[q])));
        assert(deps_needs(am, name, deps, alt)[r.len() as int] == (name, deps[q]));
    }
}

proof fn lemma_needs_complete(am: Seq<Mod>, ms: Seq<Mod>, ignored: Seq<Seq<char>>, alt: bool, i: int, q: int)
    requires
        0 <= i < ms.len(),
        !ignored.contains(ms[i].package_id@),
        0 <= q < ms[i].rules.dependencies@.len(),
        unmet(am, ms[i].rules.dependencies@[q], alt),
    ensures
        needs(am, ms, ignored, alt).contains((ms[i].name@, ms[i].rules.dependencies@[q])),
    decreases ms.len(),
{
    let dm = ms.drop_last();
    let r = needs(am, dm, ignored, alt);
    let t = needs(am, ms, ignored, alt);
    let m = ms.last();
    let item = (ms[i].name@, ms[i].rules.dependencies@[q]);
    if i < ms.len() - 1 {
        assert(dm[i] == ms[i]);
        lemma_needs_complete(am, dm, ignored, alt, i, q);
        let n = choose|n: int| 0 <= n < r.len() && r[n] == item;
        if !ignored.contains(m.package_id@) {
            assert(t == r + deps_needs(am, m.name@, m.rules.dependencies@, alt));
        }
        assert(t[n] == r[n]);
    } else {
        let dn = deps_needs(am, m.name@, m.rules.dependencies@, alt);
        lemma_deps_needs_complete(am, m.name@, m.rules.dependencies@, alt, q);
        assert(t == r + dn);
        let n = choose|n: int| 0 <= n < dn.len() && dn[n] == item;
        assert(t[r.len() + n] == dn[n]);
    }
}

proof fn lemma_groups_complete(mods: Seq<Mod>, ns: Seq<(Seq<char>, Dependency)>, alt: bool, n: int)
    requires
        0 <= n < ns.len(),
    ensures
        exists|e: int| 0 <= e < groups(mods, ns, alt).len()
            && (#[trigger] groups(mods, ns, alt)[e]).package_id == ns[n].1.package_id@
            && groups(mods, ns, alt)[e].required_by.contains(ns[n].0),
    decreases ns.len(),
{
    let dn = ns.drop_last();
    let g = groups(mods, dn, alt);
    let h = groups(mods, ns, alt);
    let (nm, d) = ns.last();
    lemma_group_pos(g, d.package_id@);
    let kp = group_pos(g, d.package_id@);
    if n < ns.len() - 1 {
        assert(dn[n] == ns[n]);
        lemma_groups_complete(mods, dn, alt, n);
        let e = choose|e: int| 0 <= e < g.len() && (#[trigger] g[e]).package_id == ns[n].1.package_id@
            && g[e].required_by.contains(ns[n].0);
        if kp >= 0 && e == kp {
            assert(h[e].package_id == g[e].package_id);
            assert(h[e].required_by == g[e].required_by.push(nm));
            let z = choose|z: int| 0 <= z < g[e].required_by.len() && g[e].required_by[z] == ns[n].0;
            assert(h[e].required_by[z] == ns[n].0);
        } else {
            assert(h[e] == g[e]);
        }
    } else {
        if kp >= 0 {
            assert(h[kp].required_by == g[kp].required_by.push(nm));
            assert(h[kp].required_by[g[kp].required_by.len() as int] == nm);
            assert(h[kp].package_id == d.package_id@);
        } else {
            assert(h[g.len() as int] == new_entry(mods, nm, d, alt));
            assert(h[g.len() as int].required_by[0] == nm);
        }
    }
}

/// Every dependency of an active mod (not on the ignore list) that no active mod provides and,
/// with `use_alternative_ids`, none of whose alternatives is active either, is reported: some
/// entry names its package, with that mod's name among those that require it.
pub proof fn law_missing_dependencies_complete(
    mods: Seq<Mod>,
    am: Seq<Mod>,
    ignored: Seq<Seq<char>>,
    alt: bool,
    i: int,
    q: int,
)
    requires
        0 <= i < am.len(),
        !ignored.contains(am[i].package_id@),
        0 <= q < am[i].rules.dependencies@.len(),
        forall|a: int| 0 <= a < am.len() ==> (#[trigger] am[a]).package_id@ != am[i].rules.dependencies@[q].package_id@,
        alt ==> forall|a: int, z: int| 0 <= a < am.len() && 0 <= z < am[i].rules.dependencies@[q].alternatives@.len()
            ==> (#[trigger] am[a]).package_id@ != (#[trigger] am[i].rules.dependencies@[q].alternatives@[z])@,
    ensures
        ({
            let g = groups(mods, needs(am, am, ignored, alt), alt);
            exists|e: int| 0 <= e < g.len()
                && (#[trigger] g[e]).package_id == am[i].rules.dependencies@[q].package_id@
                && g[e].required_by.contains(am[i].name@)
        }),
{
    let d = am[i].rules.dependencies@[q];
    if pos_of(am, d.package_id@) >= 0 {
        lemma_pos_of_range(am, d.package_id@);
    }
    if alt && alt_active(am, sv(d.alternatives@)) {
        let z = choose|z: int| 0 <= z < sv(d.alternatives@).len() && #[trigger] pos_of(am, sv(d.alternatives@)[z]) >= 0;
        lemma_pos_of_range(am, sv(d.alternatives@)[z]);
        let a = pos_of(am, sv(d.alternatives@)[z]);
        assert(am[a].package_id@ != d.alternatives@[z]@);
    }
    assert(unmet(am, d, alt));
    let ns = needs(am, am, ignored, alt);
    lemma_needs_complete(am, am, ignored, alt, i, q);
    let n = choose|n: int| 0 <= n < ns.len() && ns[n] == (am[i].name@, d);
    lemma_groups_complete(mods, ns, alt, n);
}

/// Where `pos_of` finds one, the active mod there has the package id.
proof fn lemma_pos_of_range(am: Seq<Mod>, p: Seq<char>)
    requires
        pos_of(am, p) >= 0,
    ensures
        pos_of(am, p) < am.len(),
        am[pos_of(am, p)].package_id@ == p,
    decreases am.len(),
{
    if pos_of(am.drop_last(), p) >= 0 {
        lemma_pos_of_range(am.drop_last(), p);
        assert(am[pos_of(am, p)] == am.drop_last()[pos_of(am, p)]);
    }
}


/// Removing leading `v`s: the text is some number of `v`s followed by the result, and the
/// result does not start with `v`.
pub proof fn law_strip_vs_drops_leading_vs(t: Seq<char>)
    ensures
        strip_vs(t).len() <= t.len(),
        t == Seq::new((t.len() - strip_vs(t).len()) as nat, |i: int| 'v') + strip_vs(t),
        strip_vs(t).len() == 0 || strip_vs(t)[0] != 'v',
    decreases t.len(),
{
    if t.len() > 0 && t[0] == 'v' {
        law_strip_vs_drops_leading_vs(t.drop_first());
        let r = strip_vs(t);
        let k = (t.drop_first().len() - r.len()) as nat;
        assert(t.drop_first() == Seq::new(k, |i: int| 'v') + r);
        assert(t =~= Seq::new(k + 1, |i: int| 'v') + r);
    } else {
        assert(t =~= Seq::new(0, |i: int| 'v') + t);
    }
}


proof fn lemma_find_char_found(s: Seq<char>, from: int, c: char)
    requires
        0 <= from,
    ensures
        find_char(s, from, c) >= 0 ==> from <= find_char(s, from, c) < s.len() && s[find_char(s, from, c)] == c
            && forall|k: int| from <= k < find_char(s, from, c) ==> s[k] != c,
        find_char(s, from, c) < 0 ==> forall|k: int| from <= k < s.len() ==> s[k] != c,
    decreases s.len() - from,
{
    if from < s.len() && s[from] != c {
        lemma_find_char_found(s, from + 1, c);
        assert forall|k: int| from <= k < s.len() && k < (if find_char(s, from, c) >= 0 { find_char(s, from, c) } else { s.len() as int })
            implies s[k] != c by {
            if k > from {
                assert(from + 1 <= k);
            }
        }
    }
}

/// The running game's `major.minor` is the version text up to its second `.`, or the whole
/// text when it has fewer than two.
pub proof fn law_major_minor_up_to_second_dot(v: Seq<char>)
    ensures
        ({
            ||| (exists|d1: int, d2: int| 0 <= d1 < d2 < v.len() && #[trigger] v[d1] == '.' && #[trigger] v[d2] == '.'
                    && (forall|k: int| 0 <= k < d2 && k != d1 ==> v[k] != '.')
                    && major_minor(v) == v.take(d2))
            ||| ((forall|d1: int, d2: int| 0 <= d1 < d2 < v.len() ==> !(#[trigger] v[d1] == '.' && #[trigger] v[d2] == '.'))
                    && major_minor(v) == v)
        }),
{
    lemma_find_char_found(v, 0, '.');
    let d1 = find_char(v, 0, '.');
    if d1 >= 0 {
        lemma_find_char_found(v, d1 + 1, '.');
        let d2 = find_char(v, d1 + 1, '.');
        if d2 >= 0 {
            assert(0 <= d1 < d2 < v.len() && v[d1] == '.' && v[d2] == '.'
                && (forall|k: int| 0 <= k < d2 && k != d1 ==> v[k] != '.')
                && major_minor(v) == v.take(d2));
        } else {
            assert forall|a: int, b: int| 0 <= a < b < v.len() implies !(#[trigger] v[a] == '.' && #[trigger] v[b] == '.') by {
            }
        }
    } else {
        assert forall|a: int, b: int| 0 <= a < b < v.len() implies !(#[trigger] v[a] == '.' && #[trigger] v[b] == '.') by {
        }
    }
}

} // verus!
