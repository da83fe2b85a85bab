//! Decisions the application's session makes on the scanned mods: which ids may be active, and
//! which packages are installed more than once.

use vstd::prelude::*;

use crate::dto::{DupCopy, DupGroup, ExportFormat, UserRuleDto};
use crate::mod_id::ModId;
use crate::mods::{last_with_id, Mod, ModIndex, ModType};
use crate::error::Error;
use crate::meta::ModMeta;
use crate::modsconfig::{config_ids, export_doc, export_fits, export_known, export_version, export_xml, resolve_active, resolve_all, saved_ids, ActiveList, ModsConfig};
use crate::rules::ExtRule;
use crate::rules::RuleSources;
use crate::text::sv;
use crate::text::{chars_of, lowercase};

verus! {

broadcast use {vstd::string::group_string_axioms, vstd::seq_lib::group_seq_properties};

/// The id names a valid mod of the index.
pub open spec fn names_valid(mods: Seq<Mod>, id: ModId) -> bool {
    last_with_id(mods, id) >= 0 && mods[last_with_id(mods, id)].valid
}

/// The ids that name a valid mod, each once, in their order.
pub open spec fn chosen(mods: Seq<Mod>, ids: Seq<ModId>) -> Seq<ModId>
    decreases ids.len(),
{
    if ids.len() == 0 {
        Seq::empty()
    } else {
        let r = chosen(mods, ids.drop_last());
        let id = ids.last();
        if names_valid(mods, id) && !r.contains(id) {
            r.push(id)
        } else {
            r
        }
    }
}

/// The ids of `s` that `keep` holds, in their order.
pub open spec fn kept_in(s: Seq<ModId>, keep: Seq<ModId>) -> Seq<ModId>
    decreases s.len(),
{
    if s.len() == 0 {
        Seq::empty()
    } else {
        let r = kept_in(s.drop_last(), keep);
        if keep.contains(s.last()) {
            r.push(s.last())
        } else {
            r
        }
    }
}

/// Whether `id` names a valid mod of the index.
fn valid_id(index: &ModIndex, id: ModId) -> (r: bool)
    ensures
        r == names_valid(index.mods@, id),
{
    match index.get(id) {
        Some(m) => m.valid,
        None => false,
    }
}

/// Make `ids` the active list: ids that name no valid mod and repeated ids are dropped, and an
/// id keeps its `_steam` mark only while it stays active; the missing ids are kept.
pub fn set_active(index: &ModIndex, list: &mut ActiveList, ids: Vec<ModId>)
    ensures
        final(list).ids@ == chosen(index.mods@, ids@),
        final(list).steam_suffix@ == kept_in(old(list).steam_suffix@, chosen(index.mods@, ids@)),
        final(list).missing@ == old(list).missing@,
{
    let mut out: Vec<ModId> = Vec::new();
    let mut i: usize = 0;
    while i < ids.len()
        invariant
            0 <= i <= ids@.len(),
            out@ == chosen(index.mods@, ids@.take(i as int)),
        decreases ids@.len() - i,
    {
        proof {
            assert(ids@.take(i + 1).drop_last() == ids@.take(i as int));
            assert(ids@.take(i + 1).last() == ids@[i as int]);
        }
        let id = ids[i];
        if valid_id(index, id) && !crate::sort::contains_id_pub(&out, id) {
            out.push(id);
        }
        i += 1;
    }
    proof {
        assert(ids@.take(ids@.len() as int) == ids@);
    }
    let mut suffix: Vec<ModId> = Vec::new();
    let mut j: usize = 0;
    while j < list.steam_suffix.len()
        invariant
            0 <= j <= list.steam_suffix@.len(),
            suffix@ == kept_in(list.steam_suffix@.take(j as int), out@),
        decreases list.steam_suffix@.len() - j,
    {
        proof {
            assert(list.steam_suffix@.take(j + 1).drop_last() == list.steam_suffix@.take(j as int));
            assert(list.steam_suffix@.take(j + 1).last() == list.steam_suffix@[j as int]);
        }
        let id = list.steam_suffix[j];
        if crate::sort::contains_id_pub(&out, id) {
            suffix.push(id);
        }
        j += 1;
    }
    proof {
        assert(list.steam_suffix@.take(list.steam_suffix@.len() as int) == list.steam_suffix@);
    }
    list.ids = out;
    list.steam_suffix = suffix;
}

/// The valid mods of package `p`, in index order.
pub open spec fn copies_of(mods: Seq<Mod>, p: Seq<char>) -> Seq<Mod>
    decreases mods.len(),
{
    if mods.len() == 0 {
        Seq::empty()
    } else {
        let r = copies_of(mods.drop_last(), p);
        let m = mods.last();
        if m.valid && m.package_id@ == p {
            r.push(m)
        } else {
            r
        }
    }
}

/// The contents of a `DupCopy`.
pub struct DupCopyView {
    pub id: ModId,
    pub path: Seq<char>,
    pub mod_type: ModType,
    pub published_file_id: Option<Seq<char>>,
    pub mod_version: Seq<char>,
    pub active: bool,
}

/// The contents of a `DupGroup`.
pub struct DupGroupView {
    pub package_id: Seq<char>,
    pub name: Seq<char>,
    pub copies: Seq<DupCopyView>,
}

/// The text of an optional string.
pub open spec fn opt_view(o: Option<String>) -> Option<Seq<char>> {
    match o {
        Some(s) => Some(s@),
        None => None,
    }
}

/// The contents of a `DupCopy`.
pub open spec fn copy_view(c: DupCopy) -> DupCopyView {
    DupCopyView {
        id: c.id,
        path: c.path@,
        mod_type: c.mod_type,
        published_file_id: opt_view(c.published_file_id),
        mod_version: c.mod_version@,
        active: c.active,
    }
}

/// The contents of a `DupGroup`.
pub open spec fn group_view(g: DupGroup) -> DupGroupView {
    DupGroupView { package_id: g.package_id@, name: g.name@, copies: g.copies@.map_values(|c: DupCopy| copy_view(c)) }
}

/// How the panel shows copy `m`, given the active ids.
pub open spec fn copy_of(m: Mod, active: Seq<ModId>) -> DupCopyView {
    DupCopyView {
        id: m.id,
        path: m.path@,
        mod_type: m.mod_type,
        published_file_id: opt_view(m.published_file_id),
        mod_version: m.mod_version@,
        active: active.contains(m.id),
    }
}

/// The group of package `p`: named after its first copy, listing every copy.
pub open spec fn dup_group(mods: Seq<Mod>, active: Seq<ModId>, p: Seq<char>) -> DupGroupView {
    let c = copies_of(mods, p);
    DupGroupView { package_id: p, name: c[0].name@, copies: c.map_values(|m: Mod| copy_of(m, active)) }
}

/// Groups are listed by lowercased name, then package id.
pub open spec fn dup_lt(a: DupGroupView, b: DupGroupView) -> bool {
    ||| crate::text::lex_lt(lowercase(a.name), lowercase(b.name))
    ||| (lowercase(a.name) == lowercase(b.name) && crate::text::lex_lt(a.package_id, b.package_id))
}

/// The copy of one mod.
fn make_copy(m: &Mod, active: &Vec<ModId>) -> (r: DupCopy)
    ensures
        copy_view(r) == copy_of(*m, active@),
{
    DupCopy {
        id: m.id,
        path: m.path.clone(),
        mod_type: m.mod_type,
        published_file_id: match &m.published_file_id {
            Some(p) => Some(p.clone()),
            None => None,
        },
        mod_version: m.mod_version.clone(),
        active: crate::sort::contains_id_pub(active, m.id),
    }
}

/// The copies of package `p` and the name of its first copy.
fn copies(mods: &Vec<Mod>, p: &str, active: &Vec<ModId>) -> (r: (Vec<DupCopy>, String))
    ensures
        r.0@.map_values(|c: DupCopy| copy_view(c)) == copies_of(mods@, p@).map_values(|m: Mod| copy_of(m, active@)),
        copies_of(mods@, p@).len() > 0 ==> r.1@ == copies_of(mods@, p@)[0].name@,
{
    let mut out: Vec<DupCopy> = Vec::new();
    let mut name = String::new();
    let mut i: usize = 0;
    while i < mods.len()
        invariant
            0 <= i <= mods@.len(),
            out@.map_values(|c: DupCopy| copy_view(c)) == copies_of(mods@.take(i as int), p@).map_values(|m: Mod| copy_of(m, active@)),
            copies_of(mods@.take(i as int), p@).len() > 0 ==> name@ == copies_of(mods@.take(i as int), p@)[0].name@,
        decreases mods@.len() - i,
    {
        proof {
            assert(mods@.take(i + 1).drop_last() == mods@.take(i as int));
            assert(mods@.take(i + 1).last() == mods@[i as int]);
        }
        let m = &mods[i];
        if m.valid && crate::text::str_eq(m.package_id.as_str(), p) {
            let ghost before = out@;
            let c = make_copy(m, active);
            if out.len() == 0 {
                name = m.name.clone();
            }
            out.push(c);
            proof {
                assert(out@.map_values(|c: DupCopy| copy_view(c)) =~= before.map_values(|c: DupCopy| copy_view(c)).push(copy_view(c)));
            }
        }
        i += 1;
    }
    proof {
        assert(mods@.take(mods@.len() as int) == mods@);
    }
    (out, name)
}

/// A copy of a group.
fn copy_group(g: &DupGroup) -> (r: DupGroup)
    ensures
        group_view(r) == group_view(*g),
{
    let mut cs: Vec<DupCopy> = Vec::new();
    let mut i: usize = 0;
    while i < g.copies.len()
        invariant
            0 <= i <= g.copies@.len(),
            cs@.map_values(|c: DupCopy| copy_view(c)) == g.copies@.take(i as int).map_values(|c: DupCopy| copy_view(c)),
        decreases g.copies@.len() - i,
    {
        let c = &g.copies[i];
        let d = DupCopy {
            id: c.id,
            path: c.path.clone(),
            mod_type: c.mod_type,
            published_file_id: match &c.published_file_id {
                Some(p) => Some(p.clone()),
                None => None,
            },
            mod_version: c.mod_version.clone(),
            active: c.active,
        };
        let ghost before = cs@;
        cs.push(d);
        proof {
            assert(g.copies@.take(i + 1) == g.copies@.take(i as int).push(g.copies@[i as int]));
            assert(cs@.map_values(|c: DupCopy| copy_view(c)) =~= before.map_values(|c: DupCopy| copy_view(c)).push(copy_view(d)));
            assert(g.copies@.take(i + 1).map_values(|c: DupCopy| copy_view(c)) =~= g.copies@.take(i as int).map_values(|c: DupCopy| copy_view(c)).push(copy_view(g.copies@[i as int])));
        }
        i += 1;
    }
    proof {
        assert(g.copies@.take(g.copies@.len() as int) == g.copies@);
    }
    DupGroup { package_id: g.package_id.clone(), name: g.name.clone(), copies: cs }
}

/// A valid copy of `p` makes `p` a package of the index.
proof fn lemma_copies_valid(mods: Seq<Mod>, p: Seq<char>)
    ensures
        copies_of(mods, p).len() > 0 ==> crate::sort::has_valid(mods, p),
    decreases mods.len(),
{
    if mods.len() > 0 {
        lemma_copies_valid(mods.drop_last(), p);
        if copies_of(mods.drop_last(), p).len() > 0 {
            let i = choose|i: int| 0 <= i < mods.drop_last().len() && #[trigger] mods.drop_last()[i].valid
                && mods.drop_last()[i].package_id@ == p;
            assert(mods[i] == mods.drop_last()[i]);
        }
        assert(mods[mods.len() - 1] == mods.last());
    }
}

/// The packages installed more than once, each with all its valid copies (in index order,
/// marked active or not) and named after its first copy; listed by lowercased name, then
/// package id.
pub fn duplicates(index: &ModIndex, active: &Vec<ModId>) -> (r: Vec<DupGroup>)
    ensures
        forall|k: int| 0 <= k < r@.len() ==> copies_of(index.mods@, (#[trigger] r@[k]).package_id@).len() >= 2
            && group_view(r@[k]) == dup_group(index.mods@, active@, r@[k].package_id@),
        forall|p: Seq<char>| #[trigger] copies_of(index.mods@, p).len() >= 2 ==> exists|k: int| 0 <= k < r@.len()
            && r@[k].package_id@ == p,
        forall|a: int, b: int| 0 <= a < b < r@.len() ==> dup_lt(group_view(#[trigger] r@[a]), group_view(#[trigger] r@[b])),
{
    let ghost mods = index.mods@;
    let (nodes, strs) = crate::sort::collect_nodes(&index.mods);
    let ghost v = crate::sort::node_pids(mods);
    proof {
        crate::sort::lemma_node_pids(mods);
    }
    let mut groups: Vec<DupGroup> = Vec::new();
    let mut keys: Vec<Vec<char>> = Vec::new();
    let mut pids: Vec<Vec<char>> = Vec::new();
    let ghost mut src: Seq<int> = Seq::empty();
    let mut x: usize = 0;
    while x < strs.len()
        invariant
            0 <= x <= strs@.len(),
            mods == index.mods@,
            v == crate::sort::node_pids(mods),
            v.no_duplicates(),
            crate::text::sv(strs@) == v,
            groups@.len() == keys@.len(),
            groups@.len() == pids@.len(),
            groups@.len() == src.len(),
            forall|k: int| 0 <= k < groups@.len() ==> 0 <= #[trigger] src[k] < x && v[src[k]] == pids@[k]@,
            forall|a: int, b: int| 0 <= a < b < src.len() ==> #[trigger] src[a] < #[trigger] src[b],
            forall|k: int| 0 <= k < groups@.len() ==> copies_of(mods, (#[trigger] groups@[k]).package_id@).len() >= 2
                && group_view(groups@[k]) == dup_group(mods, active@, groups@[k].package_id@)
                && keys@[k]@ == lowercase(groups@[k].name@) && pids@[k]@ == groups@[k].package_id@,
            forall|y: int| 0 <= y < x && #[trigger] copies_of(mods, v[y]).len() >= 2 ==> exists|k: int| 0 <= k < groups@.len()
                && src[k] == y,
        decreases strs@.len() - x,
    {
        assert(strs@[x as int]@ == v[x as int]);
        let ghost src0 = src;
        let (cs, name) = copies(&index.mods, strs[x].as_str(), active);
        let ghost cv = copies_of(mods, v[x as int]);
        assert(cs@.len() == cv.len()) by {
            assert(cs@.map_values(|c: DupCopy| copy_view(c)).len() == cv.map_values(|m: Mod| copy_of(m, active@)).len());
        }
        if cs.len() >= 2 {
            let l = crate::text::to_lower(name.as_str());
            let g = DupGroup { package_id: strs[x].clone(), name, copies: cs };
            proof {
                assert(group_view(g) == dup_group(mods, active@, v[x as int]));
            }
            groups.push(g);
            keys.push(chars_of(l.as_str()));
            pids.push(chars_of(strs[x].as_str()));
            proof {
                src = src.push(x as int);
            }
        }
        proof {
            assert forall|y: int| 0 <= y < x + 1 && #[trigger] copies_of(mods, v[y]).len() >= 2 implies exists|k: int|
                0 <= k < groups@.len() && src[k] == y by {
                if y < x {
                    let k = choose|k: int| 0 <= k < src0.len() && src0[k] == y;
                    assert(src[k] == y);
                } else {
                    assert(src[src.len() - 1] == y);
                }
            }
        }
        x += 1;
    }
    let n = groups.len();
    let idx = crate::validate::positions(n);
    proof {
        assert forall|a: int, b: int| 0 <= a < pids@.len() && 0 <= b < pids@.len() && a != b implies #[trigger] pids@[a]@
            != #[trigger] pids@[b]@ by {
            if a < b {
                assert(src[a] < src[b]);
            } else {
                assert(src[b] < src[a]);
            }
        }
    }
    let sorted = crate::graph::sort_nodes(idx, &keys, &pids);
    let ghost nm = keys@.map_values(|s: Vec<char>| s@);
    let ghost pd = pids@.map_values(|s: Vec<char>| s@);
    proof {
        sorted@.to_multiset_ensures();
        idx@.to_multiset_ensures();
        assert forall|t: int| 0 <= t < sorted@.len() implies #[trigger] sorted@[t] < n by {
            assert(sorted@.contains(sorted@[t]));
            assert(sorted@.to_multiset().count(sorted@[t]) > 0);
            assert(idx@.contains(sorted@[t]));
        }
    }
    let mut out: Vec<DupGroup> = Vec::new();
    let mut t: usize = 0;
    while t < sorted.len()
        invariant
            0 <= t <= sorted@.len(),
            n == groups@.len(),
            forall|y: int| 0 <= y < sorted@.len() ==> #[trigger] sorted@[y] < n,
            out@.len() == t,
            forall|y: int| 0 <= y < t ==> group_view(#[trigger] out@[y]) == group_view(groups@[sorted@[y] as int]),
        decreases sorted@.len() - t,
    {
        out.push(copy_group(&groups[sorted[t]]));
        t += 1;
    }
    proof {
        assert forall|k: int| 0 <= k < out@.len() implies copies_of(index.mods@, (#[trigger] out@[k]).package_id@).len() >= 2
            && group_view(out@[k]) == dup_group(index.mods@, active@, out@[k].package_id@) by {
            assert(group_view(out@[k]) == group_view(groups@[sorted@[k] as int]));
        }
        assert forall|p: Seq<char>| #[trigger] copies_of(index.mods@, p).len() >= 2 implies exists|k: int| 0 <= k < out@.len()
            && out@[k].package_id@ == p by {
            lemma_copies_valid(mods, p);
            assert(v.contains(p));
            let y = choose|y: int| 0 <= y < v.len() && v[y] == p;
            assert(copies_of(mods, v[y]).len() >= 2);
            let k = choose|k: int| 0 <= k < groups@.len() && src[k] == y;
            assert(idx@[k] == k as usize);
            assert(idx@.contains(k as usize));
            assert(idx@.to_multiset().count(k as usize) > 0);
            assert(sorted@.contains(k as usize));
            let j = choose|j: int| 0 <= j < sorted@.len() && sorted@[j] == k as usize;
            assert(group_view(out@[j]) == group_view(groups@[k]));
            assert(out@[j].package_id@ == groups@[k].package_id@);
        }
        assert forall|a: int, b: int| 0 <= a < b < out@.len() implies dup_lt(group_view(#[trigger] out@[a]), group_view(#[trigger] out@[b])) by {
            assert(crate::graph::node_lt(nm, pd, crate::graph::ints(sorted@)[a], crate::graph::ints(sorted@)[b]));
            assert(crate::graph::ints(sorted@)[a] == sorted@[a] as int);
            assert(crate::graph::ints(sorted@)[b] == sorted@[b] as int);
            assert(nm[sorted@[a] as int] == keys@[sorted@[a] as int]@);
            assert(nm[sorted@[b] as int] == keys@[sorted@[b] as int]@);
            assert(pd[sorted@[a] as int] == pids@[sorted@[a] as int]@);
            assert(pd[sorted@[b] as int] == pids@[sorted@[b] as int]@);
            assert(group_view(out@[a]) == group_view(groups@[sorted@[a] as int]));
            assert(group_view(out@[b]) == group_view(groups@[sorted@[b] as int]));
        }
    }
    out
}


/// A scan needs the game folder: the error when it is not set.
pub fn scan_precheck(game_folder: &str) -> (r: Result<(), Error>)
    ensures
        r is Err <==> game_folder@.len() == 0,
        r matches Err(e) ==> e matches Error::Other(m) && m@ == "Game folder is not set (Settings → Locations)"@,
{
    if chars_of(game_folder).len() == 0 {
        Err(Error::Other(String::from_str("Game folder is not set (Settings → Locations)")))
    } else {
        Ok(())
    }
}

/// The package ids whose metadata asks to ignore their warnings, in order.
pub open spec fn ignored_by_meta(meta: Seq<(String, ModMeta)>) -> Seq<Seq<char>>
    decreases meta.len(),
{
    if meta.len() == 0 {
        Seq::empty()
    } else {
        let r = ignored_by_meta(meta.drop_last());
        if meta.last().1.ignore {
            r.push(meta.last().0@)
        } else {
            r
        }
    }
}

/// The active list after a scan: a non-empty kept list wins, else the config's list, else none.
pub open spec fn scanned_active(mods: Seq<Mod>, config: Option<ModsConfig>, kept: Option<Vec<String>>) -> (Seq<ModId>, Seq<ModId>, Seq<Seq<char>>) {
    let from_config = match config {
        Some(c) => resolve_all(mods, c.active_view()),
        None => (Seq::empty(), Seq::empty(), Seq::empty()),
    };
    match kept {
        Some(ids) => if ids@.len() > 0 { resolve_all(mods, sv(ids@)) } else { from_config },
        None => from_config,
    }
}

/// What a finished scan leaves in the session: the active list, resolved against the new index
/// from the kept in-memory list (when non-empty) or from `ModsConfig.xml`, and the rules with the
/// per-mod ignore flags of the metadata added to the ignored ids.
pub fn session_after_scan(
    index: &ModIndex,
    config: &Option<ModsConfig>,
    kept: &Option<Vec<String>>,
    meta: &Vec<(String, ModMeta)>,
    rules: RuleSources,
) -> (r: (ActiveList, RuleSources))
    ensures
        (r.0.ids@, r.0.steam_suffix@, sv(r.0.missing@)) == scanned_active(index.mods@, *config, *kept),
        sv(r.1.ignored@) == sv(rules.ignored@) + ignored_by_meta(meta@),
        r.1.community == rules.community,
        r.1.user == rules.user,
        r.1.no_version_warning == rules.no_version_warning,
        r.1.replacements == rules.replacements,
        r.1.workshop == rules.workshop,
{
    let use_kept = match kept {
        Some(ids) => ids.len() > 0,
        None => false,
    };
    let active = if use_kept {
        resolve_active(index, kept.as_ref().unwrap().as_slice())
    } else {
        match config {
            Some(c) => resolve_active(index, c.active_ids().as_slice()),
            None => {
                let a = ActiveList { ids: Vec::new(), steam_suffix: Vec::new(), missing: Vec::new() };
                assert(sv(a.missing@) == Seq::<Seq<char>>::empty());
                a
            },
        }
    };
    let mut rules = rules;
    let ghost base = sv(rules.ignored@);
    let ghost r0 = rules;
    let mut i: usize = 0;
    while i < meta.len()
        invariant
            0 <= i <= meta@.len(),
            rules.community == r0.community,
            rules.user == r0.user,
            rules.no_version_warning == r0.no_version_warning,
            rules.replacements == r0.replacements,
            rules.workshop == r0.workshop,
            sv(rules.ignored@) == base + ignored_by_meta(meta@.take(i as int)),
        decreases meta@.len() - i,
    {
        proof {
            assert(meta@.take(i + 1).drop_last() == meta@.take(i as int));
            assert(meta@.take(i + 1).last() == meta@[i as int]);
        }
        if meta[i].1.ignore {
            let ghost o = sv(rules.ignored@);
            rules.ignored.push(meta[i].0.clone());
            proof {
                assert(sv(rules.ignored@) == o.push(meta@[i as int].0@));
                assert(base + ignored_by_meta(meta@.take(i + 1)) == (base + ignored_by_meta(meta@.take(i as int))).push(meta@[i as int].0@));
            }
        }
        i += 1;
    }
    proof {
        assert(meta@.take(meta@.len() as int) == meta@);
    }
    (active, rules)
}


/// The ids a user rule lists, cleaned: each trimmed and lowercased, empty ones, the mod's own
/// id and repeats dropped, first occurrences kept in order.
pub open spec fn cleaned_ids(v: Seq<Seq<char>>, own: Seq<char>) -> Seq<Seq<char>>
    decreases v.len(),
{
    if v.len() == 0 {
        Seq::empty()
    } else {
        let r = cleaned_ids(v.drop_last(), own);
        let x = lowercase(crate::text::trim(v.last()));
        if x.len() > 0 && x != own && !r.contains(x) {
            r.push(x)
        } else {
            r
        }
    }
}

/// Clean the ids of a user rule edited for the mod `own` (see `cleaned_ids`).
pub fn clean_rule_ids(v: &Vec<String>, own: &str) -> (r: Vec<String>)
    ensures
        sv(r@) == cleaned_ids(sv(v@), own@),
{
    let mut out: Vec<String> = Vec::new();
    let own_s = String::from_str(own);
    let mut i: usize = 0;
    proof {
        assert(sv(out@) =~= Seq::<Seq<char>>::empty());
    }
    while i < v.len()
        invariant
            0 <= i <= v@.len(),
            own_s@ == own@,
            sv(out@) == cleaned_ids(sv(v@).take(i as int), own@),
        decreases v@.len() - i,
    {
        proof {
            assert(sv(v@).take(i + 1).drop_last() == sv(v@).take(i as int));
            assert(sv(v@).take(i + 1).last() == v@[i as int]@);
        }
        let t = crate::text::trim_str(v[i].as_str());
        let x = crate::text::to_lower(t.as_str());
        if chars_of(x.as_str()).len() > 0 && !crate::text::str_eq(x.as_str(), own) && !crate::text::contains_str(&out, &x) {
            let ghost o = sv(out@);
            out.push(x);
            proof {
                assert(sv(out@) == o.push(x@));
            }
        }
        i += 1;
    }
    proof {
        assert(sv(v@).take(v@.len() as int) == sv(v@));
    }
    out
}

/// The rule stored for the mod `package_id` from what the user edited: both lists cleaned,
/// the flags as given.
pub fn user_rule_of(rule: &UserRuleDto, package_id: &str) -> (r: ExtRule)
    ensures
        sv(r.load_after@) == cleaned_ids(sv(rule.load_after@), package_id@),
        sv(r.load_before@) == cleaned_ids(sv(rule.load_before@), package_id@),
        r.load_top == rule.load_top,
        r.load_bottom == rule.load_bottom,
{
    ExtRule {
        load_after: clean_rule_ids(&rule.load_after, package_id),
        load_before: clean_rule_ids(&rule.load_before, package_id),
        load_top: rule.load_top,
        load_bottom: rule.load_bottom,
    }
}

/// Lines joined with line feeds.
pub open spec fn joined_lines(s: Seq<Seq<char>>) -> Seq<char>
    decreases s.len(),
{
    if s.len() == 0 {
        Seq::empty()
    } else if s.len() == 1 {
        s[0]
    } else {
        joined_lines(s.drop_last()) + "\n"@ + s.last()
    }
}

/// Where a mod can be found: its own URL, else its Workshop page, else a note.
pub open spec fn mod_url(m: Mod) -> Seq<char> {
    if m.url@.len() > 0 {
        m.url@
    } else {
        match m.published_file_id {
            Some(p) => "https://steamcommunity.com/sharedfiles/filedetails/?id="@ + p@,
            None => "No url specified"@,
        }
    }
}

/// One report line per active mod found in the index: `\n<name> [<package id>][<url>]`.
pub open spec fn report_lines(mods: Seq<Mod>, ids: Seq<ModId>) -> Seq<char>
    decreases ids.len(),
{
    if ids.len() == 0 {
        Seq::empty()
    } else {
        let r = report_lines(mods, ids.drop_last());
        let k = last_with_id(mods, ids.last());
        if k >= 0 {
            r + "\n"@ + mods[k].name@ + " ["@ + mods[k].package_id@ + "]["@ + mod_url(mods[k]) + "]"@
        } else {
            r
        }
    }
}

/// The human-readable report of an active list.
pub open spec fn report_text(mods: Seq<Mod>, game_version: Seq<char>, ids: Seq<ModId>) -> Seq<char> {
    "Created with RimSort-rs\nRimWorld game version this list was created for: "@ + game_version
        + "\nTotal # of mods: "@ + crate::error::decimal(ids.len()) + "\n"@ + report_lines(mods, ids)
}

/// The text an active list is exported as, in each format.
pub open spec fn export_spec(
    format: ExportFormat,
    mods: Seq<Mod>,
    game_version: Seq<char>,
    ids: Seq<ModId>,
    steam: Seq<ModId>,
    config: Option<ModsConfig>,
) -> Seq<char> {
    let saved = saved_ids(mods, ids, steam);
    match format {
        ExportFormat::PackageIds => joined_lines(saved),
        ExportFormat::Json => crate::json::json_pretty(crate::modlist_io::list_doc(game_version, saved, export_known(config))),
        ExportFormat::Xml => crate::xml::xml_header() + crate::xml::render(
            crate::modsconfig::config_tree(export_doc(config), export_version(config, game_version), saved, export_known(config)),
            0,
        ),
        ExportFormat::Report => report_text(mods, game_version, ids),
    }
}

/// The lines joined with line feeds.
fn join_lines(v: &Vec<String>) -> (r: String)
    ensures
        r@ == joined_lines(sv(v@)),
{
    let mut out = String::new();
    let mut i: usize = 0;
    while i < v.len()
        invariant
            0 <= i <= v@.len(),
            out@ == joined_lines(sv(v@).take(i as int)),
        decreases v@.len() - i,
    {
        proof {
            assert(sv(v@).take(i + 1).drop_last() == sv(v@).take(i as int));
            assert(sv(v@).take(i + 1).last() == v@[i as int]@);
            if i == 0 {
                assert(sv(v@).take(1)[0] == v@[0]@);
                assert(out@ =~= Seq::<char>::empty());
            }
        }
        if i > 0 {
            out.append("\n");
        }
        out.append(v[i].as_str());
        proof {
            if i == 0 {
                assert(out@ =~= v@[0]@);
            }
        }
        i += 1;
    }
    proof {
        assert(sv(v@).take(v@.len() as int) == sv(v@));
    }
    out
}

/// Where a mod can be found (see `mod_url`).
fn url_of(m: &Mod) -> (r: String)
    ensures
        r@ == mod_url(*m),
{
    if chars_of(m.url.as_str()).len() > 0 {
        m.url.clone()
    } else {
        match &m.published_file_id {
            Some(p) => {
                let mut s = String::from_str("https://steamcommunity.com/sharedfiles/filedetails/?id=");
                s.append(p.as_str());
                s
            },
            None => String::from_str("No url specified"),
        }
    }
}

/// The report of an active list (see `report_text`).
fn report(index: &ModIndex, ids: &Vec<ModId>) -> (r: String)
    ensures
        r@ == report_text(index.mods@, index.game_version@, ids@),
{
    let mut out = String::from_str("Created with RimSort-rs\nRimWorld game version this list was created for: ");
    out.append(index.game_version.as_str());
    out.append("\nTotal # of mods: ");
    let n = crate::error::decimal_u64(ids.len() as u64);
    out.append(n.as_str());
    out.append("\n");
    let ghost head = out@;
    let mut i: usize = 0;
    while i < ids.len()
        invariant
            0 <= i <= ids@.len(),
            out@ == head + report_lines(index.mods@, ids@.take(i as int)),
        decreases ids@.len() - i,
    {
        proof {
            assert(ids@.take(i + 1).drop_last() == ids@.take(i as int));
            assert(ids@.take(i + 1).last() == ids@[i as int]);
        }
        match index.get(ids[i]) {
            Some(m) => {
                out.append("\n");
                out.append(m.name.as_str());
                out.append(" [");
                out.append(m.package_id.as_str());
                out.append("][");
                let u = url_of(m);
                out.append(u.as_str());
                out.append("]");
            },
            None => {},
        }
        i += 1;
    }
    proof {
        assert(ids@.take(ids@.len() as int) == ids@);
        assert(report_lines(index.mods@, Seq::<ModId>::empty()) == Seq::<char>::empty());
    }
    out
}

/// The active list exported as text: one package id per line, RimSort's JSON, RimWorld's
/// `ModsConfig.xml` (the loaded config with this list, or a new one), or a readable report.
pub fn export_text(format: ExportFormat, index: &ModIndex, active: &ActiveList, config: &Option<ModsConfig>) -> (r: String)
    requires
        export_fits(*config),
    ensures
        r@ == export_spec(format, index.mods@, index.game_version@, active.ids@, active.steam_suffix@, *config),
{
    let ids = config_ids(index, active);
    match format {
        ExportFormat::PackageIds => join_lines(&ids),
        ExportFormat::Json => {
            let empty: Vec<String> = Vec::new();
            let known = match config {
                Some(c) => c.known_ids(),
                None => {
                    assert(sv(empty@) =~= Seq::<Seq<char>>::empty());
                    &empty
                },
            };
            crate::modlist_io::to_json(index.game_version.as_str(), &ids, known)
        },
        ExportFormat::Xml => export_xml(config, index.game_version.as_str(), &ids),
        ExportFormat::Report => report(index, &active.ids),
    }
}

/// Whether a mod's folder may be deleted: the base game and its expansions may not.
pub fn check_deletable(m: &Mod) -> (r: Result<(), Error>)
    ensures
        r is Err <==> m.mod_type == ModType::Ludeon,
        r matches Err(e) ==> e matches Error::Other(t) && t@ == "The base game and expansions can't be deleted here"@,
{
    if m.mod_type == ModType::Ludeon {
        Err(Error::Other(String::from_str("The base game and expansions can't be deleted here")))
    } else {
        Ok(())
    }
}

/// The folder, inside the local mods folder, that a local copy of the mod in `folder` goes to:
/// `<folder>-local`; refused while the local mods folder is not set.
pub fn local_copy_folder(local_folder: &str, folder: &str) -> (r: Result<String, Error>)
    ensures
        r is Err <==> local_folder@.len() == 0,
        r matches Err(e) ==> e matches Error::Other(t) && t@ == "Local mods folder is not set (Settings → Locations)"@,
        r matches Ok(d) ==> d@ == folder@ + "-local"@,
{
    if chars_of(local_folder).len() == 0 {
        return Err(Error::Other(String::from_str("Local mods folder is not set (Settings → Locations)")));
    }
    let mut d = String::from_str(folder);
    d.append("-local");
    Ok(d)
}
} // verus!
