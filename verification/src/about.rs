//! Reading a mod's `About/About.xml`: metadata, version-specific lists, dependencies and
//! load-order rules.

use vstd::prelude::*;

use crate::text::{chars_of, has_prefix, lowercase, sv, to_lower, trim};
use crate::mods::{deps_view, Dependency, DependencyView, Mod, ModType, Rules, RulesView};
use crate::mod_id::ModId;
use crate::rules::{ExtRule, ExtRuleView, ExternalRules, RuleSources};
use crate::xml::{parse_tree, parse_u32};
use crate::xml::{first_named_tree, li_values_tree, tree, trees, Node, Tree};
use crate::text::eq_ignore_case;

verus! {

broadcast use {vstd::string::group_string_axioms, vstd::seq_lib::group_seq_properties};

/// The first child of `t` named `name` (ASCII case-insensitive).
pub open spec fn child_t(t: Tree, name: Seq<char>) -> Option<Tree> {
    let k = first_named_tree(t.children, name);
    if k >= 0 {
        Some(t.children[k])
    } else {
        None
    }
}

/// The trimmed text of that child, when it is not empty.
pub open spec fn text_t(t: Tree, name: Seq<char>) -> Option<Seq<char>> {
    match child_t(t, name) {
        Some(c) => if trim(c.text).len() > 0 {
            Some(trim(c.text))
        } else {
            None
        },
        None => None,
    }
}

/// The `li` texts of an optional element.
pub open spec fn li_t(t: Option<Tree>, rimsort: bool) -> Seq<Seq<char>> {
    match t {
        Some(c) => li_values_tree(c.children, rimsort),
        None => Seq::empty(),
    }
}

/// An optional text, or empty.
pub open spec fn or_empty(t: Option<Seq<char>>) -> Seq<char> {
    match t {
        Some(x) => x,
        None => Seq::empty(),
    }
}

/// The first child named `name`, with its tree.
pub fn child_of<'a>(n: &'a Node, name: &str) -> (r: Option<&'a Node>)
    ensures
        match r {
            Some(c) => child_t(tree(*n), name@) == Some(tree(*c)),
            None => child_t(tree(*n), name@) is None,
        },
{
    proof {
        crate::xml::lemma_named_trees(n.children@, name@, true);
        crate::xml::lemma_first_named(n.children@, name@);
    }
    n.child(name)
}

/// The trimmed, non-empty text of the first child named `name`.
pub fn text_of(n: &Node, name: &str) -> (r: Option<String>)
    ensures
        match r {
            Some(t) => text_t(tree(*n), name@) == Some(t@),
            None => text_t(tree(*n), name@) is None,
        },
{
    proof {
        crate::xml::lemma_named_trees(n.children@, name@, true);
        crate::xml::lemma_first_named(n.children@, name@);
    }
    match n.child_text(name) {
        Some(t) => Some(String::from_str(t)),
        None => None,
    }
}

/// The `li` texts of an optional element.
pub fn li_of(n: Option<&Node>, rimsort: bool) -> (r: Vec<String>)
    ensures
        sv(r@) == li_t(match n {
            Some(c) => Some(tree(*c)),
            None => None,
        }, rimsort),
{
    match n {
        Some(c) => {
            proof {
                crate::xml::lemma_named_trees(c.children@, seq!['l', 'i'], rimsort);
            }
            if rimsort {
                c.li_texts_rimsort()
            } else {
                c.li_texts()
            }
        },
        None => Vec::new(),
    }
}

/// Length of the leading run of ASCII digits.
pub open spec fn digit_run(s: Seq<char>) -> nat
    decreases s.len(),
{
    if s.len() > 0 && '0' <= s[0] && s[0] <= '9' {
        1 + digit_run(s.drop_first())
    } else {
        0
    }
}

/// `1.6.4871 rev590` -> `("1", "6")`: the text before the first dot, and the digits that open
/// the piece after it; `None` without a dot.
pub open spec fn version_mm(v: Seq<char>) -> Option<(Seq<char>, Seq<char>)> {
    let t = trim(v);
    let d = crate::xml::find_char(t, 0, '.');
    if d < 0 {
        None
    } else {
        let rest = t.skip(d + 1);
        Some((t.take(d), rest.take(digit_run(rest) as int)))
    }
}

proof fn lemma_digit_run(s: Seq<char>, i: int)
    requires
        0 <= i <= s.len(),
        forall|k: int| 0 <= k < i ==> '0' <= #[trigger] s[k] && s[k] <= '9',
        i == s.len() || !('0' <= s[i] && s[i] <= '9'),
    ensures
        digit_run(s) == i,
    decreases i,
{
    if i > 0 {
        assert forall|k: int| 0 <= k < i - 1 implies '0' <= #[trigger] s.drop_first()[k] && s.drop_first()[k] <= '9' by {
            assert(s.drop_first()[k] == s[k + 1]);
        }
        lemma_digit_run(s.drop_first(), i - 1);
    }
}

proof fn lemma_find_first(s: Seq<char>, from: int, c: char, r: int)
    requires
        0 <= from <= r <= s.len(),
        forall|k: int| from <= k < r ==> #[trigger] s[k] != c,
        r == s.len() || s[r] == c,
    ensures
        crate::xml::find_char(s, from, c) == (if r == s.len() { -1 } else { r }),
    decreases r - from,
{
    if from < r {
        lemma_find_first(s, from + 1, c, r);
    }
}

/// `find_char` from `from` finds `r` when nothing before it matches.
pub proof fn lemma_find_first_pub(s: Seq<char>, from: int, c: char, r: int)
    requires
        0 <= from <= r <= s.len(),
        forall|k: int| from <= k < r ==> #[trigger] s[k] != c,
        r == s.len() || s[r] == c,
    ensures
        crate::xml::find_char(s, from, c) == (if r == s.len() { -1 } else { r }),
{
    lemma_find_first(s, from, c, r);
}

/// The version pieces `major_minor` reads (see `version_mm`).
pub fn version_parts(v: &str) -> (r: Option<(String, String)>)
    ensures
        match r {
            Some((a, b)) => version_mm(v@) == Some((a@, b@)),
            None => version_mm(v@) is None,
        },
{
    let t = crate::text::trim_str(v);
    let c = chars_of(t.as_str());
    let n = c.len();
    let d = crate::text::find_char_from(c.as_slice(), 0, '.');
    proof {
        lemma_find_first(c@, 0, '.', d as int);
    }
    if d == n {
        return None;
    }
    let major = crate::text::string_of_range(c.as_slice(), 0, d);
    let mut e: usize = d + 1;
    while e < n && '0' <= c[e] && c[e] <= '9'
        invariant
            d + 1 <= e <= n,
            n == c@.len(),
            forall|k: int| d + 1 <= k < e ==> '0' <= #[trigger] c@[k] && c@[k] <= '9',
        decreases n - e,
    {
        e += 1;
    }
    proof {
        let rest = c@.skip(d + 1);
        assert forall|k: int| 0 <= k < e - d - 1 implies '0' <= #[trigger] rest[k] && rest[k] <= '9' by {
            assert(rest[k] == c@[k + d + 1]);
        }
        if e < n {
            assert(rest[e - d - 1] == c@[e as int]);
        }
        lemma_digit_run(rest, e - d - 1);
        assert(rest.take(e - d - 1) == c@.subrange(d + 1, e as int));
        assert(c@.take(d as int) == c@.subrange(0, d as int));
    }
    let minor = crate::text::string_of_range(c.as_slice(), d + 1, e);
    Some((major, minor))
}

/// Position of the first tree named exactly `a` or `b` (-1 if none).
pub open spec fn first_exact(cs: Seq<Tree>, a: Seq<char>, b: Seq<char>) -> int
    decreases cs.len(),
{
    if cs.len() == 0 {
        -1
    } else if cs[0].name == a || cs[0].name == b {
        0
    } else {
        let r = first_exact(cs.drop_first(), a, b);
        if r < 0 {
            -1
        } else {
            r + 1
        }
    }
}

/// Position of the first tree whose name starts with `p` (-1 if none).
pub open spec fn first_prefixed(cs: Seq<Tree>, p: Seq<char>) -> int
    decreases cs.len(),
{
    if cs.len() == 0 {
        -1
    } else if has_prefix(cs[0].name, p) {
        0
    } else {
        let r = first_prefixed(cs.drop_first(), p);
        if r < 0 {
            -1
        } else {
            r + 1
        }
    }
}

/// The `*ByVersion` child matching the game version: named `v1.6` or `1.6`, else the first
/// whose name starts with `v1.6`.
pub open spec fn by_version(bv: Tree, game_version: Seq<char>) -> Option<Tree> {
    match version_mm(game_version) {
        None => None,
        Some((ma, mi)) => {
            let want = seq!['v'] + ma + seq!['.'] + mi;
            let bare = ma + seq!['.'] + mi;
            let i = first_exact(bv.children, want, bare);
            if i >= 0 {
                Some(bv.children[i])
            } else {
                let j = first_prefixed(bv.children, want);
                if j >= 0 {
                    Some(bv.children[j])
                } else {
                    None
                }
            }
        },
    }
}

/// Find the `*ByVersion` child matching the game version (see `by_version`).
pub fn match_by_version<'a>(bv: &'a Node, game_version: &str) -> (r: Option<&'a Node>)
    ensures
        match r {
            Some(c) => by_version(tree(*bv), game_version@) == Some(tree(*c)),
            None => by_version(tree(*bv), game_version@) is None,
        },
{
    let (ma, mi) = match version_parts(game_version) {
        Some(p) => p,
        None => return None,
    };
    let mut want = String::from_str("v");
    want.append(ma.as_str());
    let mut bare = ma.clone();
    let mut dot = String::from_str(".");
    proof {
        reveal_strlit("v");
        reveal_strlit(".");
    }
    want.append(dot.as_str());
    want.append(mi.as_str());
    bare.append(dot.as_str());
    bare.append(mi.as_str());
    assert(want@ =~= seq!['v'] + ma@ + seq!['.'] + mi@);
    assert(bare@ =~= ma@ + seq!['.'] + mi@);
    let ghost ts = trees(bv.children@);
    proof {
        crate::xml::lemma_named_trees(bv.children@, seq!['l', 'i'], true);
        assert(tree(*bv).children == ts);
        assert(ts.subrange(0, ts.len() as int) == ts);
    }
    let n = bv.children.len();
    let mut i: usize = 0;
    while i < n
        invariant
            0 <= i <= n,
            n == bv.children@.len(),
            ts == trees(bv.children@),
            tree(*bv).children == ts,
            version_mm(game_version@) == Some((ma@, mi@)),
            want@ == seq!['v'] + ma@ + seq!['.'] + mi@,
            bare@ == ma@ + seq!['.'] + mi@,
            ts.len() == n,
            forall|k: int| 0 <= k < n ==> #[trigger] ts[k] == tree(bv.children@[k]),
            first_exact(ts, want@, bare@) == (if first_exact(ts.subrange(i as int, n as int), want@, bare@) < 0 {
                -1
            } else {
                first_exact(ts.subrange(i as int, n as int), want@, bare@) + i
            }),
        decreases n - i,
    {
        proof {
            assert(ts.subrange(i as int, n as int).drop_first() == ts.subrange(i + 1, n as int));
            assert(ts.subrange(i as int, n as int)[0] == ts[i as int]);
        }
        let nm = bv.children[i].name.as_str();
        if crate::text::str_eq(nm, want.as_str()) || crate::text::str_eq(nm, bare.as_str()) {
            return Some(&bv.children[i]);
        }
        i += 1;
    }
    assert(ts.subrange(n as int, n as int) == Seq::<Tree>::empty());
    let wv = chars_of(want.as_str());
    let mut j: usize = 0;
    assert(ts.subrange(0, n as int) == ts);
    while j < n
        invariant
            0 <= j <= n,
            n == bv.children@.len(),
            wv@ == want@,
            ts == trees(bv.children@),
            tree(*bv).children == ts,
            version_mm(game_version@) == Some((ma@, mi@)),
            want@ == seq!['v'] + ma@ + seq!['.'] + mi@,
            bare@ == ma@ + seq!['.'] + mi@,
            ts.len() == n,
            forall|k: int| 0 <= k < n ==> #[trigger] ts[k] == tree(bv.children@[k]),
            first_exact(ts, want@, bare@) < 0,
            first_prefixed(ts, want@) == (if first_prefixed(ts.subrange(j as int, n as int), want@) < 0 {
                -1
            } else {
                first_prefixed(ts.subrange(j as int, n as int), want@) + j
            }),
        decreases n - j,
    {
        proof {
            assert(ts.subrange(j as int, n as int).drop_first() == ts.subrange(j + 1, n as int));
            assert(ts.subrange(j as int, n as int)[0] == ts[j as int]);
        }
        let nv = chars_of(bv.children[j].name.as_str());
        proof {
            assert(nv@.subrange(0, nv@.len() as int) == nv@);
        }
        if crate::text::starts_at(nv.as_slice(), 0, wv.as_slice()) {
            return Some(&bv.children[j]);
        }
        j += 1;
    }
    assert(ts.subrange(n as int, n as int) == Seq::<Tree>::empty());
    None
}

/// Base `<key>` list, replaced by the matching `<keyByVersion>` entry's list when
/// `prefer_versioned`.
pub open spec fn versioned_t(m: Tree, key: Seq<char>, by_key: Seq<char>, game_version: Seq<char>, prefer: bool) -> Seq<Seq<char>> {
    let base = li_t(child_t(m, key), true);
    if prefer {
        match child_t(m, by_key) {
            Some(bv) => match by_version(bv, game_version) {
                Some(v) => li_values_tree(v.children, true),
                None => base,
            },
            None => base,
        }
    } else {
        base
    }
}

/// Base `<key>` list, replaced by `<keyByVersion>` when a version matches and `prefer_versioned`.
pub fn versioned_list(m: &Node, key: &str, by_key: &str, game_version: &str, prefer: bool) -> (r: Vec<String>)
    ensures
        sv(r@) == versioned_t(tree(*m), key@, by_key@, game_version@, prefer),
{
    let base = li_of(child_of(m, key), true);
    if prefer {
        if let Some(bv) = child_of(m, by_key) {
            if let Some(v) = match_by_version(bv, game_version) {
                proof {
                    crate::xml::lemma_named_trees(v.children@, seq!['l', 'i'], true);
                }
                return v.li_texts_rimsort();
            }
        }
    }
    base
}

/// `s` lowercased, each entry.
pub open spec fn lower_each(s: Seq<Seq<char>>) -> Seq<Seq<char>> {
    s.map_values(|x: Seq<char>| lowercase(x))
}

/// Each string lowercased.
pub fn lowered(v: Vec<String>) -> (r: Vec<String>)
    ensures
        sv(r@) == lower_each(sv(v@)),
{
    let mut out: Vec<String> = Vec::new();
    let mut i: usize = 0;
    while i < v.len()
        invariant
            0 <= i <= v@.len(),
            sv(out@) == lower_each(sv(v@.take(i as int))),
        decreases v@.len() - i,
    {
        let ghost o = out@;
        let l = to_lower(v[i].as_str());
        out.push(l);
        proof {
            assert(sv(out@) == sv(o).push(l@));
            assert(sv(v@.take(i + 1)) == sv(v@.take(i as int)).push(v@[i as int]@));
            assert(sv(out@) =~= lower_each(sv(v@.take(i + 1))));
        }
        i += 1;
    }
    assert(v@.take(v@.len() as int) == v@);
    out
}

/// The dependency one `li` describes: it needs a `packageId`.
pub open spec fn dep_t(li: Tree) -> Option<DependencyView> {
    match text_t(li, "packageId"@) {
        None => None,
        Some(p) => Some(DependencyView {
            package_id: lowercase(p),
            display_name: or_empty(text_t(li, "displayName"@)),
            workshop_url: match text_t(li, "steamWorkshopUrl"@) {
                Some(u) => u,
                None => or_empty(text_t(li, "workshopUrl"@)),
            },
            alternatives: lower_each(li_t(child_t(li, "alternativePackageIds"@), false)),
        }),
    }
}

/// The dependency one `li` describes (see `dep_t`).
pub fn parse_dependency(li: &Node) -> (r: Option<Dependency>)
    ensures
        match r {
            Some(d) => dep_t(tree(*li)) == Some(d@),
            None => dep_t(tree(*li)) is None,
        },
{
    proof {
        reveal_strlit("packageId");
        reveal_strlit("displayName");
        reveal_strlit("steamWorkshopUrl");
        reveal_strlit("workshopUrl");
        reveal_strlit("alternativePackageIds");
    }
    let p = match text_of(li, "packageId") {
        Some(p) => p,
        None => return None,
    };
    let display_name = match text_of(li, "displayName") {
        Some(t) => t,
        None => String::new(),
    };
    let workshop_url = match text_of(li, "steamWorkshopUrl") {
        Some(u) => u,
        None => match text_of(li, "workshopUrl") {
            Some(u) => u,
            None => String::new(),
        },
    };
    let alternatives = lowered(li_of(child_of(li, "alternativePackageIds"), false));
    Some(Dependency { package_id: to_lower(p.as_str()), display_name, workshop_url, alternatives })
}

/// The elements of `cs` named `name` (ASCII case-insensitive), in order.
pub open spec fn named_t(cs: Seq<Tree>, name: Seq<char>) -> Seq<Tree>
    decreases cs.len(),
{
    if cs.len() == 0 {
        Seq::empty()
    } else {
        let r = named_t(cs.drop_last(), name);
        if eq_ignore_case(cs.last().name, name) {
            r.push(cs.last())
        } else {
            r
        }
    }
}

/// The dependencies the `li` elements declare, the first one for each package id.
pub open spec fn deps_t(lis: Seq<Tree>) -> Seq<DependencyView>
    decreases lis.len(),
{
    if lis.len() == 0 {
        Seq::empty()
    } else {
        let acc = deps_t(lis.drop_last());
        match dep_t(lis.last()) {
            Some(d) => if exists|k: int| 0 <= k < acc.len() && #[trigger] acc[k].package_id == d.package_id {
                acc
            } else {
                acc.push(d)
            },
            None => acc,
        }
    }
}

/// Where the dependencies are read: `modDependencies`, or the matching
/// `modDependenciesByVersion` entry when `prefer`.
pub open spec fn deps_src(m: Tree, game_version: Seq<char>, prefer: bool) -> Option<Tree> {
    let base = child_t(m, "modDependencies"@);
    if prefer {
        match child_t(m, "modDependenciesByVersion"@) {
            Some(bv) => match by_version(bv, game_version) {
                Some(v) => Some(v),
                None => base,
            },
            None => base,
        }
    } else {
        base
    }
}

/// The load-order rules of a `ModMetadata` element.
pub open spec fn rules_t(m: Tree, game_version: Seq<char>, prefer: bool) -> RulesView {
    RulesView {
        load_before: lower_each(
            versioned_t(m, "loadBefore"@, "loadBeforeByVersion"@, game_version, prefer) + li_t(child_t(m, "forceLoadBefore"@), true),
        ),
        load_after: lower_each(
            versioned_t(m, "loadAfter"@, "loadAfterByVersion"@, game_version, prefer) + li_t(child_t(m, "forceLoadAfter"@), true),
        ),
        incompatible_with: lower_each(versioned_t(m, "incompatibleWith"@, "incompatibleWithByVersion"@, game_version, prefer)),
        dependencies: match deps_src(m, game_version, prefer) {
            Some(d) => deps_t(named_t(d.children, seq!['l', 'i'])),
            None => Seq::empty(),
        },
    }
}

proof fn lemma_named_t(cs: Seq<Node>, name: Seq<char>)
    ensures
        trees(crate::xml::named(cs, name)) == named_t(trees(cs), name),
    decreases cs.len(),
{
    if cs.len() > 0 {
        lemma_named_t(cs.drop_last(), name);
        assert(trees(cs).drop_last() == trees(cs.drop_last()));
        assert(trees(cs).last() == tree(cs.last()));
        let r = crate::xml::named(cs.drop_last(), name);
        if eq_ignore_case(cs.last().name@, name) {
            assert(r.push(cs.last()).drop_last() == r);
        }
    }
}

/// A list with an extra list after it.
fn joined(a: Vec<String>, b: Vec<String>) -> (r: Vec<String>)
    ensures
        sv(r@) == sv(a@) + sv(b@),
{
    let ghost a0 = a@;
    let ghost b0 = b@;
    let mut a = a;
    let mut b = b;
    a.append(&mut b);
    proof {
        assert(a@ == a0 + b0);
        assert(sv(a@) =~= sv(a0) + sv(b0));
    }
    a
}

/// The dependencies the `li` children of `d` declare, the first one for each package id.
fn deps_from(d: &Node) -> (r: Vec<Dependency>)
    ensures
        deps_view(r@) == deps_t(named_t(tree(*d).children, seq!['l', 'i'])),
{
    let lis = d.children_named("li");
    proof {
        reveal_strlit("li");
        assert("li"@ =~= seq!['l', 'i']);
        lemma_named_t(d.children@, seq!['l', 'i']);
        crate::xml::lemma_named_trees(d.children@, seq!['l', 'i'], true);
    }
    let ghost lt = trees(crate::xml::named(d.children@, seq!['l', 'i']));
    proof {
        crate::xml::lemma_named_trees(crate::xml::named(d.children@, seq!['l', 'i']), seq!['l', 'i'], true);
    }
    let mut out: Vec<Dependency> = Vec::new();
    let mut i: usize = 0;
    while i < lis.len()
        invariant
            0 <= i <= lis@.len(),
            lis@.len() == lt.len(),
            forall|k: int| 0 <= k < lis@.len() ==> #[trigger] lt[k] == tree(*lis@[k]),
            lt == named_t(tree(*d).children, seq!['l', 'i']),
            deps_view(out@) == deps_t(lt.take(i as int)),
        decreases lis@.len() - i,
    {
        proof {
            assert(lt.take(i + 1).drop_last() == lt.take(i as int));
            assert(lt.take(i + 1).last() == lt[i as int]);
        }
        if let Some(dep) = parse_dependency(lis[i]) {
            let mut seen = false;
            let mut k: usize = 0;
            while k < out.len()
                invariant
                    0 <= k <= out@.len(),
                    seen == exists|x: int| 0 <= x < k && #[trigger] out@[x].package_id@ == dep.package_id@,
                decreases out@.len() - k,
            {
                if crate::text::str_eq(out[k].package_id.as_str(), dep.package_id.as_str()) {
                    seen = true;
                }
                k += 1;
            }
            proof {
                let acc = deps_t(lt.take(i as int));
                assert(acc == deps_view(out@));
                assert((exists|x: int| 0 <= x < acc.len() && #[trigger] acc[x].package_id == dep@.package_id) == seen) by {
                    if seen {
                        let x = choose|x: int| 0 <= x < k && #[trigger] out@[x].package_id@ == dep.package_id@;
                        assert(acc[x].package_id == dep@.package_id);
                    }
                    if exists|x: int| 0 <= x < acc.len() && #[trigger] acc[x].package_id == dep@.package_id {
                        let x = choose|x: int| 0 <= x < acc.len() && #[trigger] acc[x].package_id == dep@.package_id;
                        assert(out@[x].package_id@ == dep.package_id@);
                    }
                }
            }
            if !seen {
                let ghost o = out@;
                out.push(dep);
                proof {
                    assert(deps_view(out@) =~= deps_view(o).push(out@[o.len() as int]@));
                }
            }
        }
        i += 1;
    }
    proof {
        assert(lt.take(lt.len() as int) == lt);
    }
    out
}

/// The load-order rules of a `ModMetadata` element (see `rules_t`).
pub fn parse_rules(m: &Node, game_version: &str, prefer: bool) -> (r: Rules)
    ensures
        r@ == rules_t(tree(*m), game_version@, prefer),
{
    proof {
        reveal_strlit("modDependencies");
        reveal_strlit("modDependenciesByVersion");
        reveal_strlit("loadBefore");
        reveal_strlit("loadBeforeByVersion");
        reveal_strlit("forceLoadBefore");
        reveal_strlit("loadAfter");
        reveal_strlit("loadAfterByVersion");
        reveal_strlit("forceLoadAfter");
        reveal_strlit("incompatibleWith");
        reveal_strlit("incompatibleWithByVersion");
    }
    let mut deps_node = child_of(m, "modDependencies");
    if prefer {
        if let Some(bv) = child_of(m, "modDependenciesByVersion") {
            if let Some(v) = match_by_version(bv, game_version) {
                deps_node = Some(v);
            }
        }
    }
    let dependencies = match deps_node {
        Some(d) => deps_from(d),
        None => Vec::new(),
    };
    let before = lowered(joined(
        versioned_list(m, "loadBefore", "loadBeforeByVersion", game_version, prefer),
        li_of(child_of(m, "forceLoadBefore"), true),
    ));
    let after = lowered(joined(
        versioned_list(m, "loadAfter", "loadAfterByVersion", game_version, prefer),
        li_of(child_of(m, "forceLoadAfter"), true),
    ));
    let incompatible = lowered(versioned_list(m, "incompatibleWith", "incompatibleWithByVersion", game_version, prefer));
    assert(sv(before@) == rules_t(tree(*m), game_version@, prefer).load_before);
    assert(sv(after@) == rules_t(tree(*m), game_version@, prefer).load_after);
    assert(sv(incompatible@) == rules_t(tree(*m), game_version@, prefer).incompatible_with);
    assert(deps_view(dependencies@) == rules_t(tree(*m), game_version@, prefer).dependencies);
    Rules { load_before: before, load_after: after, incompatible_with: incompatible, dependencies }
}

/// What reading `About/About.xml` gave.
pub enum AboutFile {
    /// No `About` folder with an `About.xml` file.
    Missing,
    /// The file could not be read; the error's text.
    Unreadable(String),
    /// The file's text.
    Text(String),
}

/// What is known of a mod folder before its About.xml is read.
pub struct ModFolder {
    pub path: String,
    /// The folder's name.
    pub folder: String,
    pub mod_type: ModType,
    pub published_file_id: Option<String>,
    /// Unix seconds of the folder mtime, -1 if unknown.
    pub mtime: i64,
}

/// What a scan reads About.xml files with.
pub struct ScanConfig {
    pub game_folder: String,
    pub local_folder: String,
    pub workshop_folder: String,
    /// Contents of `Version.txt`, e.g. `1.6.4871 rev590`.
    pub game_version: String,
    pub prefer_versioned: bool,
    pub rules: RuleSources,
}

/// The base game and official DLC: (app id, name, description) by package id.
pub open spec fn dlc_of(pid: Seq<char>) -> Option<(u32, Seq<char>, Seq<char>)> {
    if pid == "ludeon.rimworld"@ {
        Some((294100u32, "RimWorld"@, "Base game"@))
    } else if pid == "ludeon.rimworld.royalty"@ {
        Some((1149640u32, "RimWorld - Royalty"@, "DLC #1"@))
    } else if pid == "ludeon.rimworld.ideology"@ {
        Some((1392840u32, "RimWorld - Ideology"@, "DLC #2"@))
    } else if pid == "ludeon.rimworld.biotech"@ {
        Some((1826140u32, "RimWorld - Biotech"@, "DLC #3"@))
    } else if pid == "ludeon.rimworld.anomaly"@ {
        Some((2380740u32, "RimWorld - Anomaly"@, "DLC #4"@))
    } else if pid == "ludeon.rimworld.odyssey"@ {
        Some((3022790u32, "RimWorld - Odyssey"@, "DLC #5"@))
    } else {
        None
    }
}

/// The base game or DLC with package id `pid` (see `dlc_of`).
pub fn dlc(pid: &str) -> (r: Option<(u32, &'static str, &'static str)>)
    ensures
        match r {
            Some((a, n, d)) => dlc_of(pid@) == Some((a, n@, d@)),
            None => dlc_of(pid@) is None,
        },
{
    if crate::text::str_eq(pid, "ludeon.rimworld") {
        Some((294100, "RimWorld", "Base game"))
    } else if crate::text::str_eq(pid, "ludeon.rimworld.royalty") {
        Some((1149640, "RimWorld - Royalty", "DLC #1"))
    } else if crate::text::str_eq(pid, "ludeon.rimworld.ideology") {
        Some((1392840, "RimWorld - Ideology", "DLC #2"))
    } else if crate::text::str_eq(pid, "ludeon.rimworld.biotech") {
        Some((1826140, "RimWorld - Biotech", "DLC #3"))
    } else if crate::text::str_eq(pid, "ludeon.rimworld.anomaly") {
        Some((2380740, "RimWorld - Anomaly", "DLC #4"))
    } else if crate::text::str_eq(pid, "ludeon.rimworld.odyssey") {
        Some((3022790, "RimWorld - Odyssey", "DLC #5"))
    } else {
        None
    }
}

/// A rule that says nothing.
pub open spec fn blank_rule() -> ExtRuleView {
    ExtRuleView { load_after: Seq::empty(), load_before: Seq::empty(), load_top: false, load_bottom: false }
}

/// The rule a rules file has for `pid`, or a blank one.
pub open spec fn rule_for(x: Option<ExternalRules>, pid: Seq<char>) -> ExtRuleView {
    match x {
        Some(r) => if r@.contains_key(pid) {
            r@[pid]
        } else {
            blank_rule()
        },
        None => blank_rule(),
    }
}

/// The rule a rules file has for `pid`, or a blank one.
fn rule_from(x: &Option<ExternalRules>, pid: &str) -> (r: ExtRule)
    requires
        x matches Some(e) ==> e.wf(),
    ensures
        r@ == rule_for(*x, pid@),
{
    match x {
        Some(e) => match e.get(pid) {
            Some(rule) => rule.copy(),
            None => ExtRule::empty(),
        },
        None => ExtRule::empty(),
    }
}

/// An optional string's view.
pub open spec fn opt_str(o: Option<String>) -> Option<Seq<char>> {
    match o {
        Some(t) => Some(t@),
        None => None,
    }
}

/// The package id About.xml gives, lowercased, or `missing.packageid`.
pub open spec fn pid_t(meta: Tree) -> Seq<char> {
    match text_t(meta, "packageId"@) {
        Some(p) => lowercase(p),
        None => "missing.packageid"@,
    }
}

/// The description: `description`, else the DLC's, else empty; replaced by the matching
/// `descriptionsByVersion` entry's non-empty trimmed text when `prefer`.
pub open spec fn description_t(meta: Tree, game_version: Seq<char>, prefer: bool) -> Seq<char> {
    let base = match text_t(meta, "description"@) {
        Some(d) => d,
        None => match dlc_of(pid_t(meta)) {
            Some(d) => d.2,
            None => Seq::empty(),
        },
    };
    if prefer {
        match child_t(meta, "descriptionsByVersion"@) {
            Some(bv) => match by_version(bv, game_version) {
                Some(v) => if trim(v.text).len() > 0 {
                    trim(v.text)
                } else {
                    base
                },
                None => base,
            },
            None => base,
        }
    } else {
        base
    }
}

/// The mod a folder holds, as far as what `About.xml` says goes (see `parse_mod`).
pub open spec fn about_fields(r: Mod, meta: Tree, cfg: ScanConfig) -> bool {
    let pid = pid_t(meta);
    let dlc = dlc_of(pid);
    &&& r.valid
    &&& opt_str(r.invalid_reason) == (if text_t(meta, "packageId"@) is Some {
        None
    } else {
        Some("Missing <packageId>."@)
    })
    &&& r.package_id@ == pid
    &&& r.steam_app_id == match text_t(meta, "steamAppId"@) {
        Some(t) => match parse_u32(t, 10) {
            Some(v) => Some(v),
            None => match dlc {
                Some(d) => Some(d.0),
                None => None,
            },
        },
        None => match dlc {
            Some(d) => Some(d.0),
            None => None,
        },
    }
    &&& r.name@ == match text_t(meta, "name"@) {
        Some(n) => n,
        None => match dlc {
            Some(d) => d.1,
            None => pid,
        },
    }
    &&& r.description@ == description_t(meta, cfg.game_version@, cfg.prefer_versioned)
    &&& sv(r.authors@) == (match text_t(meta, "author"@) {
        Some(a) => seq![a],
        None => Seq::empty(),
    }) + li_t(child_t(meta, "authors"@), false)
    &&& sv(r.supported_versions@) == li_t(child_t(meta, "supportedVersions"@), false)
    &&& r.url@ == or_empty(text_t(meta, "url"@))
    &&& r.mod_version@ == or_empty(text_t(meta, "modVersion"@))
    &&& r.rules@ == rules_t(meta, cfg.game_version@, cfg.prefer_versioned)
    &&& r.community@ == rule_for(cfg.rules.community, pid)
    &&& r.user@ == rule_for(cfg.rules.user, pid)
}

/// A mod that could not be read: named after its folder, with `missing.packageid` and
/// nothing else.
pub open spec fn leftover(r: Mod, reason: Seq<char>) -> bool {
    &&& !r.valid
    &&& opt_str(r.invalid_reason) == Some(reason)
    &&& r.package_id@ == "missing.packageid"@
    &&& r.name@ == r.folder@
    &&& r.authors@.len() == 0
    &&& r.description@.len() == 0
    &&& r.url@.len() == 0
    &&& r.mod_version@.len() == 0
    &&& r.supported_versions@.len() == 0
    &&& r.steam_app_id is None
    &&& r.rules@.load_before.len() == 0
    &&& r.rules@.load_after.len() == 0
    &&& r.rules@.incompatible_with.len() == 0
    &&& r.rules@.dependencies.len() == 0
    &&& r.community@ == blank_rule()
    &&& r.user@ == blank_rule()
}

/// The steam app id About.xml gives, else the DLC's.
fn app_id(meta: &Node, d: Option<(u32, &'static str, &'static str)>) -> (r: Option<u32>)
    ensures
        r == match text_t(tree(*meta), "steamAppId"@) {
            Some(t) => match parse_u32(t, 10) {
                Some(v) => Some(v),
                None => match d {
                    Some(x) => Some(x.0),
                    None => None,
                },
            },
            None => match d {
                Some(x) => Some(x.0),
                None => None,
            },
        },
{
    let parsed = match text_of(meta, "steamAppId") {
        Some(t) => {
            let v = chars_of(t.as_str());
            proof {
                assert(v@.subrange(0, v@.len() as int) == v@);
            }
            crate::xml::parse_u32_at(v.as_slice(), 0, v.len(), 10)
        },
        None => None,
    };
    match parsed {
        Some(v) => Some(v),
        None => match d {
            Some(x) => Some(x.0),
            None => None,
        },
    }
}

/// Parse one mod folder from what its About.xml gave. Never fails: a folder without a
/// readable About.xml with a `<ModMetadata>` element comes back `valid == false` with a
/// reason; one whose metadata has no `<packageId>` is valid but carries a reason too.
pub fn parse_mod(f: ModFolder, about: AboutFile, cfg: &ScanConfig) -> (r: Mod)
    requires
        cfg.rules.community matches Some(c) ==> c.wf(),
        cfg.rules.user matches Some(c) ==> c.wf(),
    ensures
        r.id.0 == crate::mod_id::uuid_v5_url(vstd::utf8::encode_utf8(f.path@)),
        r.path@ == f.path@,
        r.folder@ == f.folder@,
        r.mod_type == f.mod_type,
        opt_str(r.published_file_id) == opt_str(f.published_file_id),
        r.mtime == f.mtime,
        match about {
            AboutFile::Missing => leftover(r, "No About/About.xml — likely a leftover folder."@),
            AboutFile::Unreadable(e) => leftover(r, "Cannot read About.xml: "@ + e@),
            AboutFile::Text(t) => match child_t(parse_tree(t@), "ModMetadata"@) {
                None => leftover(r, "About.xml has no <ModMetadata> element."@),
                Some(meta) => about_fields(r, meta, *cfg),
            },
        },
{
    let id = ModId::from_path(f.path.as_str());
    let name = f.folder.clone();
    let mut m = Mod {
        id,
        path: f.path,
        mod_type: f.mod_type,
        published_file_id: f.published_file_id,
        name,
        folder: f.folder,
        valid: false,
        invalid_reason: None,
        package_id: String::from_str("missing.packageid"),
        authors: Vec::new(),
        description: String::new(),
        url: String::new(),
        mod_version: String::new(),
        supported_versions: Vec::new(),
        steam_app_id: None,
        rules: Rules::empty(),
        community: ExtRule::empty(),
        user: ExtRule::empty(),
        mtime: f.mtime,
    };
    assert(m.rules@.dependencies =~= Seq::<DependencyView>::empty());
    let text = match about {
        AboutFile::Missing => {
            m.invalid_reason = Some(String::from_str("No About/About.xml — likely a leftover folder."));
            return m;
        },
        AboutFile::Unreadable(e) => {
            let mut t = String::from_str("Cannot read About.xml: ");
            t.append(e.as_str());
            m.invalid_reason = Some(t);
            return m;
        },
        AboutFile::Text(t) => t,
    };
    let root = crate::xml::parse(text.as_str());
    proof {
        reveal_strlit("ModMetadata");
        reveal_strlit("packageId");
    }
    let meta = match child_of(&root, "ModMetadata") {
        Some(x) => x,
        None => {
            m.invalid_reason = Some(String::from_str("About.xml has no <ModMetadata> element."));
            return m;
        },
    };
    let ghost mt = tree(*meta);
    m.valid = true;
    match text_of(meta, "packageId") {
        Some(p) => {
            m.package_id = to_lower(p.as_str());
        },
        None => {
            m.invalid_reason = Some(String::from_str("Missing <packageId>."));
        },
    }
    assert(m.package_id@ == pid_t(mt));
    let d = dlc(m.package_id.as_str());
    m.steam_app_id = app_id(meta, d);
    m.name = match text_of(meta, "name") {
        Some(n) => n,
        None => match d {
            Some(x) => String::from_str(x.1),
            None => m.package_id.clone(),
        },
    };
    let mut description = match text_of(meta, "description") {
        Some(t) => t,
        None => match d {
            Some(x) => String::from_str(x.2),
            None => String::new(),
        },
    };
    if cfg.prefer_versioned {
        if let Some(bv) = child_of(meta, "descriptionsByVersion") {
            if let Some(v) = match_by_version(bv, cfg.game_version.as_str()) {
                let t = v.trimmed();
                if !t.is_empty() {
                    description = String::from_str(t);
                }
            }
        }
    }
    m.description = description;
    let mut authors: Vec<String> = Vec::new();
    if let Some(a) = text_of(meta, "author") {
        authors.push(a);
    }
    let ghost a0 = sv(authors@);
    let listed = li_of(child_of(meta, "authors"), false);
    let authors = joined(authors, listed);
    m.authors = authors;
    m.supported_versions = li_of(child_of(meta, "supportedVersions"), false);
    m.url = match text_of(meta, "url") {
        Some(t) => t,
        None => String::new(),
    };
    m.mod_version = match text_of(meta, "modVersion") {
        Some(t) => t,
        None => String::new(),
    };
    m.rules = parse_rules(meta, cfg.game_version.as_str(), cfg.prefer_versioned);
    m.community = rule_from(&cfg.rules.community, m.package_id.as_str());
    m.user = rule_from(&cfg.rules.user, m.package_id.as_str());
    proof {
        reveal_strlit("author");
        reveal_strlit("authors");
        assert(a0 == (match text_t(mt, "author"@) {
            Some(a) => seq![a],
            None => Seq::<Seq<char>>::empty(),
        }));
    }
    m
}

/// Which folder a candidate mod directory came from.
#[derive(Debug, Clone, Copy, PartialEq, Eq, Structural)]
pub enum Source {
    Data,
    Local,
    Workshop,
}

/// A Workshop id: ASCII digits reading as a positive `u64`.
pub open spec fn is_pfid(s: Seq<char>) -> bool {
    &&& s.len() > 0
    &&& crate::xml::all_digits(s, 10)
    &&& 0 < crate::xml::digits_value(s, 10) <= u64::MAX
}

/// Whether `s` is a Workshop id (see `is_pfid`).
pub fn pfid_ok(s: &str) -> (r: bool)
    ensures
        r == is_pfid(s@),
{
    let v = chars_of(s);
    let n = v.len();
    if n == 0 {
        return false;
    }
    let mut val: u64 = 0;
    let mut i: usize = 0;
    while i < n
        invariant
            0 <= i <= n,
            n == v@.len(),
            v@ == s@,
            n > 0,
            val as int == crate::xml::digits_value(v@.take(i as int), 10),
            crate::xml::all_digits(v@.take(i as int), 10),
        decreases n - i,
    {
        proof {
            assert(v@.take(i + 1).drop_last() == v@.take(i as int));
            assert(v@.take(i + 1).last() == v@[i as int]);
        }
        let dv = crate::xml::digit(v[i], 10);
        if dv == 10 {
            proof {
                assert(!crate::xml::all_digits(v@, 10)) by {
                    assert(v@[i as int] == v@[i as int]);
                }
            }
            return false;
        }
        proof {
            assert(crate::xml::all_digits(v@.take(i + 1), 10)) by {
                assert forall|j: int| 0 <= j < v@.take(i + 1).len() implies crate::xml::digit_val(#[trigger] v@.take(i + 1)[j], 10) >= 0 by {
                    if j < i {
                        assert(v@.take(i + 1)[j] == v@.take(i as int)[j]);
                    }
                }
            }
        }
        match val.checked_mul(10) {
            Some(x) => match x.checked_add(dv as u64) {
                Some(y) => {
                    val = y;
                },
                None => {
                    proof {
                        assert(crate::xml::digits_value(v@.take(i + 1), 10) == val * 10 + dv);
                        if crate::xml::all_digits(v@, 10) {
                            crate::xml::lemma_digits_grow(v@, 10, i + 1);
                        }
                    }
                    return false;
                },
            },
            None => {
                proof {
                    if crate::xml::all_digits(v@, 10) {
                        crate::xml::lemma_digits_grow(v@, 10, i + 1);
                        assert(crate::xml::digits_value(v@.take(i + 1), 10) >= val * 10);
                    }
                }
                return false;
            },
        }
        i += 1;
    }
    proof {
        assert(v@.take(n as int) == v@);
    }
    val > 0
}

/// The Workshop id of a mod: from `About/PublishedFileId.txt` when it could be read (its
/// trimmed text), else from a folder named by one.
pub fn published_id(file_text: Option<&str>, folder: &str) -> (r: Option<String>)
    ensures
        opt_str(r) == match file_text {
            Some(t) => if is_pfid(trim(t@)) {
                Some(trim(t@))
            } else {
                None
            },
            None => if is_pfid(folder@) {
                Some(folder@)
            } else {
                None
            },
        },
{
    match file_text {
        Some(t) => {
            let s = crate::text::trim_str(t);
            if pfid_ok(s.as_str()) {
                Some(s)
            } else {
                None
            }
        },
        None => {
            if pfid_ok(folder) {
                Some(String::from_str(folder))
            } else {
                None
            }
        },
    }
}

/// The kind of a mod folder: `Data` is Ludeon's, the workshop folder Steam's; a local folder
/// is SteamCMD's when it carries a `PublishedFileId.txt` naming it (or any such file without
/// a `.git`), git's when it has `.git`, else local.
pub fn mod_type(source: Source, pfid_file_exists: bool, pfid: Option<&str>, folder: &str, has_git: bool) -> (r: ModType)
    ensures
        r == match source {
            Source::Data => ModType::Ludeon,
            Source::Workshop => ModType::SteamWorkshop,
            Source::Local => if pfid_file_exists && (pfid matches Some(p) && p@ == folder@) {
                ModType::SteamCmd
            } else if has_git {
                ModType::Git
            } else if pfid_file_exists {
                ModType::SteamCmd
            } else {
                ModType::Local
            },
        },
{
    match source {
        Source::Data => ModType::Ludeon,
        Source::Workshop => ModType::SteamWorkshop,
        Source::Local => {
            let same = match pfid {
                Some(p) => crate::text::str_eq(p, folder),
                None => false,
            };
            if pfid_file_exists && same {
                ModType::SteamCmd
            } else if has_git {
                ModType::Git
            } else if pfid_file_exists {
                ModType::SteamCmd
            } else {
                ModType::Local
            }
        },
    }
}


/// Every id is what lowercasing some text gives.
pub open spec fn lowercased(s: Seq<Seq<char>>) -> bool {
    exists|ys: Seq<Seq<char>>| #[trigger] lower_each(ys) == s
}

proof fn lemma_lower_each_lowercased(s: Seq<Seq<char>>)
    ensures
        lowercased(lower_each(s)),
{
    assert(lower_each(s) == lower_each(s));
}

proof fn lemma_deps_t_lowercased(lis: Seq<Tree>)
    ensures
        forall|k: int| 0 <= k < deps_t(lis).len() ==> {
            let d = #[trigger] deps_t(lis)[k];
            &&& exists|y: Seq<char>| #[trigger] lowercase(y) == d.package_id
            &&& lowercased(d.alternatives)
        },
    decreases lis.len(),
{
    if lis.len() > 0 {
        lemma_deps_t_lowercased(lis.drop_last());
        let acc = deps_t(lis.drop_last());
        let r = deps_t(lis);
        assert forall|k: int| 0 <= k < r.len() implies {
            let d = #[trigger] r[k];
            &&& exists|y: Seq<char>| #[trigger] lowercase(y) == d.package_id
            &&& lowercased(d.alternatives)
        } by {
            if k < acc.len() {
                assert(r[k] == acc[k]);
            } else {
                let li = lis.last();
                let p = text_t(li, "packageId"@).unwrap();
                assert(r[k] == dep_t(li).unwrap());
                assert(lowercase(p) == r[k].package_id);
                lemma_lower_each_lowercased(li_t(child_t(li, "alternativePackageIds"@), false));
            }
        }
    }
}

/// Every id in the rules read from About.xml (loadBefore, loadAfter, incompatibleWith, and each
/// dependency's package id and alternatives) is lowercased: each is what lowercasing the text
/// About.xml gives yields, so it compares equal to the lowercased package ids of mods.
pub proof fn law_rule_ids_lowercased(m: Tree, game_version: Seq<char>, prefer: bool)
    ensures
        ({
            let r = rules_t(m, game_version, prefer);
            &&& lowercased(r.load_before)
            &&& lowercased(r.load_after)
            &&& lowercased(r.incompatible_with)
            &&& forall|k: int| 0 <= k < r.dependencies.len() ==> {
                let d = #[trigger] r.dependencies[k];
                &&& exists|y: Seq<char>| #[trigger] lowercase(y) == d.package_id
                &&& lowercased(d.alternatives)
            }
        }),
{
    lemma_lower_each_lowercased(
        versioned_t(m, "loadBefore"@, "loadBeforeByVersion"@, game_version, prefer) + li_t(child_t(m, "forceLoadBefore"@), true),
    );
    lemma_lower_each_lowercased(
        versioned_t(m, "loadAfter"@, "loadAfterByVersion"@, game_version, prefer) + li_t(child_t(m, "forceLoadAfter"@), true),
    );
    lemma_lower_each_lowercased(versioned_t(m, "incompatibleWith"@, "incompatibleWithByVersion"@, game_version, prefer));
    match deps_src(m, game_version, prefer) {
        Some(d) => lemma_deps_t_lowercased(named_t(d.children, seq!['l', 'i'])),
        None => {},
    }
}

/// The rules of a mod read from its About.xml hold lowercased ids only (see
/// `law_rule_ids_lowercased`).
pub proof fn law_parsed_mod_rules_lowercased(r: Mod, meta: Tree, cfg: ScanConfig)
    requires
        about_fields(r, meta, cfg),
    ensures
        lowercased(r.rules@.load_before),
        lowercased(r.rules@.load_after),
        lowercased(r.rules@.incompatible_with),
        forall|k: int| 0 <= k < r.rules@.dependencies.len() ==> {
            let d = #[trigger] r.rules@.dependencies[k];
            &&& exists|y: Seq<char>| #[trigger] lowercase(y) == d.package_id
            &&& lowercased(d.alternatives)
        },
{
    law_rule_ids_lowercased(meta, cfg.game_version@, cfg.prefer_versioned);
}

} // verus!
