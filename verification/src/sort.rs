//! Load-order sort: tiers (0 = core and Harmony, 1 = frameworks, 2 = everything else,
//! 3 = load-last), each tier sorted into Kahn levels, each level ordered by lowercase name and
//! then package id.
//!
//! The graph has one node per distinct package id of a valid mod, numbered in index order.
//! An edge `a -> b` means that `a` loads after `b`.

use vstd::prelude::*;

use crate::mod_id::ModId;
use crate::mods::{Dependency, Mod, ModIndex, last_with_id, load_after_of, load_before_of, pkg_mods};
use crate::graph::{
    cycle_listing, edge, induced, ints, is_path, kahn_done, kahn_levels, kahn_stalls, lemma_closed_path, lists_ready,
    mat, nested_ints, pid_list, reaches, rem_graph, sorted_nodes, square, transpose,
};
use crate::text::{chars_eq, chars_lt, chars_of, lex_lt, lowercase, sv, to_lower};

verus! {

broadcast use {
    vstd::string::group_string_axioms,
    vstd::seq_lib::group_seq_properties,
    vstd::seq_lib::group_to_multiset_ensures,
};

/// The character sequences of a list of character vectors.
pub open spec fn views(v: Seq<Vec<char>>) -> Seq<Seq<char>> {
    v.map_values(|s: Vec<char>| s@)
}

/// The distinct package ids of the valid mods, in index order of their first mod.
pub open spec fn node_pids(mods: Seq<Mod>) -> Seq<Seq<char>>
    decreases mods.len(),
{
    if mods.len() == 0 {
        Seq::empty()
    } else {
        let r = node_pids(mods.drop_last());
        let m = mods.last();
        if m.valid && !r.contains(m.package_id@) {
            r.push(m.package_id@)
        } else {
            r
        }
    }
}

/// Some valid mod has package id `p`.
pub open spec fn has_valid(mods: Seq<Mod>, p: Seq<char>) -> bool {
    exists|i: int| 0 <= i < mods.len() && #[trigger] mods[i].valid && mods[i].package_id@ == p
}

pub proof fn lemma_node_pids(mods: Seq<Mod>)
    ensures
        node_pids(mods).no_duplicates(),
        forall|p: Seq<char>| #[trigger] node_pids(mods).contains(p) <==> has_valid(mods, p),
    decreases mods.len(),
{
    if mods.len() > 0 {
        let d = mods.drop_last();
        lemma_node_pids(d);
        let r = node_pids(d);
        assert forall|p: Seq<char>| #[trigger] node_pids(mods).contains(p) <==> has_valid(mods, p) by {
            if has_valid(d, p) {
                let i = choose|i: int| 0 <= i < d.len() && #[trigger] d[i].valid && d[i].package_id@ == p;
                assert(mods[i] == d[i]);
            }
            if has_valid(mods, p) {
                let i = choose|i: int| 0 <= i < mods.len() && #[trigger] mods[i].valid && mods[i].package_id@ == p;
                if i < mods.len() - 1 {
                    assert(d[i] == mods[i]);
                    assert(has_valid(d, p));
                }
            }
            if node_pids(mods).contains(p) && !r.contains(p) {
                assert(mods.last().package_id@ == p);
                assert(mods[mods.len() - 1].valid);
            }
        }
    }
}

/// Index of the node with package id `p` (-1 if none).
pub open spec fn node_of(nodes: Seq<Seq<char>>, p: Seq<char>) -> int {
    if nodes.contains(p) {
        nodes.index_of(p)
    } else {
        -1
    }
}

proof fn lemma_node_of(nodes: Seq<Seq<char>>, p: Seq<char>, i: int)
    requires
        nodes.no_duplicates(),
        0 <= i < nodes.len(),
        nodes[i] == p,
    ensures
        node_of(nodes, p) == i,
{
    assert(nodes.contains(p));
}

/// Position of the node whose package id is `p`, or `nodes.len()` when there is none.
fn find_node(nodes: &Vec<Vec<char>>, p: &[char]) -> (r: usize)
    ensures
        r <= nodes@.len(),
        r < nodes@.len() ==> nodes@[r as int]@ == p@,
        r == nodes@.len() ==> !views(nodes@).contains(p@),
{
    let mut i: usize = 0;
    while i < nodes.len()
        invariant
            0 <= i <= nodes@.len(),
            forall|k: int| 0 <= k < i ==> nodes@[k]@ != p@,
        decreases nodes@.len() - i,
    {
        if chars_eq(nodes[i].as_slice(), p) {
            return i;
        }
        i += 1;
    }
    proof {
        if views(nodes@).contains(p@) {
            let k = choose|k: int| 0 <= k < views(nodes@).len() && views(nodes@)[k] == p@;
            assert(nodes@[k]@ == p@);
        }
    }
    i
}

/// The package ids of the valid mods, without repetition, as characters and as strings.
pub(crate) fn collect_nodes(mods: &Vec<Mod>) -> (r: (Vec<Vec<char>>, Vec<String>))
    ensures
        views(r.0@) == node_pids(mods@),
        sv(r.1@) == node_pids(mods@),
{
    let mut nodes: Vec<Vec<char>> = Vec::new();
    let mut strs: Vec<String> = Vec::new();
    let mut i: usize = 0;
    while i < mods.len()
        invariant
            0 <= i <= mods@.len(),
            views(nodes@) == node_pids(mods@.take(i as int)),
            sv(strs@) == node_pids(mods@.take(i as int)),
        decreases mods@.len() - i,
    {
        proof {
            assert(mods@.take(i + 1).drop_last() == mods@.take(i as int));
        }
        if mods[i].valid {
            let p = chars_of(mods[i].package_id.as_str());
            let k = find_node(&nodes, p.as_slice());
            if k == nodes.len() {
                let s = mods[i].package_id.clone();
                nodes.push(p);
                strs.push(s);
                proof {
                    assert(views(nodes@) == views(nodes@.drop_last()).push(p@));
                    assert(sv(strs@) == sv(strs@.drop_last()).push(s@));
                }
            } else {
                proof {
                    assert(views(nodes@)[k as int] == p@);
                }
            }
        }
        i += 1;
    }
    proof {
        assert(mods@.take(i as int) == mods@);
    }
    (nodes, strs)
}

/// `m` is valid and one of its rules puts `a` after `b`.
pub open spec fn mod_edge(m: Mod, a: Seq<char>, b: Seq<char>) -> bool {
    &&& m.valid
    &&& {
        ||| m.package_id@ == a && sv(load_after_of(m)).contains(b)
        ||| m.package_id@ == b && sv(load_before_of(m)).contains(a)
    }
}

/// Some mod's rules put `a` after `b`.
pub open spec fn rule_edge(mods: Seq<Mod>, a: Seq<char>, b: Seq<char>) -> bool {
    exists|i: int| 0 <= i < mods.len() && #[trigger] mod_edge(mods[i], a, b)
}

/// The graph of the explicit loadAfter / loadBefore rules among the nodes.
pub open spec fn rule_graph(mods: Seq<Mod>) -> Seq<Seq<bool>> {
    let v = node_pids(mods);
    Seq::new(v.len(), |a: int| Seq::new(v.len(), |b: int| rule_edge(mods, v[a], v[b])))
}

proof fn lemma_rule_edge_step(mods: Seq<Mod>, i: int, a: Seq<char>, b: Seq<char>)
    requires
        0 <= i < mods.len(),
    ensures
        rule_edge(mods.take(i + 1), a, b) == (rule_edge(mods.take(i), a, b) || mod_edge(mods[i], a, b)),
{
    let t1 = mods.take(i + 1);
    let t0 = mods.take(i);
    if rule_edge(t0, a, b) {
        let j = choose|j: int| 0 <= j < t0.len() && #[trigger] mod_edge(t0[j], a, b);
        assert(t1[j] == t0[j]);
    }
    if mod_edge(mods[i], a, b) {
        assert(t1[i] == mods[i]);
    }
    if rule_edge(t1, a, b) {
        let j = choose|j: int| 0 <= j < t1.len() && #[trigger] mod_edge(t1[j], a, b);
        if j < i {
            assert(t0[j] == t1[j]);
        }
    }
}

proof fn lemma_push_contains(s: Seq<Seq<char>>, x: Seq<char>, y: Seq<char>)
    ensures
        s.push(x).contains(y) == (s.contains(y) || x == y),
{
    let t = s.push(x);
    if s.contains(y) {
        let j = choose|j: int| 0 <= j < s.len() && s[j] == y;
        assert(t[j] == y);
    }
    if x == y {
        assert(t[s.len() as int] == y);
    }
    if t.contains(y) {
        let j = choose|j: int| 0 <= j < t.len() && t[j] == y;
        if j < s.len() {
            assert(s[j] == y);
        }
    }
}

/// An `n` by `n` matrix of `false`.
fn empty_matrix(n: usize) -> (g: Vec<Vec<bool>>)
    ensures
        g@.len() == n,
        forall|a: int| 0 <= a < n ==> (#[trigger] g@[a])@.len() == n,
        forall|a: int, b: int| 0 <= a < n && 0 <= b < n ==> !g@[a]@[b],
{
    let mut g: Vec<Vec<bool>> = Vec::new();
    let mut a: usize = 0;
    while a < n
        invariant
            0 <= a <= n,
            g@.len() == a,
            forall|x: int| 0 <= x < a ==> (#[trigger] g@[x])@.len() == n,
            forall|x: int, y: int| 0 <= x < a && 0 <= y < n ==> !g@[x]@[y],
        decreases n - a,
    {
        let mut row: Vec<bool> = Vec::new();
        let mut b: usize = 0;
        while b < n
            invariant
                0 <= b <= n,
                row@.len() == b,
                forall|y: int| 0 <= y < b ==> !row@[y],
            decreases n - b,
        {
            row.push(false);
            b += 1;
        }
        g.push(row);
        a += 1;
    }
    g
}

/// Index of the node named by `s`, or `nodes.len()`.
fn node_index(nodes: &Vec<Vec<char>>, s: &String) -> (r: usize)
    requires
        views(nodes@).no_duplicates(),
    ensures
        r <= nodes@.len(),
        r < nodes@.len() ==> nodes@[r as int]@ == s@,
        forall|y: int| 0 <= y < nodes@.len() ==> (nodes@[y]@ == s@ <==> y == r),
{
    let c = chars_of(s.as_str());
    let r = find_node(nodes, c.as_slice());
    proof {
        assert forall|y: int| 0 <= y < nodes@.len() implies (nodes@[y]@ == s@ <==> y == r) by {
            assert(views(nodes@)[y] == nodes@[y]@);
            if nodes@[y]@ == s@ && r < nodes@.len() {
                assert(views(nodes@)[r as int] == nodes@[r as int]@);
            }
        }
    }
    r
}

/// The explicit-rule graph over the nodes `nodes`.
fn build_rule_graph(mods: &Vec<Mod>, nodes: &Vec<Vec<char>>) -> (g: Vec<Vec<bool>>)
    requires
        views(nodes@) == node_pids(mods@),
    ensures
        mat(g@) == rule_graph(mods@),
{
    proof {
        lemma_node_pids(mods@);
    }
    let ghost nv = views(nodes@);
    let n = nodes.len();
    let mut g = empty_matrix(n);
    let mut i: usize = 0;
    while i < mods.len()
        invariant
            0 <= i <= mods@.len(),
            nv == views(nodes@),
            nv == node_pids(mods@),
            nv.no_duplicates(),
            n == nv.len(),
            g@.len() == n,
            forall|a: int| 0 <= a < n ==> (#[trigger] g@[a])@.len() == n,
            forall|a: int, b: int|
                #![trigger g@[a]@[b]]
                0 <= a < n && 0 <= b < n ==> g@[a]@[b] == rule_edge(mods@.take(i as int), nv[a], nv[b]),
        decreases mods@.len() - i,
    {
        proof {
            assert forall|a: int, b: int| 0 <= a < n && 0 <= b < n implies rule_edge(mods@.take(i + 1), nv[a], nv[b])
                == (rule_edge(mods@.take(i as int), nv[a], nv[b]) || mod_edge(mods@[i as int], nv[a], nv[b])) by {
                lemma_rule_edge_step(mods@, i as int, nv[a], nv[b]);
            }
        }
        if mods[i].valid {
            let m = &mods[i];
            let p = node_index(nodes, &m.package_id);
            proof {
                lemma_node_pids(mods@);
                assert(nv.contains(m.package_id@)) by {
                    assert(mods@[i as int].valid);
                    assert(has_valid(mods@, m.package_id@));
                }
                let j = choose|j: int| 0 <= j < nv.len() && nv[j] == m.package_id@;
                assert(nodes@[j]@ == m.package_id@);
            }
            let la = m.load_after_all();
            let lb = m.load_before_all();
            proof {
                assert(sv(la@).take(0) =~= Seq::<Seq<char>>::empty());
            }
            let mut k: usize = 0;
            while k < la.len()
                invariant
                    0 <= k <= la@.len(),
                    p < n,
                    nv == views(nodes@),
                    nv.no_duplicates(),
                    n == nv.len(),
                    nv[p as int] == m.package_id@,
                    g@.len() == n,
                    forall|a: int| 0 <= a < n ==> (#[trigger] g@[a])@.len() == n,
                    forall|a: int, b: int|
                        #![trigger g@[a]@[b]]
                        0 <= a < n && 0 <= b < n ==> g@[a]@[b] == (rule_edge(mods@.take(i as int), nv[a], nv[b]) || (a
                            == p && sv(la@).take(k as int).contains(nv[b]))),
                decreases la@.len() - k,
            {
                let q = node_index(nodes, &la[k]);
                let ghost g0 = g@;
                if q < n {
                    g[p].set(q, true);
                }
                proof {
                    let s0 = sv(la@).take(k as int);
                    let s1 = sv(la@).take(k + 1);
                    assert(s1 == s0.push(la@[k as int]@));
                    if q < n {
                        assert(g@[p as int]@ == g0[p as int]@.update(q as int, true));
                    }
                    assert forall|a: int, b: int| #![trigger g@[a]@[b]] 0 <= a < n && 0 <= b < n implies g@[a]@[b] == (rule_edge(
                        mods@.take(i as int),
                        nv[a],
                        nv[b],
                    ) || (a == p && sv(la@).take(k + 1).contains(nv[b]))) by {
                        assert(nv[b] == nodes@[b]@);
                        lemma_push_contains(s0, la@[k as int]@, nv[b]);
                        assert(g0[a]@[b] == (rule_edge(mods@.take(i as int), nv[a], nv[b]) || (a == p && s0.contains(nv[b]))));
                        assert((nodes@[b]@ == la@[k as int]@) == (b == q));
                        if q < n && a != p {
                            assert(g@[a] == g0[a]);
                        }
                        if q < n && a == p {
                            assert(g@[a]@[b] == (g0[a]@[b] || b == q));
                        }
                        if q == n {
                            assert(g@[a]@[b] == g0[a]@[b]);
                        }
                    }
                }
                k += 1;
            }
            proof {
                assert(sv(la@).take(la@.len() as int) == sv(la@));
                assert(sv(lb@).take(0) =~= Seq::<Seq<char>>::empty());
            }
            let mut k: usize = 0;
            while k < lb.len()
                invariant
                    0 <= k <= lb@.len(),
                    p < n,
                    nv == views(nodes@),
                    nv.no_duplicates(),
                    n == nv.len(),
                    nv[p as int] == m.package_id@,
                    g@.len() == n,
                    forall|a: int| 0 <= a < n ==> (#[trigger] g@[a])@.len() == n,
                    forall|a: int, b: int|
                        #![trigger g@[a]@[b]]
                        0 <= a < n && 0 <= b < n ==> g@[a]@[b] == (rule_edge(mods@.take(i as int), nv[a], nv[b]) || (a
                            == p && sv(la@).contains(nv[b])) || (b == p && sv(lb@).take(k as int).contains(nv[a]))),
                decreases lb@.len() - k,
            {
                let q = node_index(nodes, &lb[k]);
                let ghost g0 = g@;
                if q < n {
                    g[q].set(p, true);
                }
                proof {
                    let s0 = sv(lb@).take(k as int);
                    let s1 = sv(lb@).take(k + 1);
                    assert(s1 == s0.push(lb@[k as int]@));
                    if q < n {
                        assert(g@[q as int]@ == g0[q as int]@.update(p as int, true));
                    }
                    assert forall|a: int, b: int| #![trigger g@[a]@[b]] 0 <= a < n && 0 <= b < n implies g@[a]@[b] == (rule_edge(
                        mods@.take(i as int),
                        nv[a],
                        nv[b],
                    ) || (a == p && sv(la@).contains(nv[b])) || (b == p && sv(lb@).take(k + 1).contains(nv[a]))) by {
                        assert(nv[a] == nodes@[a]@);
                        lemma_push_contains(s0, lb@[k as int]@, nv[a]);
                        if q < n && a != q {
                            assert(g@[a] == g0[a]);
                        }
                    }
                }
                k += 1;
            }
            proof {
                assert(sv(la@).take(la@.len() as int) == sv(la@));
                assert(sv(lb@).take(lb@.len() as int) == sv(lb@));
                assert forall|a: int, b: int| #![trigger g@[a]@[b]] 0 <= a < n && 0 <= b < n implies g@[a]@[b] == rule_edge(
                    mods@.take(i + 1),
                    nv[a],
                    nv[b],
                ) by {
                    assert(mod_edge(mods@[i as int], nv[a], nv[b]) == ((a == p && sv(la@).contains(nv[b])) || (b == p
                        && sv(lb@).contains(nv[a])))) by {
                        if nv[a] == m.package_id@ {
                            lemma_node_of(nv, nv[a], a);
                            lemma_node_of(nv, nv[a], p as int);
                        }
                        if nv[b] == m.package_id@ {
                            lemma_node_of(nv, nv[b], b);
                            lemma_node_of(nv, nv[b], p as int);
                        }
                    }
                }
            }
        } else {
            proof {
                assert forall|a: int, b: int| 0 <= a < n && 0 <= b < n implies !mod_edge(mods@[i as int], nv[a], nv[b]) by {}
            }
        }
        i += 1;
    }
    proof {
        assert(mods@.take(i as int) == mods@);
        assert(mat(g@) =~= rule_graph(mods@)) by {
            assert forall|a: int| 0 <= a < n implies mat(g@)[a] =~= rule_graph(mods@)[a] by {}
        }
    }
    g
}

/// Package ids that always form tier 0: the prepatcher, Harmony and the game with its
/// expansions.
pub open spec fn tier_zero_ids() -> Seq<Seq<char>> {
    seq![
        "zetrith.prepatcher"@,
        "brrainz.harmony"@,
        "brrainz.visualexceptions"@,
        "ludeon.rimworld"@,
        "ludeon.rimworld.royalty"@,
        "ludeon.rimworld.ideology"@,
        "ludeon.rimworld.biotech"@,
        "ludeon.rimworld.anomaly"@,
        "ludeon.rimworld.odyssey"@,
    ]
}

/// Package ids of the frameworks that always form tier 1.
pub open spec fn tier_one_ids() -> Seq<Seq<char>> {
    seq![
        "adaptive.storage.framework"@,
        "aoba.framework"@,
        "aoba.exosuit.framework"@,
        "ebsg.framework"@,
        "imranfish.xmlextensions"@,
        "thesepeople.ritualattachableoutcomes"@,
        "ohno.asf.ab.local"@,
        "oskarpotocki.vanillafactionsexpanded.core"@,
        "owlchemist.cherrypicker"@,
        "redmattis.betterprerequisites"@,
        "smashphil.vehicleframework"@,
        "unlimitedhugs.hugslib"@,
        "vanillaexpanded.backgrounds"@,
    ]
}

/// The tier 0 package ids.
pub fn tier_zero() -> (r: Vec<String>)
    ensures
        sv(r@) == tier_zero_ids(),
{
    let r = vec![
        String::from_str("zetrith.prepatcher"),
        String::from_str("brrainz.harmony"),
        String::from_str("brrainz.visualexceptions"),
        String::from_str("ludeon.rimworld"),
        String::from_str("ludeon.rimworld.royalty"),
        String::from_str("ludeon.rimworld.ideology"),
        String::from_str("ludeon.rimworld.biotech"),
        String::from_str("ludeon.rimworld.anomaly"),
        String::from_str("ludeon.rimworld.odyssey"),
    ];
    proof {
        assert(sv(r@) =~= tier_zero_ids());
    }
    r
}

/// The tier 1 package ids.
pub fn tier_one() -> (r: Vec<String>)
    ensures
        sv(r@) == tier_one_ids(),
{
    let r = vec![
        String::from_str("adaptive.storage.framework"),
        String::from_str("aoba.framework"),
        String::from_str("aoba.exosuit.framework"),
        String::from_str("ebsg.framework"),
        String::from_str("imranfish.xmlextensions"),
        String::from_str("thesepeople.ritualattachableoutcomes"),
        String::from_str("ohno.asf.ab.local"),
        String::from_str("oskarpotocki.vanillafactionsexpanded.core"),
        String::from_str("owlchemist.cherrypicker"),
        String::from_str("redmattis.betterprerequisites"),
        String::from_str("smashphil.vehicleframework"),
        String::from_str("unlimitedhugs.hugslib"),
        String::from_str("vanillaexpanded.backgrounds"),
    ];
    proof {
        assert(sv(r@) =~= tier_one_ids());
    }
    r
}

/// `m` is valid, has package id `p`, and its community or user rules ask for tier 1.
pub open spec fn first_flag(m: Mod, p: Seq<char>) -> bool {
    m.valid && m.package_id@ == p && (m.community.load_top || m.user.load_top)
}

/// `m` is valid, has package id `p`, and its community or user rules ask for tier 3.
pub open spec fn last_flag(m: Mod, p: Seq<char>) -> bool {
    m.valid && m.package_id@ == p && (m.community.load_bottom || m.user.load_bottom)
}

/// Some mod with package id `p` asks for tier 1.
pub open spec fn wants_first(mods: Seq<Mod>, p: Seq<char>) -> bool {
    exists|i: int| 0 <= i < mods.len() && #[trigger] first_flag(mods[i], p)
}

/// Some mod with package id `p` asks for tier 3.
pub open spec fn wants_last(mods: Seq<Mod>, p: Seq<char>) -> bool {
    exists|i: int| 0 <= i < mods.len() && #[trigger] last_flag(mods[i], p)
}

/// Package id `p` belongs to tier 1: a listed framework, or a mod that asks for it and is not in
/// tier 0.
pub open spec fn in_tier_one(mods: Seq<Mod>, p: Seq<char>) -> bool {
    tier_one_ids().contains(p) || (wants_first(mods, p) && !tier_zero_ids().contains(p))
}

/// Nodes kept out of inferred dependency edges: those of tier 1 and tier 3.
pub open spec fn excluded(mods: Seq<Mod>) -> Seq<bool> {
    let v = node_pids(mods);
    Seq::new(v.len(), |x: int| in_tier_one(mods, v[x]) || wants_last(mods, v[x]))
}

proof fn lemma_flags_step(mods: Seq<Mod>, i: int, p: Seq<char>)
    requires
        0 <= i < mods.len(),
    ensures
        wants_first(mods.take(i + 1), p) == (wants_first(mods.take(i), p) || first_flag(mods[i], p)),
        wants_last(mods.take(i + 1), p) == (wants_last(mods.take(i), p) || last_flag(mods[i], p)),
{
    let t1 = mods.take(i + 1);
    let t0 = mods.take(i);
    assert(t1[i] == mods[i]);
    if wants_first(t0, p) {
        let j = choose|j: int| 0 <= j < t0.len() && #[trigger] first_flag(t0[j], p);
        assert(t1[j] == t0[j]);
    }
    if wants_first(t1, p) {
        let j = choose|j: int| 0 <= j < t1.len() && #[trigger] first_flag(t1[j], p);
        if j < i {
            assert(t0[j] == t1[j]);
        }
    }
    if wants_last(t0, p) {
        let j = choose|j: int| 0 <= j < t0.len() && #[trigger] last_flag(t0[j], p);
        assert(t1[j] == t0[j]);
    }
    if wants_last(t1, p) {
        let j = choose|j: int| 0 <= j < t1.len() && #[trigger] last_flag(t1[j], p);
        if j < i {
            assert(t0[j] == t1[j]);
        }
    }
}

/// Per node: member of tier 1, member of tier 3 (before any closure).
fn tier_flags(mods: &Vec<Mod>, nodes: &Vec<Vec<char>>, strs: &Vec<String>) -> (r: (Vec<bool>, Vec<bool>))
    requires
        views(nodes@) == node_pids(mods@),
        sv(strs@) == node_pids(mods@),
    ensures
        r.0@.len() == nodes@.len(),
        r.1@.len() == nodes@.len(),
        forall|x: int| 0 <= x < nodes@.len() ==> #[trigger] r.0@[x] == in_tier_one(mods@, node_pids(mods@)[x]),
        forall|x: int| 0 <= x < nodes@.len() ==> #[trigger] r.1@[x] == wants_last(mods@, node_pids(mods@)[x]),
{
    proof {
        lemma_node_pids(mods@);
    }
    let ghost nv = views(nodes@);
    let n = nodes.len();
    let tz = tier_zero();
    let mut first: Vec<bool> = Vec::new();
    let mut last: Vec<bool> = Vec::new();
    let mut x: usize = 0;
    while x < n
        invariant
            0 <= x <= n,
            n == nodes@.len(),
            first@.len() == x,
            last@.len() == x,
            forall|y: int| 0 <= y < x ==> !first@[y] && !last@[y],
        decreases n - x,
    {
        first.push(false);
        last.push(false);
        x += 1;
    }
    let mut i: usize = 0;
    while i < mods.len()
        invariant
            0 <= i <= mods@.len(),
            nv == views(nodes@),
            nv == node_pids(mods@),
            nv.no_duplicates(),
            sv(tz@) == tier_zero_ids(),
            n == nv.len(),
            first@.len() == n,
            last@.len() == n,
            forall|y: int| 0 <= y < n ==> #[trigger] first@[y] == (wants_first(mods@.take(i as int), nv[y]) && !tier_zero_ids().contains(nv[y])),
            forall|y: int| 0 <= y < n ==> #[trigger] last@[y] == wants_last(mods@.take(i as int), nv[y]),
        decreases mods@.len() - i,
    {
        proof {
            assert forall|y: int| 0 <= y < n implies wants_first(mods@.take(i + 1), nv[y]) == (wants_first(mods@.take(i as int), nv[y]) || first_flag(mods@[i as int], nv[y]))
                && wants_last(mods@.take(i + 1), nv[y]) == (wants_last(mods@.take(i as int), nv[y]) || last_flag(mods@[i as int], nv[y])) by {
                lemma_flags_step(mods@, i as int, nv[y]);
            }
        }
        if mods[i].valid {
            let p = node_index(nodes, &mods[i].package_id);
            proof {
                lemma_node_pids(mods@);
                assert(has_valid(mods@, mods@[i as int].package_id@));
                assert(nv.contains(mods@[i as int].package_id@));
                let j = choose|j: int| 0 <= j < nv.len() && nv[j] == mods@[i as int].package_id@;
                assert(views(nodes@)[j] == nodes@[j]@);
                assert(nodes@[j]@ == mods@[i as int].package_id@);
            }
            let ghost f0 = first@;
            let ghost l0 = last@;
            if mods[i].load_first() && !crate::text::contains_str(&tz, &mods[i].package_id) {
                first.set(p, true);
            }
            if mods[i].load_last() {
                last.set(p, true);
            }
            proof {
                assert forall|y: int| 0 <= y < n implies #[trigger] first@[y] == (wants_first(mods@.take(i + 1), nv[y]) && !tier_zero_ids().contains(nv[y]))
                    && last@[y] == wants_last(mods@.take(i + 1), nv[y]) by {
                    assert(nv[y] == nodes@[y]@);
                    if y != p {
                        assert(first@[y] == f0[y] && last@[y] == l0[y]);
                    }
                }
            }
        }
        i += 1;
    }
    let t1 = tier_one();
    let mut one: Vec<bool> = Vec::new();
    let mut x: usize = 0;
    while x < n
        invariant
            0 <= x <= n,
            nv == views(nodes@),
            nv == node_pids(mods@),
            sv(strs@) == nv,
            sv(t1@) == tier_one_ids(),
            n == nv.len(),
            first@.len() == n,
            mods@.take(i as int) == mods@,
            forall|y: int| 0 <= y < n ==> #[trigger] first@[y] == (wants_first(mods@, nv[y]) && !tier_zero_ids().contains(nv[y])),
            one@.len() == x,
            forall|y: int| 0 <= y < x ==> #[trigger] one@[y] == in_tier_one(mods@, nv[y]),
        decreases n - x,
    {
        let b = crate::text::contains_str(&t1, &strs[x]) || first[x];
        proof {
            assert(strs@[x as int]@ == nv[x as int]);
        }
        one.push(b);
        x += 1;
    }
    proof {
        assert(mods@.take(i as int) == mods@);
    }
    (one, last)
}

/// The first alternative package id that is a node (-1 if none).
pub open spec fn alt_target(alts: Seq<Seq<char>>, v: Seq<Seq<char>>) -> int
    decreases alts.len(),
{
    if alts.len() == 0 {
        -1
    } else if v.contains(alts[0]) {
        node_of(v, alts[0])
    } else {
        alt_target(alts.drop_first(), v)
    }
}

/// The node a dependency points at (-1 if none): its package id, or, when alternatives are
/// allowed, the first alternative that is installed.
pub open spec fn dep_target(d: Dependency, v: Seq<Seq<char>>, alt: bool) -> int {
    if v.contains(d.package_id@) {
        node_of(v, d.package_id@)
    } else if alt {
        alt_target(sv(d.alternatives@), v)
    } else {
        -1
    }
}

/// Inferred edges `(p, t)` from the dependencies of the mod at node `p`, in order.
pub open spec fn dep_cands(p: int, deps: Seq<Dependency>, v: Seq<Seq<char>>, excl: Seq<bool>, alt: bool) -> Seq<(int, int)>
    decreases deps.len(),
{
    if deps.len() == 0 {
        Seq::empty()
    } else {
        let r = dep_cands(p, deps.drop_last(), v, excl, alt);
        let t = dep_target(deps.last(), v, alt);
        if t >= 0 && !excl[t] {
            r.push((p, t))
        } else {
            r
        }
    }
}

/// Inferred edges of all mods, in index order.
pub open spec fn mod_cands(mods: Seq<Mod>, v: Seq<Seq<char>>, excl: Seq<bool>, alt: bool) -> Seq<(int, int)>
    decreases mods.len(),
{
    if mods.len() == 0 {
        Seq::empty()
    } else {
        let r = mod_cands(mods.drop_last(), v, excl, alt);
        let m = mods.last();
        let p = node_of(v, m.package_id@);
        if m.valid && !excl[p] {
            r + dep_cands(p, m.rules.dependencies@, v, excl, alt)
        } else {
            r
        }
    }
}

/// Adds the edges `c` in order, skipping one whose reverse is already there.
pub open spec fn add_edges(g: Seq<Seq<bool>>, c: Seq<(int, int)>) -> Seq<Seq<bool>>
    decreases c.len(),
{
    if c.len() == 0 {
        g
    } else {
        let h = add_edges(g, c.drop_last());
        let a = c.last().0;
        let b = c.last().1;
        if h[b][a] {
            h
        } else {
            h.update(a, h[a].update(b, true))
        }
    }
}

/// The full dependency graph: the explicit rules, plus, when dependencies count as loadAfter,
/// the inferred edges.
pub open spec fn full_graph(mods: Seq<Mod>, s: SortSettings) -> Seq<Seq<bool>> {
    if s.dependencies_as_load_after {
        add_edges(rule_graph(mods), mod_cands(mods, node_pids(mods), excluded(mods), s.use_alternative_ids))
    } else {
        rule_graph(mods)
    }
}

/// Sort options.
#[derive(Debug, Clone, Copy)]
pub struct SortSettings {
    /// Treat `modDependencies` as implicit loadAfter edges.
    pub dependencies_as_load_after: bool,
    /// Let a dependency's alternative package ids satisfy it.
    pub use_alternative_ids: bool,
}

/// Index of the first of `alts` that is a node, or `nodes.len()`.
fn first_alternative(nodes: &Vec<Vec<char>>, alts: &Vec<String>) -> (r: usize)
    requires
        views(nodes@).no_duplicates(),
    ensures
        r <= nodes@.len(),
        r < nodes@.len() ==> r as int == alt_target(sv(alts@), views(nodes@)),
        r == nodes@.len() ==> alt_target(sv(alts@), views(nodes@)) == -1,
{
    let ghost v = views(nodes@);
    let mut k: usize = 0;
    proof {
        assert(sv(alts@).skip(0) == sv(alts@));
    }
    while k < alts.len()
        invariant
            0 <= k <= alts@.len(),
            v == views(nodes@),
            v.no_duplicates(),
            alt_target(sv(alts@), v) == alt_target(sv(alts@).skip(k as int), v),
        decreases alts@.len() - k,
    {
        let q = node_index(nodes, &alts[k]);
        let ghost rest = sv(alts@).skip(k as int);
        proof {
            assert(rest[0] == alts@[k as int]@);
            assert(rest.drop_first() == sv(alts@).skip(k + 1));
        }
        if q < nodes.len() {
            proof {
                assert(v[q as int] == nodes@[q as int]@);
                assert(v.contains(rest[0]));
                lemma_node_of(v, rest[0], q as int);
            }
            return q;
        }
        proof {
            if v.contains(rest[0]) {
                let j = choose|j: int| 0 <= j < v.len() && v[j] == rest[0];
                assert(v[j] == nodes@[j]@);
            }
        }
        k += 1;
    }
    proof {
        assert(sv(alts@).skip(k as int).len() == 0);
    }
    nodes.len()
}

/// Adds the inferred dependency edges to the explicit-rule graph `g`.
fn add_inferred(g: &mut Vec<Vec<bool>>, mods: &Vec<Mod>, nodes: &Vec<Vec<char>>, excl: &Vec<bool>, alt: bool)
    requires
        views(nodes@) == node_pids(mods@),
        square(mat(old(g)@), nodes@.len() as int),
        excl@.len() == nodes@.len(),
    ensures
        square(mat(final(g)@), nodes@.len() as int),
        mat(final(g)@) == add_edges(mat(old(g)@), mod_cands(mods@, views(nodes@), excl@, alt)),
{
    proof {
        lemma_node_pids(mods@);
    }
    let ghost v = views(nodes@);
    let ghost g0 = mat(g@);
    let n = nodes.len();
    let mut i: usize = 0;
    while i < mods.len()
        invariant
            0 <= i <= mods@.len(),
            v == views(nodes@),
            v == node_pids(mods@),
            v.no_duplicates(),
            n == v.len(),
            excl@.len() == n,
            square(mat(g@), n as int),
            mat(g@) == add_edges(g0, mod_cands(mods@.take(i as int), v, excl@, alt)),
        decreases mods@.len() - i,
    {
        let ghost before = mod_cands(mods@.take(i as int), v, excl@, alt);
        proof {
            assert(mods@.take(i + 1).drop_last() == mods@.take(i as int));
            assert(mods@.take(i + 1).last() == mods@[i as int]);
        }
        if mods[i].valid {
            let m = &mods[i];
            let p = node_index(nodes, &m.package_id);
            proof {
                lemma_node_pids(mods@);
                assert(has_valid(mods@, m.package_id@));
                assert(v.contains(m.package_id@));
                let j = choose|j: int| 0 <= j < v.len() && v[j] == m.package_id@;
                assert(v[j] == nodes@[j]@);
                assert(v[p as int] == nodes@[p as int]@);
                lemma_node_of(v, m.package_id@, p as int);
            }
            if !excl[p] {
                let deps = &m.rules.dependencies;
                let mut k: usize = 0;
                proof {
                    assert(deps@.take(0) == Seq::<crate::mods::Dependency>::empty());
                    assert(before + dep_cands(p as int, deps@.take(0), v, excl@, alt) == before);
                }
                while k < deps.len()
                    invariant
                        0 <= k <= deps@.len(),
                        p < n,
                        v == views(nodes@),
                        v.no_duplicates(),
                        n == v.len(),
                        excl@.len() == n,
                        !excl@[p as int],
                        square(mat(g@), n as int),
                        mat(g@) == add_edges(g0, before + dep_cands(p as int, deps@.take(k as int), v, excl@, alt)),
                    decreases deps@.len() - k,
                {
                    let d = &deps[k];
                    let ghost c0 = before + dep_cands(p as int, deps@.take(k as int), v, excl@, alt);
                    proof {
                        assert(deps@.take(k + 1).drop_last() == deps@.take(k as int));
                        assert(deps@.take(k + 1).last() == deps@[k as int]);
                    }
                    let mut t = node_index(nodes, &d.package_id);
                    proof {
                        if t < n {
                            assert(v[t as int] == nodes@[t as int]@);
                            lemma_node_of(v, d.package_id@, t as int);
                        } else if v.contains(d.package_id@) {
                            let j = choose|j: int| 0 <= j < v.len() && v[j] == d.package_id@;
                            assert(v[j] == nodes@[j]@);
                        }
                    }
                    if t == n && alt {
                        t = first_alternative(nodes, &d.alternatives);
                    }
                    proof {
                        let dt = dep_target(deps@[k as int], v, alt);
                        assert(t < n ==> t as int == dt);
                        assert(t == n ==> dt == -1);
                    }
                    if t < n && !excl[t] {
                        let ghost h = mat(g@);
                        proof {
                            assert(c0.push((p as int, t as int)) == before + dep_cands(p as int, deps@.take(k + 1), v, excl@, alt));
                            assert(c0.push((p as int, t as int)).drop_last() == c0);
                            assert(h[t as int] == g@[t as int]@);
                            assert(h[p as int] == g@[p as int]@);
                        }
                        if !g[t][p] {
                            g[p].set(t, true);
                            proof {
                                assert(mat(g@) =~= h.update(p as int, h[p as int].update(t as int, true)));
                            }
                        }
                    } else {
                        proof {
                            assert(before + dep_cands(p as int, deps@.take(k + 1), v, excl@, alt) == c0);
                        }
                    }
                    k += 1;
                }
                proof {
                    assert(deps@.take(deps@.len() as int) == deps@);
                }
            }
        }
        i += 1;
    }
    proof {
        assert(mods@.take(i as int) == mods@);
    }
}

/// Position of the valid mod that `id` names in the index (-1 if none).
pub open spec fn act_mod_pos(mods: Seq<Mod>, id: ModId) -> int {
    let k = last_with_id(mods, id);
    if k >= 0 && mods[k].valid {
        k
    } else {
        -1
    }
}

/// Position in `active` of the first id naming a valid mod with package id `p` (-1 if none).
pub open spec fn first_active(mods: Seq<Mod>, active: Seq<ModId>, p: Seq<char>) -> int
    decreases active.len(),
{
    if active.len() == 0 {
        -1
    } else {
        let r = first_active(mods, active.drop_last(), p);
        let k = act_mod_pos(mods, active.last());
        if r >= 0 {
            r
        } else if k >= 0 && mods[k].package_id@ == p {
            active.len() - 1
        } else {
            -1
        }
    }
}

proof fn lemma_first_active(mods: Seq<Mod>, active: Seq<ModId>, p: Seq<char>)
    ensures
        -1 <= first_active(mods, active, p) < active.len(),
        first_active(mods, active, p) >= 0 ==> {
            let k = act_mod_pos(mods, active[first_active(mods, active, p)]);
            k >= 0 && mods[k].package_id@ == p
        },
    decreases active.len(),
{
    if active.len() > 0 {
        lemma_first_active(mods, active.drop_last(), p);
        let r = first_active(mods, active.drop_last(), p);
        if r >= 0 {
            assert(active[r] == active.drop_last()[r]);
        }
    }
}

/// Per node: some active id names a valid mod with its package id.
pub open spec fn active_flags(mods: Seq<Mod>, active: Seq<ModId>) -> Seq<bool> {
    let v = node_pids(mods);
    Seq::new(v.len(), |x: int| first_active(mods, active, v[x]) >= 0)
}

/// Per node: the first active id naming a mod with its package id.
pub open spec fn node_ids(mods: Seq<Mod>, active: Seq<ModId>) -> Seq<ModId> {
    let v = node_pids(mods);
    Seq::new(v.len(), |x: int| active[first_active(mods, active, v[x])])
}

/// Per node: the lowercase name of that mod (empty for an inactive node).
pub open spec fn node_names(mods: Seq<Mod>, active: Seq<ModId>) -> Seq<Seq<char>> {
    let v = node_pids(mods);
    Seq::new(
        v.len(),
        |x: int|
            if first_active(mods, active, v[x]) >= 0 {
                lowercase(mods[act_mod_pos(mods, active[first_active(mods, active, v[x])])].name@)
            } else {
                Seq::empty()
            },
    )
}

/// Active flag, id and lowercase name of every node.
fn active_info(index: &ModIndex, active: &[ModId], nodes: &Vec<Vec<char>>) -> (r: (Vec<bool>, Vec<ModId>, Vec<Vec<char>>))
    requires
        views(nodes@) == node_pids(index.mods@),
    ensures
        r.0@ == active_flags(index.mods@, active@),
        r.1@.len() == nodes@.len(),
        forall|x: int| 0 <= x < nodes@.len() && r.0@[x] ==> #[trigger] r.1@[x] == node_ids(index.mods@, active@)[x],
        views(r.2@) == node_names(index.mods@, active@),
{
    proof {
        lemma_node_pids(index.mods@);
    }
    let ghost mods = index.mods@;
    let ghost v = views(nodes@);
    let n = nodes.len();
    let mut flags: Vec<bool> = Vec::new();
    let mut ids: Vec<ModId> = Vec::new();
    let mut names: Vec<Vec<char>> = Vec::new();
    let mut x: usize = 0;
    while x < n
        invariant
            0 <= x <= n,
            n == nodes@.len(),
            flags@.len() == x,
            ids@.len() == x,
            names@.len() == x,
            forall|y: int| 0 <= y < x ==> !#[trigger] flags@[y],
            forall|y: int| 0 <= y < x ==> (#[trigger] names@[y])@ == Seq::<char>::empty(),
        decreases n - x,
    {
        let e: Vec<char> = Vec::new();
        flags.push(false);
        ids.push(ModId(0));
        names.push(e);
        x += 1;
    }
    proof {
        assert(active@.take(0) == Seq::<ModId>::empty());
    }
    let mut j: usize = 0;
    while j < active.len()
        invariant
            0 <= j <= active@.len(),
            mods == index.mods@,
            v == views(nodes@),
            v == node_pids(mods),
            v.no_duplicates(),
            n == v.len(),
            flags@.len() == n,
            ids@.len() == n,
            names@.len() == n,
            forall|y: int| 0 <= y < n ==> #[trigger] flags@[y] == (first_active(mods, active@.take(j as int), v[y]) >= 0),
            forall|y: int|
                0 <= y < n && flags@[y] ==> #[trigger] ids@[y] == active@[first_active(mods, active@.take(j as int), v[y])],
            forall|y: int|
                0 <= y < n ==> (#[trigger] names@[y])@ == if first_active(mods, active@.take(j as int), v[y]) >= 0 {
                    lowercase(mods[act_mod_pos(mods, active@[first_active(mods, active@.take(j as int), v[y])])].name@)
                } else {
                    Seq::<char>::empty()
                },
        decreases active@.len() - j,
    {
        let ghost t0 = active@.take(j as int);
        let ghost t1 = active@.take(j + 1);
        proof {
            assert(t1.drop_last() == t0);
            assert(t1.last() == active@[j as int]);
            assert forall|y: int| 0 <= y < n implies first_active(mods, t0, v[y]) >= 0 ==> first_active(mods, t0, v[y]) < j as int by {
                lemma_first_active(mods, t0, v[y]);
            }
            assert forall|y: int| 0 <= y < n && first_active(mods, t0, v[y]) >= 0 implies #[trigger] active@[first_active(mods, t0, v[y])] == t1[first_active(mods, t0, v[y])] by {
                lemma_first_active(mods, t0, v[y]);
            }
        }
        let id = active[j];
        match index.get(id) {
            Some(m) => {
                if m.valid {
                    let p = node_index(nodes, &m.package_id);
                    proof {
                        lemma_node_pids(mods);
                        crate::mods::lemma_last_with_id(mods, id);
                        let k = last_with_id(mods, id);
                        assert(mods[k] == *m);
                        assert(mods[k].valid && mods[k].package_id@ == m.package_id@);
                        assert(act_mod_pos(mods, id) == k);
                        assert(has_valid(mods, m.package_id@));
                        assert(v.contains(m.package_id@));
                        let w = choose|w: int| 0 <= w < v.len() && v[w] == m.package_id@;
                        assert(v[w] == nodes@[w]@);
                        assert(v[p as int] == nodes@[p as int]@);
                    }
                    if !flags[p] {
                        let lname = to_lower(m.name.as_str());
                        let c = chars_of(lname.as_str());
                        let ghost (f0, i0, n0) = (flags@, ids@, names@);
                        flags.set(p, true);
                        ids.set(p, id);
                        names.set(p, c);
                        proof {
                            assert forall|y: int| 0 <= y < n implies #[trigger] flags@[y] == (first_active(mods, t1, v[y]) >= 0)
                                && (flags@[y] ==> ids@[y] == active@[first_active(mods, t1, v[y])])
                                && names@[y]@ == if first_active(mods, t1, v[y]) >= 0 {
                                    lowercase(mods[act_mod_pos(mods, active@[first_active(mods, t1, v[y])])].name@)
                                } else {
                                    Seq::<char>::empty()
                                } by {
                                assert(v[y] == nodes@[y]@);
                                if y != p {
                                    assert(flags@[y] == f0[y] && ids@[y] == i0[y] && names@[y] == n0[y]);
                                }
                            }
                        }
                    } else {
                        proof {
                            assert forall|y: int| 0 <= y < n implies first_active(mods, t1, v[y]) == first_active(mods, t0, v[y]) by {
                                assert(v[y] == nodes@[y]@);
                            }
                        }
                    }
                } else {
                    proof {
                        assert(act_mod_pos(mods, id) == -1);
                        assert forall|y: int| 0 <= y < n implies first_active(mods, t1, v[y]) == first_active(mods, t0, v[y]) by {}
                    }
                }
            },
            None => {
                proof {
                    assert(act_mod_pos(mods, id) == -1);
                    assert forall|y: int| 0 <= y < n implies first_active(mods, t1, v[y]) == first_active(mods, t0, v[y]) by {}
                }
            },
        }
        j += 1;
    }
    proof {
        assert(active@.take(j as int) == active@);
        assert(flags@ =~= active_flags(mods, active@));
        assert(views(names@) =~= node_names(mods, active@));
    }
    (flags, ids, names)
}

/// The dependency graph among the active nodes.
pub open spec fn active_graph(mods: Seq<Mod>, active: Seq<ModId>, s: SortSettings) -> Seq<Seq<bool>> {
    induced(full_graph(mods, s), active_flags(mods, active), node_pids(mods).len() as int)
}

/// The nodes reachable in `g` from some node of `starts`.
pub open spec fn reach_set(g: Seq<Seq<bool>>, starts: Seq<bool>) -> Seq<bool> {
    Seq::new(starts.len(), |y: int| exists|x: int| 0 <= x < starts.len() && starts[x] && reaches(g, x, y))
}

/// The active nodes that seed tier `k` (0, 1 or 3).
pub open spec fn tier_starts(mods: Seq<Mod>, active: Seq<ModId>, k: int) -> Seq<bool> {
    let v = node_pids(mods);
    let f = active_flags(mods, active);
    Seq::new(
        v.len(),
        |x: int|
            f[x] && if k == 0 {
                tier_zero_ids().contains(v[x])
            } else if k == 1 {
                in_tier_one(mods, v[x])
            } else {
                wants_last(mods, v[x])
            },
    )
}

/// Tier `k` of the active nodes: tier 0 and tier 1 hold their seeds and everything those load
/// after, tier 3 its seeds and everything that loads after them, tier 2 the rest.
pub open spec fn tier(mods: Seq<Mod>, active: Seq<ModId>, s: SortSettings, k: int) -> Seq<bool> {
    let g = active_graph(mods, active, s);
    let n = node_pids(mods).len() as int;
    let t0 = reach_set(g, tier_starts(mods, active, 0));
    let t1 = reach_set(g, tier_starts(mods, active, 1));
    let t3 = reach_set(transpose(g, n), tier_starts(mods, active, 3));
    let f = active_flags(mods, active);
    if k == 0 {
        t0
    } else if k == 1 {
        t1
    } else if k == 3 {
        t3
    } else {
        Seq::new(n as nat, |x: int| f[x] && !t0[x] && !t1[x] && !t3[x])
    }
}

/// `lv` are the Kahn levels of the members `t`, each in node order.
pub open spec fn tier_listing(g: Seq<Seq<bool>>, t: Seq<bool>, names: Seq<Seq<char>>, pids: Seq<Seq<char>>, lv: Seq<Seq<int>>) -> bool {
    &&& kahn_levels(g, t, lv)
    &&& forall|k: int| 0 <= k < lv.len() ==> sorted_nodes(#[trigger] lv[k], names, pids)
}

/// The nodes of all levels of all tiers, in order.
pub open spec fn flat2(ls: Seq<Seq<Seq<int>>>) -> Seq<int>
    decreases ls.len(),
{
    if ls.len() == 0 {
        Seq::empty()
    } else {
        flat2(ls.drop_last()) + ls.last().flatten()
    }
}

/// The ids of the nodes `xs`.
pub open spec fn ids_at(xs: Seq<int>, ids: Seq<ModId>) -> Seq<ModId> {
    Seq::new(xs.len(), |i: int| ids[xs[i]])
}

/// `s` without repetitions, first occurrences kept.
pub open spec fn dedup(s: Seq<ModId>) -> Seq<ModId>
    decreases s.len(),
{
    if s.len() == 0 {
        Seq::empty()
    } else {
        let r = dedup(s.drop_last());
        if r.contains(s.last()) {
            r
        } else {
            r.push(s.last())
        }
    }
}

/// `ls` lists the four tiers level by level, and `order` places their mods in that order, then
/// every other active id in its current order.
pub open spec fn placed_by(mods: Seq<Mod>, active: Seq<ModId>, s: SortSettings, ls: Seq<Seq<Seq<int>>>, order: Seq<ModId>) -> bool {
    let g = active_graph(mods, active, s);
    &&& ls.len() == 4
    &&& forall|k: int| 0 <= k < 4 ==> tier_listing(g, tier(mods, active, s, k), node_names(mods, active), node_pids(mods), #[trigger] ls[k])
    &&& order == dedup(ids_at(flat2(ls), node_ids(mods, active)) + active)
}

/// The sort succeeds with the new order `order`.
pub open spec fn sort_ok(mods: Seq<Mod>, active: Seq<ModId>, s: SortSettings, order: Seq<ModId>) -> bool {
    exists|ls: Seq<Seq<Seq<int>>>| #[trigger] placed_by(mods, active, s, ls, order)
}

/// The package ids of each node list.
pub open spec fn cycle_names(cs: Seq<Seq<int>>, v: Seq<Seq<char>>) -> Seq<Seq<Seq<char>>> {
    Seq::new(cs.len(), |i: int| pid_list(cs[i], v))
}

/// The tiers before tier `ls.len()` have levels `ls`; that tier stalls with `rem` left, whose
/// cycles are `cs`, named `cycles`.
pub open spec fn fails_at(
    mods: Seq<Mod>,
    active: Seq<ModId>,
    s: SortSettings,
    ls: Seq<Seq<Seq<int>>>,
    rem: Seq<bool>,
    cs: Seq<Seq<int>>,
    cycles: Seq<Seq<Seq<char>>>,
) -> bool {
    let g = active_graph(mods, active, s);
    let v = node_pids(mods);
    &&& ls.len() < 4
    &&& forall|k: int| 0 <= k < ls.len() ==> tier_listing(g, tier(mods, active, s, k), node_names(mods, active), v, #[trigger] ls[k])
    &&& kahn_stalls(g, tier(mods, active, s, ls.len() as int), rem)
    &&& cycle_listing(rem_graph(g, rem, v.len() as int), v.len() as int, v, cs)
    &&& cycles == cycle_names(cs, v)
}

/// Some tier cannot be levelled; `cycles` names the cycles left in the first such tier.
pub open spec fn sort_fails(mods: Seq<Mod>, active: Seq<ModId>, s: SortSettings, cycles: Seq<Seq<Seq<char>>>) -> bool {
    exists|ls: Seq<Seq<Seq<int>>>, rem: Seq<bool>, cs: Seq<Seq<int>>| #[trigger] fails_at(mods, active, s, ls, rem, cs, cycles)
}

/// The character sequences of lists of strings.
pub open spec fn lists_view(c: Seq<Vec<String>>) -> Seq<Seq<Seq<char>>> {
    c.map_values(|l: Vec<String>| sv(l@))
}

/// Result of a sort.
#[derive(Debug, Clone)]
pub struct SortOutcome {
    /// New active order (empty when `cycles` is non-empty).
    pub order: Vec<ModId>,
    /// Package-id cycles that made a sort impossible.
    pub cycles: Vec<Vec<String>>,
}

/// The subgraph on the nodes flagged in `f`.
fn restrict(g: &Vec<Vec<bool>>, n: usize, f: &Vec<bool>) -> (r: Vec<Vec<bool>>)
    requires
        square(mat(g@), n as int),
        f@.len() == n,
    ensures
        square(mat(r@), n as int),
        mat(r@) == induced(mat(g@), f@, n as int),
{
    let mut r: Vec<Vec<bool>> = Vec::new();
    let mut a: usize = 0;
    while a < n
        invariant
            0 <= a <= n,
            square(mat(g@), n as int),
            f@.len() == n,
            r@.len() == a,
            forall|x: int| 0 <= x < a ==> (#[trigger] r@[x])@ == induced(mat(g@), f@, n as int)[x],
        decreases n - a,
    {
        let mut row: Vec<bool> = Vec::new();
        let mut b: usize = 0;
        proof {
            assert(mat(g@)[a as int] == g@[a as int]@);
        }
        while b < n
            invariant
                0 <= b <= n,
                a < n,
                square(mat(g@), n as int),
                f@.len() == n,
                mat(g@)[a as int] == g@[a as int]@,
                row@.len() == b,
                forall|y: int| 0 <= y < b ==> #[trigger] row@[y] == (mat(g@)[a as int][y] && f@[a as int] && f@[y]),
            decreases n - b,
        {
            row.push(g[a][b] && f[a] && f[b]);
            b += 1;
        }
        proof {
            assert(row@ =~= induced(mat(g@), f@, n as int)[a as int]);
        }
        r.push(row);
        a += 1;
    }
    proof {
        assert(mat(r@) =~= induced(mat(g@), f@, n as int));
    }
    r
}

/// The graph with every edge reversed.
fn transposed(g: &Vec<Vec<bool>>, n: usize) -> (r: Vec<Vec<bool>>)
    requires
        square(mat(g@), n as int),
    ensures
        square(mat(r@), n as int),
        mat(r@) == transpose(mat(g@), n as int),
{
    let mut r: Vec<Vec<bool>> = Vec::new();
    let mut a: usize = 0;
    while a < n
        invariant
            0 <= a <= n,
            square(mat(g@), n as int),
            r@.len() == a,
            forall|x: int| 0 <= x < a ==> (#[trigger] r@[x])@ == transpose(mat(g@), n as int)[x],
        decreases n - a,
    {
        let mut row: Vec<bool> = Vec::new();
        let mut b: usize = 0;
        while b < n
            invariant
                0 <= b <= n,
                a < n,
                square(mat(g@), n as int),
                row@.len() == b,
                forall|y: int| 0 <= y < b ==> #[trigger] row@[y] == mat(g@)[y][a as int],
            decreases n - b,
        {
            proof {
                assert(mat(g@)[b as int] == g@[b as int]@);
            }
            row.push(g[b][a]);
            b += 1;
        }
        proof {
            assert(row@ =~= transpose(mat(g@), n as int)[a as int]);
        }
        r.push(row);
        a += 1;
    }
    proof {
        assert(mat(r@) =~= transpose(mat(g@), n as int));
    }
    r
}

/// The nodes reachable from a flagged node of an induced graph are flagged.
proof fn lemma_reach_flagged(g: Seq<Seq<bool>>, f: Seq<bool>, n: int, x: int, y: int)
    requires
        f.len() == n,
        0 <= x < n,
        f[x],
        reaches(induced(g, f, n), x, y) || reaches(transpose(induced(g, f, n), n), x, y),
    ensures
        0 <= y < n,
        f[y],
{
    let h = induced(g, f, n);
    if reaches(h, x, y) {
        let p = choose|p: Seq<int>| #[trigger] is_path(h, p) && p[0] == x && p.last() == y;
        assert forall|a: int, b: int| 0 <= a < f.len() && f[a] && edge(h, a, b) implies 0 <= b < f.len() && f[b] by {
            assert(h[a][b]);
        }
        lemma_closed_path(h, f, p);
    } else {
        let ht = transpose(h, n);
        let p = choose|p: Seq<int>| #[trigger] is_path(ht, p) && p[0] == x && p.last() == y;
        assert forall|a: int, b: int| 0 <= a < f.len() && f[a] && edge(ht, a, b) implies 0 <= b < f.len() && f[b] by {
            assert(ht[a][b] == h[b][a]);
        }
        lemma_closed_path(ht, f, p);
    }
}

/// What `sort_active` knows of its working values.
spec fn sort_ctx(
    mods: Seq<Mod>,
    active: Seq<ModId>,
    s: SortSettings,
    a: Seq<Vec<bool>>,
    tiers: Seq<Vec<bool>>,
    nodes: Seq<Vec<char>>,
    strs: Seq<String>,
    names: Seq<Vec<char>>,
    ids: Seq<ModId>,
    flags: Seq<bool>,
    n: int,
) -> bool {
    &&& views(nodes) == node_pids(mods)
    &&& sv(strs) == node_pids(mods)
    &&& n == nodes.len()
    &&& node_pids(mods).no_duplicates()
    &&& square(mat(a), n)
    &&& mat(a) == active_graph(mods, active, s)
    &&& tiers.len() == 4
    &&& forall|k: int| 0 <= k < 4 ==> (#[trigger] tiers[k])@ == tier(mods, active, s, k)
    &&& forall|k: int, x: int| #![trigger tiers[k]@[x]] 0 <= k < 4 && 0 <= x < n && tiers[k]@[x] ==> flags[x]
    &&& flags == active_flags(mods, active)
    &&& views(names) == node_names(mods, active)
    &&& ids.len() == n
    &&& forall|x: int| 0 <= x < n && flags[x] ==> #[trigger] ids[x] == node_ids(mods, active)[x]
}

/// `v` holds `id`.
pub fn contains_id_pub(v: &Vec<ModId>, id: ModId) -> (r: bool)
    ensures
        r == v@.contains(id),
{
    contains_id(v, id)
}

/// `v` holds `id`.
fn contains_id(v: &Vec<ModId>, id: ModId) -> (r: bool)
    ensures
        r == v@.contains(id),
{
    let mut i: usize = 0;
    while i < v.len()
        invariant
            0 <= i <= v@.len(),
            forall|k: int| 0 <= k < i ==> v@[k] != id,
        decreases v@.len() - i,
    {
        if v[i] == id {
            return true;
        }
        i += 1;
    }
    false
}

proof fn lemma_dedup_push(s: Seq<ModId>, e: ModId)
    ensures
        dedup(s.push(e)) == if dedup(s).contains(e) {
            dedup(s)
        } else {
            dedup(s).push(e)
        },
{
    assert(s.push(e).drop_last() == s);
}

/// A copy of a node list.
fn copy_nodes(v: &Vec<usize>) -> (r: Vec<usize>)
    ensures
        r@ == v@,
{
    let mut r: Vec<usize> = Vec::new();
    let mut i: usize = 0;
    while i < v.len()
        invariant
            0 <= i <= v@.len(),
            r@ == v@.take(i as int),
        decreases v@.len() - i,
    {
        r.push(v[i]);
        proof {
            assert(v@.take(i + 1) == v@.take(i as int).push(v@[i as int]));
        }
        i += 1;
    }
    proof {
        assert(v@.take(i as int) == v@);
    }
    r
}

/// New load order for the active ids: the four tiers in turn, each level by level, each level
/// by lowercase name and then package id; every active id the tiers do not place (invalid mods,
/// a second id for a package id) follows in its current order. When a tier cannot be levelled
/// the order is empty and `cycles` names, each in package-id order, the cycles left in it.
pub fn sort_active(index: &ModIndex, active: &[ModId], settings: SortSettings) -> (out: SortOutcome)
    ensures
        (out.cycles@.len() == 0 && sort_ok(index.mods@, active@, settings, out.order@)) || (out.order@.len() == 0
            && sort_fails(index.mods@, active@, settings, lists_view(out.cycles@))),
{
    let ghost mods = index.mods@;
    proof {
        lemma_node_pids(mods);
    }
    let (nodes, strs) = collect_nodes(&index.mods);
    let n = nodes.len();
    let ghost v = views(nodes@);
    let mut g = build_rule_graph(&index.mods, &nodes);
    let (one, last) = tier_flags(&index.mods, &nodes, &strs);
    proof {
        assert(square(mat(g@), n as int)) by {
            assert forall|x: int| 0 <= x < n implies #[trigger] mat(g@)[x].len() == n by {
                assert(mat(g@)[x] == rule_graph(mods)[x]);
            }
        }
    }
    if settings.dependencies_as_load_after {
        let mut excl: Vec<bool> = Vec::new();
        let mut x: usize = 0;
        while x < n
            invariant
                0 <= x <= n,
                n == v.len(),
                v == node_pids(mods),
                one@.len() == n,
                last@.len() == n,
                forall|y: int| 0 <= y < n ==> #[trigger] one@[y] == in_tier_one(mods, v[y]),
                forall|y: int| 0 <= y < n ==> #[trigger] last@[y] == wants_last(mods, v[y]),
                excl@.len() == x,
                forall|y: int| 0 <= y < x ==> #[trigger] excl@[y] == excluded(mods)[y],
            decreases n - x,
        {
            excl.push(one[x] || last[x]);
            x += 1;
        }
        proof {
            assert(excl@ =~= excluded(mods));
        }
        add_inferred(&mut g, &index.mods, &nodes, &excl, settings.use_alternative_ids);
    }
    assert(mat(g@) == full_graph(mods, settings));
    let (flags, ids, names) = active_info(index, active, &nodes);
    let a = restrict(&g, n, &flags);
    let at = transposed(&a, n);
    let tz = tier_zero();
    let mut s0: Vec<bool> = Vec::new();
    let mut s1: Vec<bool> = Vec::new();
    let mut s3: Vec<bool> = Vec::new();
    let mut x: usize = 0;
    while x < n
        invariant
            0 <= x <= n,
            n == v.len(),
            v == node_pids(mods),
            v == views(nodes@),
            sv(strs@) == v,
            sv(tz@) == tier_zero_ids(),
            one@.len() == n,
            last@.len() == n,
            flags@ == active_flags(mods, active@),
            forall|y: int| 0 <= y < n ==> #[trigger] one@[y] == in_tier_one(mods, v[y]),
            forall|y: int| 0 <= y < n ==> #[trigger] last@[y] == wants_last(mods, v[y]),
            s0@.len() == x,
            s1@.len() == x,
            s3@.len() == x,
            forall|y: int| 0 <= y < x ==> #[trigger] s0@[y] == tier_starts(mods, active@, 0)[y],
            forall|y: int| 0 <= y < x ==> #[trigger] s1@[y] == tier_starts(mods, active@, 1)[y],
            forall|y: int| 0 <= y < x ==> #[trigger] s3@[y] == tier_starts(mods, active@, 3)[y],
        decreases n - x,
    {
        proof {
            assert(strs@[x as int]@ == v[x as int]);
        }
        s0.push(flags[x] && crate::text::contains_str(&tz, &strs[x]));
        s1.push(flags[x] && one[x]);
        s3.push(flags[x] && last[x]);
        x += 1;
    }
    proof {
        assert(s0@ =~= tier_starts(mods, active@, 0));
        assert(s1@ =~= tier_starts(mods, active@, 1));
        assert(s3@ =~= tier_starts(mods, active@, 3));
    }
    let t0 = crate::graph::closure(&a, n, &s0);
    let t1 = crate::graph::closure(&a, n, &s1);
    let t3 = crate::graph::closure(&at, n, &s3);
    let mut t2: Vec<bool> = Vec::new();
    let mut x: usize = 0;
    while x < n
        invariant
            0 <= x <= n,
            flags@.len() == n,
            t0@.len() == n,
            t1@.len() == n,
            t3@.len() == n,
            t2@.len() == x,
            forall|y: int| 0 <= y < x ==> #[trigger] t2@[y] == (flags@[y] && !t0@[y] && !t1@[y] && !t3@[y]),
        decreases n - x,
    {
        t2.push(flags[x] && !t0[x] && !t1[x] && !t3[x]);
        x += 1;
    }
    let ghost ag = mat(a@);
    proof {
        let f = flags@;
        assert(ag == active_graph(mods, active@, settings));
        assert(t0@ =~= reach_set(ag, s0@));
        assert(t1@ =~= reach_set(ag, s1@));
        assert(t3@ =~= reach_set(transpose(ag, n as int), s3@));
        assert(t0@ == tier(mods, active@, settings, 0));
        assert(t1@ == tier(mods, active@, settings, 1));
        assert(t3@ == tier(mods, active@, settings, 3));
        assert(t2@ =~= tier(mods, active@, settings, 2));
        assert forall|y: int| 0 <= y < n && (t0@[y] || t1@[y] || t3@[y]) implies f[y] by {
            if t0@[y] {
                let z = choose|z: int| 0 <= z < n && s0@[z] && reaches(ag, z, y);
                lemma_reach_flagged(mat(g@), f, n as int, z, y);
            } else if t1@[y] {
                let z = choose|z: int| 0 <= z < n && s1@[z] && reaches(ag, z, y);
                lemma_reach_flagged(mat(g@), f, n as int, z, y);
            } else {
                let z = choose|z: int| 0 <= z < n && s3@[z] && reaches(transpose(ag, n as int), z, y);
                lemma_reach_flagged(mat(g@), f, n as int, z, y);
            }
        }
    }
    let tiers = vec![t0, t1, t2, t3];
    proof {
        assert(tiers@[0] == t0 && tiers@[1] == t1 && tiers@[2] == t2 && tiers@[3] == t3);
        assert(views(nodes@) =~= nodes@.map_values(|s: Vec<char>| s@));
        assert(views(names@) =~= names@.map_values(|s: Vec<char>| s@));
    }
    let ghost names_s = node_names(mods, active@);
    let ghost nids = node_ids(mods, active@);
    let mut order: Vec<ModId> = Vec::new();
    let ghost mut ls: Seq<Seq<Seq<int>>> = Seq::empty();
    let ghost mut placed: Seq<int> = Seq::empty();
    let mut k: usize = 0;
    while k < 4
        invariant
            sort_ctx(mods, active@, settings, a@, tiers@, nodes@, strs@, names@, ids@, flags@, n as int),
            mods == index.mods@,
            v == node_pids(mods),
            ag == mat(a@),
            names_s == node_names(mods, active@),
            nids == node_ids(mods, active@),
            0 <= k <= 4,
            ls.len() == k,
            forall|j: int| 0 <= j < k ==> tier_listing(ag, tier(mods, active@, settings, j), names_s, v, #[trigger] ls[j]),
            placed == flat2(ls),
            order@ == dedup(ids_at(placed, nids)),
            forall|i: int| 0 <= i < placed.len() ==> 0 <= #[trigger] placed[i] < n && flags@[placed[i]],
        decreases 4 - k,
    {
        let ghost tk = tier(mods, active@, settings, k as int);
        assert(tiers@[k as int]@ == tk);
        match crate::graph::kahn(&a, n, &tiers[k]) {
            Ok(lv) => {
                let ghost mut cur: Seq<Seq<int>> = Seq::empty();
                let ghost p0 = placed;
                let mut q: usize = 0;
                while q < lv.len()
                    invariant
                        sort_ctx(mods, active@, settings, a@, tiers@, nodes@, strs@, names@, ids@, flags@, n as int),
                        v == node_pids(mods),
                        ag == mat(a@),
                        names_s == node_names(mods, active@),
                        nids == node_ids(mods, active@),
                        tk == tiers@[k as int]@,
                        tk == tier(mods, active@, settings, k as int),
                        0 <= k < 4,
                        kahn_levels(ag, tk, nested_ints(lv@)),
                        0 <= q <= lv@.len(),
                        cur.len() == q,
                        forall|i: int| 0 <= i < q ==> lists_ready(#[trigger] cur[i], ag, tk, kahn_done(ag, tk, i as nat)) && cur[i].len() > 0
                            && sorted_nodes(cur[i], names_s, v),
                        p0 == flat2(ls),
                        placed == p0 + cur.flatten(),
                        order@ == dedup(ids_at(placed, nids)),
                        forall|i: int| 0 <= i < placed.len() ==> 0 <= #[trigger] placed[i] < n && flags@[placed[i]],
                    decreases lv@.len() - q,
                {
                    let level = copy_nodes(&lv[q]);
                    let ghost lq = nested_ints(lv@)[q as int];
                    proof {
                        assert(lq == ints(level@));
                        assert(lists_ready(lq, ag, tk, kahn_done(ag, tk, q as nat)));
                        assert(level@.no_duplicates()) by {
                            assert forall|i: int, j: int| 0 <= i < level@.len() && 0 <= j < level@.len() && i != j implies level@[i] != level@[j] by {
                                assert(lq[i] != lq[j]);
                            }
                        }
                        assert(views(names@).len() == names@.len());
                        assert(tk.len() == n);
                        assert forall|i: int| 0 <= i < level@.len() implies #[trigger] level@[i] < names@.len() && level@[i] < nodes@.len() by {
                            assert(crate::graph::ready_at(ag, tk, kahn_done(ag, tk, q as nat), lq[i]));
                        }
                        assert forall|i: int, j: int| 0 <= i < nodes@.len() && 0 <= j < nodes@.len() && i != j implies #[trigger] nodes@[i]@ != #[trigger] nodes@[j]@ by {
                            assert(v[i] == nodes@[i]@ && v[j] == nodes@[j]@);
                        }
                    }
                    let sorted = crate::graph::sort_nodes(level, &names, &nodes);
                    let ghost sq = ints(sorted@);
                    proof {
                        crate::graph::lemma_sorted_level(level@, sorted@, ag, tk, kahn_done(ag, tk, q as nat), names_s, v);
                    }
                    let ghost pb = placed;
                    let mut i: usize = 0;
                    proof {
                        assert(sq.take(0) =~= Seq::<int>::empty());
                        assert(placed == pb + sq.take(0));
                    }
                    while i < sorted.len()
                        invariant
                            sort_ctx(mods, active@, settings, a@, tiers@, nodes@, strs@, names@, ids@, flags@, n as int),
                            nids == node_ids(mods, active@),
                            tk == tiers@[k as int]@,
                            0 <= k < 4,
                            sq == ints(sorted@),
                            lists_ready(sq, ag, tk, kahn_done(ag, tk, q as nat)),
                            ag == mat(a@),
                            0 <= i <= sorted@.len(),
                            placed == pb + sq.take(i as int),
                            order@ == dedup(ids_at(placed, nids)),
                            forall|j: int| 0 <= j < pb.len() ==> 0 <= #[trigger] pb[j] < n && flags@[pb[j]],
                        decreases sorted@.len() - i,
                    {
                        let z = sorted[i];
                        proof {
                            assert(crate::graph::ready_at(ag, tk, kahn_done(ag, tk, q as nat), sq[i as int]));
                            assert(sq[i as int] == z as int);
                            assert(tiers@[k as int]@[z as int]);
                        }
                        let id = ids[z];
                        let ghost pl0 = placed;
                        proof {
                            lemma_dedup_push(ids_at(pl0, nids), id);
                            assert(ids_at(pl0.push(z as int), nids) =~= ids_at(pl0, nids).push(id));
                        }
                        if !contains_id(&order, id) {
                            order.push(id);
                        }
                        proof {
                            placed = placed.push(z as int);
                            assert(sq.take(i + 1) == sq.take(i as int).push(z as int));
                            assert(placed == pb + sq.take(i + 1));
                        }
                        i += 1;
                    }
                    proof {
                        assert(sq.take(i as int) == sq);
                        cur.lemma_flatten_push(sq);
                        cur = cur.push(sq);
                        assert(placed == p0 + cur.flatten());
                        assert forall|j: int| 0 <= j < placed.len() implies 0 <= #[trigger] placed[j] < n && flags@[placed[j]] by {
                            if j >= pb.len() {
                                let w = j - pb.len();
                                assert(placed[j] == sq[w]);
                                assert(crate::graph::ready_at(ag, tk, kahn_done(ag, tk, q as nat), sq[w]));
                                assert(tiers@[k as int]@[sq[w]]);
                            } else {
                                assert(placed[j] == pb[j]);
                            }
                        }
                    }
                    q += 1;
                }
                proof {
                    assert(tier_listing(ag, tk, names_s, v, cur)) by {
                        assert(cur.len() == nested_ints(lv@).len());
                    }
                    let ls0 = ls;
                    ls = ls.push(cur);
                    assert(ls.drop_last() == ls0);
                    assert(flat2(ls) == p0 + cur.flatten());
                    assert forall|j: int| 0 <= j < k + 1 implies tier_listing(ag, tier(mods, active@, settings, j), names_s, v, #[trigger] ls[j]) by {
                        if j < k {
                            assert(ls[j] == ls.drop_last()[j]);
                        }
                    }
                }
                k += 1;
            },
            Err(rem) => {
                proof {
                    assert forall|i: int, j: int| 0 <= i < nodes@.len() && 0 <= j < nodes@.len() && i != j implies #[trigger] nodes@[i]@ != #[trigger] nodes@[j]@ by {
                        assert(v[i] == nodes@[i]@ && v[j] == nodes@[j]@);
                    }
                }
                let cs = crate::graph::cycles_of(&a, n, &rem, &nodes);
                let ghost csi = nested_ints(cs@);
                let mut cycles: Vec<Vec<String>> = Vec::new();
                let mut c: usize = 0;
                while c < cs.len()
                    invariant
                        sort_ctx(mods, active@, settings, a@, tiers@, nodes@, strs@, names@, ids@, flags@, n as int),
                        v == node_pids(mods),
                        csi == nested_ints(cs@),
                        crate::graph::cycle_listing(rem_graph(ag, rem@, n as int), n as int, v, csi),
                        ag == mat(a@),
                        0 <= c <= cs@.len(),
                        cycles@.len() == c,
                        forall|i: int| 0 <= i < c ==> sv((#[trigger] cycles@[i])@) == pid_list(csi[i], v),
                    decreases cs@.len() - c,
                {
                    let mut row: Vec<String> = Vec::new();
                    let mut e: usize = 0;
                    while e < cs[c].len()
                        invariant
                            sort_ctx(mods, active@, settings, a@, tiers@, nodes@, strs@, names@, ids@, flags@, n as int),
                            v == node_pids(mods),
                            csi == nested_ints(cs@),
                            crate::graph::cycle_listing(rem_graph(ag, rem@, n as int), n as int, v, csi),
                            0 <= c < cs@.len(),
                            0 <= e <= cs@[c as int]@.len(),
                            sv(row@) == pid_list(csi[c as int], v).take(e as int),
                        decreases cs@[c as int]@.len() - e,
                    {
                        let w = cs[c][e];
                        proof {
                            assert(csi[c as int][e as int] == w as int);
                            assert(0 <= csi[c as int][e as int] < n);
                            assert(strs@[w as int]@ == v[w as int]);
                            assert(pid_list(csi[c as int], v).take(e + 1) == pid_list(csi[c as int], v).take(e as int).push(v[w as int]));
                        }
                        row.push(strs[w].clone());
                        proof {
                            assert(sv(row@) == sv(row@.drop_last()).push(row@.last()@));
                        }
                        e += 1;
                    }
                    proof {
                        assert(pid_list(csi[c as int], v).take(e as int) == pid_list(csi[c as int], v));
                    }
                    cycles.push(row);
                    c += 1;
                }
                proof {
                    assert(lists_view(cycles@) =~= cycle_names(csi, v));
                    assert(tiers@[k as int]@ == tier(mods, active@, settings, ls.len() as int));
                    assert(fails_at(mods, active@, settings, ls, rem@, csi, lists_view(cycles@)));
                }
                return SortOutcome { order: Vec::new(), cycles };
            },
        }
    }
    let ghost base = ids_at(placed, nids);
    let mut j: usize = 0;
    proof {
        assert(active@.take(0) =~= Seq::<ModId>::empty());
        assert(base + active@.take(0) =~= base);
    }
    while j < active.len()
        invariant
            0 <= j <= active@.len(),
            order@ == dedup(base + active@.take(j as int)),
        decreases active@.len() - j,
    {
        let id = active[j];
        proof {
            lemma_dedup_push(base + active@.take(j as int), id);
            assert(base + active@.take(j + 1) == (base + active@.take(j as int)).push(id));
        }
        if !contains_id(&order, id) {
            order.push(id);
        }
        j += 1;
    }
    proof {
        assert(active@.take(j as int) == active@);
        assert(placed_by(mods, active@, settings, ls, order@));
    }
    SortOutcome { order, cycles: Vec::new() }
}

/// How a cycle member is shown: "Name (package.id)" after its first mod, or the bare id.
pub open spec fn display_name(mods: Seq<Mod>, p: Seq<char>) -> Seq<char> {
    let ms = pkg_mods(mods, p);
    if ms.len() > 0 {
        ms[0].name@ + " ("@ + p + ")"@
    } else {
        p
    }
}

/// One explanation line per package id of `others` that is another member of the cycle.
pub open spec fn list_lines(
    mods: Seq<Mod>,
    pid: Seq<char>,
    others: Seq<Seq<char>>,
    members: Seq<Seq<char>>,
    verb: Seq<char>,
    src: Seq<char>,
) -> Seq<Seq<char>>
    decreases others.len(),
{
    if others.len() == 0 {
        Seq::empty()
    } else {
        let r = list_lines(mods, pid, others.drop_last(), members, verb, src);
        let o = others.last();
        if members.contains(o) && o != pid {
            r.push(display_name(mods, pid) + verb + display_name(mods, o) + "  ["@ + src + "]"@)
        } else {
            r
        }
    }
}

/// The lines for the rules of `m` (package id `pid`): About.xml, community rules, user rules,
/// each loadAfter then loadBefore.
pub open spec fn mod_lines(mods: Seq<Mod>, m: Mod, pid: Seq<char>, members: Seq<Seq<char>>) -> Seq<Seq<char>> {
    let after = " must load after "@;
    let before = " must load before "@;
    list_lines(mods, pid, sv(m.rules.load_after@), members, after, "mod's About.xml"@)
        + list_lines(mods, pid, sv(m.rules.load_before@), members, before, "mod's About.xml"@)
        + list_lines(mods, pid, sv(m.community.load_after@), members, after, "community rules"@)
        + list_lines(mods, pid, sv(m.community.load_before@), members, before, "community rules"@)
        + list_lines(mods, pid, sv(m.user.load_after@), members, after, "your rules"@)
        + list_lines(mods, pid, sv(m.user.load_before@), members, before, "your rules"@)
}

/// The lines for the members `pids` of the cycle `members`, each after the first mod of its
/// package id (none for an id without a mod).
pub open spec fn cycle_lines(mods: Seq<Mod>, pids: Seq<Seq<char>>, members: Seq<Seq<char>>) -> Seq<Seq<char>>
    decreases pids.len(),
{
    if pids.len() == 0 {
        Seq::empty()
    } else {
        let r = cycle_lines(mods, pids.drop_last(), members);
        let p = pids.last();
        let ms = pkg_mods(mods, p);
        if ms.len() > 0 {
            r + mod_lines(mods, ms[0], p, members)
        } else {
            r
        }
    }
}

/// In ascending order (equal strings allowed).
pub open spec fn ascending(s: Seq<Seq<char>>) -> bool {
    forall|i: int, j: int| 0 <= i < j < s.len() ==> !lex_lt(#[trigger] s[j], #[trigger] s[i])
}

/// `v` sorted in ascending order.
pub fn sort_strings(v: Vec<String>) -> (r: Vec<String>)
    ensures
        sv(r@).to_multiset() == sv(v@).to_multiset(),
        ascending(sv(r@)),
{
    let mut input = v;
    let ghost orig = sv(input@);
    let mut out: Vec<String> = Vec::new();
    let mut keys: Vec<Vec<char>> = Vec::new();
    while input.len() > 0
        invariant
            sv(input@).to_multiset().add(sv(out@).to_multiset()) == orig.to_multiset(),
            ascending(sv(out@)),
            keys@.len() == out@.len(),
            forall|k: int| 0 <= k < out@.len() ==> #[trigger] keys@[k]@ == out@[k]@,
        decreases input@.len(),
    {
        let ghost before = input@;
        let x = input.pop().unwrap();
        proof {
            assert(before == input@.push(x));
            assert(sv(before) == sv(input@).push(x@));
        }
        let key = chars_of(x.as_str());
        let mut p: usize = 0;
        let mut go = true;
        while go && p < out.len()
            invariant
                0 <= p <= out@.len(),
                keys@.len() == out@.len(),
                forall|k: int| 0 <= k < out@.len() ==> #[trigger] keys@[k]@ == out@[k]@,
                key@ == x@,
                !go ==> p < out@.len() && lex_lt(x@, out@[p as int]@),
                forall|k: int| 0 <= k < p ==> !lex_lt(x@, #[trigger] out@[k]@),
            decreases out@.len() - p + (if go { 1int } else { 0int }),
        {
            if chars_lt(key.as_slice(), keys[p].as_slice()) {
                go = false;
            } else {
                p += 1;
            }
        }
        let ghost (s0, k0) = (sv(out@), keys@);
        proof {
            let s2 = s0.insert(p as int, x@);
            assert forall|i: int, j: int| 0 <= i < j < s2.len() implies !lex_lt(#[trigger] s2[j], #[trigger] s2[i]) by {
                if j < p {
                    assert(s2[i] == s0[i] && s2[j] == s0[j]);
                } else if j == p {
                    assert(s2[i] == s0[i]);
                    assert(s0[i] == out@[i]@);
                } else if i == p {
                    assert(s2[j] == s0[j - 1]);
                    assert(lex_lt(x@, s0[p as int]));
                    if j - 1 > p {
                        assert(!lex_lt(s0[j - 1], s0[p as int]));
                        crate::text::lemma_lex_total(s0[j - 1], s0[p as int]);
                        if lex_lt(s0[j - 1], x@) {
                            crate::text::lemma_lex_trans(s0[j - 1], x@, s0[p as int]);
                        }
                    } else {
                        crate::text::lemma_lex_asym(x@, s0[p as int]);
                    }
                } else if i < p {
                    assert(s2[i] == s0[i] && s2[j] == s0[j - 1]);
                } else {
                    assert(s2[i] == s0[i - 1] && s2[j] == s0[j - 1]);
                }
            }
        }
        out.insert(p, x);
        keys.insert(p, key);
        proof {
            assert(sv(out@) == s0.insert(p as int, x@));
            assert(sv(out@).to_multiset() == s0.to_multiset().insert(x@)) by {
                lemma_insert_multiset(s0, p as int, x@);
            }
            assert forall|k: int| 0 <= k < out@.len() implies #[trigger] keys@[k]@ == out@[k]@ by {
                if k < p {
                    assert(keys@[k] == k0[k]);
                } else if k > p {
                    assert(keys@[k] == k0[k - 1]);
                }
            }
        }
    }
    out
}

proof fn lemma_insert_multiset(s: Seq<Seq<char>>, p: int, x: Seq<char>)
    requires
        0 <= p <= s.len(),
    ensures
        s.insert(p, x).to_multiset() == s.to_multiset().insert(x),
{
    let a = s.take(p);
    let b = s.skip(p);
    assert(s == a + b);
    assert(s.insert(p, x) == a.push(x) + b);
    vstd::seq_lib::lemma_multiset_commutative(a.push(x), b);
    vstd::seq_lib::lemma_multiset_commutative(a, b);
}

/// How a cycle member is shown.
fn display(index: &ModIndex, pid: &String) -> (r: String)
    ensures
        r@ == display_name(index.mods@, pid@),
{
    let ms = index.by_package(pid.as_str());
    if ms.len() > 0 {
        let mut s = ms[0].name.clone();
        s.append(" (");
        s.append(pid.as_str());
        s.append(")");
        s
    } else {
        pid.clone()
    }
}

/// Appends the explanation lines for the package ids `others` of the rules of `pid`.
fn push_lines(
    index: &ModIndex,
    pid: &String,
    others: &Vec<String>,
    members: &Vec<String>,
    verb: &str,
    src: &str,
    lines: &mut Vec<String>,
)
    ensures
        sv(final(lines)@) == sv(old(lines)@) + list_lines(index.mods@, pid@, sv(others@), sv(members@), verb@, src@),
{
    let ghost l0 = sv(lines@);
    let mut k: usize = 0;
    proof {
        assert(sv(others@).take(0) =~= Seq::<Seq<char>>::empty());
        assert(l0 + Seq::<Seq<char>>::empty() == l0);
    }
    while k < others.len()
        invariant
            0 <= k <= others@.len(),
            sv(lines@) == l0 + list_lines(index.mods@, pid@, sv(others@).take(k as int), sv(members@), verb@, src@),
        decreases others@.len() - k,
    {
        let o = &others[k];
        proof {
            assert(sv(others@).take(k + 1).drop_last() == sv(others@).take(k as int));
            assert(sv(others@).take(k + 1).last() == o@);
        }
        if crate::text::contains_str(members, o) && !(*o == *pid) {
            let mut line = display(index, pid);
            line.append(verb);
            let od = display(index, o);
            line.append(od.as_str());
            line.append("  [");
            line.append(src);
            line.append("]");
            let ghost before = lines@;
            lines.push(line);
            proof {
                assert(sv(lines@) == sv(before).push(line@));
            }
        }
        k += 1;
    }
    proof {
        assert(sv(others@).take(k as int) == sv(others@));
    }
}

/// Human-readable rules that form each cycle: "A must load after B  [mod's About.xml]" (or
/// community rules, or your rules), for the rules whose both ends are in the cycle, sorted.
pub fn explain_cycles(index: &ModIndex, cycles: &[Vec<String>]) -> (r: Vec<Vec<String>>)
    ensures
        r@.len() == cycles@.len(),
        forall|i: int|
            0 <= i < r@.len() ==> sv((#[trigger] r@[i])@).to_multiset() == cycle_lines(
                index.mods@,
                sv(cycles@[i]@),
                sv(cycles@[i]@),
            ).to_multiset() && ascending(sv(r@[i]@)),
{
    let mut out: Vec<Vec<String>> = Vec::new();
    let mut c: usize = 0;
    while c < cycles.len()
        invariant
            0 <= c <= cycles@.len(),
            out@.len() == c,
            forall|i: int|
                0 <= i < c ==> sv((#[trigger] out@[i])@).to_multiset() == cycle_lines(
                    index.mods@,
                    sv(cycles@[i]@),
                    sv(cycles@[i]@),
                ).to_multiset() && ascending(sv(out@[i]@)),
        decreases cycles@.len() - c,
    {
        let cycle = &cycles[c];
        let ghost members = sv(cycle@);
        let mut lines: Vec<String> = Vec::new();
        let mut k: usize = 0;
        proof {
            assert(members.take(0) =~= Seq::<Seq<char>>::empty());
        }
        while k < cycle.len()
            invariant
                0 <= k <= cycle@.len(),
                members == sv(cycle@),
                sv(lines@) == cycle_lines(index.mods@, members.take(k as int), members),
            decreases cycle@.len() - k,
        {
            let pid = &cycle[k];
            proof {
                assert(members.take(k + 1).drop_last() == members.take(k as int));
                assert(members.take(k + 1).last() == pid@);
            }
            let ms = index.by_package(pid.as_str());
            if ms.len() > 0 {
                let m = ms[0];
                let ghost l0 = sv(lines@);
                push_lines(index, pid, &m.rules.load_after, cycle, " must load after ", "mod's About.xml", &mut lines);
                push_lines(index, pid, &m.rules.load_before, cycle, " must load before ", "mod's About.xml", &mut lines);
                push_lines(index, pid, &m.community.load_after, cycle, " must load after ", "community rules", &mut lines);
                push_lines(index, pid, &m.community.load_before, cycle, " must load before ", "community rules", &mut lines);
                push_lines(index, pid, &m.user.load_after, cycle, " must load after ", "your rules", &mut lines);
                push_lines(index, pid, &m.user.load_before, cycle, " must load before ", "your rules", &mut lines);
                proof {
                    assert(*m == pkg_mods(index.mods@, pid@)[0]);
                    assert(sv(lines@) == l0 + mod_lines(index.mods@, *m, pid@, members));
                }
            }
            k += 1;
        }
        proof {
            assert(members.take(k as int) == members);
        }
        let sorted = sort_strings(lines);
        out.push(sorted);
        c += 1;
    }
    out
}

/// `dedup` keeps exactly the elements of its input, once each.
proof fn lemma_dedup(s: Seq<ModId>)
    ensures
        dedup(s).no_duplicates(),
        forall|x: ModId| #[trigger] dedup(s).contains(x) <==> s.contains(x),
    decreases s.len(),
{
    if s.len() > 0 {
        let r = dedup(s.drop_last());
        lemma_dedup(s.drop_last());
        assert forall|x: ModId| #[trigger] dedup(s).contains(x) <==> s.contains(x) by {
            if s.contains(x) {
                let i = choose|i: int| 0 <= i < s.len() && s[i] == x;
                if i < s.len() - 1 {
                    assert(s.drop_last()[i] == x);
                    assert(s.drop_last().contains(x));
                }
            }
            if s.drop_last().contains(x) {
                let i = choose|i: int| 0 <= i < s.drop_last().len() && s.drop_last()[i] == x;
                assert(s[i] == x);
            }
            if !r.contains(s.last()) {
                assert(r.push(s.last()).last() == s.last());
                if r.push(s.last()).contains(x) {
                    let i = choose|i: int| 0 <= i < r.push(s.last()).len() && r.push(s.last())[i] == x;
                    if i < r.len() {
                        assert(r[i] == x);
                    }
                }
                if r.contains(x) {
                    let i = choose|i: int| 0 <= i < r.len() && r[i] == x;
                    assert(r.push(s.last())[i] == x);
                }
            }
        }
    }
}

/// A valid-mod position in `active`, when there is one, lies inside it.
proof fn lemma_first_active_range(mods: Seq<Mod>, active: Seq<ModId>, p: Seq<char>)
    ensures
        first_active(mods, active, p) < active.len(),
    decreases active.len(),
{
    if active.len() > 0 {
        lemma_first_active_range(mods, active.drop_last(), p);
    }
}

/// What every node of every level satisfies holds of every node of `flat2`.
proof fn lemma_flat2_all(ls: Seq<Seq<Seq<int>>>, q: spec_fn(int) -> bool)
    requires
        forall|k: int, j: int, m: int|
            0 <= k < ls.len() && 0 <= j < ls[k].len() && 0 <= m < ls[k][j].len() ==> q(#[trigger] ls[k][j][m]),
    ensures
        forall|i: int| 0 <= i < flat2(ls).len() ==> q(#[trigger] flat2(ls)[i]),
    decreases ls.len(),
{
    if ls.len() > 0 {
        lemma_flat2_all(ls.drop_last(), q);
        lemma_flatten_all(ls.last(), q, ls.len() - 1, ls);
        let a = flat2(ls.drop_last());
        let b = ls.last().flatten();
        assert forall|i: int| 0 <= i < flat2(ls).len() implies q(#[trigger] flat2(ls)[i]) by {
            if i < a.len() {
                assert(flat2(ls)[i] == a[i]);
            } else {
                assert(flat2(ls)[i] == b[i - a.len()]);
            }
        }
    }
}

/// What every node of the levels `lv` (tier `k` of `ls`) satisfies holds of their flattening.
proof fn lemma_flatten_all(lv: Seq<Seq<int>>, q: spec_fn(int) -> bool, k: int, ls: Seq<Seq<Seq<int>>>)
    requires
        forall|j: int, m: int| 0 <= j < lv.len() && 0 <= m < lv[j].len() ==> q(#[trigger] lv[j][m]),
    ensures
        forall|i: int| 0 <= i < lv.flatten().len() ==> q(#[trigger] lv.flatten()[i]),
    decreases lv.len(),
{
    if lv.len() > 0 {
        lemma_flatten_all(lv.drop_first(), q, k, ls);
        assert forall|j: int, m: int| 0 <= j < lv.drop_first().len() && 0 <= m < lv.drop_first()[j].len() implies q(#[trigger] lv.drop_first()[j][m]) by {
            assert(lv.drop_first()[j] == lv[j + 1]);
        }
        let a = lv.first();
        let b = lv.drop_first().flatten();
        assert forall|i: int| 0 <= i < lv.flatten().len() implies q(#[trigger] lv.flatten()[i]) by {
            assert(lv.flatten() == a + b);
            if i < a.len() {
                assert(lv.flatten()[i] == lv[0][i]);
            } else {
                assert(lv.flatten()[i] == b[i - a.len()]);
            }
        }
    }
}

/// A node reachable from an active node in the active graph (or its reverse) is active.
proof fn lemma_reach_active(mods: Seq<Mod>, active: Seq<ModId>, s: SortSettings, rev: bool, x: int, y: int)
    requires
        active_flags(mods, active)[x],
        0 <= x < node_pids(mods).len(),
        reaches(
            if rev {
                transpose(active_graph(mods, active, s), node_pids(mods).len() as int)
            } else {
                active_graph(mods, active, s)
            },
            x,
            y,
        ),
    ensures
        0 <= y < node_pids(mods).len(),
        active_flags(mods, active)[y],
{
    let n = node_pids(mods).len() as int;
    let f = active_flags(mods, active);
    let g = active_graph(mods, active, s);
    let h = if rev { transpose(g, n) } else { g };
    let p = choose|p: Seq<int>| #[trigger] is_path(h, p) && p[0] == x && p.last() == y;
    if p.len() >= 2 {
        let z = p[p.len() - 2];
        assert(edge(h, p[p.len() - 2], p[p.len() - 2 + 1]));
        assert(p[p.len() - 2 + 1] == y);
        if rev {
            assert(h[z][y] == g[y][z]);
        }
    }
}

/// Every node a tier holds is active.
proof fn lemma_tier_active(mods: Seq<Mod>, active: Seq<ModId>, s: SortSettings, k: int, y: int)
    requires
        0 <= y < tier(mods, active, s, k).len(),
        tier(mods, active, s, k)[y],
    ensures
        0 <= y < node_pids(mods).len(),
        active_flags(mods, active)[y],
{
    let n = node_pids(mods).len() as int;
    let g = active_graph(mods, active, s);
    if k == 0 || k == 1 || k == 3 {
        let st = tier_starts(mods, active, if k == 0 { 0 } else if k == 1 { 1 } else { 3 });
        let h = if k == 3 { transpose(g, n) } else { g };
        assert(tier(mods, active, s, k) == reach_set(h, st));
        let x = choose|x: int| 0 <= x < st.len() && st[x] && reaches(h, x, y);
        lemma_reach_active(mods, active, s, k == 3, x, y);
    }
}

/// A successful sort lists every active id exactly once, and nothing else: sorting only
/// reorders the active list.
pub proof fn law_sort_reorders_only(mods: Seq<Mod>, active: Seq<ModId>, s: SortSettings, order: Seq<ModId>)
    requires
        sort_ok(mods, active, s, order),
    ensures
        order.no_duplicates(),
        forall|x: ModId| #[trigger] order.contains(x) <==> active.contains(x),
{
    let ls = choose|ls: Seq<Seq<Seq<int>>>| #[trigger] placed_by(mods, active, s, ls, order);
    let g = active_graph(mods, active, s);
    let v = node_pids(mods);
    let f = active_flags(mods, active);
    let ni = node_ids(mods, active);
    let q = |x: int| 0 <= x < v.len() && f[x];
    assert forall|k: int, j: int, m: int|
        0 <= k < ls.len() && 0 <= j < ls[k].len() && 0 <= m < ls[k][j].len() implies q(#[trigger] ls[k][j][m]) by {
        assert(tier_listing(g, tier(mods, active, s, k), node_names(mods, active), v, ls[k]));
        let t = tier(mods, active, s, k);
        assert(kahn_levels(g, t, ls[k]));
        assert(lists_ready(ls[k][j], g, t, kahn_done(g, t, j as nat)));
        assert(crate::graph::ready_at(g, t, kahn_done(g, t, j as nat), ls[k][j][m]));
        lemma_tier_active(mods, active, s, k, ls[k][j][m]);
    }
    lemma_flat2_all(ls, q);
    let fl = flat2(ls);
    let xs = ids_at(fl, ni);
    assert forall|i: int| 0 <= i < xs.len() implies active.contains(#[trigger] xs[i]) by {
        assert(q(fl[i]));
        let w = first_active(mods, active, v[fl[i]]);
        lemma_first_active_range(mods, active, v[fl[i]]);
        assert(xs[i] == active[w]);
    }
    lemma_dedup(xs + active);
    assert forall|x: ModId| #[trigger] order.contains(x) <==> active.contains(x) by {
        let c = xs + active;
        if c.contains(x) {
            let i = choose|i: int| 0 <= i < c.len() && c[i] == x;
            if i >= xs.len() {
                assert(active[i - xs.len()] == x);
            }
        }
        if active.contains(x) {
            let i = choose|i: int| 0 <= i < active.len() && active[i] == x;
            assert(c[i + xs.len()] == x);
        }
    }
}

/// The package id of the valid mod an id names.
pub open spec fn pid_of(mods: Seq<Mod>, id: ModId) -> Seq<char> {
    mods[act_mod_pos(mods, id)].package_id@
}

/// Every active id names a valid mod, and no two active ids name the same package.
pub open spec fn plain_active(mods: Seq<Mod>, active: Seq<ModId>) -> bool {
    &&& forall|i: int| 0 <= i < active.len() ==> act_mod_pos(mods, #[trigger] active[i]) >= 0
    &&& forall|i: int, j: int|
        0 <= i < active.len() && 0 <= j < active.len() && active[i] != active[j] ==> pid_of(mods, #[trigger] active[i])
            != pid_of(mods, #[trigger] active[j])
}

/// `first_active` finds an id naming a valid mod of the package exactly when there is one.
proof fn lemma_first_active_found(mods: Seq<Mod>, active: Seq<ModId>, p: Seq<char>)
    ensures
        first_active(mods, active, p) < active.len(),
        first_active(mods, active, p) >= 0 ==> act_mod_pos(mods, active[first_active(mods, active, p)]) >= 0
            && pid_of(mods, active[first_active(mods, active, p)]) == p,
        (exists|i: int| 0 <= i < active.len() && act_mod_pos(mods, #[trigger] active[i]) >= 0 && pid_of(mods, active[i]) == p)
            ==> first_active(mods, active, p) >= 0,
    decreases active.len(),
{
    if active.len() > 0 {
        let d = active.drop_last();
        lemma_first_active_found(mods, d, p);
        if first_active(mods, d, p) >= 0 {
            assert(active[first_active(mods, d, p)] == d[first_active(mods, d, p)]);
        }
        if exists|i: int| 0 <= i < active.len() && act_mod_pos(mods, #[trigger] active[i]) >= 0 && pid_of(mods, active[i]) == p {
            let i = choose|i: int| 0 <= i < active.len() && act_mod_pos(mods, #[trigger] active[i]) >= 0 && pid_of(mods, active[i]) == p;
            if i < active.len() - 1 {
                assert(d[i] == active[i]);
            }
        }
    }
}

/// Two sorted listings of the same nodes are the same.
proof fn lemma_sorted_unique(a: Seq<int>, b: Seq<int>, names: Seq<Seq<char>>, pids: Seq<Seq<char>>)
    requires
        crate::graph::sorted_nodes(a, names, pids),
        crate::graph::sorted_nodes(b, names, pids),
        forall|x: int| #![trigger a.contains(x)] #![trigger b.contains(x)] a.contains(x) <==> b.contains(x),
    ensures
        a == b,
    decreases a.len() + b.len(),
{
    if a.len() == 0 {
        if b.len() > 0 {
            assert(b.contains(b[0]));
        }
        assert(a =~= b);
    } else if b.len() == 0 {
        assert(a.contains(a[0]));
    } else {
        if a[0] != b[0] {
            assert(a.contains(a[0]));
            let j = choose|j: int| 0 <= j < b.len() && b[j] == a[0];
            assert(b.contains(b[0]));
            let i = choose|i: int| 0 <= i < a.len() && a[i] == b[0];
            assert(crate::graph::node_lt(names, pids, b[0], b[j]));
            assert(crate::graph::node_lt(names, pids, a[0], a[i]));
            crate::graph::lemma_node_lt_asym(names, pids, a[0], b[0]);
        }
        let (a2, b2) = (a.drop_first(), b.drop_first());
        assert forall|x: int| #![trigger a2.contains(x)] #![trigger b2.contains(x)] a2.contains(x) <==> b2.contains(x) by {
            if a2.contains(x) {
                let i = choose|i: int| 0 <= i < a2.len() && a2[i] == x;
                assert(a[i + 1] == x);
                assert(a.contains(x));
                let j = choose|j: int| 0 <= j < b.len() && b[j] == x;
                if j == 0 {
                    assert(crate::graph::node_lt(names, pids, a[0], a[i + 1]));
                    crate::graph::lemma_node_lt_asym(names, pids, a[0], a[0]);
                }
                assert(b2[j - 1] == x);
            }
            if b2.contains(x) {
                let j = choose|j: int| 0 <= j < b2.len() && b2[j] == x;
                assert(b[j + 1] == x);
                assert(b.contains(x));
                let i = choose|i: int| 0 <= i < a.len() && a[i] == x;
                if i == 0 {
                    assert(crate::graph::node_lt(names, pids, b[0], b[j + 1]));
                    crate::graph::lemma_node_lt_asym(names, pids, b[0], b[0]);
                }
                assert(a2[i - 1] == x);
            }
        }
        assert forall|i: int, j: int| 0 <= i < j < a2.len() implies crate::graph::node_lt(names, pids, #[trigger] a2[i], #[trigger] a2[j]) by {
            assert(a2[i] == a[i + 1] && a2[j] == a[j + 1]);
        }
        assert forall|i: int, j: int| 0 <= i < j < b2.len() implies crate::graph::node_lt(names, pids, #[trigger] b2[i], #[trigger] b2[j]) by {
            assert(b2[i] == b[i + 1] && b2[j] == b[j + 1]);
        }
        lemma_sorted_unique(a2, b2, names, pids);
        assert(a =~= seq![a[0]] + a2);
        assert(b =~= seq![b[0]] + b2);
    }
}

/// Two level listings of one tier are the same.
proof fn lemma_levels_unique(
    g: Seq<Seq<bool>>,
    t: Seq<bool>,
    names: Seq<Seq<char>>,
    pids: Seq<Seq<char>>,
    l1: Seq<Seq<int>>,
    l2: Seq<Seq<int>>,
)
    requires
        tier_listing(g, t, names, pids, l1),
        tier_listing(g, t, names, pids, l2),
    ensures
        l1 == l2,
{
    if l1.len() < l2.len() {
        let k = l1.len() as int;
        assert(crate::graph::lists_ready(l2[k], g, t, kahn_done(g, t, k as nat)));
        let y = l2[k][0];
        assert(crate::graph::ready_at(g, t, kahn_done(g, t, k as nat), y));
        assert(kahn_done(g, t, l1.len())[y] == t[y]);
    } else if l2.len() < l1.len() {
        let k = l2.len() as int;
        assert(crate::graph::lists_ready(l1[k], g, t, kahn_done(g, t, k as nat)));
        let y = l1[k][0];
        assert(crate::graph::ready_at(g, t, kahn_done(g, t, k as nat), y));
        assert(kahn_done(g, t, l2.len())[y] == t[y]);
    }
    assert forall|k: int| 0 <= k < l1.len() implies l1[k] == l2[k] by {
        let d = kahn_done(g, t, k as nat);
        assert(crate::graph::lists_ready(l1[k], g, t, d));
        assert(crate::graph::lists_ready(l2[k], g, t, d));
        assert forall|x: int| #![trigger l1[k].contains(x)] #![trigger l2[k].contains(x)] l1[k].contains(x) <==> l2[k].contains(x) by {
            if l1[k].contains(x) {
                let i = choose|i: int| 0 <= i < l1[k].len() && l1[k][i] == x;
                assert(crate::graph::ready_at(g, t, d, l1[k][i]));
            }
            if l2[k].contains(x) {
                let i = choose|i: int| 0 <= i < l2[k].len() && l2[k][i] == x;
                assert(crate::graph::ready_at(g, t, d, l2[k][i]));
            }
        }
        assert(crate::graph::sorted_nodes(l1[k], names, pids));
        assert(crate::graph::sorted_nodes(l2[k], names, pids));
        lemma_sorted_unique(l1[k], l2[k], names, pids);
    }
    assert(l1 =~= l2);
}

/// A node placed within `n` rounds was ready in one of them.
proof fn lemma_placed_round(g: Seq<Seq<bool>>, t: Seq<bool>, n: nat, x: int)
    requires
        0 <= x < t.len(),
        kahn_done(g, t, n)[x],
    ensures
        exists|j: nat| j < n && #[trigger] crate::graph::ready_at(g, t, kahn_done(g, t, j), x),
    decreases n,
{
    if n > 0 {
        let d = kahn_done(g, t, (n - 1) as nat);
        assert(kahn_done(g, t, n) == crate::graph::kahn_step(g, t, d));
        if d[x] {
            lemma_placed_round(g, t, (n - 1) as nat, x);
            let j = choose|j: nat| j < n - 1 && #[trigger] crate::graph::ready_at(g, t, kahn_done(g, t, j), x);
            assert(j < n);
        } else {
            assert(crate::graph::ready_at(g, t, kahn_done(g, t, (n - 1) as nat), x));
        }
    }
}

/// A node of a level of a tier occurs in `flat2`.
proof fn lemma_in_flat2(ls: Seq<Seq<Seq<int>>>, k: int, j: int, x: int)
    requires
        0 <= k < ls.len(),
        0 <= j < ls[k].len(),
        ls[k][j].contains(x),
    ensures
        flat2(ls).contains(x),
    decreases ls.len(),
{
    let a = flat2(ls.drop_last());
    if k < ls.len() - 1 {
        assert(ls.drop_last()[k] == ls[k]);
        lemma_in_flat2(ls.drop_last(), k, j, x);
        let i = choose|i: int| 0 <= i < a.len() && a[i] == x;
        assert(flat2(ls)[i] == x);
    } else {
        lemma_in_flatten(ls.last(), j, x);
        let b = ls.last().flatten();
        let i = choose|i: int| 0 <= i < b.len() && b[i] == x;
        assert(flat2(ls)[a.len() + i] == x);
    }
}

/// A node of a level occurs in the flattened levels.
proof fn lemma_in_flatten(lv: Seq<Seq<int>>, j: int, x: int)
    requires
        0 <= j < lv.len(),
        lv[j].contains(x),
    ensures
        lv.flatten().contains(x),
    decreases lv.len(),
{
    let a = lv.first();
    let b = lv.drop_first().flatten();
    assert(lv.flatten() == a + b);
    if j == 0 {
        let i = choose|i: int| 0 <= i < a.len() && a[i] == x;
        assert(lv.flatten()[i] == x);
    } else {
        assert(lv.drop_first()[j - 1] == lv[j]);
        lemma_in_flatten(lv.drop_first(), j - 1, x);
        let i = choose|i: int| 0 <= i < b.len() && b[i] == x;
        assert(lv.flatten()[a.len() + i] == x);
    }
}

/// Ids that already occur do not change `dedup`.
proof fn lemma_dedup_absorbs(x: Seq<ModId>, a: Seq<ModId>)
    requires
        forall|i: int| 0 <= i < a.len() ==> x.contains(#[trigger] a[i]),
    ensures
        dedup(x + a) == dedup(x),
    decreases a.len(),
{
    if a.len() == 0 {
        assert(x + a =~= x);
    } else {
        let d = a.drop_last();
        assert((x + a).drop_last() =~= x + d);
        assert((x + a).last() == a.last());
        lemma_dedup_absorbs(x, d);
        lemma_dedup(x + d);
        assert(x.contains(a[a.len() - 1]));
        let i = choose|i: int| 0 <= i < x.len() && x[i] == a.last();
        assert((x + d)[i] == a.last());
    }
}

/// The sorted order does not depend on the order of the active list: two orderings of the
/// same active mods, each naming a valid mod and no package twice, sort to the same order.
/// Two active lists with the same ids (each naming one installed mod per package) give the
/// sort the same graph, names and tiers.
proof fn lemma_same_active(mods: Seq<Mod>, a1: Seq<ModId>, a2: Seq<ModId>, s: SortSettings)
    requires
        forall|id: ModId| #![trigger a1.contains(id)] #![trigger a2.contains(id)] a1.contains(id) <==> a2.contains(id),
        plain_active(mods, a1),
        plain_active(mods, a2),
    ensures
        active_flags(mods, a1) == active_flags(mods, a2),
        forall|x: int| 0 <= x < node_pids(mods).len() && active_flags(mods, a1)[x] ==> node_ids(mods, a1)[x] == node_ids(mods, a2)[x],
        node_names(mods, a1) == node_names(mods, a2),
        active_graph(mods, a1, s) == active_graph(mods, a2, s),
        forall|k: int| tier(mods, a1, s, k) == tier(mods, a2, s, k),
{
    let v = node_pids(mods);
    lemma_node_pids(mods);
    let n = v.len() as int;
    let (f1, f2) = (active_flags(mods, a1), active_flags(mods, a2));
    let (n1, n2) = (node_ids(mods, a1), node_ids(mods, a2));
    assert forall|x: int| 0 <= x < n implies f1[x] == f2[x] && (f1[x] ==> n1[x] == n2[x]) by {
        let p = v[x];
        lemma_first_active_found(mods, a1, p);
        lemma_first_active_found(mods, a2, p);
        let (w1, w2) = (first_active(mods, a1, p), first_active(mods, a2, p));
        if w1 >= 0 {
            assert(a1.contains(a1[w1]));
            let j = choose|j: int| 0 <= j < a2.len() && a2[j] == a1[w1];
            assert(act_mod_pos(mods, a2[j]) >= 0 && pid_of(mods, a2[j]) == p);
            assert(w2 >= 0);
            if a2[w2] != a2[j] {
                assert(pid_of(mods, a2[w2]) != pid_of(mods, a2[j]));
            }
        }
        if w2 >= 0 {
            assert(a2.contains(a2[w2]));
            let j = choose|j: int| 0 <= j < a1.len() && a1[j] == a2[w2];
            assert(act_mod_pos(mods, a1[j]) >= 0 && pid_of(mods, a1[j]) == p);
            assert(w1 >= 0);
        }
    }
    assert(f1 =~= f2);
    assert(node_names(mods, a1) =~= node_names(mods, a2)) by {
        assert forall|x: int| 0 <= x < n implies #[trigger] node_names(mods, a1)[x] == node_names(mods, a2)[x] by {
            if f1[x] {
                assert(n1[x] == n2[x]);
            }
        }
    }
    assert(active_graph(mods, a1, s) == active_graph(mods, a2, s));
    assert forall|k: int| tier(mods, a1, s, k) == tier(mods, a2, s, k) by {}
}

pub proof fn law_sort_ignores_input_order(
    mods: Seq<Mod>,
    a1: Seq<ModId>,
    a2: Seq<ModId>,
    s: SortSettings,
    o1: Seq<ModId>,
    o2: Seq<ModId>,
)
    requires
        sort_ok(mods, a1, s, o1),
        sort_ok(mods, a2, s, o2),
        forall|id: ModId| #![trigger a1.contains(id)] #![trigger a2.contains(id)] a1.contains(id) <==> a2.contains(id),
        plain_active(mods, a1),
        plain_active(mods, a2),
    ensures
        o1 == o2,
{
    let v = node_pids(mods);
    lemma_node_pids(mods);
    let n = v.len() as int;
    let (f1, f2) = (active_flags(mods, a1), active_flags(mods, a2));
    let (n1, n2) = (node_ids(mods, a1), node_ids(mods, a2));
    lemma_same_active(mods, a1, a2, s);
    let g = active_graph(mods, a1, s);
    let ls1 = choose|ls: Seq<Seq<Seq<int>>>| #[trigger] placed_by(mods, a1, s, ls, o1);
    let ls2 = choose|ls: Seq<Seq<Seq<int>>>| #[trigger] placed_by(mods, a2, s, ls, o2);
    assert forall|k: int| 0 <= k < 4 implies ls1[k] == ls2[k] by {
        assert(tier(mods, a1, s, k) == tier(mods, a2, s, k));
        assert(tier_listing(g, tier(mods, a1, s, k), node_names(mods, a1), v, ls1[k]));
        assert(tier_listing(g, tier(mods, a2, s, k), node_names(mods, a2), v, ls2[k]));
        lemma_levels_unique(g, tier(mods, a1, s, k), node_names(mods, a1), v, ls1[k], ls2[k]);
    }
    assert(ls1 =~= ls2);
    let ls = ls1;
    let q = |x: int| 0 <= x < v.len() && f1[x];
    assert forall|k: int, j: int, m: int|
        0 <= k < ls.len() && 0 <= j < ls[k].len() && 0 <= m < ls[k][j].len() implies q(#[trigger] ls[k][j][m]) by {
        let t = tier(mods, a1, s, k);
        assert(tier_listing(g, t, node_names(mods, a1), v, ls[k]));
        assert(crate::graph::lists_ready(ls[k][j], g, t, kahn_done(g, t, j as nat)));
        assert(crate::graph::ready_at(g, t, kahn_done(g, t, j as nat), ls[k][j][m]));
        lemma_tier_active(mods, a1, s, k, ls[k][j][m]);
    }
    lemma_flat2_all(ls, q);
    let fl = flat2(ls);
    let x1 = ids_at(fl, n1);
    let x2 = ids_at(fl, n2);
    assert(x1 =~= x2) by {
        assert forall|i: int| 0 <= i < fl.len() implies #[trigger] x1[i] == x2[i] by {
            assert(q(fl[i]));
        }
    }
    assert forall|i: int| 0 <= i < a1.len() implies x1.contains(#[trigger] a1[i]) by {
        let id = a1[i];
        let p = pid_of(mods, id);
        let k0 = act_mod_pos(mods, id);
        crate::mods::lemma_last_with_id(mods, id);
        assert(mods[k0].valid && mods[k0].package_id@ == p);
        assert(has_valid(mods, p));
        assert(v.contains(p));
        let x = choose|x: int| 0 <= x < v.len() && v[x] == p;
        lemma_first_active_found(mods, a1, p);
        let w = first_active(mods, a1, p);
        assert(f1[x]);
        if a1[w] != id {
            assert(pid_of(mods, a1[w]) != pid_of(mods, a1[i]));
        }
        assert(n1[x] == id);
        let tk: int = if tier(mods, a1, s, 0)[x] { 0 } else if tier(mods, a1, s, 1)[x] { 1 } else if tier(mods, a1, s, 3)[x] { 3 } else { 2 };
        let t = tier(mods, a1, s, tk);
        assert(t[x]);
        assert(tier_listing(g, t, node_names(mods, a1), v, ls[tk]));
        assert(kahn_done(g, t, ls[tk].len())[x] == t[x]);
        lemma_placed_round(g, t, ls[tk].len(), x);
        let j = choose|j: nat| j < ls[tk].len() && #[trigger] crate::graph::ready_at(g, t, kahn_done(g, t, j), x);
        assert(crate::graph::lists_ready(ls[tk][j as int], g, t, kahn_done(g, t, j)));
        assert(ls[tk][j as int].contains(x));
        lemma_in_flat2(ls, tk, j as int, x);
        let m = choose|m: int| 0 <= m < fl.len() && fl[m] == x;
        assert(x1[m] == id);
    }
    assert forall|i: int| 0 <= i < a2.len() implies x1.contains(#[trigger] a2[i]) by {
        assert(a2.contains(a2[i]));
        let j = choose|j: int| 0 <= j < a1.len() && a1[j] == a2[i];
        assert(x1.contains(a1[j]));
    }
    lemma_dedup_absorbs(x1, a1);
    lemma_dedup_absorbs(x1, a2);
}


/// A node placed after `k` rounds stays placed.
proof fn lemma_done_mono(g: Seq<Seq<bool>>, t: Seq<bool>, k: nat, m: nat, x: int)
    requires
        k <= m,
        0 <= x < t.len(),
        kahn_done(g, t, k)[x],
    ensures
        kahn_done(g, t, m)[x],
    decreases m,
{
    if m > k {
        lemma_done_mono(g, t, k, (m - 1) as nat, x);
        assert(kahn_done(g, t, m) == crate::graph::kahn_step(g, t, kahn_done(g, t, (m - 1) as nat)));
    }
}

/// A tier that can be levelled does not stall.
proof fn lemma_levels_no_stall(g: Seq<Seq<bool>>, t: Seq<bool>, lv: Seq<Seq<int>>, k: nat, rem: Seq<bool>)
    requires
        kahn_levels(g, t, lv),
    ensures
        !crate::graph::kahn_stalls_at(g, t, k, rem),
{
    if crate::graph::kahn_stalls_at(g, t, k, rem) {
        if k < lv.len() {
            assert(lists_ready(lv[k as int], g, t, kahn_done(g, t, k)));
            assert(crate::graph::ready_at(g, t, kahn_done(g, t, k), lv[k as int][0]));
        } else {
            let x = choose|x: int| 0 <= x < t.len() && rem[x];
            assert(kahn_done(g, t, lv.len())[x] == t[x]);
            lemma_done_mono(g, t, lv.len(), k, x);
        }
    }
}

/// The round at which a tier stalls, and what is left, are determined.
proof fn lemma_stall_unique(g: Seq<Seq<bool>>, t: Seq<bool>, r1: Seq<bool>, r2: Seq<bool>)
    requires
        kahn_stalls(g, t, r1),
        kahn_stalls(g, t, r2),
    ensures
        r1 == r2,
{
    let k1 = choose|k: nat| crate::graph::kahn_stalls_at(g, t, k, r1);
    let k2 = choose|k: nat| crate::graph::kahn_stalls_at(g, t, k, r2);
    if k1 < k2 {
        assert(crate::graph::has_ready(g, t, kahn_done(g, t, k1)));
    } else if k2 < k1 {
        assert(crate::graph::has_ready(g, t, kahn_done(g, t, k2)));
    }
    assert(r1 =~= r2);
}

/// Two listings of the cycles of one graph hold the same cycles.
proof fn lemma_cycle_members(h: Seq<Seq<bool>>, n: int, pids: Seq<Seq<char>>, c1: Seq<Seq<int>>, c2: Seq<Seq<int>>, i: int)
    requires
        cycle_listing(h, n, pids, c1),
        cycle_listing(h, n, pids, c2),
        0 <= i < c1.len(),
    ensures
        c2.contains(c1[i]),
{
    let a = c1[i];
    assert(a.len() >= 2);
    assert(sorted_nodes(a, pids, pids));
    assert(crate::graph::node_lt(pids, pids, a[0], a[1]));
    crate::graph::lemma_node_lt_asym(pids, pids, a[0], a[1]);
    let x = a[0];
    assert(0 <= a[0] < n && 0 <= a[1] < n);
    assert(crate::graph::strongly(h, a[0], a[1]));
    let j = choose|j: int| 0 <= j < c2.len() && #[trigger] c2[j].contains(x);
    let b = c2[j];
    let kb = choose|k: int| 0 <= k < b.len() && b[k] == x;
    assert forall|z: int| #![trigger a.contains(z)] #![trigger b.contains(z)] a.contains(z) <==> b.contains(z) by {
        if a.contains(z) {
            let l = choose|l: int| 0 <= l < a.len() && a[l] == z;
            assert(crate::graph::strongly(h, a[0], a[l]));
            assert(0 <= a[l] < n);
            assert(crate::graph::strongly(h, b[kb], z));
        }
        if b.contains(z) {
            let l = choose|l: int| 0 <= l < b.len() && b[l] == z;
            assert(crate::graph::strongly(h, b[kb], b[l]));
            assert(0 <= b[l] < n);
            assert(crate::graph::strongly(h, a[0], z));
        }
    }
    assert(sorted_nodes(b, pids, pids));
    lemma_sorted_unique(a, b, pids, pids);
    assert(c2[j] == c1[i]);
}

/// Lists of node lists with the same members, each strictly ascending by package ids, are equal.
proof fn lemma_comps_sorted_unique(a: Seq<Seq<int>>, b: Seq<Seq<int>>, pids: Seq<Seq<char>>)
    requires
        forall|i: int, j: int| 0 <= i < j < a.len() ==> crate::text::seqs_lt(pid_list(#[trigger] a[i], pids), pid_list(#[trigger] a[j], pids)),
        forall|i: int, j: int| 0 <= i < j < b.len() ==> crate::text::seqs_lt(pid_list(#[trigger] b[i], pids), pid_list(#[trigger] b[j], pids)),
        forall|x: Seq<int>| #![trigger a.contains(x)] #![trigger b.contains(x)] a.contains(x) <==> b.contains(x),
    ensures
        a == b,
    decreases a.len() + b.len(),
{
    if a.len() == 0 {
        if b.len() > 0 {
            assert(b.contains(b[0]));
        }
        assert(a =~= b);
    } else if b.len() == 0 {
        assert(a.contains(a[0]));
    } else {
        assert(a.contains(a[0]));
        assert(b.contains(b[0]));
        if a[0] != b[0] {
            let j = choose|j: int| 0 <= j < b.len() && b[j] == a[0];
            let i = choose|i: int| 0 <= i < a.len() && a[i] == b[0];
            assert(crate::text::seqs_lt(pid_list(b[0], pids), pid_list(b[j], pids)));
            assert(crate::text::seqs_lt(pid_list(a[0], pids), pid_list(a[i], pids)));
            crate::text::lemma_seqs_asym(pid_list(a[0], pids), pid_list(b[0], pids));
        }
        let (a2, b2) = (a.drop_first(), b.drop_first());
        assert forall|x: Seq<int>| #![trigger a2.contains(x)] #![trigger b2.contains(x)] a2.contains(x) <==> b2.contains(x) by {
            if a2.contains(x) {
                let i = choose|i: int| 0 <= i < a2.len() && a2[i] == x;
                assert(a[i + 1] == x);
                assert(a.contains(x));
                let j = choose|j: int| 0 <= j < b.len() && b[j] == x;
                if j == 0 {
                    assert(crate::text::seqs_lt(pid_list(a[0], pids), pid_list(a[i + 1], pids)));
                    crate::text::lemma_seqs_irreflexive(pid_list(a[0], pids));
                }
                assert(b2[j - 1] == x);
            }
            if b2.contains(x) {
                let j = choose|j: int| 0 <= j < b2.len() && b2[j] == x;
                assert(b[j + 1] == x);
                assert(b.contains(x));
                let i = choose|i: int| 0 <= i < a.len() && a[i] == x;
                if i == 0 {
                    assert(crate::text::seqs_lt(pid_list(b[0], pids), pid_list(b[j + 1], pids)));
                    crate::text::lemma_seqs_irreflexive(pid_list(b[0], pids));
                }
                assert(a2[i - 1] == x);
            }
        }
        assert forall|i: int, j: int| 0 <= i < j < a2.len() implies crate::text::seqs_lt(pid_list(#[trigger] a2[i], pids), pid_list(#[trigger] a2[j], pids)) by {
            assert(a2[i] == a[i + 1] && a2[j] == a[j + 1]);
        }
        assert forall|i: int, j: int| 0 <= i < j < b2.len() implies crate::text::seqs_lt(pid_list(#[trigger] b2[i], pids), pid_list(#[trigger] b2[j], pids)) by {
            assert(b2[i] == b[i + 1] && b2[j] == b[j + 1]);
        }
        lemma_comps_sorted_unique(a2, b2, pids);
        assert(a =~= seq![a[0]] + a2);
        assert(b =~= seq![b[0]] + b2);
    }
}

/// A graph's cycles are listed one way only.
proof fn lemma_cycle_listing_unique(h: Seq<Seq<bool>>, n: int, pids: Seq<Seq<char>>, c1: Seq<Seq<int>>, c2: Seq<Seq<int>>)
    requires
        cycle_listing(h, n, pids, c1),
        cycle_listing(h, n, pids, c2),
    ensures
        c1 == c2,
{
    assert forall|x: Seq<int>| #![trigger c1.contains(x)] #![trigger c2.contains(x)] c1.contains(x) <==> c2.contains(x) by {
        if c1.contains(x) {
            let i = choose|i: int| 0 <= i < c1.len() && c1[i] == x;
            lemma_cycle_members(h, n, pids, c1, c2, i);
        }
        if c2.contains(x) {
            let i = choose|i: int| 0 <= i < c2.len() && c2[i] == x;
            lemma_cycle_members(h, n, pids, c2, c1, i);
        }
    }
    lemma_comps_sorted_unique(c1, c2, pids);
}

/// The outcome of a sort does not depend on the order of the active list: two lists with the
/// same mods either both sort (to the same order, `law_sort_ignores_input_order`) or both fail,
/// and then with the same cycles.
pub proof fn law_sort_failure_ignores_input_order(
    mods: Seq<Mod>,
    a1: Seq<ModId>,
    a2: Seq<ModId>,
    s: SortSettings,
    c1: Seq<Seq<Seq<char>>>,
)
    requires
        sort_fails(mods, a1, s, c1),
        forall|id: ModId| #![trigger a1.contains(id)] #![trigger a2.contains(id)] a1.contains(id) <==> a2.contains(id),
        plain_active(mods, a1),
        plain_active(mods, a2),
    ensures
        forall|o: Seq<ModId>| !sort_ok(mods, a2, s, o),
        forall|c2: Seq<Seq<Seq<char>>>| sort_fails(mods, a2, s, c2) ==> c2 == c1,
{
    lemma_same_active(mods, a1, a2, s);
    let g = active_graph(mods, a1, s);
    let v = node_pids(mods);
    let names = node_names(mods, a1);
    let (ls1, rem1, cs1) = choose|ls: Seq<Seq<Seq<int>>>, rem: Seq<bool>, cs: Seq<Seq<int>>| #[trigger] fails_at(mods, a1, s, ls, rem, cs, c1);
    let t1 = tier(mods, a1, s, ls1.len() as int);
    assert forall|o: Seq<ModId>| !sort_ok(mods, a2, s, o) by {
        if sort_ok(mods, a2, s, o) {
            let ls = choose|ls: Seq<Seq<Seq<int>>>| #[trigger] placed_by(mods, a2, s, ls, o);
            let k = ls1.len() as int;
            assert(tier_listing(g, tier(mods, a2, s, k), node_names(mods, a2), v, ls[k]));
            let kk = choose|kk: nat| crate::graph::kahn_stalls_at(g, t1, kk, rem1);
            lemma_levels_no_stall(g, t1, ls[k], kk, rem1);
        }
    }
    assert forall|c2: Seq<Seq<Seq<char>>>| sort_fails(mods, a2, s, c2) implies c2 == c1 by {
        let (ls2, rem2, cs2) = choose|ls: Seq<Seq<Seq<int>>>, rem: Seq<bool>, cs: Seq<Seq<int>>| #[trigger] fails_at(mods, a2, s, ls, rem, cs, c2);
        if ls1.len() < ls2.len() {
            let k = ls1.len() as int;
            assert(tier_listing(g, tier(mods, a2, s, k), names, v, ls2[k]));
            let kk = choose|kk: nat| crate::graph::kahn_stalls_at(g, t1, kk, rem1);
            lemma_levels_no_stall(g, t1, ls2[k], kk, rem1);
        }
        if ls2.len() < ls1.len() {
            let k = ls2.len() as int;
            let t2 = tier(mods, a2, s, k);
            assert(tier_listing(g, tier(mods, a1, s, k), names, v, ls1[k]));
            let kk = choose|kk: nat| crate::graph::kahn_stalls_at(g, t2, kk, rem2);
            lemma_levels_no_stall(g, t2, ls1[k], kk, rem2);
        }
        assert(ls1.len() == ls2.len());
        lemma_stall_unique(g, t1, rem1, rem2);
        lemma_cycle_listing_unique(rem_graph(g, rem1, v.len() as int), v.len() as int, v, cs1, cs2);
    }
}


/// A sort reports cycles exactly when there is no order: where `sort_fails` holds for some
/// cycles, `sort_ok` holds for no order (and `sort_active` always gives one or the other).
pub proof fn law_cycles_exactly_when_no_order(mods: Seq<Mod>, active: Seq<ModId>, s: SortSettings, c: Seq<Seq<Seq<char>>>)
    requires
        sort_fails(mods, active, s, c),
    ensures
        forall|o: Seq<ModId>| !sort_ok(mods, active, s, o),
{
    let g = active_graph(mods, active, s);
    let (ls1, rem1, cs1) = choose|ls: Seq<Seq<Seq<int>>>, rem: Seq<bool>, cs: Seq<Seq<int>>| #[trigger] fails_at(mods, active, s, ls, rem, cs, c);
    let k = ls1.len() as int;
    let t1 = tier(mods, active, s, k);
    assert forall|o: Seq<ModId>| !sort_ok(mods, active, s, o) by {
        if sort_ok(mods, active, s, o) {
            let ls = choose|ls: Seq<Seq<Seq<int>>>| #[trigger] placed_by(mods, active, s, ls, o);
            assert(tier_listing(g, t1, node_names(mods, active), node_pids(mods), ls[k]));
            let kk = choose|kk: nat| crate::graph::kahn_stalls_at(g, t1, kk, rem1);
            lemma_levels_no_stall(g, t1, ls[k], kk, rem1);
        }
    }
}


/// Within a tier, a mod is placed only after every mod it must follow: in the levels that
/// witness a successful sort, for each rule edge from `x` to another member `y` of its tier
/// (`x` loads after `y`), `y` sits in an earlier level than `x`, so it comes first in the order.
pub proof fn law_levels_respect_edges(
    mods: Seq<Mod>,
    active: Seq<ModId>,
    s: SortSettings,
    ls: Seq<Seq<Seq<int>>>,
    order: Seq<ModId>,
    k: int,
    j: int,
    x: int,
    y: int,
)
    requires
        placed_by(mods, active, s, ls, order),
        0 <= k < 4,
        0 <= j < ls[k].len(),
        ls[k][j].contains(x),
        0 <= y < tier(mods, active, s, k).len(),
        tier(mods, active, s, k)[y],
        y != x,
        edge(active_graph(mods, active, s), x, y),
    ensures
        exists|j2: int| 0 <= j2 < j && #[trigger] ls[k][j2].contains(y),
{
    let g = active_graph(mods, active, s);
    let t = tier(mods, active, s, k);
    assert(tier_listing(g, t, node_names(mods, active), node_pids(mods), ls[k]));
    let d = kahn_done(g, t, j as nat);
    assert(lists_ready(ls[k][j], g, t, d));
    let i = choose|i: int| 0 <= i < ls[k][j].len() && ls[k][j][i] == x;
    assert(crate::graph::ready_at(g, t, d, ls[k][j][i]));
    assert(d[y]);
    lemma_placed_round(g, t, j as nat, y);
    let j2 = choose|j2: nat| j2 < j && #[trigger] crate::graph::ready_at(g, t, kahn_done(g, t, j2), y);
    assert(lists_ready(ls[k][j2 as int], g, t, kahn_done(g, t, j2)));
    assert(ls[k][j2 as int].contains(y));
}


/// When every occurrence of `e2` in `s` follows some occurrence of `e1`, `dedup` lists `e1`
/// before `e2`.
proof fn lemma_dedup_before(s: Seq<ModId>, e1: ModId, e2: ModId)
    requires
        s.contains(e2),
        forall|p: int| 0 <= p < s.len() && #[trigger] s[p] == e2 ==> exists|p2: int| 0 <= p2 < p && s[p2] == e1,
    ensures
        exists|a: int, b: int| 0 <= a < b < dedup(s).len() && dedup(s)[a] == e1 && dedup(s)[b] == e2,
    decreases s.len(),
{
    let d = s.drop_last();
    let r = dedup(d);
    lemma_dedup(d);
    if d.contains(e2) {
        assert forall|p: int| 0 <= p < d.len() && #[trigger] d[p] == e2 implies exists|p2: int| 0 <= p2 < p && d[p2] == e1 by {
            assert(s[p] == e2);
            let p2 = choose|p2: int| 0 <= p2 < p && s[p2] == e1;
            assert(d[p2] == e1);
        }
        lemma_dedup_before(d, e1, e2);
        let (a, b) = choose|a: int, b: int| 0 <= a < b < r.len() && r[a] == e1 && r[b] == e2;
        if r.contains(s.last()) {
            assert(dedup(s) == r);
        } else {
            assert(dedup(s) == r.push(s.last()));
            assert(dedup(s)[a] == r[a] && dedup(s)[b] == r[b]);
        }
        assert(0 <= a < b < dedup(s).len() && dedup(s)[a] == e1 && dedup(s)[b] == e2);
    } else {
        let i = choose|i: int| 0 <= i < s.len() && s[i] == e2;
        if i < s.len() - 1 {
            assert(d[i] == e2);
        }
        assert(s[s.len() - 1] == e2);
        let p2 = choose|p2: int| 0 <= p2 < s.len() - 1 && s[p2] == e1;
        assert(d[p2] == e1);
        assert(r.contains(e1));
        let a = choose|a: int| 0 <= a < r.len() && r[a] == e1;
        assert(!r.contains(e2));
        assert(dedup(s) == r.push(e2));
        assert(dedup(s)[a] == e1);
        assert(dedup(s)[r.len() as int] == e2);
        assert(0 <= a < r.len() < dedup(s).len());
    }
}

/// The level of a position of the flattened levels: its node is in that level, and every node
/// of an earlier level occurs at an earlier position.
proof fn lemma_flatten_pos(lv: Seq<Seq<int>>, p: int) -> (j: int)
    requires
        0 <= p < lv.flatten().len(),
    ensures
        0 <= j < lv.len(),
        lv[j].contains(lv.flatten()[p]),
        forall|j2: int, z: int| 0 <= j2 < j && #[trigger] lv[j2].contains(z)
            ==> exists|p2: int| 0 <= p2 < p && lv.flatten()[p2] == z,
    decreases lv.len(),
{
    if lv.len() == 0 {
        assert(lv.flatten().len() == 0);
        0
    } else {
        let a = lv.first();
        let b = lv.drop_first().flatten();
        assert(lv.flatten() == a + b);
        if p < a.len() {
            assert(lv.flatten()[p] == lv[0][p]);
            0
        } else {
            let j1 = lemma_flatten_pos(lv.drop_first(), p - a.len());
            assert(lv[j1 + 1] == lv.drop_first()[j1]);
            assert(lv.flatten()[p] == b[p - a.len()]);
            assert forall|j2: int, z: int| 0 <= j2 < j1 + 1 && #[trigger] lv[j2].contains(z)
                implies exists|p2: int| 0 <= p2 < p && lv.flatten()[p2] == z by {
                if j2 == 0 {
                    let i = choose|i: int| 0 <= i < a.len() && a[i] == z;
                    assert(lv.flatten()[i] == z);
                } else {
                    assert(lv.drop_first()[j2 - 1] == lv[j2]);
                    assert(lv.drop_first()[j2 - 1].contains(z));
                    let q = choose|q: int| 0 <= q < p - a.len() && b[q] == z;
                    assert(lv.flatten()[a.len() + q] == z);
                }
            }
            j1 + 1
        }
    }
}

/// The tier and level of a position of `flat2`: its node is in that level, and every node of
/// an earlier tier, or of an earlier level of the same tier, occurs at an earlier position.
proof fn lemma_flat2_pos(ls: Seq<Seq<Seq<int>>>, p: int) -> (kj: (int, int))
    requires
        0 <= p < flat2(ls).len(),
    ensures
        0 <= kj.0 < ls.len(),
        0 <= kj.1 < ls[kj.0].len(),
        ls[kj.0][kj.1].contains(flat2(ls)[p]),
        forall|k2: int, j2: int, z: int|
            ((0 <= k2 < kj.0 && 0 <= j2 < ls[k2].len()) || (k2 == kj.0 && 0 <= j2 < kj.1)) && #[trigger] ls[k2][j2].contains(z)
            ==> exists|p2: int| 0 <= p2 < p && flat2(ls)[p2] == z,
    decreases ls.len(),
{
    if ls.len() == 0 {
        assert(flat2(ls).len() == 0);
        (0, 0)
    } else {
        let dl = ls.drop_last();
        let a = flat2(dl);
        let b = ls.last().flatten();
        assert(flat2(ls) == a + b);
        if p < a.len() {
            let (k, j) = lemma_flat2_pos(dl, p);
            assert(dl[k] == ls[k]);
            assert(flat2(ls)[p] == a[p]);
            assert forall|k2: int, j2: int, z: int|
                ((0 <= k2 < k && 0 <= j2 < ls[k2].len()) || (k2 == k && 0 <= j2 < j)) && #[trigger] ls[k2][j2].contains(z)
                implies exists|p2: int| 0 <= p2 < p && flat2(ls)[p2] == z by {
                assert(dl[k2] == ls[k2]);
                assert(dl[k2][j2].contains(z));
                let p2 = choose|p2: int| 0 <= p2 < p && a[p2] == z;
                assert(flat2(ls)[p2] == z);
            }
            (k, j)
        } else {
            let k = ls.len() - 1;
            let j = lemma_flatten_pos(ls.last(), p - a.len());
            assert(flat2(ls)[p] == b[p - a.len()]);
            assert forall|k2: int, j2: int, z: int|
                ((0 <= k2 < k && 0 <= j2 < ls[k2].len()) || (k2 == k && 0 <= j2 < j)) && #[trigger] ls[k2][j2].contains(z)
                implies exists|p2: int| 0 <= p2 < p && flat2(ls)[p2] == z by {
                if k2 < k {
                    assert(dl[k2] == ls[k2]);
                    lemma_in_flat2(dl, k2, j2, z);
                    let p2 = choose|p2: int| 0 <= p2 < a.len() && a[p2] == z;
                    assert(flat2(ls)[p2] == z);
                } else {
                    assert(ls.last()[j2].contains(z));
                    let q = choose|q: int| 0 <= q < p - a.len() && b[q] == z;
                    assert(flat2(ls)[a.len() + q] == z);
                }
            }
            (k, j)
        }
    }
}


/// The candidates `c` name nodes below `n`.
pub open spec fn cands_in(c: Seq<(int, int)>, n: int) -> bool {
    forall|z: int| 0 <= z < c.len() ==> 0 <= (#[trigger] c[z]).0 < n && 0 <= c[z].1 < n
}

/// A square graph.
pub open spec fn is_square(g: Seq<Seq<bool>>, n: int) -> bool {
    g.len() == n && forall|r: int| 0 <= r < n ==> (#[trigger] g[r]).len() == n
}

/// Adding edges keeps the graph square and keeps every edge it had.
proof fn lemma_add_edges_keeps(g: Seq<Seq<bool>>, c: Seq<(int, int)>, n: int, a: int, b: int)
    requires
        is_square(g, n),
        cands_in(c, n),
    ensures
        is_square(add_edges(g, c), n),
        0 <= a < n && 0 <= b < n && g[a][b] ==> add_edges(g, c)[a][b],
    decreases c.len(),
{
    if c.len() > 0 {
        let dc = c.drop_last();
        assert(cands_in(dc, n)) by {
            assert forall|z: int| 0 <= z < dc.len() implies 0 <= (#[trigger] dc[z]).0 < n && 0 <= dc[z].1 < n by {
                assert(dc[z] == c[z]);
            }
        }
        lemma_add_edges_keeps(g, dc, n, a, b);
        let h = add_edges(g, dc);
        assert(0 <= c[c.len() - 1].0 < n && 0 <= c[c.len() - 1].1 < n);
        let u = c.last().0;
        let w = c.last().1;
        if !h[w][u] {
            let h2 = h.update(u, h[u].update(w, true));
            assert(add_edges(g, c) == h2);
            assert forall|r: int| 0 <= r < n implies (#[trigger] h2[r]).len() == n by {
                if r == u {
                    assert(h2[r] == h[u].update(w, true));
                } else {
                    assert(h2[r] == h[r]);
                }
            }
            if 0 <= a < n && 0 <= b < n && g[a][b] {
                if a == u {
                    assert(h2[a] == h[u].update(w, true));
                } else {
                    assert(h2[a] == h[a]);
                }
            }
        }
    }
}

proof fn lemma_alt_target_range(alts: Seq<Seq<char>>, v: Seq<Seq<char>>)
    ensures
        -1 <= alt_target(alts, v) < v.len(),
    decreases alts.len(),
{
    if alts.len() > 0 {
        if v.contains(alts[0]) {
            let i = choose|i: int| 0 <= i < v.len() && v[i] == alts[0];
            assert(v.index_of(alts[0]) < v.len());
        } else {
            lemma_alt_target_range(alts.drop_first(), v);
        }
    }
}

proof fn lemma_dep_cands_in(p: int, deps: Seq<Dependency>, v: Seq<Seq<char>>, excl: Seq<bool>, alt: bool)
    requires
        0 <= p < v.len(),
    ensures
        cands_in(dep_cands(p, deps, v, excl, alt), v.len() as int),
    decreases deps.len(),
{
    if deps.len() > 0 {
        lemma_dep_cands_in(p, deps.drop_last(), v, excl, alt);
        let d = deps.last();
        lemma_alt_target_range(sv(d.alternatives@), v);
        if v.contains(d.package_id@) {
            assert(v.index_of(d.package_id@) < v.len());
        }
        let r = dep_cands(p, deps.drop_last(), v, excl, alt);
        let c = dep_cands(p, deps, v, excl, alt);
        assert forall|z: int| 0 <= z < c.len() implies 0 <= (#[trigger] c[z]).0 < v.len() && 0 <= c[z].1 < v.len() by {
            if z < r.len() {
                assert(c[z] == r[z]);
            }
        }
    }
}

proof fn lemma_mod_cands_in(ms: Seq<Mod>, v: Seq<Seq<char>>, excl: Seq<bool>, alt: bool)
    requires
        forall|i: int| 0 <= i < ms.len() && (#[trigger] ms[i]).valid ==> v.contains(ms[i].package_id@),
    ensures
        cands_in(mod_cands(ms, v, excl, alt), v.len() as int),
    decreases ms.len(),
{
    if ms.len() > 0 {
        let dm = ms.drop_last();
        assert forall|i: int| 0 <= i < dm.len() && (#[trigger] dm[i]).valid implies v.contains(dm[i].package_id@) by {
            assert(dm[i] == ms[i]);
        }
        lemma_mod_cands_in(dm, v, excl, alt);
        let m = ms.last();
        let r = mod_cands(dm, v, excl, alt);
        let c = mod_cands(ms, v, excl, alt);
        if m.valid {
            assert(ms[ms.len() - 1].valid);
            assert(v.contains(m.package_id@));
            let p = node_of(v, m.package_id@);
            assert(v.index_of(m.package_id@) < v.len());
            if !excl[p] {
                let e = dep_cands(p, m.rules.dependencies@, v, excl, alt);
                lemma_dep_cands_in(p, m.rules.dependencies@, v, excl, alt);
                assert(c == r + e);
                assert forall|z: int| 0 <= z < c.len() implies 0 <= (#[trigger] c[z]).0 < v.len() && 0 <= c[z].1 < v.len() by {
                    if z < r.len() {
                        assert(c[z] == r[z]);
                    } else {
                        assert(c[z] == e[z - r.len()]);
                    }
                }
            }
        }
    }
}

/// A rule of a valid mod that puts the active node `x` after the active node `y` is an edge of
/// the active graph, whatever the settings.
proof fn lemma_mod_edge_in_graph(mods: Seq<Mod>, active: Seq<ModId>, s: SortSettings, i: int, x: int, y: int)
    requires
        0 <= i < mods.len(),
        0 <= x < node_pids(mods).len(),
        0 <= y < node_pids(mods).len(),
        mod_edge(mods[i], node_pids(mods)[x], node_pids(mods)[y]),
        active_flags(mods, active)[x],
        active_flags(mods, active)[y],
    ensures
        edge(active_graph(mods, active, s), x, y),
{
    let v = node_pids(mods);
    let n = v.len() as int;
    assert(rule_edge(mods, v[x], v[y]));
    let rg = rule_graph(mods);
    assert(rg[x][y]);
    assert(is_square(rg, n));
    if s.dependencies_as_load_after {
        lemma_node_pids(mods);
        assert forall|j: int| 0 <= j < mods.len() && (#[trigger] mods[j]).valid implies v.contains(mods[j].package_id@) by {
            assert(has_valid(mods, mods[j].package_id@));
        }
        lemma_mod_cands_in(mods, v, excluded(mods), s.use_alternative_ids);
        lemma_add_edges_keeps(rg, mod_cands(mods, v, excluded(mods), s.use_alternative_ids), n, x, y);
    }
    let fg = full_graph(mods, s);
    assert(is_square(fg, n));
    assert(fg[x][y]);
}


/// Every member of a levelled tier sits in one of its levels.
proof fn lemma_member_listed(g: Seq<Seq<bool>>, t: Seq<bool>, lv: Seq<Seq<int>>, y: int)
    requires
        kahn_levels(g, t, lv),
        0 <= y < t.len(),
        t[y],
    ensures
        exists|j: int| 0 <= j < lv.len() && #[trigger] lv[j].contains(y),
{
    assert(kahn_done(g, t, lv.len())[y] == t[y]);
    lemma_placed_round(g, t, lv.len(), y);
    let j = choose|j: nat| j < lv.len() && #[trigger] crate::graph::ready_at(g, t, kahn_done(g, t, j), y);
    assert(lists_ready(lv[j as int], g, t, kahn_done(g, t, j)));
    assert(lv[j as int].contains(y));
}

proof fn lemma_tier_len(mods: Seq<Mod>, active: Seq<ModId>, s: SortSettings, k: int)
    ensures
        tier(mods, active, s, k).len() == node_pids(mods).len(),
{
}

/// Reaching `x` and stepping along an edge reaches `y`.
proof fn lemma_reaches_step(g: Seq<Seq<bool>>, z: int, x: int, y: int)
    requires
        reaches(g, z, x),
        edge(g, x, y),
    ensures
        reaches(g, z, y),
{
    let p = choose|p: Seq<int>| #[trigger] is_path(g, p) && p[0] == z && p.last() == x;
    crate::graph::lemma_path_extend(g, p, y);
    assert(is_path(g, p.push(y)));
}

/// When `x` loads after `y` and `y` lies outside `x`'s tier, `y` lies in an earlier tier.
proof fn lemma_target_tier(mods: Seq<Mod>, active: Seq<ModId>, s: SortSettings, k: int, x: int, y: int)
    requires
        0 <= k < 4,
        0 <= x < node_pids(mods).len(),
        0 <= y < node_pids(mods).len(),
        tier(mods, active, s, k)[x],
        !tier(mods, active, s, k)[y],
        active_flags(mods, active)[y],
        edge(active_graph(mods, active, s), x, y),
    ensures
        exists|k2: int| 0 <= k2 < k && #[trigger] tier(mods, active, s, k2)[y],
{
    let g = active_graph(mods, active, s);
    let n = node_pids(mods).len() as int;
    let t0 = tier(mods, active, s, 0);
    let t1 = tier(mods, active, s, 1);
    let t3 = tier(mods, active, s, 3);
    if k == 0 || k == 1 {
        let st = tier_starts(mods, active, k);
        let z = choose|z: int| 0 <= z < st.len() && st[z] && reaches(g, z, x);
        lemma_reaches_step(g, z, x, y);
        assert(tier(mods, active, s, k)[y]);
    } else {
        if t3[y] {
            let tg = transpose(g, n);
            let st = tier_starts(mods, active, 3);
            let z = choose|z: int| 0 <= z < st.len() && st[z] && reaches(tg, z, y);
            assert(tg[y][x] == g[x][y]);
            assert(edge(tg, y, x));
            lemma_reaches_step(tg, z, y, x);
            assert(t3[x]);
            assert(k != 3);
            assert(!tier(mods, active, s, 2)[x]);
        }
        if t0[y] {
            assert(tier(mods, active, s, 0)[y]);
        } else if t1[y] {
            assert(tier(mods, active, s, 1)[y]);
        } else {
            assert(k == 3);
            assert(tier(mods, active, s, 2)[y]);
        }
    }
}

/// Two active nodes with the same id are the same node.
proof fn lemma_node_ids_distinct(mods: Seq<Mod>, active: Seq<ModId>, a: int, b: int)
    requires
        0 <= a < node_pids(mods).len(),
        0 <= b < node_pids(mods).len(),
        active_flags(mods, active)[a],
        active_flags(mods, active)[b],
        node_ids(mods, active)[a] == node_ids(mods, active)[b],
    ensures
        a == b,
{
    let v = node_pids(mods);
    lemma_first_active(mods, active, v[a]);
    lemma_first_active(mods, active, v[b]);
    lemma_node_pids(mods);
    assert(v[a] == v[b]);
}

/// Every active node lies in some tier and sits in one of its levels.
proof fn lemma_active_listed(mods: Seq<Mod>, active: Seq<ModId>, s: SortSettings, ls: Seq<Seq<Seq<int>>>, order: Seq<ModId>, y: int)
    requires
        placed_by(mods, active, s, ls, order),
        0 <= y < node_pids(mods).len(),
        active_flags(mods, active)[y],
    ensures
        flat2(ls).contains(y),
{
    let g = active_graph(mods, active, s);
    let k = if tier(mods, active, s, 0)[y] {
        0int
    } else if tier(mods, active, s, 1)[y] {
        1int
    } else if tier(mods, active, s, 3)[y] {
        3int
    } else {
        2int
    };
    assert(tier(mods, active, s, k)[y]);
    lemma_tier_len(mods, active, s, k);
    assert(tier_listing(g, tier(mods, active, s, k), node_names(mods, active), node_pids(mods), ls[k]));
    lemma_member_listed(g, tier(mods, active, s, k), ls[k], y);
    let j = choose|j: int| 0 <= j < ls[k].len() && #[trigger] ls[k][j].contains(y);
    lemma_in_flat2(ls, k, j, y);
}


/// An id listed in one of three lists is listed in their concatenation.
proof fn lemma_in_three(a: Seq<String>, b: Seq<String>, c: Seq<String>, t: Seq<char>)
    requires
        sv(a).contains(t) || sv(b).contains(t) || sv(c).contains(t),
    ensures
        sv(a + b + c).contains(t),
{
    let w = a + b + c;
    if sv(a).contains(t) {
        let q = choose|q: int| 0 <= q < sv(a).len() && sv(a)[q] == t;
        assert(w[q] == a[q]);
        assert(sv(w)[q] == t);
    } else if sv(b).contains(t) {
        let q = choose|q: int| 0 <= q < sv(b).len() && sv(b)[q] == t;
        assert(w[a.len() + q] == b[q]);
        assert(sv(w)[a.len() + q] == t);
    } else {
        let q = choose|q: int| 0 <= q < sv(c).len() && sv(c)[q] == t;
        assert(w[a.len() + b.len() + q] == c[q]);
        assert(sv(w)[a.len() + b.len() + q] == t);
    }
}

/// A package named by an active id is a node.
proof fn lemma_active_node(mods: Seq<Mod>, active: Seq<ModId>, p: Seq<char>) -> (x: int)
    requires
        first_active(mods, active, p) >= 0,
    ensures
        0 <= x < node_pids(mods).len(),
        node_pids(mods)[x] == p,
        active_flags(mods, active)[x],
{
    lemma_first_active(mods, active, p);
    let kk = act_mod_pos(mods, active[first_active(mods, active, p)]);
    crate::mods::lemma_last_with_id(mods, active[first_active(mods, active, p)]);
    assert(0 <= kk < mods.len() && mods[kk].valid && mods[kk].package_id@ == p);
    assert(has_valid(mods, p));
    lemma_node_pids(mods);
    let v = node_pids(mods);
    assert(v.contains(p));
    let x = choose|x: int| 0 <= x < v.len() && v[x] == p;
    x
}

/// In a successful sort, when the active node `x` loads after the active node `y`, the id of
/// `y` comes before the id of `x` in the new order.
proof fn lemma_edge_placed_before(mods: Seq<Mod>, active: Seq<ModId>, s: SortSettings, order: Seq<ModId>, x: int, y: int)
    requires
        sort_ok(mods, active, s, order),
        0 <= x < node_pids(mods).len(),
        0 <= y < node_pids(mods).len(),
        x != y,
        active_flags(mods, active)[x],
        active_flags(mods, active)[y],
        edge(active_graph(mods, active, s), x, y),
    ensures
        exists|a: int, b: int| 0 <= a < b < order.len()
            && order[a] == node_ids(mods, active)[y] && order[b] == node_ids(mods, active)[x],
{
    let ls = choose|ls: Seq<Seq<Seq<int>>>| #[trigger] placed_by(mods, active, s, ls, order);
    let g = active_graph(mods, active, s);
    let n = node_pids(mods).len() as int;
    let f = active_flags(mods, active);
    let ids = node_ids(mods, active);
    let fl = flat2(ls);
    let s0 = ids_at(fl, ids) + active;
    assert(order == dedup(s0));
    let q = |z: int| 0 <= z < n && f[z];
    assert forall|k: int, j: int, m: int| 0 <= k < ls.len() && 0 <= j < ls[k].len() && 0 <= m < ls[k][j].len()
        implies q(#[trigger] ls[k][j][m]) by {
        let t = tier(mods, active, s, k);
        assert(tier_listing(g, t, node_names(mods, active), node_pids(mods), ls[k]));
        assert(lists_ready(ls[k][j], g, t, kahn_done(g, t, j as nat)));
        assert(crate::graph::ready_at(g, t, kahn_done(g, t, j as nat), ls[k][j][m]));
        lemma_tier_active(mods, active, s, k, ls[k][j][m]);
    }
    lemma_flat2_all(ls, q);
    lemma_active_listed(mods, active, s, ls, order, x);
    lemma_active_listed(mods, active, s, ls, order, y);
    let p0 = choose|p0: int| 0 <= p0 < fl.len() && fl[p0] == x;
    assert(s0[p0] == ids[x]);
    assert forall|p: int| 0 <= p < s0.len() && #[trigger] s0[p] == ids[x] implies exists|p2: int| 0 <= p2 < p && s0[p2] == ids[y] by {
        if p >= fl.len() {
            let p2 = choose|p2: int| 0 <= p2 < fl.len() && fl[p2] == y;
            assert(s0[p2] == ids[y]);
        } else {
            let z = fl[p];
            assert(q(fl[p]));
            assert(s0[p] == ids[z]);
            lemma_node_ids_distinct(mods, active, z, x);
            let (k, j) = lemma_flat2_pos(ls, p);
            let t = tier(mods, active, s, k);
            assert(tier_listing(g, t, node_names(mods, active), node_pids(mods), ls[k]));
            assert(lists_ready(ls[k][j], g, t, kahn_done(g, t, j as nat)));
            let r = choose|r: int| 0 <= r < ls[k][j].len() && ls[k][j][r] == x;
            assert(crate::graph::ready_at(g, t, kahn_done(g, t, j as nat), ls[k][j][r]));
            assert(t[x]);
            lemma_tier_len(mods, active, s, k);
            if t[y] {
                law_levels_respect_edges(mods, active, s, ls, order, k, j, x, y);
                let j2 = choose|j2: int| 0 <= j2 < j && #[trigger] ls[k][j2].contains(y);
                assert(ls[k][j2].contains(y));
            } else {
                lemma_target_tier(mods, active, s, k, x, y);
                let k2 = choose|k2: int| 0 <= k2 < k && #[trigger] tier(mods, active, s, k2)[y];
                let t2 = tier(mods, active, s, k2);
                lemma_tier_len(mods, active, s, k2);
                assert(tier_listing(g, t2, node_names(mods, active), node_pids(mods), ls[k2]));
                lemma_member_listed(g, t2, ls[k2], y);
                let j2 = choose|j2: int| 0 <= j2 < ls[k2].len() && #[trigger] ls[k2][j2].contains(y);
                assert(ls[k2][j2].contains(y));
            }
            let p2 = choose|p2: int| 0 <= p2 < p && fl[p2] == y;
            assert(s0[p2] == ids[y]);
        }
    }
    lemma_dedup_before(s0, ids[y], ids[x]);
}

/// A successful sort honours every loadAfter rule of a valid mod, whether About.xml, the
/// community rules or the user's rules give it: when the mod's package and the package `t` it
/// loads after are both active (and differ), the first active id of `t` comes before the first
/// active id of the mod's package in the new order.
pub proof fn law_sort_respects_load_after(mods: Seq<Mod>, active: Seq<ModId>, s: SortSettings, order: Seq<ModId>, i: int, t: Seq<char>)
    requires
        sort_ok(mods, active, s, order),
        0 <= i < mods.len(),
        mods[i].valid,
        sv(mods[i].rules.load_after@).contains(t) || sv(mods[i].community.load_after@).contains(t)
            || sv(mods[i].user.load_after@).contains(t),
        t != mods[i].package_id@,
        first_active(mods, active, mods[i].package_id@) >= 0,
        first_active(mods, active, t) >= 0,
    ensures
        exists|a: int, b: int| 0 <= a < b < order.len()
            && order[a] == active[first_active(mods, active, t)]
            && order[b] == active[first_active(mods, active, mods[i].package_id@)],
{
    let m = mods[i];
    let x = lemma_active_node(mods, active, m.package_id@);
    let y = lemma_active_node(mods, active, t);
    lemma_in_three(m.rules.load_after@, m.community.load_after@, m.user.load_after@, t);
    assert(mod_edge(m, node_pids(mods)[x], node_pids(mods)[y]));
    lemma_mod_edge_in_graph(mods, active, s, i, x, y);
    lemma_edge_placed_before(mods, active, s, order, x, y);
}

/// A successful sort honours every loadBefore rule of a valid mod, whether About.xml, the
/// community rules or the user's rules give it: when the mod's package and the package `t` it
/// loads before are both active (and differ), the first active id of the mod's package comes
/// before the first active id of `t` in the new order.
pub proof fn law_sort_respects_load_before(mods: Seq<Mod>, active: Seq<ModId>, s: SortSettings, order: Seq<ModId>, i: int, t: Seq<char>)
    requires
        sort_ok(mods, active, s, order),
        0 <= i < mods.len(),
        mods[i].valid,
        sv(mods[i].rules.load_before@).contains(t) || sv(mods[i].community.load_before@).contains(t)
            || sv(mods[i].user.load_before@).contains(t),
        t != mods[i].package_id@,
        first_active(mods, active, mods[i].package_id@) >= 0,
        first_active(mods, active, t) >= 0,
    ensures
        exists|a: int, b: int| 0 <= a < b < order.len()
            && order[a] == active[first_active(mods, active, mods[i].package_id@)]
            && order[b] == active[first_active(mods, active, t)],
{
    let m = mods[i];
    let y = lemma_active_node(mods, active, m.package_id@);
    let x = lemma_active_node(mods, active, t);
    lemma_in_three(m.rules.load_before@, m.community.load_before@, m.user.load_before@, t);
    assert(mod_edge(m, node_pids(mods)[x], node_pids(mods)[y]));
    lemma_mod_edge_in_graph(mods, active, s, i, x, y);
    lemma_edge_placed_before(mods, active, s, order, x, y);
}

} // verus!
