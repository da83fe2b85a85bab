//! `ModsConfig.xml` read/write (round-trip safe: unknown elements survive) and active-list
//! resolution.

use vstd::prelude::*;

use crate::error::Error;
use crate::mod_id::ModId;
use crate::mods::{Mod, ModIndex, ModType, last_with_id, pkg_mods};
use crate::text::{chars_of, has_suffix, lowercase, sv, to_lower, trim};
use crate::xml::{
    Node, Tree, first_named_tree, leaf, li_values_tree, node_depth, render, tree, trees, xml_header,
};

verus! {

broadcast use {vstd::string::group_string_axioms, vstd::seq_lib::group_seq_properties};

/// The config's parsed content.
#[derive(Debug)]
pub struct ModsConfig {
    pub version: String,
    /// Raw ids as in the file, lowercased (may carry a `_steam` suffix).
    pub active: Vec<String>,
    pub known_expansions: Vec<String>,
    /// The parsed `<ModsConfigData>` element; unknown children are preserved on write.
    doc: Node,
}

/// The lowercased `li` texts of the first child of `d` named `key` (none if absent).
pub open spec fn list_of(d: Tree, key: Seq<char>) -> Seq<Seq<char>> {
    let k = first_named_tree(d.children, key);
    if k >= 0 {
        li_values_tree(d.children[k].children, false).map_values(|s: Seq<char>| lowercase(s))
    } else {
        Seq::empty()
    }
}

/// The trimmed text of the first child of `d` named `key` (empty if absent).
pub open spec fn text_of(d: Tree, key: Seq<char>) -> Seq<char> {
    let k = first_named_tree(d.children, key);
    if k >= 0 {
        trim(d.children[k].text)
    } else {
        Seq::empty()
    }
}

/// The `<ModsConfigData>` element of a document's root (-1 if none).
pub open spec fn data_pos(root: Tree) -> int {
    first_named_tree(root.children, "ModsConfigData"@)
}

/// `t` with its first child named `name` replaced by `c`, or `c` appended when there is none.
pub open spec fn set_child(t: Tree, name: Seq<char>, c: Tree) -> Tree {
    let k = first_named_tree(t.children, name);
    Tree {
        children: if k >= 0 {
            t.children.update(k, c)
        } else {
            t.children.push(c)
        },
        ..t
    }
}

/// An `<li>` element holding `id`.
pub open spec fn li_tree(id: Seq<char>) -> Tree {
    Tree { name: seq!['l', 'i'], text: id, children: Seq::empty(), attrs: Seq::empty() }
}

/// An element named `name` listing `ids`.
pub open spec fn list_tree(name: Seq<char>, ids: Seq<Seq<char>>) -> Tree {
    Tree { name, text: Seq::empty(), children: ids.map_values(|id: Seq<char>| li_tree(id)), attrs: Seq::empty() }
}

/// The document written for a config: the kept element with version, active mods and known
/// expansions set.
pub open spec fn config_tree(doc: Tree, version: Seq<char>, active: Seq<Seq<char>>, known: Seq<Seq<char>>) -> Tree {
    let v = Tree { name: "version"@, text: version, children: Seq::empty(), attrs: Seq::empty() };
    set_child(
        set_child(set_child(doc, "version"@, v), "activeMods"@, list_tree("activeMods"@, active)),
        "knownExpansions"@,
        list_tree("knownExpansions"@, known),
    )
}

impl ModsConfig {
    /// The kept `<ModsConfigData>` element.
    pub closed spec fn doc_tree(&self) -> Tree {
        tree(self.doc)
    }

    /// The game version.
    pub closed spec fn version_view(&self) -> Seq<char> {
        self.version@
    }

    /// The active ids.
    pub closed spec fn active_view(&self) -> Seq<Seq<char>> {
        sv(self.active@)
    }

    /// The active ids, as stored.
    pub fn active_ids(&self) -> (r: &Vec<String>)
        ensures
            sv(r@) == self.active_view(),
    {
        &self.active
    }

    /// The known expansions, as stored.
    pub fn known_ids(&self) -> (r: &Vec<String>)
        ensures
            sv(r@) == self.known_view(),
    {
        &self.known_expansions
    }

    /// The known expansions.
    pub closed spec fn known_view(&self) -> Seq<Seq<char>> {
        sv(self.known_expansions@)
    }

    /// A config for game `version` with only the base game active.
    pub fn new(version: &str) -> (r: ModsConfig)
        ensures
            r.version_view() == version@,
            r.active_view() == seq!["ludeon.rimworld"@],
            r.known_view().len() == 0,
            r.doc_tree() == leaf("ModsConfigData"@, Seq::empty()),
    {
        let doc = Node::new("ModsConfigData");
        proof {
            assert(doc.children@ =~= Seq::<Node>::empty());
            assert(sv(doc.attrs@) =~= Seq::<Seq<char>>::empty());
        }
        let active = vec![String::from_str("ludeon.rimworld")];
        proof {
            assert(sv(active@) =~= seq!["ludeon.rimworld"@]);
        }
        ModsConfig { version: String::from_str(version), active, known_expansions: Vec::new(), doc }
    }

    /// The lowercased ids listed under `key`.
    fn ids(doc: &Node, key: &str) -> (r: Vec<String>)
        ensures
            sv(r@) == list_of(tree(*doc), key@),
    {
        proof {
            crate::xml::lemma_named_trees(doc.children@, key@, false);
        }
        match doc.child(key) {
            Some(c) => {
                proof {
                    crate::xml::lemma_named_trees(c.children@, key@, false);
                    let k = crate::xml::first_named(doc.children@, key@);
                    crate::xml::lemma_first_named(doc.children@, key@);
                    assert(tree(*doc).children == trees(doc.children@));
                    assert(tree(*doc).children[k] == tree(*c));
                    assert(tree(*c).children == trees(c.children@));
                }
                let texts = c.li_texts();
                let mut out: Vec<String> = Vec::new();
                let mut i: usize = 0;
                while i < texts.len()
                    invariant
                        0 <= i <= texts@.len(),
                        sv(out@) == sv(texts@).take(i as int).map_values(|s: Seq<char>| lowercase(s)),
                    decreases texts@.len() - i,
                {
                    let ghost o0 = out@;
                    out.push(to_lower(texts[i].as_str()));
                    proof {
                        assert(sv(out@) =~= sv(o0).push(lowercase(texts@[i as int]@)));
                        assert(sv(texts@).take(i + 1).map_values(|s: Seq<char>| lowercase(s)) =~= sv(texts@).take(i as int).map_values(|s: Seq<char>| lowercase(s)).push(lowercase(texts@[i as int]@)));
                    }
                    i += 1;
                }
                proof {
                    assert(sv(texts@).take(i as int) == sv(texts@));
                }
                out
            },
            None => {
                let e: Vec<String> = Vec::new();
                proof {
                    assert(sv(e@) =~= Seq::<Seq<char>>::empty());
                }
                e
            },
        }
    }

    /// Read a config from the text of `ModsConfig.xml`.
    pub fn parse(text: &str) -> (r: Result<ModsConfig, Error>)
        ensures
            r is Err <==> data_pos(crate::xml::parse_tree(text@)) < 0,
            r matches Err(e) ==> e matches Error::Other(m) && m@ == "ModsConfig.xml has no <ModsConfigData> element"@,
            r matches Ok(c) ==> {
                let d = crate::xml::parse_tree(text@).children[data_pos(crate::xml::parse_tree(text@))];
                &&& c.doc_tree() == d
                &&& c.version_view() == text_of(d, "version"@)
                &&& c.active_view() == list_of(d, "activeMods"@)
                &&& c.known_view() == list_of(d, "knownExpansions"@)
            },
    {
        let root = crate::xml::parse(text);
        proof {
            crate::xml::lemma_named_trees(root.children@, "ModsConfigData"@, false);
        }
        let doc = match root.child("ModsConfigData") {
            Some(d) => d.copy(),
            None => {
                return Err(Error::Other(String::from_str("ModsConfig.xml has no <ModsConfigData> element")));
            },
        };
        proof {
            crate::xml::lemma_named_trees(doc.children@, "version"@, false);
        }
        proof {
            let k = crate::xml::first_named(root.children@, "ModsConfigData"@);
            crate::xml::lemma_first_named(root.children@, "ModsConfigData"@);
            crate::xml::lemma_first_named(doc.children@, "version"@);
            assert(crate::xml::parse_tree(text@) == tree(root));
            assert(tree(root).children == trees(root.children@));
            assert(tree(root).children[k] == tree(root.children@[k]));
            assert(tree(doc).children == trees(doc.children@));
            let kv = crate::xml::first_named(doc.children@, "version"@);
            if kv >= 0 {
                assert(tree(doc).children[kv] == tree(doc.children@[kv]));
            }
        }
        let version = match doc.child_text("version") {
            Some(t) => String::from_str(t),
            None => String::new(),
        };
        let active = Self::ids(&doc, "activeMods");
        let known_expansions = Self::ids(&doc, "knownExpansions");
        Ok(ModsConfig { version, active, known_expansions, doc })
    }

    /// An element named `name` listing `ids`.
    fn list_node(name: &str, ids: &Vec<String>) -> (r: Node)
        ensures
            tree(r) == list_tree(name@, sv(ids@)),
    {
        let mut n = Node::new(name);
        let mut i: usize = 0;
        while i < ids.len()
            invariant
                0 <= i <= ids@.len(),
                n.name@ == name@,
                n.text@ == Seq::<char>::empty(),
                n.attrs@.len() == 0,
                trees(n.children@) == sv(ids@).take(i as int).map_values(|id: Seq<char>| li_tree(id)),
            decreases ids@.len() - i,
        {
            let mut li = Node::new("li");
            li.text = ids[i].clone();
            proof {
                assert(li.children@ =~= Seq::<Node>::empty());
                assert(sv(li.attrs@) =~= Seq::<Seq<char>>::empty());
                reveal_strlit("li");
                assert("li"@ =~= seq!['l', 'i']);
                assert(li.name@ == seq!['l', 'i']);
                assert(trees(li.children@) =~= Seq::<Tree>::empty());
                assert(tree(li) == li_tree(ids@[i as int]@));
            }
            let ghost c0 = n.children@;
            n.children.push(li);
            proof {
                assert(c0.push(li).drop_last() == c0);
                assert(sv(ids@).take(i + 1).map_values(|id: Seq<char>| li_tree(id)) =~= sv(ids@).take(i as int).map_values(|id: Seq<char>| li_tree(id)).push(li_tree(ids@[i as int]@)));
            }
            i += 1;
        }
        proof {
            assert(sv(ids@).take(i as int) == sv(ids@));
            assert(sv(n.attrs@) =~= Seq::<Seq<char>>::empty());
        }
        n
    }

    /// Replaces the first child of `doc` named `name` by `c`, or appends `c`.
    fn set(doc: &mut Node, name: &str, c: Node)
        ensures
            tree(*final(doc)) == set_child(tree(*old(doc)), name@, tree(c)),
    {
        proof {
            crate::xml::lemma_named_trees(doc.children@, name@, false);
        }
        let ghost d0 = *doc;
        let k = doc.child_index_pub(name);
        if k < doc.children.len() {
            let ghost c0 = doc.children@;
            doc.children.set(k, c);
            proof {
                crate::xml::lemma_named_trees(doc.children@, name@, false);
                assert(trees(doc.children@) =~= trees(c0).update(k as int, tree(c)));
            }
        } else {
            let ghost c0 = doc.children@;
            doc.children.push(c);
            proof {
                assert(c0.push(c).drop_last() == c0);
            }
        }
    }

    /// The text of `ModsConfig.xml` for this config.
    pub fn to_xml(&self) -> (r: String)
        requires
            node_depth(config_tree(self.doc_tree(), self.version_view(), self.active_view(), self.known_view())) < usize::MAX / 2 - 1,
        ensures
            r@ == xml_header() + render(config_tree(self.doc_tree(), self.version_view(), self.active_view(), self.known_view()), 0),
    {
        let mut doc = self.doc.copy();
        let mut version = Node::new("version");
        version.text = self.version.clone();
        proof {
            assert(version.children@ =~= Seq::<Node>::empty());
            assert(sv(version.attrs@) =~= Seq::<Seq<char>>::empty());
        }
        Self::set(&mut doc, "version", version);
        let a = Self::list_node("activeMods", &self.active);
        Self::set(&mut doc, "activeMods", a);
        let k = Self::list_node("knownExpansions", &self.known_expansions);
        Self::set(&mut doc, "knownExpansions", k);
        crate::xml::write(&doc)
    }
}

/// What `natord::compare` gives for `a` and `b`: -1, 0 or 1 for less, equal, greater in natural
/// (digit-run aware) order.
pub uninterp spec fn natural_order(a: Seq<char>, b: Seq<char>) -> i8;

/// Calls `natord::compare`; the result, as -1, 0 or 1, is named `natural_order(a, b)`.
#[verifier::external_body]
fn natural_order_of(a: &str, b: &str) -> (r: i8)
    ensures
        r == natural_order(a@, b@),
{
    match natord::compare(a, b) {
        core::cmp::Ordering::Less => -1,
        core::cmp::Ordering::Equal => 0,
        core::cmp::Ordering::Greater => 1,
    }
}

/// Ordered active list plus what couldn't be resolved.
#[derive(Debug, Clone)]
pub struct ActiveList {
    pub ids: Vec<ModId>,
    /// Entries whose config id carried `_steam` (kept on save).
    pub steam_suffix: Vec<ModId>,
    /// Package ids present in the config but not installed.
    pub missing: Vec<String>,
}


/// `sorted` with `x` placed after every entry that does not come after it in natural order.
pub open spec fn natural_insert(sorted: Seq<Seq<char>>, x: Seq<char>) -> Seq<Seq<char>>
    decreases sorted.len(),
{
    if sorted.len() == 0 {
        seq![x]
    } else if natural_order(x, sorted.last()) < 0 {
        natural_insert(sorted.drop_last(), x).push(sorted.last())
    } else {
        sorted.push(x)
    }
}

/// `names` in natural order, names that compare equal keeping their order.
pub open spec fn natural_sorted(names: Seq<Seq<char>>) -> Seq<Seq<char>>
    decreases names.len(),
{
    if names.len() == 0 {
        Seq::empty()
    } else {
        natural_insert(natural_sorted(names.drop_last()), names.last())
    }
}

/// The names that are backups of `file`: those starting with `<file>.bak-`, in order.
pub open spec fn backups_of(file: Seq<char>, names: Seq<Seq<char>>) -> Seq<Seq<char>>
    decreases names.len(),
{
    if names.len() == 0 {
        Seq::empty()
    } else {
        let r = backups_of(file, names.drop_last());
        if crate::text::has_prefix(names.last(), file + ".bak-"@) { r.push(names.last()) } else { r }
    }
}

/// The backups to delete so that `kept` remain: the first ones in natural order.
pub open spec fn pruned_backups(file: Seq<char>, names: Seq<Seq<char>>, kept: nat) -> Seq<Seq<char>> {
    let b = natural_sorted(backups_of(file, names));
    if b.len() > kept { b.take(b.len() - kept) } else { Seq::empty() }
}

/// Inserts `x` into a list kept in natural order (see `natural_insert`).
fn insert_natural(sorted: Vec<String>, x: String) -> (r: Vec<String>)
    ensures
        sv(r@) == natural_insert(sv(sorted@), x@),
    decreases sorted@.len(),
{
    let mut s = sorted;
    if s.len() == 0 {
        let r = vec![x];
        assert(sv(r@) == seq![x@]);
        return r;
    }
    let ghost s0 = sv(s@);
    let last = s.pop().unwrap();
    assert(sv(s@) == s0.drop_last());
    if natural_order_of(x.as_str(), last.as_str()) < 0 {
        let mut r = insert_natural(s, x);
        let ghost r0 = sv(r@);
        r.push(last);
        assert(sv(r@) == r0.push(last@));
        r
    } else {
        s.push(last);
        let ghost t = sv(s@);
        s.push(x);
        assert(t == s0);
        assert(sv(s@) == t.push(x@));
        s
    }
}

/// Of the file names in a folder, the backups of `file_name` (`<file_name>.bak-…`) to delete so
/// that the `kept` last in natural order remain: the first ones in natural order.
pub fn backups_to_prune(file_name: &str, names: &Vec<String>, kept: usize) -> (r: Vec<String>)
    ensures
        sv(r@) == pruned_backups(file_name@, sv(names@), kept as nat),
{
    let mut prefix = String::from_str(file_name);
    prefix.append(".bak-");
    let p = chars_of(prefix.as_str());
    let mut sorted: Vec<String> = Vec::new();
    let mut i: usize = 0;
    proof {
        assert(sv(sorted@) == Seq::<Seq<char>>::empty());
    }
    while i < names.len()
        invariant
            0 <= i <= names@.len(),
            p@ == file_name@ + ".bak-"@,
            sv(sorted@) == natural_sorted(backups_of(file_name@, sv(names@).take(i as int))),
        decreases names@.len() - i,
    {
        let ghost t = sv(names@).take(i + 1);
        proof {
            assert(t.drop_last() == sv(names@).take(i as int));
            assert(t.last() == names@[i as int]@);
        }
        let c = chars_of(names[i].as_str());
        proof {
            assert(c@.subrange(0, c@.len() as int) == c@);
        }
        let ghost prev = backups_of(file_name@, sv(names@).take(i as int));
        if crate::text::starts_at(c.as_slice(), 0, p.as_slice()) {
            let x = names[i].clone();
            assert(x@ == t.last());
            assert(backups_of(file_name@, t) == prev.push(x@));
            assert(prev.push(x@).drop_last() == prev);
            sorted = insert_natural(sorted, x);
        } else {
            assert(backups_of(file_name@, t) == prev);
        }
        i += 1;
    }
    proof {
        assert(sv(names@).take(names@.len() as int) == sv(names@));
    }
    let mut out: Vec<String> = Vec::new();
    if sorted.len() > kept {
        let n = sorted.len() - kept;
        let mut j: usize = 0;
        while j < n
            invariant
                0 <= j <= n <= sorted@.len(),
                sv(out@) == sv(sorted@).take(j as int),
            decreases n - j,
        {
            let ghost o = sv(out@);
            out.push(sorted[j].clone());
            proof {
                assert(sv(out@) == o.push(sorted@[j as int]@));
                assert(sv(sorted@).take(j + 1) == sv(sorted@).take(j as int).push(sv(sorted@)[j as int]));
            }
            j += 1;
        }
    } else {
        assert(sv(out@) == Seq::<Seq<char>>::empty());
    }
    out
}

/// Source priority among duplicate copies: the game's own, then local, SteamCMD, git, Workshop
/// (or Workshop first for an id saved with `_steam`).
pub open spec fn priority(steam: bool) -> Seq<ModType> {
    if steam {
        seq![ModType::SteamWorkshop, ModType::Local, ModType::SteamCmd, ModType::Git]
    } else {
        seq![ModType::Ludeon, ModType::Local, ModType::SteamCmd, ModType::Git, ModType::SteamWorkshop]
    }
}

/// Among the copies `c` of type `t`, the first with the naturally smallest path (-1 if none).
pub open spec fn best_of(c: Seq<Mod>, t: ModType) -> int
    decreases c.len(),
{
    if c.len() == 0 {
        -1
    } else {
        let b = best_of(c.drop_last(), t);
        let i = c.len() - 1;
        if c[i].mod_type == t && (b < 0 || natural_order(c[i].path@, c[b].path@) < 0) {
            i
        } else {
            b
        }
    }
}

/// The copy of the first type in `order` that has one (-1 if none).
pub open spec fn best_by_priority(c: Seq<Mod>, order: Seq<ModType>) -> int
    decreases order.len(),
{
    if order.len() == 0 {
        -1
    } else if best_of(c, order[0]) >= 0 {
        best_of(c, order[0])
    } else {
        best_by_priority(c, order.drop_first())
    }
}

/// The copy chosen among `c` (-1 if there is none): the only one, else by source priority, else
/// the first.
pub open spec fn pick(c: Seq<Mod>, steam: bool) -> int {
    if c.len() == 0 {
        -1
    } else if c.len() == 1 {
        0
    } else if best_by_priority(c, priority(steam)) >= 0 {
        best_by_priority(c, priority(steam))
    } else {
        0
    }
}

/// A config id without its `_steam` suffix, and whether it had one.
pub open spec fn strip_steam(low: Seq<char>) -> (Seq<char>, bool) {
    if has_suffix(low, "_steam"@) {
        (low.take(low.len() - 6), true)
    } else {
        (low, false)
    }
}

/// Resolution state: ids, ids saved with `_steam`, missing package ids.
pub type Resolved = (Seq<ModId>, Seq<ModId>, Seq<Seq<char>>);

/// Resolves one config id.
pub open spec fn resolve_step(mods: Seq<Mod>, st: Resolved, raw: Seq<char>) -> Resolved {
    let (target, steam) = strip_steam(lowercase(raw));
    let c = pkg_mods(mods, target);
    let p = pick(c, steam);
    if p >= 0 {
        let id = c[p].id;
        if st.0.contains(id) {
            st
        } else {
            (st.0.push(id), if steam { st.1.push(id) } else { st.1 }, st.2)
        }
    } else if st.2.contains(target) {
        st
    } else {
        (st.0, st.1, st.2.push(target))
    }
}

/// Resolves the config ids `raws` in order.
pub open spec fn resolve_all(mods: Seq<Mod>, raws: Seq<Seq<char>>) -> Resolved
    decreases raws.len(),
{
    if raws.len() == 0 {
        (Seq::empty(), Seq::empty(), Seq::empty())
    } else {
        resolve_step(mods, resolve_all(mods, raws.drop_last()), raws.last())
    }
}

/// Index in `c` of the copy of type `t` with the naturally smallest path, or `c.len()`.
fn best_of_type(c: &Vec<&Mod>, t: ModType) -> (r: usize)
    ensures
        r <= c@.len(),
        r < c@.len() ==> r as int == best_of(c@.map_values(|m: &Mod| *m), t),
        r == c@.len() ==> best_of(c@.map_values(|m: &Mod| *m), t) == -1,
{
    let ghost cs = c@.map_values(|m: &Mod| *m);
    let mut best: usize = c.len();
    let mut i: usize = 0;
    while i < c.len()
        invariant
            0 <= i <= c@.len(),
            cs == c@.map_values(|m: &Mod| *m),
            best == c@.len() || best < i,
            best < c@.len() ==> best as int == best_of(cs.take(i as int), t),
            best == c@.len() ==> best_of(cs.take(i as int), t) == -1,
        decreases c@.len() - i,
    {
        proof {
            assert(cs.take(i + 1).drop_last() == cs.take(i as int));
            assert(cs.take(i + 1)[i as int] == *c@[i as int]);
            if best < c@.len() {
                assert(cs.take(i + 1)[best as int] == *c@[best as int]);
            }
        }
        if c[i].mod_type == t {
            if best == c.len() {
                best = i;
            } else if natural_order_of(c[i].path.as_str(), c[best].path.as_str()) < 0 {
                best = i;
            }
        }
        i += 1;
    }
    proof {
        assert(cs.take(i as int) == cs);
    }
    best
}

/// The chosen copy's index in `c`, or `c.len()` when `c` is empty.
fn pick_copy(c: &Vec<&Mod>, steam: bool) -> (r: usize)
    ensures
        r <= c@.len(),
        r < c@.len() ==> r as int == pick(c@.map_values(|m: &Mod| *m), steam),
        r == c@.len() ==> pick(c@.map_values(|m: &Mod| *m), steam) == -1,
{
    let ghost cs = c@.map_values(|m: &Mod| *m);
    if c.len() <= 1 {
        return 0;
    }
    let order: Vec<ModType> = if steam {
        vec![ModType::SteamWorkshop, ModType::Local, ModType::SteamCmd, ModType::Git]
    } else {
        vec![ModType::Ludeon, ModType::Local, ModType::SteamCmd, ModType::Git, ModType::SteamWorkshop]
    };
    proof {
        assert(order@ == priority(steam));
        assert(order@.skip(0) == order@);
    }
    let mut k: usize = 0;
    while k < order.len()
        invariant
            0 <= k <= order@.len(),
            cs == c@.map_values(|m: &Mod| *m),
            order@ == priority(steam),
            best_by_priority(cs, order@) == best_by_priority(cs, order@.skip(k as int)),
        decreases order@.len() - k,
    {
        let b = best_of_type(c, order[k]);
        proof {
            assert(order@.skip(k as int)[0] == order@[k as int]);
            assert(order@.skip(k as int).drop_first() == order@.skip(k + 1));
        }
        if b < c.len() {
            return b;
        }
        k += 1;
    }
    0
}

/// Map config package ids to installed mods, choosing among duplicate copies by source priority.
pub fn resolve_active(index: &ModIndex, config_ids: &[String]) -> (r: ActiveList)
    ensures
        (r.ids@, r.steam_suffix@, sv(r.missing@)) == resolve_all(index.mods@, sv(config_ids@)),
{
    let ghost mods = index.mods@;
    let mut ids: Vec<ModId> = Vec::new();
    let mut steam_ids: Vec<ModId> = Vec::new();
    let mut missing: Vec<String> = Vec::new();
    let mut i: usize = 0;
    while i < config_ids.len()
        invariant
            0 <= i <= config_ids@.len(),
            mods == index.mods@,
            (ids@, steam_ids@, sv(missing@)) == resolve_all(mods, sv(config_ids@).take(i as int)),
        decreases config_ids@.len() - i,
    {
        proof {
            assert(sv(config_ids@).take(i + 1).drop_last() == sv(config_ids@).take(i as int));
            assert(sv(config_ids@).take(i + 1).last() == config_ids@[i as int]@);
        }
        let low = to_lower(config_ids[i].as_str());
        let lv = crate::text::chars_of(low.as_str());
        let suffix = crate::text::chars_of("_steam");
        let n = lv.len();
        let is_steam = n >= 6 && crate::text::starts_at(lv.as_slice(), n - 6, suffix.as_slice());
        let target = if is_steam {
            crate::text::string_of_range(lv.as_slice(), 0, n - 6)
        } else {
            low.clone()
        };
        proof {
            if n >= 6 {
                assert(lv@.subrange(n - 6, n as int) == lv@.subrange(n - 6, lv@.len() as int));
                reveal_strlit("_steam");
                assert(suffix@.len() == 6);
            } else {
                reveal_strlit("_steam");
            }
            assert(strip_steam(lowercase(config_ids@[i as int]@)) == (target@, is_steam));
        }
        let c = index.by_package(target.as_str());
        let ghost cs = c@.map_values(|m: &Mod| *m);
        proof {
            assert(cs =~= crate::mods::pkg_mods(mods, target@));
        }
        let p = pick_copy(&c, is_steam);
        if p < c.len() {
            let id = c[p].id;
            if !crate::sort::contains_id_pub(&ids, id) {
                ids.push(id);
                if is_steam {
                    steam_ids.push(id);
                }
            }
        } else {
            if !crate::text::contains_str(&missing, &target) {
                let ghost m0 = missing@;
                missing.push(target);
                proof {
                    assert(sv(missing@) == sv(m0).push(target@));
                }
            }
        }
        i += 1;
    }
    proof {
        assert(sv(config_ids@).take(i as int) == sv(config_ids@));
    }
    ActiveList { ids, steam_suffix: steam_ids, missing }
}

/// The id a mod is saved under: its package id, with `_steam` when it was loaded so.
pub open spec fn saved_id(m: Mod, steam: Seq<ModId>) -> Seq<char> {
    if steam.contains(m.id) {
        m.package_id@ + "_steam"@
    } else {
        m.package_id@
    }
}

/// The ids to save for `ids`: ids the index no longer has are dropped.
pub open spec fn saved_ids(mods: Seq<Mod>, ids: Seq<ModId>, steam: Seq<ModId>) -> Seq<Seq<char>>
    decreases ids.len(),
{
    if ids.len() == 0 {
        Seq::empty()
    } else {
        let r = saved_ids(mods, ids.drop_last(), steam);
        let k = last_with_id(mods, ids.last());
        if k >= 0 {
            r.push(saved_id(mods[k], steam))
        } else {
            r
        }
    }
}

/// Ids to write back to `ModsConfig.xml`, in load order.
pub fn config_ids(index: &ModIndex, list: &ActiveList) -> (r: Vec<String>)
    ensures
        sv(r@) == saved_ids(index.mods@, list.ids@, list.steam_suffix@),
{
    let mut out: Vec<String> = Vec::new();
    let mut i: usize = 0;
    while i < list.ids.len()
        invariant
            0 <= i <= list.ids@.len(),
            sv(out@) == saved_ids(index.mods@, list.ids@.take(i as int), list.steam_suffix@),
        decreases list.ids@.len() - i,
    {
        proof {
            assert(list.ids@.take(i + 1).drop_last() == list.ids@.take(i as int));
            assert(list.ids@.take(i + 1).last() == list.ids@[i as int]);
        }
        match index.get(list.ids[i]) {
            Some(m) => {
                let mut s = m.package_id.clone();
                if crate::sort::contains_id_pub(&list.steam_suffix, m.id) {
                    s.append("_steam");
                }
                let ghost o0 = out@;
                out.push(s);
                proof {
                    assert(sv(out@) == sv(o0).push(s@));
                }
            },
            None => {},
        }
        i += 1;
    }
    proof {
        assert(list.ids@.take(i as int) == list.ids@);
    }
    out
}

/// Where `first_named_tree` points: a match, with none before it.
proof fn lemma_first_tree(cs: Seq<Tree>, key: Seq<char>)
    ensures
        -1 <= first_named_tree(cs, key) < cs.len(),
        first_named_tree(cs, key) >= 0 ==> crate::text::eq_ignore_case(cs[first_named_tree(cs, key)].name, key),
        forall|j: int| 0 <= j < cs.len() && (first_named_tree(cs, key) < 0 || j < first_named_tree(cs, key))
            ==> !crate::text::eq_ignore_case(#[trigger] cs[j].name, key),
    decreases cs.len(),
{
    if cs.len() > 0 {
        lemma_first_tree(cs.drop_last(), key);
        assert forall|j: int| 0 <= j < cs.len() && (first_named_tree(cs, key) < 0 || j < first_named_tree(cs, key))
            implies !crate::text::eq_ignore_case(#[trigger] cs[j].name, key) by {
            if j < cs.len() - 1 {
                assert(cs[j] == cs.drop_last()[j]);
            }
        }
        if first_named_tree(cs.drop_last(), key) >= 0 {
            assert(cs[first_named_tree(cs, key)] == cs.drop_last()[first_named_tree(cs, key)]);
        }
    }
}

/// Setting the child named `n` to `c` (named `n`) puts `c` first among those named `n`, and
/// leaves the first child named `m` (another length of name) where and what it was.
proof fn lemma_set_child(t: Tree, n: Seq<char>, c: Tree, m: Seq<char>)
    requires
        c.name == n,
        n.len() != m.len(),
    ensures
        ({
            let u = set_child(t, n, c);
            &&& first_named_tree(u.children, n) >= 0
            &&& u.children[first_named_tree(u.children, n)] == c
            &&& first_named_tree(u.children, m) == first_named_tree(t.children, m)
            &&& first_named_tree(t.children, m) >= 0 ==> u.children[first_named_tree(u.children, m)]
                == t.children[first_named_tree(t.children, m)]
            &&& u.name == t.name
            &&& forall|j: int| 0 <= j < u.children.len() ==> #[trigger] u.children[j] == c || (j < t.children.len()
                && u.children[j] == t.children[j])
        }),
{
    let u = set_child(t, n, c);
    let cs = t.children;
    let k = first_named_tree(cs, n);
    lemma_first_tree(cs, n);
    lemma_first_tree(cs, m);
    lemma_first_tree(u.children, n);
    lemma_first_tree(u.children, m);
    assert(crate::text::eq_ignore_case(c.name, n));
    let km = first_named_tree(cs, m);
    if k >= 0 {
        assert(u.children == cs.update(k, c));
        assert(first_named_tree(u.children, n) == k) by {
            let f = first_named_tree(u.children, n);
            if f >= 0 && f < k {
                assert(u.children[f] == cs[f]);
            }
            if f < 0 || f > k {
                assert(u.children[k] == c);
            }
        }
        assert(first_named_tree(u.children, m) == km) by {
            let f = first_named_tree(u.children, m);
            assert(!crate::text::eq_ignore_case(u.children[k].name, m));
            if km >= 0 {
                assert(km != k);
                assert(u.children[km] == cs[km]);
                if f >= 0 && f < km {
                    assert(f != k);
                    assert(u.children[f] == cs[f]);
                }
                if f < 0 || f > km {
                    assert(crate::text::eq_ignore_case(u.children[km].name, m));
                }
            } else {
                if f >= 0 {
                    if f != k {
                        assert(u.children[f] == cs[f]);
                    }
                }
            }
        }
    } else {
        assert(u.children == cs.push(c));
        assert(first_named_tree(u.children, n) == cs.len()) by {
            assert(u.children.drop_last() =~= cs);
        }
        assert(first_named_tree(u.children, m) == km) by {
            assert(u.children.drop_last() =~= cs);
            assert(!crate::text::eq_ignore_case(c.name, m));
        }
        if km >= 0 {
            assert(u.children[km] == cs[km]);
        }
    }
}

/// The ids read back from an id list that was written: trimmed, empty ones dropped, lowercased.
pub open spec fn ids_read(ids: Seq<Seq<char>>) -> Seq<Seq<char>> {
    li_values_tree(ids.map_values(|id: Seq<char>| li_tree(id)), false).map_values(|s: Seq<char>| lowercase(s))
}

/// A list element of `ids` can be written and read back.
proof fn lemma_list_writable(name: Seq<char>, ids: Seq<Seq<char>>)
    requires
        crate::reread::name_ok(name),
    ensures
        crate::reread::writable(list_tree(name, ids)),
        forall|k: int| 0 <= k < list_tree(name, ids).children.len() ==> (#[trigger] list_tree(name, ids).children[k]).children.len() == 0,
{
    let cs = list_tree(name, ids).children;
    assert(crate::reread::name_ok(seq!['l', 'i']));
    assert forall|k: int| 0 <= k < cs.len() implies crate::reread::writable(#[trigger] cs[k]) by {
        assert(cs[k] == li_tree(ids[k]));
        assert(crate::reread::writable_all(cs[k].children));
    }
    crate::reread::lemma_writable_all_from(cs);
}

/// Writing a config and reading the text back gives back its version (trimmed), its active
/// mods and known expansions (trimmed, empty entries dropped, lowercased), and every other
/// element of the document with its name, nesting and leaf texts: for documents whose element
/// names the reader reads as written (see `name_ok`).
pub proof fn law_config_reads_back(d: Tree, version: Seq<char>, active: Seq<Seq<char>>, known: Seq<Seq<char>>)
    requires
        crate::reread::writable(d),
        crate::text::eq_ignore_case(d.name, "ModsConfigData"@),
    ensures
        ({
            let t = config_tree(d, version, active, known);
            let root = crate::xml::parse_tree(crate::xml::xml_header() + crate::xml::render(t, 0));
            &&& data_pos(root) == 0
            &&& crate::reread::same_shape(root.children[0], t)
            &&& text_of(root.children[0], "version"@) == trim(version)
            &&& list_of(root.children[0], "activeMods"@) == ids_read(active)
            &&& list_of(root.children[0], "knownExpansions"@) == ids_read(known)
        }),
{
    reveal_strlit("version");
    reveal_strlit("activeMods");
    reveal_strlit("knownExpansions");
    reveal_strlit("ModsConfigData");
    let vn = "version"@;
    let an = "activeMods"@;
    let kn = "knownExpansions"@;
    let v = Tree { name: vn, text: version, children: Seq::empty(), attrs: Seq::empty() };
    let la = list_tree(an, active);
    let lk = list_tree(kn, known);
    let t1 = set_child(d, vn, v);
    let t2 = set_child(t1, an, la);
    let t = set_child(t2, kn, lk);
    assert(t == config_tree(d, version, active, known));
    lemma_set_child(d, vn, v, an);
    lemma_set_child(d, vn, v, kn);
    lemma_set_child(t1, an, la, vn);
    lemma_set_child(t1, an, la, kn);
    lemma_set_child(t2, kn, lk, vn);
    lemma_set_child(t2, kn, lk, an);
    let kv = first_named_tree(t.children, vn);
    let ka = first_named_tree(t.children, an);
    let kk = first_named_tree(t.children, kn);
    assert(kv >= 0 && t.children[kv] == v);
    assert(ka >= 0 && t.children[ka] == la);
    assert(kk >= 0 && t.children[kk] == lk);
    // The written document can be read back.
    assert(crate::reread::name_ok(vn));
    assert(crate::reread::name_ok(an));
    assert(crate::reread::name_ok(kn));
    lemma_list_writable(an, active);
    lemma_list_writable(kn, known);
    assert(crate::reread::writable(v)) by {
        assert(crate::reread::writable_all(v.children));
    }
    crate::reread::lemma_writable_all_each(d.children);
    assert forall|j: int| 0 <= j < t1.children.len() implies crate::reread::writable(#[trigger] t1.children[j]) by {}
    assert forall|j: int| 0 <= j < t2.children.len() implies crate::reread::writable(#[trigger] t2.children[j]) by {}
    assert forall|j: int| 0 <= j < t.children.len() implies crate::reread::writable(#[trigger] t.children[j]) by {}
    crate::reread::lemma_writable_all_from(t.children);
    assert(crate::reread::writable(t));
    crate::reread::law_written_element_reads_back(t);
    let root = crate::xml::parse_tree(crate::xml::xml_header() + crate::xml::render(t, 0));
    let u = root.children[0];
    assert(root.children.drop_last() =~= Seq::<Tree>::empty());
    assert(t.name == d.name);
    assert(u.name == t.name);
    assert(first_named_tree(root.children.drop_last(), "ModsConfigData"@) == -1);
    assert(data_pos(root) == 0);
    lemma_first_tree(t.children, vn);
    lemma_first_tree(t.children, an);
    lemma_first_tree(t.children, kn);
    assert(crate::reread::same_all(u.children, t.children));
    crate::reread::lemma_first_named_same(u.children, t.children, vn);
    crate::reread::lemma_first_named_same(u.children, t.children, an);
    crate::reread::lemma_first_named_same(u.children, t.children, kn);
    crate::reread::lemma_same_all_at(u.children, t.children, kv);
    crate::reread::lemma_same_all_at(u.children, t.children, ka);
    crate::reread::lemma_same_all_at(u.children, t.children, kk);
    crate::reread::lemma_trim_twice(version);
    assert(crate::reread::same_all(u.children[ka].children, la.children));
    assert(crate::reread::same_all(u.children[kk].children, lk.children));
    crate::reread::lemma_li_values_same(u.children[ka].children, la.children);
    crate::reread::lemma_li_values_same(u.children[kk].children, lk.children);
}

/// Setting a child makes an element no deeper than the element and one above the child.
proof fn lemma_set_child_depth(t: Tree, name: Seq<char>, c: Tree, b: nat)
    requires
        node_depth(t) <= b,
        node_depth(c) + 1 <= b,
    ensures
        node_depth(set_child(t, name, c)) <= b,
{
    let u = set_child(t, name, c);
    let p = first_named_tree(t.children, name);
    lemma_first_named_tree(t.children, name);
    assert forall|k: int| 0 <= k < u.children.len() implies node_depth(#[trigger] u.children[k]) + 1 <= b by {
        if (p >= 0 && k != p) || (p < 0 && k < t.children.len()) {
            assert(u.children[k] == t.children[k]);
            crate::xml::lemma_depth_all(t.children, k);
        }
    }
    if u.children.len() > 0 {
        crate::xml::lemma_depth_all_bound(u.children, (b - 1) as nat);
    }
}

/// A list element is at most one deep.
proof fn lemma_list_depth(name: Seq<char>, ids: Seq<Seq<char>>)
    ensures
        node_depth(list_tree(name, ids)) <= 1,
{
    let t = list_tree(name, ids);
    assert forall|k: int| 0 <= k < t.children.len() implies node_depth(#[trigger] t.children[k]) <= 0 by {
        assert(t.children[k] == li_tree(ids[k]));
    }
    crate::xml::lemma_depth_all_bound(t.children, 0);
}

/// Writing the version and the lists adds at most two levels to a document of one level or more.
pub proof fn lemma_config_depth(doc: Tree, version: Seq<char>, active: Seq<Seq<char>>, known: Seq<Seq<char>>)
    ensures
        node_depth(config_tree(doc, version, active, known)) <= node_depth(doc) + 2,
{
    let b = node_depth(doc) + 2;
    let v = Tree { name: "version"@, text: version, children: Seq::empty(), attrs: Seq::empty() };
    lemma_list_depth("activeMods"@, active);
    lemma_list_depth("knownExpansions"@, known);
    lemma_set_child_depth(doc, "version"@, v, b);
    let t1 = set_child(doc, "version"@, v);
    lemma_set_child_depth(t1, "activeMods"@, list_tree("activeMods"@, active), b);
    let t2 = set_child(t1, "activeMods"@, list_tree("activeMods"@, active));
    lemma_set_child_depth(t2, "knownExpansions"@, list_tree("knownExpansions"@, known), b);
}

/// The document an exported config starts from: the loaded config's, else a bare
/// `<ModsConfigData>`.
pub open spec fn export_doc(config: Option<ModsConfig>) -> Tree {
    match config {
        Some(c) => c.doc_tree(),
        None => leaf("ModsConfigData"@, Seq::empty()),
    }
}

/// The version an exported config states: the game's when known, else the loaded config's.
pub open spec fn export_version(config: Option<ModsConfig>, game_version: Seq<char>) -> Seq<char> {
    match config {
        Some(c) => if game_version.len() > 0 { game_version } else { c.version_view() },
        None => game_version,
    }
}

/// The known expansions an exported config lists.
pub open spec fn export_known(config: Option<ModsConfig>) -> Seq<Seq<char>> {
    match config {
        Some(c) => c.known_view(),
        None => Seq::empty(),
    }
}

/// The exported config fits the writer: its document is not absurdly deep.
pub open spec fn export_fits(config: Option<ModsConfig>) -> bool {
    match config {
        Some(c) => node_depth(c.doc_tree()) < usize::MAX / 2 - 3,
        None => true,
    }
}

/// `ModsConfig.xml` text for the ids `ids`: the loaded config (keeping what it holds) with this
/// active list and, when the game version is known, that version; a new config without one.
pub fn export_xml(config: &Option<ModsConfig>, game_version: &str, ids: &Vec<String>) -> (r: String)
    requires
        export_fits(*config),
    ensures
        r@ == xml_header() + render(config_tree(export_doc(*config), export_version(*config, game_version@), sv(ids@), export_known(*config)), 0),
{
    let c = match config {
        Some(c) => {
            let version = if chars_of(game_version).len() > 0 { String::from_str(game_version) } else { c.version.clone() };
            ModsConfig { version, active: crate::text::clone_strings(ids), known_expansions: crate::text::clone_strings(&c.known_expansions), doc: c.doc.copy() }
        },
        None => {
            let mut n = ModsConfig::new(game_version);
            n.active = crate::text::clone_strings(ids);
            n
        },
    };
    proof {
        lemma_config_depth(c.doc_tree(), c.version_view(), c.active_view(), c.known_view());
        reveal_strlit("ModsConfigData");
    }
    c.to_xml()
}

/// The first child named `name` (ignoring ASCII case) is so named.
proof fn lemma_first_named_tree(cs: Seq<Tree>, name: Seq<char>)
    ensures
        first_named_tree(cs, name) < cs.len(),
        first_named_tree(cs, name) >= 0 ==> crate::text::eq_ignore_case(cs[first_named_tree(cs, name)].name, name),
    decreases cs.len(),
{
    if cs.len() > 0 {
        lemma_first_named_tree(cs.drop_last(), name);
        let r = first_named_tree(cs.drop_last(), name);
        if r >= 0 {
            assert(cs.drop_last()[r] == cs[r]);
        }
    }
}

/// Writing a config that `ModsConfig::parse` read and reading it back gives back what
/// `law_config_reads_back` says, for every document whose elements all have names. (The reader
/// leaves a name empty only where a tag opens with a character that `char::is_alphabetic`
/// accepts and that also ends a name: a space, `/` or `>`. Unicode gives none of these the
/// Alphabetic property, but what `is_alphabetic` returns is named here, not stated, so the
/// condition is asked for.)
pub proof fn law_parsed_config_reads_back(text: Seq<char>, version: Seq<char>, active: Seq<Seq<char>>, known: Seq<Seq<char>>)
    requires
        data_pos(crate::xml::parse_tree(text)) >= 0,
        crate::reread::named(crate::xml::parse_tree(text).children[data_pos(crate::xml::parse_tree(text))]),
    ensures
        ({
            let d = crate::xml::parse_tree(text).children[data_pos(crate::xml::parse_tree(text))];
            let t = config_tree(d, version, active, known);
            let root = crate::xml::parse_tree(crate::xml::xml_header() + crate::xml::render(t, 0));
            &&& data_pos(root) == 0
            &&& crate::reread::same_shape(root.children[0], t)
            &&& text_of(root.children[0], "version"@) == trim(version)
            &&& list_of(root.children[0], "activeMods"@) == ids_read(active)
            &&& list_of(root.children[0], "knownExpansions"@) == ids_read(known)
        }),
{
    let root = crate::xml::parse_tree(text);
    let k = data_pos(root);
    let d = root.children[k];
    lemma_first_named_tree(root.children, "ModsConfigData"@);
    crate::reread::lemma_parse_readable(text);
    crate::reread::lemma_readable_at(root.children, k);
    crate::reread::lemma_readable_named_writable(d);
    law_config_reads_back(d, version, active, known);
}

/// A config made by `new` meets the condition of `law_config_reads_back`: its document, the
/// bare `<ModsConfigData>` element, is one the reader reads back as written.
pub proof fn law_new_config_reads_back()
    ensures
        crate::reread::writable(crate::xml::leaf("ModsConfigData"@, Seq::empty())),
        crate::text::eq_ignore_case("ModsConfigData"@, "ModsConfigData"@),
{
    reveal_strlit("ModsConfigData");
    let n = "ModsConfigData"@;
    assert(crate::xml::name_start(n[0]));
    assert forall|k: int| 0 <= k < n.len() implies !crate::text::is_ws(#[trigger] n[k]) && n[k] != '/' && n[k] != '>' by {
        assert('A' <= n[k] <= 'z');
    }
    assert(crate::reread::writable_all(Seq::<Tree>::empty()));
}

} // verus!
