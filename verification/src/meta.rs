//! Per-mod personal metadata: color, tags, notes, "ignore warnings".

use vstd::prelude::*;

use crate::error::Error;
use crate::json::{field, jmembers, json_doc, json_pretty, jv, jvs, Json, JsonV};
use crate::text::{chars_of, lowercase, push_char, sv};

verus! {

broadcast use {vstd::string::group_string_axioms, vstd::seq_lib::group_seq_properties};

/// Color, tags, note and ignore flag of one mod.
#[derive(Debug, Clone)]
pub struct ModMeta {
    /// `#rrggbb`.
    pub color: Option<String>,
    pub tags: Vec<String>,
    pub note: String,
    /// Suppress warnings for this mod.
    pub ignore: bool,
}

impl ModMeta {
    /// Nothing set.
    pub fn empty() -> (r: ModMeta)
        ensures
            r.color is None,
            r.tags@.len() == 0,
            r.note@.len() == 0,
            !r.ignore,
    {
        ModMeta { color: None, tags: Vec::new(), note: String::new(), ignore: false }
    }

    /// Nothing is set: no color, no tags, no note, not ignored.
    pub fn is_empty(&self) -> (b: bool)
        ensures
            b == (self.color is None && self.tags@.len() == 0 && self.note@.len() == 0 && !self.ignore),
    {
        self.color.is_none() && self.tags.len() == 0 && self.note.as_str().unicode_len() == 0 && !self.ignore
    }
}

/// An ASCII letter or digit, `-` or `_`.
pub open spec fn portable_char(c: char) -> bool {
    ('a' <= c && c <= 'z') || ('A' <= c && c <= 'Z') || ('0' <= c && c <= '9') || c == '-' || c == '_'
}

/// `name` with every other character replaced by `_`: usable as a file name anywhere.
pub open spec fn safe_name(name: Seq<char>) -> Seq<char> {
    name.map_values(|c: char| if portable_char(c) { c } else { '_' })
}

/// `name` made usable as a file name.
pub fn safe(name: &str) -> (r: String)
    ensures
        r@ == safe_name(name@),
{
    let v = chars_of(name);
    let mut r = String::new();
    let mut i: usize = 0;
    while i < v.len()
        invariant
            0 <= i <= v@.len(),
            v@ == name@,
            r@ == safe_name(v@.take(i as int)),
        decreases v@.len() - i,
    {
        let c = v[i];
        let d = if ('a' <= c && c <= 'z') || ('A' <= c && c <= 'Z') || ('0' <= c && c <= '9') || c == '-' || c == '_' {
            c
        } else {
            '_'
        };
        push_char(&mut r, d);
        proof {
            assert(safe_name(v@.take(i + 1)) =~= safe_name(v@.take(i as int)).push(d));
        }
        i += 1;
    }
    proof {
        assert(v@.take(i as int) == v@);
    }
    r
}

/// The contents of a `ModMeta`.
pub struct MetaView {
    pub color: Option<Seq<char>>,
    pub tags: Seq<Seq<char>>,
    pub note: Seq<char>,
    pub ignore: bool,
}

/// The contents of a `ModMeta`.
pub open spec fn meta_view(m: ModMeta) -> MetaView {
    MetaView {
        color: match m.color {
            Some(c) => Some(c@),
            None => None,
        },
        tags: sv(m.tags@),
        note: m.note@,
        ignore: m.ignore,
    }
}

/// The strings of a list of values, or `None` if one is not a string.
pub open spec fn all_strings(a: Seq<JsonV>) -> Option<Seq<Seq<char>>>
    decreases a.len(),
{
    if a.len() == 0 {
        Some(Seq::empty())
    } else {
        match (all_strings(a.drop_last()), a.last()) {
            (Some(r), JsonV::Str(t)) => Some(r.push(t)),
            _ => None,
        }
    }
}

/// The metadata an object describes: each known member of its type (absent ones empty; a
/// null color is none); `None` for anything else.
pub open spec fn meta_of(v: JsonV) -> Option<MetaView> {
    let color = match field(v, "color"@) {
        None => Some(None),
        Some(JsonV::Null) => Some(None),
        Some(JsonV::Str(c)) => Some(Some(c)),
        _ => None,
    };
    let tags = match field(v, "tags"@) {
        None => Some(Seq::empty()),
        Some(JsonV::Array(a)) => all_strings(a),
        _ => None,
    };
    let note = match field(v, "note"@) {
        None => Some(Seq::empty()),
        Some(JsonV::Str(t)) => Some(t),
        _ => None,
    };
    let ignore = match field(v, "ignore"@) {
        None => Some(false),
        Some(JsonV::Bool(b)) => Some(b),
        _ => None,
    };
    if v is Object && color is Some && tags is Some && note is Some && ignore is Some {
        Some(MetaView { color: color->0, tags: tags->0, note: note->0, ignore: ignore->0 })
    } else {
        None
    }
}

/// The entries of a metadata object, or `None` if one is not metadata.
pub open spec fn metas_of(e: Seq<(Seq<char>, JsonV)>) -> Option<Seq<(Seq<char>, MetaView)>>
    decreases e.len(),
{
    if e.len() == 0 {
        Some(Seq::empty())
    } else {
        match (metas_of(e.drop_last()), meta_of(e.last().1)) {
            (Some(r), Some(m)) => Some(r.push((e.last().0, m))),
            _ => None,
        }
    }
}

/// What `mod_meta.json` text holds: its entries when it is an object of metadata, else none.
pub open spec fn loaded_of(text: Seq<char>) -> Seq<(Seq<char>, MetaView)> {
    match json_doc(text) {
        Some(JsonV::Object(e)) => match metas_of(e) {
            Some(r) => r,
            None => Seq::empty(),
        },
        _ => Seq::empty(),
    }
}

/// The views of metadata entries.
pub open spec fn mviews(v: Seq<(String, ModMeta)>) -> Seq<(Seq<char>, MetaView)> {
    v.map_values(|p: (String, ModMeta)| (p.0@, meta_view(p.1)))
}

/// The strings of a list of values (see `all_strings`).
fn strings_all(a: &Vec<Json>) -> (r: Option<Vec<String>>)
    ensures
        match r {
            Some(v) => all_strings(jvs(a@)) == Some(sv(v@)),
            None => all_strings(jvs(a@)) is None,
        },
{
    let ghost av = jvs(a@);
    proof {
        crate::json::lemma_jvs(a@);
    }
    let mut out: Vec<String> = Vec::new();
    let mut i: usize = 0;
    while i < a.len()
        invariant
            0 <= i <= a@.len(),
            av == jvs(a@),
            av.len() == a@.len(),
            forall|x: int| 0 <= x < a@.len() ==> #[trigger] av[x] == jv(a@[x]),
            all_strings(av.take(i as int)) == Some(sv(out@)),
        decreases a@.len() - i,
    {
        proof {
            assert(av.take(i + 1).drop_last() == av.take(i as int));
            assert(av.take(i + 1).last() == av[i as int]);
        }
        match &a[i] {
            Json::Str(t) => {
                let ghost o = out@;
                out.push(t.clone());
                proof {
                    assert(sv(out@) == sv(o).push(t@));
                }
            },
            _ => {
                proof {
                    lemma_strings_none(av, i + 1);
                }
                return None;
            },
        }
        i += 1;
    }
    assert(av.take(av.len() as int) == av);
    Some(out)
}

proof fn lemma_strings_none(a: Seq<JsonV>, k: int)
    requires
        0 <= k <= a.len(),
        all_strings(a.take(k)) is None,
    ensures
        all_strings(a) is None,
    decreases a.len() - k,
{
    if k < a.len() {
        assert(a.take(k + 1).drop_last() == a.take(k));
        lemma_strings_none(a, k + 1);
    } else {
        assert(a.take(k) == a);
    }
}

/// The metadata an object describes (see `meta_of`).
pub fn meta_from(v: &Json) -> (r: Option<ModMeta>)
    ensures
        match r {
            Some(m) => meta_of(v@) == Some(meta_view(m)),
            None => meta_of(v@) is None,
        },
{
    proof {
        reveal_strlit("color");
        reveal_strlit("tags");
        reveal_strlit("note");
        reveal_strlit("ignore");
    }
    if !(v matches Json::Object(_)) {
        return None;
    }
    let color: Option<String> = match v.get("color") {
        None => None,
        Some(Json::Null) => None,
        Some(Json::Str(c)) => Some(c.clone()),
        Some(_) => return None,
    };
    let tags = match v.get("tags") {
        None => Vec::new(),
        Some(Json::Array(a)) => match strings_all(a) {
            Some(t) => t,
            None => return None,
        },
        Some(_) => return None,
    };
    let note = match v.get("note") {
        None => String::new(),
        Some(Json::Str(t)) => t.clone(),
        Some(_) => return None,
    };
    let ignore = match v.get("ignore") {
        None => false,
        Some(Json::Bool(b)) => *b,
        Some(_) => return None,
    };
    let m = ModMeta { color, tags, note, ignore };
    assert(field(v@, "tags"@) is None ==> sv(m.tags@) =~= Seq::<Seq<char>>::empty());
    Some(m)
}

/// The metadata `mod_meta.json` text holds (see `loaded_of`).
pub fn load_text(text: &str) -> (r: Vec<(String, ModMeta)>)
    ensures
        mviews(r@) == loaded_of(text@),
{
    let empty: Vec<(String, ModMeta)> = Vec::new();
    assert(mviews(empty@) =~= Seq::<(Seq<char>, MetaView)>::empty());
    let v = match crate::json::parse_json(text) {
        Ok(v) => v,
        Err(_) => return empty,
    };
    match &v {
        Json::Object(e) => {
            let ghost m = jmembers(e@);
            proof {
                crate::json::lemma_jmembers(e@);
                assert(v@ == JsonV::Object(m));
            }
            let mut out: Vec<(String, ModMeta)> = Vec::new();
            let mut i: usize = 0;
            while i < e.len()
                invariant
                    0 <= i <= e@.len(),
                    m == jmembers(e@),
                    m.len() == e@.len(),
                    forall|x: int| 0 <= x < e@.len() ==> #[trigger] m[x] == (e@[x].0@, jv(e@[x].1)),
                    metas_of(m.take(i as int)) == Some(mviews(out@)),
                    json_doc(text@) == Some(JsonV::Object(m)),
                    mviews(empty@) == Seq::<(Seq<char>, MetaView)>::empty(),
                decreases e@.len() - i,
            {
                proof {
                    assert(m.take(i + 1).drop_last() == m.take(i as int));
                    assert(m.take(i + 1).last() == m[i as int]);
                }
                match meta_from(&e[i].1) {
                    Some(x) => {
                        let ghost o = out@;
                        out.push((e[i].0.clone(), x));
                        proof {
                            assert(mviews(out@) =~= mviews(o).push((e@[i as int].0@, meta_view(out@[o.len() as int].1))));
                        }
                    },
                    None => {
                        proof {
                            lemma_metas_none(m, i + 1);
                        }
                        return empty;
                    },
                }
                i += 1;
            }
            assert(m.take(m.len() as int) == m);
            out
        },
        _ => empty,
    }
}

proof fn lemma_metas_none(e: Seq<(Seq<char>, JsonV)>, k: int)
    requires
        0 <= k <= e.len(),
        metas_of(e.take(k)) is None,
    ensures
        metas_of(e) is None,
    decreases e.len() - k,
{
    if k < e.len() {
        assert(e.take(k + 1).drop_last() == e.take(k));
        lemma_metas_none(e, k + 1);
    } else {
        assert(e.take(k) == e);
    }
}

/// The JSON document of one entry.
pub open spec fn meta_doc(m: MetaView) -> JsonV {
    JsonV::Object(seq![
        ("color"@, match m.color {
            Some(c) => JsonV::Str(c),
            None => JsonV::Null,
        }),
        ("tags"@, crate::rules::str_array(m.tags)),
        ("note"@, JsonV::Str(m.note)),
        ("ignore"@, JsonV::Bool(m.ignore)),
    ])
}

/// Nothing set.
pub open spec fn meta_blank(m: MetaView) -> bool {
    m.color is None && m.tags.len() == 0 && m.note.len() == 0 && !m.ignore
}

/// The entries that say something, as JSON members.
pub open spec fn saved_members(v: Seq<(Seq<char>, MetaView)>) -> Seq<(Seq<char>, JsonV)>
    decreases v.len(),
{
    if v.len() == 0 {
        Seq::empty()
    } else {
        let r = saved_members(v.drop_last());
        if meta_blank(v.last().1) {
            r
        } else {
            r.push((v.last().0, meta_doc(v.last().1)))
        }
    }
}

/// The `mod_meta.json` text for the entries that say something.
pub fn save_text(map: &Vec<(String, ModMeta)>) -> (r: Result<String, Error>)
    ensures
        r matches Ok(t) && t@ == json_pretty(JsonV::Object(saved_members(mviews(map@)))),
{
    let mut out: Vec<(String, Json)> = Vec::new();
    let mut i: usize = 0;
    while i < map.len()
        invariant
            0 <= i <= map@.len(),
            jmembers(out@) == saved_members(mviews(map@).take(i as int)),
        decreases map@.len() - i,
    {
        proof {
            assert(mviews(map@).take(i + 1).drop_last() == mviews(map@).take(i as int));
            assert(mviews(map@).take(i + 1).last() == (map@[i as int].0@, meta_view(map@[i as int].1)));
        }
        let m = &map[i].1;
        if !m.is_empty() {
            let doc = meta_json(m);
            let ghost o = out@;
            out.push((map[i].0.clone(), doc));
            proof {
                assert(out@.drop_last() == o);
            }
        }
        i += 1;
    }
    assert(mviews(map@).take(map@.len() as int) == mviews(map@));
    let d = Json::Object(out);
    match crate::json::to_pretty(&d) {
        Some(t) => Ok(t),
        None => Err(Error::Other(String::from_str("JSON: the metadata could not be written"))),
    }
}

/// One entry as JSON (see `meta_doc`).
fn meta_json(m: &ModMeta) -> (r: Json)
    ensures
        r@ == meta_doc(meta_view(*m)),
{
    let color = match &m.color {
        Some(c) => Json::Str(c.clone()),
        None => Json::Null,
    };
    let mut tags: Vec<Json> = Vec::new();
    let mut j: usize = 0;
    while j < m.tags.len()
        invariant
            0 <= j <= m.tags@.len(),
            jvs(tags@) == sv(m.tags@).take(j as int).map_values(|t: Seq<char>| JsonV::Str(t)),
        decreases m.tags@.len() - j,
    {
        let ghost o = tags@;
        let t = Json::Str(m.tags[j].clone());
        assert(jv(t) == JsonV::Str(m.tags@[j as int]@));
        tags.push(t);
        proof {
            assert(tags@.drop_last() == o);
            assert(jvs(tags@) == jvs(o).push(JsonV::Str(m.tags@[j as int]@)));
            assert(sv(m.tags@).take(j + 1) == sv(m.tags@).take(j as int).push(m.tags@[j as int]@));
            assert(jvs(tags@) =~= sv(m.tags@).take(j + 1).map_values(|t: Seq<char>| JsonV::Str(t)));
        }
        j += 1;
    }
    assert(sv(m.tags@).take(m.tags@.len() as int) == sv(m.tags@));
    let mut f: Vec<(String, Json)> = Vec::new();
    f.push((String::from_str("color"), color));
    f.push((String::from_str("tags"), Json::Array(tags)));
    f.push((String::from_str("note"), Json::Str(m.note.clone())));
    f.push((String::from_str("ignore"), Json::Bool(m.ignore)));
    proof {
        crate::json::lemma_jmembers(f@);
        assert(jmembers(f@) =~= seq![
            ("color"@, match meta_view(*m).color {
                Some(c) => JsonV::Str(c),
                None => JsonV::Null,
            }),
            ("tags"@, crate::rules::str_array(sv(m.tags@))),
            ("note"@, JsonV::Str(m.note@)),
            ("ignore"@, JsonV::Bool(m.ignore)),
        ]);
    }
    let ghost fm = f@;
    let r = Json::Object(f);
    proof {
        assert(r@ == JsonV::Object(jmembers(fm)));
        let mv = meta_view(*m);
        let want = seq![
            ("color"@, match mv.color {
                Some(c) => JsonV::Str(c),
                None => JsonV::Null,
            }),
            ("tags"@, crate::rules::str_array(mv.tags)),
            ("note"@, JsonV::Str(mv.note)),
            ("ignore"@, JsonV::Bool(mv.ignore)),
        ];
        assert(meta_doc(mv) == JsonV::Object(want));
        assert(jmembers(fm) =~= want);
    }
    r
}

/// `\\` read as `/`.
pub open spec fn forward_slash(c: char) -> char {
    if c == '\\' {
        '/'
    } else {
        c
    }
}

/// The folder a RimSort metadata row's path names, lowercased: its last piece, with `\` read
/// as `/`.
pub open spec fn row_folder(path: Seq<char>) -> Seq<char> {
    let p = path.map_values(|c: char| forward_slash(c));
    let k = crate::modlist_io::last_at(p, "/"@, p.len() as int);
    lowercase(if k < 0 { p } else { p.skip(k + 1) })
}

/// A RimSort color as ours: `#` and the lowercased hex digits; none when empty.
pub open spec fn row_color(c: Option<Seq<char>>) -> Option<Seq<char>> {
    match c {
        Some(t) => if t.len() == 0 {
            None
        } else {
            Some(seq!['#'] + lowercase(strip_hashes(t)))
        },
        None => None,
    }
}

/// `t` without leading `#`s.
pub open spec fn strip_hashes(t: Seq<char>) -> Seq<char>
    decreases t.len(),
{
    if t.len() > 0 && t[0] == '#' {
        strip_hashes(t.drop_first())
    } else {
        t
    }
}

/// The folder key and metadata of one RimSort metadata row (see `row_folder`, `row_color`).
pub fn meta_from_row(path: &str, color: Option<String>, note: String, ignore: bool) -> (r: (String, ModMeta))
    ensures
        r.0@ == row_folder(path@),
        meta_view(r.1) == (MetaView {
            color: row_color(match color {
                Some(c) => Some(c@),
                None => None,
            }),
            tags: Seq::empty(),
            note: note@,
            ignore,
        }),
{
    let v = chars_of(path);
    let mut p: Vec<char> = Vec::new();
    let mut i: usize = 0;
    while i < v.len()
        invariant
            0 <= i <= v@.len(),
            v@ == path@,
            p@ == v@.take(i as int).map_values(|c: char| forward_slash(c)),
        decreases v@.len() - i,
    {
        p.push(if v[i] == '\\' { '/' } else { v[i] });
        proof {
            assert(p@ =~= v@.take(i + 1).map_values(|c: char| forward_slash(c)));
        }
        i += 1;
    }
    assert(v@.take(v@.len() as int) == v@);
    let slash = chars_of("/");
    proof {
        reveal_strlit("/");
    }
    let last = match crate::modlist_io::last_occurrence(p.as_slice(), slash.as_slice()) {
        Some(k) => {
            proof {
                assert(p@.subrange(k + 1, p@.len() as int) == p@.skip(k + 1));
            }
            crate::text::string_of_range(p.as_slice(), k + 1, p.len())
        },
        None => crate::text::string_of(p.as_slice()),
    };
    let folder = crate::text::to_lower(last.as_str());
    let c = match color {
        Some(t) => {
            if t.as_str().is_empty() {
                None
            } else {
                let tv = chars_of(t.as_str());
                let mut a: usize = 0;
                assert(tv@.skip(0) == tv@);
                while a < tv.len() && tv[a] == '#'
                    invariant
                        0 <= a <= tv@.len(),
                        tv@ == t@,
                        strip_hashes(t@) == strip_hashes(tv@.skip(a as int)),
                    decreases tv@.len() - a,
                {
                    proof {
                        assert(tv@.skip(a as int).drop_first() == tv@.skip(a + 1));
                    }
                    a += 1;
                }
                proof {
                    assert(tv@.subrange(a as int, tv@.len() as int) == tv@.skip(a as int));
                }
                let rest = crate::text::string_of_range(tv.as_slice(), a, tv.len());
                let low = crate::text::to_lower(rest.as_str());
                let mut out = String::new();
                push_char(&mut out, '#');
                out.append(low.as_str());
                proof {
                    assert(out@ =~= seq!['#'] + low@);
                }
                Some(out)
            }
        },
        None => None,
    };
    let m = ModMeta { color: c, tags: Vec::new(), note, ignore };
    assert(sv(m.tags@) =~= Seq::<Seq<char>>::empty());
    (folder, m)
}

/// Position of the last valid mod whose lowercased folder name is `folder` (-1 if none).
pub open spec fn folder_pos(mods: Seq<crate::mods::Mod>, folder: Seq<char>) -> int
    decreases mods.len(),
{
    if mods.len() == 0 {
        -1
    } else if mods.last().valid && lowercase(mods.last().folder@) == folder {
        mods.len() - 1
    } else {
        folder_pos(mods.drop_last(), folder)
    }
}

proof fn lemma_folder_pos(mods: Seq<crate::mods::Mod>, folder: Seq<char>)
    ensures
        -1 <= folder_pos(mods, folder) < mods.len(),
    decreases mods.len(),
{
    if mods.len() > 0 {
        lemma_folder_pos(mods.drop_last(), folder);
    }
}

/// The package id a metadata row keyed by `folder` belongs to: that of the last valid mod
/// whose folder name, lowercased, is `folder`.
pub fn package_for_folder(index: &crate::mods::ModIndex, folder: &str) -> (r: Option<String>)
    ensures
        folder_pos(index.mods@, folder@) >= 0 ==> (r matches Some(p) && p@
            == index.mods@[folder_pos(index.mods@, folder@)].package_id@),
        folder_pos(index.mods@, folder@) < 0 ==> r is None,
{
    let mut i = index.mods.len();
    proof {
        lemma_folder_pos(index.mods@, folder@);
    }
    while i > 0
        invariant
            0 <= i <= index.mods@.len(),
            folder_pos(index.mods@, folder@) == folder_pos(index.mods@.take(i as int), folder@),
        decreases i,
    {
        let m = &index.mods[i - 1];
        proof {
            assert(index.mods@.take(i as int).drop_last() == index.mods@.take(i - 1));
            assert(index.mods@.take(i as int).last() == index.mods@[i - 1]);
        }
        if m.valid {
            let l = crate::text::to_lower(m.folder.as_str());
            if crate::text::str_eq(l.as_str(), folder) {
                return Some(m.package_id.clone());
            }
        }
        i -= 1;
    }
    None
}


/// An ASCII hex digit.
pub open spec fn hex_digit(c: char) -> bool {
    ('0' <= c && c <= '9') || ('a' <= c && c <= 'f') || ('A' <= c && c <= 'F')
}

/// A `#rrggbb` color.
pub open spec fn valid_color(c: Seq<char>) -> bool {
    c.len() == 7 && c[0] == '#' && forall|k: int| 1 <= k < 7 ==> #[trigger] hex_digit(c[k])
}

/// The color a user entered, trimmed and lowercased, kept only when it is `#rrggbb`.
pub open spec fn color_of(c: Option<String>) -> Option<Seq<char>> {
    match c {
        Some(t) => {
            let x = lowercase(crate::text::trim(t@));
            if valid_color(x) { Some(x) } else { None }
        },
        None => None,
    }
}

/// The tags a user entered: trimmed, empty ones dropped, and a tag equal to an earlier one
/// (ignoring ASCII case) dropped.
pub open spec fn clean_tags(v: Seq<Seq<char>>) -> Seq<Seq<char>>
    decreases v.len(),
{
    if v.len() == 0 {
        Seq::empty()
    } else {
        let r = clean_tags(v.drop_last());
        let t = crate::text::trim(v.last());
        if t.len() > 0 && !(exists|k: int| 0 <= k < r.len() && crate::text::eq_ignore_case(#[trigger] r[k], t)) {
            r.push(t)
        } else {
            r
        }
    }
}

/// Whether `x` is `#rrggbb`.
fn is_color(x: &str) -> (b: bool)
    ensures
        b == valid_color(x@),
{
    let v = chars_of(x);
    if v.len() != 7 || v[0] != '#' {
        return false;
    }
    let mut k: usize = 1;
    while k < 7
        invariant
            1 <= k <= 7,
            v@.len() == 7,
            v@ == x@,
            forall|j: int| 1 <= j < k ==> #[trigger] hex_digit(v@[j]),
        decreases 7 - k,
    {
        let c = v[k];
        if !(('0' <= c && c <= '9') || ('a' <= c && c <= 'f') || ('A' <= c && c <= 'F')) {
            assert(!hex_digit(v@[k as int]));
            return false;
        }
        k += 1;
    }
    true
}

/// A user's metadata edit for a mod as stored: the color kept only when it is `#rrggbb`
/// (trimmed, lowercased), the tags cleaned (see `clean_tags`), the note trimmed, and the
/// ignore flag kept from before.
pub fn meta_from_dto(dto: &crate::dto::MetaDto, ignore: bool) -> (r: ModMeta)
    ensures
        crate::state::opt_view(r.color) == color_of(dto.color),
        sv(r.tags@) == clean_tags(sv(dto.tags@)),
        r.note@ == crate::text::trim(dto.note@),
        r.ignore == ignore,
{
    let color = match &dto.color {
        Some(c) => {
            let t = crate::text::trim_str(c.as_str());
            let x = crate::text::to_lower(t.as_str());
            if is_color(x.as_str()) { Some(x) } else { None }
        },
        None => None,
    };
    let mut tags: Vec<String> = Vec::new();
    let mut i: usize = 0;
    proof {
        assert(sv(tags@) =~= Seq::<Seq<char>>::empty());
    }
    while i < dto.tags.len()
        invariant
            0 <= i <= dto.tags@.len(),
            sv(tags@) == clean_tags(sv(dto.tags@).take(i as int)),
        decreases dto.tags@.len() - i,
    {
        proof {
            assert(sv(dto.tags@).take(i + 1).drop_last() == sv(dto.tags@).take(i as int));
            assert(sv(dto.tags@).take(i + 1).last() == dto.tags@[i as int]@);
        }
        let t = crate::text::trim_str(dto.tags[i].as_str());
        let mut seen = false;
        let mut k: usize = 0;
        while k < tags.len()
            invariant
                0 <= k <= tags@.len(),
                seen == exists|j: int| 0 <= j < k && crate::text::eq_ignore_case(#[trigger] sv(tags@)[j], t@),
            decreases tags@.len() - k,
        {
            if crate::text::eq_ignore_ascii_case(tags[k].as_str(), t.as_str()) {
                assert(crate::text::eq_ignore_case(sv(tags@)[k as int], t@));
                seen = true;
            }
            k += 1;
        }
        if chars_of(t.as_str()).len() > 0 && !seen {
            let ghost o = sv(tags@);
            tags.push(t);
            proof {
                assert(sv(tags@) == o.push(tags@[tags@.len() - 1]@));
            }
        }
        i += 1;
    }
    proof {
        assert(sv(dto.tags@).take(dto.tags@.len() as int) == sv(dto.tags@));
    }
    let note = crate::text::trim_str(dto.note.as_str());
    ModMeta { color, tags, note, ignore }
}
} // verus!
