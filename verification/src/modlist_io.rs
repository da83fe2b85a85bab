//! Import/export of mod lists in the formats RimSort and RimWorld use.

use vstd::prelude::*;

use crate::error::Error;
use crate::json::{field, jvs, json_doc, json_pretty, str_of, strip_bom, Json, JsonV};
use crate::about::{child_t, li_t, text_t};
use crate::text::{chars_of, is_ws, lowercase, sv, to_lower, trim, trim_back, trim_front};
use crate::xml::{parse_tree, starts, tree, Tree};

verus! {

broadcast use {vstd::string::group_string_axioms, vstd::seq_lib::group_seq_properties};

/// A mod list read from a file.
#[derive(Debug, PartialEq, Eq)]
pub struct ParsedList {
    pub package_ids: Vec<String>,
    pub game_version: Option<String>,
    pub known_expansions: Vec<String>,
}

/// Trimmed, lowercased, non-empty entries.
pub open spec fn lower_nonempty(s: Seq<Seq<char>>) -> Seq<Seq<char>>
    decreases s.len(),
{
    if s.len() == 0 {
        Seq::empty()
    } else {
        let r = lower_nonempty(s.drop_last());
        let l = lowercase(trim(s.last()));
        if l.len() > 0 {
            r.push(l)
        } else {
            r
        }
    }
}

/// Each entry trimmed and lowercased; empty ones dropped.
pub fn lower_all(v: Vec<String>) -> (r: Vec<String>)
    ensures
        sv(r@) == lower_nonempty(sv(v@)),
{
    let mut out: Vec<String> = Vec::new();
    let mut i: usize = 0;
    while i < v.len()
        invariant
            0 <= i <= v@.len(),
            sv(out@) == lower_nonempty(sv(v@.take(i as int))),
        decreases v@.len() - i,
    {
        proof {
            assert(sv(v@.take(i + 1)).drop_last() == sv(v@.take(i as int)));
            assert(sv(v@.take(i + 1)).last() == v@[i as int]@);
        }
        let t = crate::text::trim_str(v[i].as_str());
        let l = to_lower(t.as_str());
        if !l.as_str().is_empty() {
            let ghost o = out@;
            out.push(l);
            proof {
                assert(sv(out@) == sv(o).push(l@));
            }
        }
        i += 1;
    }
    assert(v@.take(v@.len() as int) == v@);
    out
}

/// Largest position at or below `k` where `p` occurs in `s` (-1 if none).
pub open spec fn last_at(s: Seq<char>, p: Seq<char>, k: int) -> int
    decreases k + 1,
{
    if k < 0 {
        -1
    } else if starts(s, k, p) {
        k
    } else {
        last_at(s, p, k - 1)
    }
}

/// The id of a RimSort report line `Name [pkg.id][https://url]`: the text between the last `[`
/// and the last `][` of the line without trailing whitespace and its closing `]`.
pub open spec fn report_id(line: Seq<char>) -> Option<Seq<char>> {
    let b = trim_back(line);
    if b.len() == 0 || b.last() != ']' {
        None
    } else {
        let body = b.drop_last();
        let k = last_at(body, "]["@, body.len() as int);
        if k < 0 {
            None
        } else {
            let head = body.take(k);
            let j = last_at(head, "["@, head.len() as int);
            if j < 0 || head.len() - (j + 1) == 0 {
                None
            } else {
                Some(head.skip(j + 1))
            }
        }
    }
}

/// `last_at` finds nothing or a position at or below `k` where `p` occurs.
pub proof fn lemma_last_at(s: Seq<char>, p: Seq<char>, k: int)
    ensures
        last_at(s, p, k) == -1 || (0 <= last_at(s, p, k) <= k && starts(s, last_at(s, p, k), p)),
    decreases k + 1,
{
    if k >= 0 && !starts(s, k, p) {
        lemma_last_at(s, p, k - 1);
    }
}

/// Position of the last occurrence of `p` in `v`, or `None`.
pub(crate) fn last_occurrence(v: &[char], p: &[char]) -> (r: Option<usize>)
    ensures
        match r {
            Some(k) => last_at(v@, p@, v@.len() as int) == k && k + p@.len() <= v@.len() && starts(v@, k as int, p@),
            None => last_at(v@, p@, v@.len() as int) < 0,
        },
{
    let mut k: usize = v.len();
    loop
        invariant
            0 <= k <= v@.len(),
            last_at(v@, p@, v@.len() as int) == last_at(v@, p@, k as int),
        decreases k,
    {
        if p.len() <= v.len() - k {
            let hit = crate::text::starts_at(v, k, p);
            proof {
                assert(v@.subrange(k as int, v@.len() as int).subrange(0, p@.len() as int) == v@.subrange(k as int, k + p@.len()));
            }
            if hit {
                return Some(k);
            }
        }
        assert(!starts(v@, k as int, p@));
        if k == 0 {
            assert(last_at(v@, p@, -1) == -1);
            return None;
        }
        k -= 1;
    }
}

/// Length of `v` without trailing whitespace.
fn trim_back_len(v: &[char]) -> (r: usize)
    ensures
        r <= v@.len(),
        trim_back(v@) == v@.take(r as int),
{
    let mut i: usize = v.len();
    assert(v@.take(i as int) == v@);
    while i > 0 && crate::text::is_whitespace(v[i - 1])
        invariant
            0 <= i <= v@.len(),
            trim_back(v@) == trim_back(v@.take(i as int)),
        decreases i,
    {
        proof {
            assert(v@.take(i as int).drop_last() == v@.take(i - 1));
        }
        i -= 1;
    }
    i
}

/// The id of a RimSort report line (see `report_id`).
pub fn report_line_id(line: &str) -> (r: Option<String>)
    ensures
        opt(r) == report_id(line@),
{
    let v = chars_of(line);
    let n = trim_back_len(v.as_slice());
    if n == 0 || v[n - 1] != ']' {
        return None;
    }
    let body = crate::text::sub_chars(v.as_slice(), 0, n - 1);
    proof {
        assert(body@ == trim_back(line@).drop_last());
        reveal_strlit("][");
        reveal_strlit("[");
    }
    let sep = chars_of("][");
    let k = match last_occurrence(body.as_slice(), sep.as_slice()) {
        Some(k) => k,
        None => return None,
    };
    proof {
        assert(sep@.len() == 2);
    }
    let head = crate::text::sub_chars(body.as_slice(), 0, k);
    let open = chars_of("[");
    let j = match last_occurrence(head.as_slice(), open.as_slice()) {
        Some(j) => j,
        None => return None,
    };
    proof {
        assert(head@ == body@.take(k as int));
        assert(open@.len() == 1);
    }
    if head.len() - (j + 1) == 0 {
        return None;
    }
    proof {
        assert(head@.subrange(j + 1, head@.len() as int) == head@.skip(j + 1));
    }
    Some(crate::text::string_of_range(head.as_slice(), j + 1, head.len()))
}

/// An optional string's view.
pub open spec fn opt(o: Option<String>) -> Option<Seq<char>> {
    match o {
        Some(t) => Some(t@),
        None => None,
    }
}

/// `find_char` finds nothing or a position in range.
pub proof fn lemma_find_bound(s: Seq<char>, from: int, c: char)
    ensures
        crate::xml::find_char(s, from, c) == -1 || (0 <= from <= crate::xml::find_char(s, from, c)
            < s.len()),
    decreases s.len() - from,
{
    if 0 <= from < s.len() && s[from] != c {
        lemma_find_bound(s, from + 1, c);
    }
}

/// The pieces of `s` between line feeds.
pub open spec fn split_lines(s: Seq<char>) -> Seq<Seq<char>>
    decreases s.len(),
{
    let k = crate::xml::find_char(s, 0, '\n');
    if k < 0 {
        seq![s]
    } else {
        proof {
            lemma_find_bound(s, 0, '\n');
        }
        seq![s.take(k)] + split_lines(s.skip(k + 1))
    }
}

/// The package id one trimmed line of a text list gives: a report line's id, else the line
/// itself when it has no whitespace and a dot.
pub open spec fn line_id(l: Seq<char>) -> Option<Seq<char>> {
    match report_id(l) {
        Some(id) => Some(id),
        None => if !(exists|i: int| 0 <= i < l.len() && is_ws(#[trigger] l[i])) && l.contains('.') {
            Some(l)
        } else {
            None
        },
    }
}

/// The package ids of the lines, lowercased, skipping blank and `#` lines.
pub open spec fn text_ids(lines: Seq<Seq<char>>) -> Seq<Seq<char>>
    decreases lines.len(),
{
    if lines.len() == 0 {
        Seq::empty()
    } else {
        let r = text_ids(lines.drop_last());
        let t = trim(lines.last());
        if t.len() > 0 && t[0] != '#' {
            match line_id(t) {
                Some(id) => r.push(lowercase(id)),
                None => r,
            }
        } else {
            r
        }
    }
}

/// The package id one trimmed line gives (see `line_id`).
fn id_of_line(t: &str) -> (r: Option<String>)
    ensures
        opt(r) == line_id(t@),
{
    match report_line_id(t) {
        Some(id) => Some(id),
        None => {
            let v = chars_of(t);
            let mut ws = false;
            let mut dot = false;
            let mut i: usize = 0;
            while i < v.len()
                invariant
                    0 <= i <= v@.len(),
                    v@ == t@,
                    ws == exists|x: int| 0 <= x < i && is_ws(#[trigger] v@[x]),
                    dot == exists|x: int| 0 <= x < i && #[trigger] v@[x] == '.',
                decreases v@.len() - i,
            {
                if crate::text::is_whitespace(v[i]) {
                    ws = true;
                }
                if v[i] == '.' {
                    dot = true;
                }
                i += 1;
            }
            proof {
                if dot {
                    let x = choose|x: int| 0 <= x < i && #[trigger] v@[x] == '.';
                    assert(t@.contains('.')) by {
                        assert(t@[x] == '.');
                    }
                }
                if t@.contains('.') {
                    let x = choose|x: int| 0 <= x < t@.len() && t@[x] == '.';
                    assert(v@[x] == '.');
                }
            }
            if !ws && dot {
                Some(String::from_str(t))
            } else {
                None
            }
        },
    }
}

/// One package id per line (or a RimSort report), lowercased.
pub fn parse_text(text: &str) -> (r: ParsedList)
    ensures
        sv(r.package_ids@) == text_ids(split_lines(text@)),
        r.game_version is None,
        r.known_expansions@.len() == 0,
{
    let v = chars_of(text);
    let n = v.len();
    let mut ids: Vec<String> = Vec::new();
    let mut start: usize = 0;
    let mut finished = false;
    let ghost mut done: Seq<Seq<char>> = Seq::empty();
    proof {
        assert(v@.skip(0) == v@);
    }
    while !finished
        invariant
            0 <= start <= n,
            n == v@.len(),
            v@ == text@,
            !finished ==> split_lines(text@) == done + split_lines(v@.skip(start as int)),
            finished ==> split_lines(text@) == done,
            sv(ids@) == text_ids(done),
        decreases n + 1 - start, (if finished { 0int } else { 1int }),
    {
        let e = crate::text::find_char_from(v.as_slice(), start, '\n');
        let ghost rest = v@.skip(start as int);
        proof {
            let k = crate::xml::find_char(rest, 0, '\n');
            assert forall|x: int| 0 <= x < e - start implies #[trigger] rest[x] != '\n' by {
                assert(rest[x] == v@[start + x]);
            }
            if e < n {
                assert(rest[e - start] == v@[e as int]);
            }
            crate::about::lemma_find_first_pub(rest, 0, '\n', (e - start) as int);
            assert(rest.take(e - start) == v@.subrange(start as int, e as int));
            if e < n {
                assert(rest.skip(e - start + 1) == v@.skip(e + 1));
            }
        }
        let line = crate::text::string_of_range(v.as_slice(), start, e);
        let t = crate::text::trim_str(line.as_str());
        let tv = chars_of(t.as_str());
        let ghost before = done;
        proof {
            done = done.push(line@);
            assert(done.drop_last() == before);
        }
        if tv.len() > 0 && tv[0] != '#' {
            if let Some(id) = id_of_line(t.as_str()) {
                let ghost o = ids@;
                let l = to_lower(id.as_str());
                ids.push(l);
                proof {
                    assert(sv(ids@) == sv(o).push(l@));
                }
            }
        }
        proof {
            if e < n {
                assert(split_lines(rest) == seq![rest.take(e - start)] + split_lines(rest.skip(e - start + 1)));
                assert(split_lines(text@) == done + split_lines(v@.skip(e + 1)));
            } else {
                assert(split_lines(rest) == seq![rest]);
                assert(rest == v@.subrange(start as int, n as int));
                assert(split_lines(text@) == done);
            }
        }
        if e < n {
            start = e + 1;
        } else {
            finished = true;
        }
    }
    ParsedList { package_ids: ids, game_version: None, known_expansions: Vec::new() }
}

/// The contents of a `ParsedList`.
pub struct ListView {
    pub package_ids: Seq<Seq<char>>,
    pub game_version: Option<Seq<char>>,
    pub known_expansions: Seq<Seq<char>>,
}

/// What reading a mod list gives.
pub enum ListOutcome {
    Parsed(ListView),
    /// The text opens like JSON but `serde_json` rejects it.
    BadJson,
    /// Refused, with this message.
    Refused(Seq<char>),
}

/// The strings among JSON values.
pub open spec fn json_strings(a: Seq<JsonV>) -> Seq<Seq<char>>
    decreases a.len(),
{
    if a.len() == 0 {
        Seq::empty()
    } else {
        let r = json_strings(a.drop_last());
        match a.last() {
            JsonV::Str(t) => r.push(t),
            _ => r,
        }
    }
}

/// The items of an optional array value.
pub open spec fn items(j: Option<JsonV>) -> Seq<JsonV> {
    match j {
        Some(JsonV::Array(a)) => a,
        _ => Seq::empty(),
    }
}

/// The list of a RimWorld XML document: `ModsConfigData`, else `meta` of a `savegame` or
/// `savedModList`.
pub open spec fn xml_list(root: Tree) -> ListOutcome {
    match child_t(root, "ModsConfigData"@) {
        Some(cfg) => ListOutcome::Parsed(ListView {
            package_ids: lower_nonempty(li_t(child_t(cfg, "activeMods"@), false)),
            game_version: text_t(cfg, "version"@),
            known_expansions: lower_nonempty(li_t(child_t(cfg, "knownExpansions"@), false)),
        }),
        None => {
            let meta = match child_t(root, "savegame"@) {
                Some(sg) => match child_t(sg, "meta"@) {
                    Some(m) => Some(m),
                    None => match child_t(root, "savedModList"@) {
                        Some(ml) => child_t(ml, "meta"@),
                        None => None,
                    },
                },
                None => match child_t(root, "savedModList"@) {
                    Some(ml) => child_t(ml, "meta"@),
                    None => None,
                },
            };
            match meta {
                Some(m) => ListOutcome::Parsed(ListView {
                    package_ids: lower_nonempty(li_t(child_t(m, "modIds"@), false)),
                    game_version: text_t(m, "gameVersion"@),
                    known_expansions: Seq::empty(),
                }),
                None => ListOutcome::Refused(
                    "Unrecognized XML mod list (expected ModsConfigData, savegame or savedModList)"@,
                ),
            }
        },
    }
}

/// The list a RimSort JSON document holds: `activeMods` (an array), `version` and
/// `knownExpansions`.
pub open spec fn json_list(v: JsonV) -> ListOutcome {
    match field(v, "activeMods"@) {
        Some(JsonV::Array(a)) => ListOutcome::Parsed(ListView {
            package_ids: lower_nonempty(json_strings(a)),
            game_version: str_of(field(v, "version"@)),
            known_expansions: lower_nonempty(json_strings(items(field(v, "knownExpansions"@)))),
        }),
        _ => ListOutcome::Refused("JSON mod list needs 'version' and 'activeMods'"@),
    }
}

/// Reading a mod list: after leading byte-order marks, JSON when the first non-blank character
/// is `{`, RimWorld XML when it is `<`, else one package id per line.
pub open spec fn list_outcome(text: Seq<char>) -> ListOutcome {
    let t = strip_bom(text);
    let head = trim_front(t);
    if head.len() > 0 && head[0] == '{' {
        match json_doc(t) {
            None => ListOutcome::BadJson,
            Some(v) => json_list(v),
        }
    } else if head.len() > 0 && head[0] == '<' {
        xml_list(parse_tree(t))
    } else {
        let ids = text_ids(split_lines(t));
        if ids.len() == 0 {
            ListOutcome::Refused("No mods found: expected RimSort JSON, RimWorld XML, or one package id per line"@)
        } else {
            ListOutcome::Parsed(ListView { package_ids: ids, game_version: None, known_expansions: Seq::empty() })
        }
    }
}

/// The strings of an array value's items.
pub(crate) fn strings_of(j: Option<&Json>) -> (r: Vec<String>)
    ensures
        sv(r@) == json_strings(items(match j {
            Some(x) => Some(x@),
            None => None,
        })),
{
    let mut out: Vec<String> = Vec::new();
    if let Some(Json::Array(a)) = j {
        let ghost av = jvs(a@);
        proof {
            crate::json::lemma_jvs(a@);
        }
        let mut i: usize = 0;
        while i < a.len()
            invariant
                0 <= i <= a@.len(),
                av.len() == a@.len(),
                forall|x: int| 0 <= x < a@.len() ==> #[trigger] av[x] == crate::json::jv(a@[x]),
                sv(out@) == json_strings(av.take(i as int)),
            decreases a@.len() - i,
        {
            proof {
                assert(av.take(i + 1).drop_last() == av.take(i as int));
                assert(av.take(i + 1).last() == av[i as int]);
            }
            if let Json::Str(t) = &a[i] {
                let ghost o = out@;
                out.push(t.clone());
                proof {
                    assert(sv(out@) == sv(o).push(t@));
                }
            }
            i += 1;
        }
        assert(av.take(av.len() as int) == av);
    }
    out
}

/// The view of a parsed list.
pub open spec fn list_view(p: ParsedList) -> ListView {
    ListView {
        package_ids: sv(p.package_ids@),
        game_version: opt(p.game_version),
        known_expansions: sv(p.known_expansions@),
    }
}

/// The list of a RimWorld XML document (see `xml_list`).
fn xml_parsed(text: &str) -> (r: Result<ParsedList, Error>)
    ensures
        match xml_list(parse_tree(text@)) {
            ListOutcome::Parsed(l) => r matches Ok(p) && list_view(p) == l,
            ListOutcome::Refused(m) => r matches Err(Error::Other(e)) && e@ == m,
            ListOutcome::BadJson => false,
        },
{
    let root = crate::xml::parse(text);
    proof {
        reveal_strlit("ModsConfigData");
        reveal_strlit("activeMods");
        reveal_strlit("version");
        reveal_strlit("knownExpansions");
        reveal_strlit("savegame");
        reveal_strlit("savedModList");
        reveal_strlit("meta");
        reveal_strlit("modIds");
        reveal_strlit("gameVersion");
    }
    if let Some(cfg) = crate::about::child_of(&root, "ModsConfigData") {
        return Ok(ParsedList {
            package_ids: lower_all(crate::about::li_of(crate::about::child_of(cfg, "activeMods"), false)),
            game_version: crate::about::text_of(cfg, "version"),
            known_expansions: lower_all(crate::about::li_of(crate::about::child_of(cfg, "knownExpansions"), false)),
        });
    }
    let ghost rt = tree(root);
    let mut meta: Option<&crate::xml::Node> = None;
    if let Some(sg) = crate::about::child_of(&root, "savegame") {
        meta = crate::about::child_of(sg, "meta");
    }
    if meta.is_none() {
        if let Some(ml) = crate::about::child_of(&root, "savedModList") {
            meta = crate::about::child_of(ml, "meta");
        }
    }
    let ghost want = match child_t(rt, "savegame"@) {
        Some(sg) => match child_t(sg, "meta"@) {
            Some(m) => Some(m),
            None => match child_t(rt, "savedModList"@) {
                Some(ml) => child_t(ml, "meta"@),
                None => None,
            },
        },
        None => match child_t(rt, "savedModList"@) {
            Some(ml) => child_t(ml, "meta"@),
            None => None,
        },
    };
    assert(match meta {
        Some(m) => want == Some(tree(*m)),
        None => want is None,
    });
    match meta {
        Some(m) => {
            let known: Vec<String> = Vec::new();
            assert(sv(known@) =~= Seq::<Seq<char>>::empty());
            Ok(ParsedList {
                package_ids: lower_all(crate::about::li_of(crate::about::child_of(m, "modIds"), false)),
                game_version: crate::about::text_of(m, "gameVersion"),
                known_expansions: known,
            })
        },
        None => Err(Error::Other(String::from_str("Unrecognized XML mod list (expected ModsConfigData, savegame or savedModList)"))),
    }
}

/// Detect the format (JSON, ModsConfig/.rml/.rws XML, plain text) and parse (see
/// `list_outcome`); JSON that `serde_json` rejects is an error carrying its message.
pub fn parse_list(text: &str) -> (r: Result<ParsedList, Error>)
    ensures
        match list_outcome(text@) {
            ListOutcome::Parsed(l) => r matches Ok(p) && list_view(p) == l,
            ListOutcome::BadJson => r is Err,
            ListOutcome::Refused(m) => r matches Err(Error::Other(e)) && e@ == m,
        },
{
    let t = crate::json::without_bom(text);
    let tv = chars_of(t.as_str());
    let a = front_ws(tv.as_slice());
    if a < tv.len() && tv[a] == '{' {
        proof {
            reveal_strlit("activeMods");
            reveal_strlit("version");
            reveal_strlit("knownExpansions");
        }
        let v = match crate::json::parse_json(t.as_str()) {
            Ok(v) => v,
            Err(m) => return Err(crate::rules::json_error(m)),
        };
        match v.get("activeMods") {
            Some(Json::Array(_)) => {
                let ids = strings_of(v.get("activeMods"));
                let version = match v.get("version") {
                    Some(x) => match x.as_str() {
                        Some(s) => Some(s.clone()),
                        None => None,
                    },
                    None => None,
                };
                let known = strings_of(v.get("knownExpansions"));
                Ok(ParsedList { package_ids: lower_all(ids), game_version: version, known_expansions: lower_all(known) })
            },
            _ => Err(Error::Other(String::from_str("JSON mod list needs 'version' and 'activeMods'"))),
        }
    } else if a < tv.len() && tv[a] == '<' {
        xml_parsed(t.as_str())
    } else {
        let parsed = parse_text(t.as_str());
        assert(sv(parsed.known_expansions@) =~= Seq::<Seq<char>>::empty());
        if parsed.package_ids.len() == 0 {
            Err(Error::Other(String::from_str("No mods found: expected RimSort JSON, RimWorld XML, or one package id per line")))
        } else {
            Ok(parsed)
        }
    }
}

/// The JSON document of a mod list.
pub open spec fn list_doc(version: Seq<char>, ids: Seq<Seq<char>>, known: Seq<Seq<char>>) -> JsonV {
    JsonV::Object(seq![
        ("version"@, JsonV::Str(version)),
        ("activeMods"@, crate::rules::str_array(ids)),
        ("knownExpansions"@, crate::rules::str_array(known)),
    ])
}

/// An array of strings.
fn str_array_of(v: &Vec<String>) -> (r: Json)
    ensures
        r@ == crate::rules::str_array(sv(v@)),
{
    let mut arr: Vec<Json> = Vec::new();
    let mut j: usize = 0;
    while j < v.len()
        invariant
            0 <= j <= v@.len(),
            jvs(arr@) == sv(v@).take(j as int).map_values(|t: Seq<char>| JsonV::Str(t)),
        decreases v@.len() - j,
    {
        let ghost o = arr@;
        arr.push(crate::json::json_str(v[j].as_str()));
        proof {
            assert(arr@.drop_last() == o);
            assert(sv(v@).take(j + 1) == sv(v@).take(j as int).push(v@[j as int]@));
            assert(jvs(arr@) =~= sv(v@).take(j + 1).map_values(|t: Seq<char>| JsonV::Str(t)));
        }
        j += 1;
    }
    proof {
        assert(sv(v@).take(sv(v@).len() as int) == sv(v@));
    }
    Json::Array(arr)
}

/// `{"version": .., "activeMods": [..], "knownExpansions": [..]}`, pretty-printed.
pub fn to_json(version: &str, ids: &Vec<String>, known: &Vec<String>) -> (r: String)
    ensures
        r@ == json_pretty(list_doc(version@, sv(ids@), sv(known@))),
{
    proof {
        reveal_strlit("version");
        reveal_strlit("activeMods");
        reveal_strlit("knownExpansions");
    }
    let mut m: Vec<(String, Json)> = Vec::new();
    m.push((String::from_str("version"), crate::json::json_str(version)));
    m.push((String::from_str("activeMods"), str_array_of(ids)));
    m.push((String::from_str("knownExpansions"), str_array_of(known)));
    proof {
        let s = m@;
        crate::json::lemma_jmembers_three(s);
        assert(crate::json::jmembers(s) =~= seq![
            ("version"@, JsonV::Str(version@)),
            ("activeMods"@, crate::rules::str_array(sv(ids@))),
            ("knownExpansions"@, crate::rules::str_array(sv(known@))),
        ]);
    }
    let d = Json::Object(m);
    match crate::json::to_pretty(&d) {
        Some(t) => t,
        None => String::new(),
    }
}

/// Position of the first non-blank character (or the length).
fn front_ws(v: &[char]) -> (r: usize)
    ensures
        r <= v@.len(),
        trim_front(v@) == v@.subrange(r as int, v@.len() as int),
{
    let mut i: usize = 0;
    assert(v@.subrange(0, v@.len() as int) == v@);
    while i < v.len() && crate::text::is_whitespace(v[i])
        invariant
            0 <= i <= v@.len(),
            trim_front(v@) == trim_front(v@.subrange(i as int, v@.len() as int)),
        decreases v@.len() - i,
    {
        proof {
            assert(v@.subrange(i as int, v@.len() as int).drop_first() == v@.subrange(i + 1, v@.len() as int));
        }
        i += 1;
    }
    i
}


/// The strings of an array of strings are the strings themselves.
proof fn lemma_json_strings_of_strs(ids: Seq<Seq<char>>)
    ensures
        json_strings(ids.map_values(|t: Seq<char>| JsonV::Str(t))) == ids,
    decreases ids.len(),
{
    if ids.len() > 0 {
        lemma_json_strings_of_strs(ids.drop_last());
        assert(ids.map_values(|t: Seq<char>| JsonV::Str(t)).drop_last() == ids.drop_last().map_values(|t: Seq<char>| JsonV::Str(t)));
        assert(ids.drop_last().push(ids.last()) == ids);
    }
}

/// Reading back the document `to_json` writes gives the list it was given: the package ids in
/// the same order (lowercased, blanks dropped, as every read does), the game version, and the
/// known expansions.
pub proof fn law_json_list_reads_back(version: Seq<char>, ids: Seq<Seq<char>>, known: Seq<Seq<char>>)
    ensures
        json_list(list_doc(version, ids, known)) == ListOutcome::Parsed(ListView {
            package_ids: lower_nonempty(ids),
            game_version: Some(version),
            known_expansions: lower_nonempty(known),
        }),
{
    reveal_strlit("version");
    reveal_strlit("activeMods");
    reveal_strlit("knownExpansions");
    let d = list_doc(version, ids, known);
    assert("version"@.len() == 7 && "activeMods"@.len() == 10 && "knownExpansions"@.len() == 15);
    reveal_with_fuel(crate::json::lookup, 4);
    assert(field(d, "version"@) == Some(JsonV::Str(version)));
    assert(field(d, "activeMods"@) == Some(crate::rules::str_array(ids)));
    assert(field(d, "knownExpansions"@) == Some(crate::rules::str_array(known)));
    lemma_json_strings_of_strs(ids);
    lemma_json_strings_of_strs(known);
}

} // verus!
