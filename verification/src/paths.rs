//! Paths RimWorld uses, and a minimal reader for Valve's KeyValues (VDF / ACF) text files.

use vstd::prelude::*;

use crate::text::{chars_of, eq_ignore_case, eq_ignore_case_chars, push_char, sv};

verus! {

broadcast use {vstd::string::group_string_axioms, vstd::seq_lib::group_seq_properties};

/// Steam app id of RimWorld.
pub const RIMWORLD_APPID: &'static str = "294100";

/// Folders found by auto-detection.
#[derive(Debug, Clone)]
pub struct DetectedPaths {
    pub game_folder: Option<String>,
    pub config_folder: Option<String>,
    pub local_folder: Option<String>,
    pub workshop_folder: Option<String>,
    /// Human-readable explanation of what was/wasn't found.
    pub notes: Vec<String>,
}

/// Result of checking one configured folder.
#[derive(Debug, Clone)]
pub struct PathCheck {
    pub kind: String,
    pub path: String,
    pub ok: bool,
    pub reason: String,
}

/// A KeyValues value: a string or a list of keyed values.
#[derive(Debug)]
pub enum Vdf {
    Str(String),
    Dict(Vec<(String, Vdf)>),
}

/// The mathematical value of a `Vdf`.
pub enum VdfValue {
    Str(Seq<char>),
    Dict(Seq<(Seq<char>, VdfValue)>),
}

/// The value a `Vdf` holds.
pub open spec fn vdf_value(v: Vdf) -> VdfValue
    decreases v,
{
    match v {
        Vdf::Str(s) => VdfValue::Str(s@),
        Vdf::Dict(m) => VdfValue::Dict(entries_value(m@)),
    }
}

/// The values of keyed entries.
pub open spec fn entries_value(m: Seq<(String, Vdf)>) -> Seq<(Seq<char>, VdfValue)>
    decreases m,
{
    if m.len() == 0 {
        Seq::empty()
    } else {
        entries_value(m.drop_last()).push((m.last().0@, vdf_value(m.last().1)))
    }
}

/// A token of KeyValues text.
pub enum Token {
    Text(Seq<char>),
    Open,
    Close,
}

/// Reads a quoted string whose body starts at `j` (after the opening quote), with `\n`, `\t`
/// and `\x` escapes: the text and the position after the closing quote (`s.len()` when it is
/// missing).
pub open spec fn read_quoted(s: Seq<char>, j: int, acc: Seq<char>) -> (Seq<char>, int)
    decreases s.len() - j,
{
    if j < 0 || j >= s.len() {
        (acc, s.len() as int)
    } else if s[j] == '"' {
        (acc, j + 1)
    } else if s[j] == '\\' {
        if j + 1 >= s.len() {
            (acc, s.len() as int)
        } else {
            let c = s[j + 1];
            read_quoted(s, j + 2, acc.push(if c == 'n' { '\n' } else if c == 't' { '\t' } else { c }))
        }
    } else {
        read_quoted(s, j + 1, acc.push(s[j]))
    }
}

/// Position after the first line break at or after `j` (`s.len()` if none).
pub open spec fn after_line(s: Seq<char>, j: int) -> int
    decreases s.len() - j,
{
    if j < 0 || j >= s.len() {
        s.len() as int
    } else if s[j] == '\n' {
        j + 1
    } else {
        after_line(s, j + 1)
    }
}

/// The tokens of `s` from position `i`: braces, quoted strings; `//` comments run to the end of
/// the line; everything else is skipped.
pub open spec fn lex(s: Seq<char>, i: int) -> Seq<Token>
    decreases s.len() - i,
{
    if i < 0 || i >= s.len() {
        Seq::empty()
    } else if s[i] == '{' {
        seq![Token::Open] + lex(s, i + 1)
    } else if s[i] == '}' {
        seq![Token::Close] + lex(s, i + 1)
    } else if s[i] == '"' {
        let r = read_quoted(s, i + 1, Seq::empty());
        if r.1 > i && r.1 <= s.len() {
            seq![Token::Text(r.0)] + lex(s, r.1)
        } else {
            seq![Token::Text(r.0)]
        }
    } else if s[i] == '/' && i + 1 < s.len() && s[i + 1] == '/' {
        let j = after_line(s, i + 1);
        if j > i && j <= s.len() {
            lex(s, j)
        } else {
            Seq::empty()
        }
    } else {
        lex(s, i + 1)
    }
}

/// Reads keyed entries from token `i` into `acc` until a closing brace or the end: the map and
/// the position after it. A key followed by a string is a string entry, a key followed by `{` a
/// nested map; a key followed by anything else is dropped, as is a stray `{`.
pub open spec fn block(t: Seq<Token>, i: int, acc: Seq<(Seq<char>, VdfValue)>) -> (VdfValue, int)
    decreases t.len() - i,
{
    if i < 0 || i >= t.len() {
        (VdfValue::Dict(acc), i)
    } else {
        match t[i] {
            Token::Close => (VdfValue::Dict(acc), i + 1),
            Token::Open => block(t, i + 1, acc),
            Token::Text(key) => if i + 1 < t.len() {
                match t[i + 1] {
                    Token::Text(v) => block(t, i + 2, acc.push((key, VdfValue::Str(v)))),
                    Token::Open => {
                        let r = block(t, i + 2, Seq::empty());
                        let j = if r.1 > i && r.1 <= t.len() { r.1 } else { i + 1 };
                        block(t, j, acc.push((key, r.0)))
                    },
                    Token::Close => block(t, i + 1, acc),
                }
            } else {
                block(t, i + 1, acc)
            },
        }
    }
}

/// The value read from KeyValues text: the map of its top-level entries.
pub open spec fn vdf_of(s: Seq<char>) -> VdfValue {
    block(lex(s, 0), 0, Seq::empty()).0
}

/// An exec token.
enum Tok {
    S(String),
    Open,
    Close,
}

spec fn tok_value(t: Tok) -> Token {
    match t {
        Tok::S(s) => Token::Text(s@),
        Tok::Open => Token::Open,
        Tok::Close => Token::Close,
    }
}

spec fn toks_value(t: Seq<Tok>) -> Seq<Token> {
    t.map_values(|x: Tok| tok_value(x))
}

/// The quoted string whose body starts at `j`, and the position after it.
fn quoted(v: &Vec<char>, j: usize) -> (r: (String, usize))
    requires
        j <= v@.len(),
    ensures
        (r.0@, r.1 as int) == read_quoted(v@, j as int, Seq::empty()),
        j <= r.1 <= v@.len(),
{
    let mut s = String::new();
    let mut k = j;
    proof {
        assert(s@ == Seq::<char>::empty());
    }
    while k < v.len()
        invariant
            j <= k <= v@.len(),
            read_quoted(v@, j as int, Seq::empty()) == read_quoted(v@, k as int, s@),
        decreases v@.len() - k,
    {
        let c = v[k];
        if c == '"' {
            return (s, k + 1);
        } else if c == '\\' {
            if k + 1 >= v.len() {
                return (s, v.len());
            }
            let d = v[k + 1];
            let e = if d == 'n' {
                '\n'
            } else if d == 't' {
                '\t'
            } else {
                d
            };
            push_char(&mut s, e);
            k += 2;
        } else {
            push_char(&mut s, c);
            k += 1;
        }
    }
    (s, v.len())
}

/// The tokens of `v`.
fn tokenize(v: &Vec<char>) -> (r: Vec<Tok>)
    ensures
        toks_value(r@) == lex(v@, 0),
{
    let mut out: Vec<Tok> = Vec::new();
    let mut i: usize = 0;
    proof {
        assert(toks_value(out@) + lex(v@, 0) == lex(v@, 0));
    }
    while i < v.len()
        invariant
            0 <= i <= v@.len(),
            toks_value(out@) + lex(v@, i as int) == lex(v@, 0),
        decreases v@.len() - i,
    {
        let c = v[i];
        let ghost o0 = toks_value(out@);
        if c == '{' {
            out.push(Tok::Open);
            proof {
                assert(toks_value(out@) == o0.push(Token::Open));
                assert(o0.push(Token::Open) + lex(v@, i + 1) == o0 + lex(v@, i as int));
            }
            i += 1;
        } else if c == '}' {
            out.push(Tok::Close);
            proof {
                assert(toks_value(out@) == o0.push(Token::Close));
                assert(o0.push(Token::Close) + lex(v@, i + 1) == o0 + lex(v@, i as int));
            }
            i += 1;
        } else if c == '"' {
            let (s, j) = quoted(v, i + 1);
            let ghost sv = s@;
            out.push(Tok::S(s));
            proof {
                assert(toks_value(out@) == o0.push(Token::Text(sv)));
                assert(o0.push(Token::Text(sv)) + lex(v@, j as int) == o0 + lex(v@, i as int));
            }
            i = j;
        } else if c == '/' && i + 1 < v.len() && v[i + 1] == '/' {
            let mut k = i + 1;
            while k < v.len() && v[k] != '\n'
                invariant
                    i + 1 <= k <= v@.len(),
                    after_line(v@, i + 1) == after_line(v@, k as int),
                decreases v@.len() - k,
            {
                k += 1;
            }
            if k < v.len() {
                k += 1;
            }
            i = k;
        } else {
            i += 1;
        }
    }
    proof {
        assert(toks_value(out@) + Seq::<Token>::empty() == toks_value(out@));
    }
    out
}

/// Reads keyed entries from token `i` until a closing brace or the end; returns the map and
/// the position after it.
fn read_block(t: &Vec<Tok>, i: usize) -> (r: (Vdf, usize))
    requires
        i <= t@.len(),
    ensures
        (vdf_value(r.0), r.1 as int) == block(toks_value(t@), i as int, Seq::empty()),
        i <= r.1 <= t@.len(),
        i < t@.len() ==> i < r.1,
    decreases t@.len() - i,
{
    let ghost tv = toks_value(t@);
    let mut out: Vec<(String, Vdf)> = Vec::new();
    let mut p = i;
    proof {
        assert(entries_value(out@) == Seq::<(Seq<char>, VdfValue)>::empty());
    }
    while p < t.len()
        invariant_except_break
            i <= p <= t@.len(),
            tv == toks_value(t@),
            block(tv, i as int, Seq::empty()) == block(tv, p as int, entries_value(out@)),
            i < t@.len() ==> (i < p || p == i),
        ensures
            i <= p <= t@.len(),
            block(tv, i as int, Seq::empty()) == (VdfValue::Dict(entries_value(out@)), p as int),
            i < t@.len() ==> i < p,
        decreases t@.len() - p,
    {
        let k = p;
        proof {
            assert(tv[k as int] == tok_value(t@[k as int]));
        }
        match &t[k] {
            Tok::Close => {
                p = k + 1;
                break;
            },
            Tok::Open => {
                p = k + 1;
            },
            Tok::S(key) => {
                p = k + 1;
                if k + 1 < t.len() {
                    proof {
                        assert(tv[k + 1] == tok_value(t@[k + 1]));
                    }
                    match &t[k + 1] {
                        Tok::S(v) => {
                            let ghost e0 = entries_value(out@);
                            let ghost o0 = out@;
                            let kc = key.clone();
                            let vc = v.clone();
                            assert(kc@ == key@ && vc@ == v@);
                            let item = Vdf::Str(vc);
                            assert(vdf_value(item) == VdfValue::Str(v@));
                            out.push((kc, item));
                            proof {
                                assert(out@.drop_last() == o0);
                                assert(entries_value(out@) == e0.push((key@, VdfValue::Str(v@))));
                            }
                            p = k + 2;
                        },
                        Tok::Open => {
                            let (child, q) = read_block(t, k + 2);
                            let ghost e0 = entries_value(out@);
                            let ghost cv = vdf_value(child);
                            let ghost o0 = out@;
                            let kc = key.clone();
                            out.push((kc, child));
                            proof {
                                assert(out@.drop_last() == o0);
                                assert(entries_value(out@) == e0.push((key@, cv)));
                            }
                            p = q;
                        },
                        Tok::Close => {},
                    }
                }
            },
        }
    }
    (Vdf::Dict(out), p)
}

/// Parse KeyValues text into the map of its top-level entries.
pub fn parse_vdf(text: &str) -> (r: Vdf)
    ensures
        vdf_value(r) == vdf_of(text@),
{
    let v = chars_of(text);
    let t = tokenize(&v);
    let (r, _) = read_block(&t, 0);
    r
}

impl Vdf {
    /// Value of the first entry whose key matches `key`, ASCII case-insensitive (`None` for a
    /// string).
    pub fn get(&self, key: &str) -> (r: Option<&Vdf>)
        ensures
            r is Some == (vdf_value(*self) is Dict && first_key(vdf_value(*self)->Dict_0, key@) >= 0),
            r matches Some(x) ==> vdf_value(*x) == (vdf_value(*self)->Dict_0)[first_key(vdf_value(*self)->Dict_0, key@)].1,
    {
        match self {
            Vdf::Dict(m) => {
                proof {
                    assert(vdf_value(*self) == VdfValue::Dict(entries_value(m@)));
                    lemma_entries_value_pub(m@);
                    lemma_first_key(entries_value(m@), key@);
                }
                let k = chars_of(key);
                let mut i: usize = 0;
                while i < m.len()
                    invariant
                        0 <= i <= m@.len(),
                        k@ == key@,
                        vdf_value(*self) == VdfValue::Dict(entries_value(m@)),
                        entries_value(m@).len() == m@.len(),
                        forall|x: int| 0 <= x < m@.len() ==> #[trigger] entries_value(m@)[x] == (m@[x].0@, vdf_value(m@[x].1)),
                        forall|x: int| 0 <= x < i ==> !eq_ignore_case(#[trigger] entries_value(m@)[x].0, key@),
                        -1 <= first_key(entries_value(m@), key@) < m@.len(),
                        first_key(entries_value(m@), key@) >= 0 ==> eq_ignore_case(entries_value(m@)[first_key(entries_value(m@), key@)].0, key@),
                        forall|x: int| 0 <= x < m@.len() && (first_key(entries_value(m@), key@) < 0 || x < first_key(entries_value(m@), key@)) ==> !eq_ignore_case(#[trigger] entries_value(m@)[x].0, key@),
                    decreases m@.len() - i,
                {
                    let c = chars_of(m[i].0.as_str());
                    if eq_ignore_case_chars(c.as_slice(), k.as_slice()) {
                        proof {
                            assert(entries_value(m@)[i as int].0 == m@[i as int].0@);
                        }
                        return Some(&m[i].1);
                    }
                    proof {
                        assert(entries_value(m@)[i as int].0 == m@[i as int].0@);
                    }
                    i += 1;
                }
                None
            },
            Vdf::Str(_) => None,
        }
    }

    /// The string, for a string value.
    pub fn str(&self) -> (r: Option<&str>)
        ensures
            r is Some == (vdf_value(*self) is Str),
            r matches Some(s) ==> VdfValue::Str(s@) == vdf_value(*self),
    {
        match self {
            Vdf::Str(s) => Some(s.as_str()),
            Vdf::Dict(_) => None,
        }
    }
}

/// Position of the first entry whose key matches `key`, ASCII case-insensitive (-1 if none).
pub open spec fn first_key(m: Seq<(Seq<char>, VdfValue)>, key: Seq<char>) -> int
    decreases m.len(),
{
    if m.len() == 0 {
        -1
    } else {
        let r = first_key(m.drop_last(), key);
        if r >= 0 {
            r
        } else if eq_ignore_case(m.last().0, key) {
            m.len() - 1
        } else {
            -1
        }
    }
}

proof fn lemma_first_key(m: Seq<(Seq<char>, VdfValue)>, key: Seq<char>)
    ensures
        -1 <= first_key(m, key) < m.len(),
        first_key(m, key) >= 0 ==> eq_ignore_case(m[first_key(m, key)].0, key),
        forall|x: int| 0 <= x < m.len() && (first_key(m, key) < 0 || x < first_key(m, key)) ==> !eq_ignore_case(#[trigger] m[x].0, key),
    decreases m.len(),
{
    if m.len() > 0 {
        let d = m.drop_last();
        lemma_first_key(d, key);
        assert forall|x: int| 0 <= x < m.len() && (first_key(m, key) < 0 || x < first_key(m, key)) implies !eq_ignore_case(#[trigger] m[x].0, key) by {
            if x < m.len() - 1 {
                assert(m[x] == d[x]);
            }
        }
        if first_key(d, key) >= 0 {
            assert(m[first_key(d, key)] == d[first_key(d, key)]);
        }
    }
}

pub proof fn lemma_entries_value_pub(m: Seq<(String, Vdf)>)
    ensures
        entries_value(m).len() == m.len(),
        forall|x: int| 0 <= x < m.len() ==> #[trigger] entries_value(m)[x] == (m[x].0@, vdf_value(m[x].1)),
    decreases m.len(),
{
    if m.len() > 0 {
        lemma_entries_value_pub(m.drop_last());
        assert forall|x: int| 0 <= x < m.len() implies #[trigger] entries_value(m)[x] == (m[x].0@, vdf_value(m[x].1)) by {
            if x < m.len() - 1 {
                assert(m.drop_last()[x] == m[x]);
            }
        }
    }
}

/// The value of the first entry named `k` (ASCII case-insensitive) of a list.
pub open spec fn vget(v: Option<VdfValue>, k: Seq<char>) -> Option<VdfValue> {
    match v {
        Some(VdfValue::Dict(m)) => {
            let i = first_key(m, k);
            if i >= 0 {
                Some(m[i].1)
            } else {
                None
            }
        },
        _ => None,
    }
}

/// A string value.
pub open spec fn vstr(v: Option<VdfValue>) -> Option<Seq<char>> {
    match v {
        Some(VdfValue::Str(s)) => Some(s),
        _ => None,
    }
}

/// The library folders `libraryfolders.vdf` lists: each entry's `path`, or the entry itself
/// when it is a string.
pub open spec fn library_list(m: Seq<(Seq<char>, VdfValue)>) -> Seq<Seq<char>>
    decreases m.len(),
{
    if m.len() == 0 {
        Seq::empty()
    } else {
        let r = library_list(m.drop_last());
        let v = m.last().1;
        match vstr(vget(Some(v), "path"@)) {
            Some(p) => r.push(p),
            None => match v {
                VdfValue::Str(p) => r.push(p),
                _ => r,
            },
        }
    }
}

/// The libraries of a `libraryfolders.vdf` text.
pub open spec fn libraries_of(text: Seq<char>) -> Seq<Seq<char>> {
    match vget(Some(vdf_of(text)), "libraryfolders"@) {
        Some(VdfValue::Dict(m)) => library_list(m),
        _ => Seq::empty(),
    }
}

/// The `AppState.installdir` of an app manifest.
pub open spec fn install_dir_of(text: Seq<char>) -> Option<Seq<char>> {
    vstr(vget(vget(Some(vdf_of(text)), "AppState"@), "installdir"@))
}

/// The `get` of an optional value.
fn get_opt<'a>(v: Option<&'a Vdf>, k: &str) -> (r: Option<&'a Vdf>)
    ensures
        match r {
            Some(x) => vget(match v {
                Some(y) => Some(vdf_value(*y)),
                None => None,
            }, k@) == Some(vdf_value(*x)),
            None => vget(match v {
                Some(y) => Some(vdf_value(*y)),
                None => None,
            }, k@) is None,
        },
{
    match v {
        Some(y) => y.get(k),
        None => None,
    }
}

/// The library folders a `libraryfolders.vdf` text lists (see `libraries_of`).
pub fn library_paths(text: &str) -> (r: Vec<String>)
    ensures
        sv(r@) == libraries_of(text@),
{
    let root = parse_vdf(text);
    let mut out: Vec<String> = Vec::new();
    proof {
        reveal_strlit("libraryfolders");
        reveal_strlit("path");
    }
    match root.get("libraryfolders") {
        Some(Vdf::Dict(m)) => {
            let ghost mv = entries_value(m@);
            proof {
                lemma_entries_value_pub(m@);
            }
            let mut i: usize = 0;
            while i < m.len()
                invariant
                    0 <= i <= m@.len(),
                    mv == entries_value(m@),
                    mv.len() == m@.len(),
                    forall|x: int| 0 <= x < m@.len() ==> #[trigger] mv[x] == (m@[x].0@, vdf_value(m@[x].1)),
                    sv(out@) == library_list(mv.take(i as int)),
                decreases m@.len() - i,
            {
                proof {
                    assert(mv.take(i + 1).drop_last() == mv.take(i as int));
                    assert(mv.take(i + 1).last() == mv[i as int]);
                }
                let v = &m[i].1;
                let p = match v.get("path") {
                    Some(x) => x.str(),
                    None => None,
                };
                let chosen = match p {
                    Some(t) => Some(t),
                    None => v.str(),
                };
                if let Some(t) = chosen {
                    let ghost o = out@;
                    out.push(String::from_str(t));
                    proof {
                        assert(sv(out@) == sv(o).push(t@));
                    }
                }
                i += 1;
            }
            assert(mv.take(mv.len() as int) == mv);
            out
        },
        _ => {
            assert(sv(out@) =~= Seq::<Seq<char>>::empty());
            out
        },
    }
}

/// The install folder an app manifest names (see `install_dir_of`).
pub fn install_dir(text: &str) -> (r: Option<String>)
    ensures
        match r {
            Some(d) => install_dir_of(text@) == Some(d@),
            None => install_dir_of(text@) is None,
        },
{
    let root = parse_vdf(text);
    proof {
        reveal_strlit("AppState");
        reveal_strlit("installdir");
    }
    match get_opt(root.get("AppState"), "installdir") {
        Some(x) => match x.str() {
            Some(t) => Some(String::from_str(t)),
            None => None,
        },
        None => None,
    }
}

} // verus!
