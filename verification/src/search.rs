//! Search inside mod folders (RimSort's "file search"): line-based, capped. Walking the
//! folders and reading the files is the application's part; what a file contributes, and how
//! the results are put together, is decided here.

use vstd::prelude::*;

use crate::error::Error;
use crate::mod_id::ModId;
use crate::modlist_io::split_lines;
use crate::text::{ascii_lowercase, chars_of, infix, lex_lt, lowercase, sv, trim};

verus! {

broadcast use {vstd::string::group_string_axioms, vstd::seq_lib::group_seq_properties};

/// Hits over all mods.
pub const MAX_HITS: usize = 1000;
/// Hits per mod.
pub const MAX_HITS_PER_MOD: usize = 60;
/// Files larger than this are not searched.
pub const MAX_FILE_BYTES: u64 = 2097152;
/// Folders deeper than this are not searched.
pub const MAX_DEPTH: usize = 12;
/// Shown text of a hit, in characters.
pub const MAX_LINE_CHARS: usize = 240;

/// What to look for.
#[derive(Debug, Clone)]
pub struct SearchQuery {
    pub text: String,
    pub regex: bool,
    pub case_sensitive: bool,
    /// Extensions to look in, without dots; empty means every (text) file.
    pub extensions: Vec<String>,
    /// Also match file names, not just contents.
    pub file_names: bool,
}

/// One match.
#[derive(Debug, Clone)]
pub struct SearchHit {
    pub mod_id: ModId,
    pub mod_name: String,
    /// Absolute path of the file.
    pub path: String,
    /// Path relative to the mod folder.
    pub rel: String,
    /// 1-based line; 0 for a file-name match.
    pub line: u32,
    pub text: String,
}

/// What a search found.
#[derive(Debug, Clone)]
pub struct SearchResult {
    pub hits: Vec<SearchHit>,
    /// Stopped early at the overall or per-mod hit cap.
    pub truncated: bool,
    pub files_searched: u32,
    pub ms: u32,
}

/// `regex::Regex`, carried through opaque.
#[verifier::external_type_specification]
#[verifier::external_body]
pub struct ExRegex(regex::Regex);

/// A compiled pattern, with what it was compiled from.
pub struct Matcher {
    re: regex::Regex,
    pattern: String,
    case_insensitive: bool,
}

impl Matcher {
    /// The pattern.
    pub closed spec fn pattern_view(&self) -> Seq<char> {
        self.pattern@
    }

    /// Whether case is ignored.
    pub closed spec fn ignores_case(&self) -> bool {
        self.case_insensitive
    }
}

/// A character with a meaning in a regular expression.
pub open spec fn regex_meta(c: char) -> bool {
    c == '\\' || c == '.' || c == '+' || c == '*' || c == '?' || c == '(' || c == ')' || c == '|' || c == '['
        || c == ']' || c == '{' || c == '}' || c == '^' || c == '$' || c == '#' || c == '&' || c == '-' || c == '~'
}

/// `text` with a `\` before each meta character: what `regex::escape` returns.
pub open spec fn regex_escaped(text: Seq<char>) -> Seq<char>
    decreases text.len(),
{
    if text.len() == 0 {
        Seq::empty()
    } else {
        let r = regex_escaped(text.drop_last());
        if regex_meta(text.last()) { r.push('\\').push(text.last()) } else { r.push(text.last()) }
    }
}

/// The compiled pattern matches somewhere in `text`.
pub uninterp spec fn regex_matches(pattern: Seq<char>, case_insensitive: bool, text: Seq<char>) -> bool;

/// Calls `regex::escape` (regex-syntax's `escape_into`: a `\` before each meta character, every
/// other character kept). Claimed, as its documentation says, that the result is a literal:
/// matched case-sensitively, it matches exactly the texts that contain `text`.
#[verifier::external_body]
fn escape(text: &str) -> (r: String)
    ensures
        r@ == regex_escaped(text@),
        forall|h: Seq<char>| #[trigger] regex_matches(r@, false, h) == infix(h, text@),
{
    regex::escape(text)
}

/// Calls `RegexBuilder::new(pattern).case_insensitive(..).size_limit(4 MiB).build()`.
/// Claimed: a matcher it gives is for this pattern and case setting. Whether a pattern builds
/// is not claimed: the size limit is counted in memory whose size depends on the machine's
/// pointer width, so a pattern near the limit builds on one machine and not on another; the
/// error message is the crate's.
#[verifier::external_body]
fn build_matcher(pattern: &str, case_insensitive: bool) -> (r: Result<Matcher, String>)
    ensures
        r matches Ok(m) ==> m.pattern_view() == pattern@ && m.ignores_case() == case_insensitive,
{
    regex::RegexBuilder::new(pattern).case_insensitive(case_insensitive).size_limit(4 << 20).build().map(
        |re| Matcher { re, pattern: pattern.to_string(), case_insensitive },
    ).map_err(|e| e.to_string())
}

/// Calls `Regex::is_match`.
#[verifier::external_body]
fn is_match(m: &Matcher, text: &str) -> (r: bool)
    ensures
        r == regex_matches(m.pattern_view(), m.ignores_case(), text@),
{
    m.re.is_match(text)
}

/// The pattern a query searches with: its text, escaped unless it is a regular expression.
pub open spec fn query_pattern(q: SearchQuery) -> Seq<char> {
    if q.regex {
        q.text@
    } else {
        regex_escaped(q.text@)
    }
}

/// Compile a query: empty text and patterns the regex crate refuses are errors. Which
/// patterns it refuses is the crate's decision (and depends on the machine near its size
/// limit); a refusal is reported as `Invalid pattern: ` and the crate's message.
pub fn compile(q: &SearchQuery) -> (r: Result<Matcher, Error>)
    ensures
        q.text@.len() == 0 ==> (r matches Err(Error::Other(m)) && m@ == "Enter something to search for"@),
        q.text@.len() > 0 ==> match r {
            Ok(m) => m.pattern_view() == query_pattern(*q) && m.ignores_case() == !q.case_sensitive,
            Err(e) => e matches Error::Other(t) && crate::text::has_prefix(t@, "Invalid pattern: "@),
        },
{
    if q.text.as_str().is_empty() {
        return Err(Error::Other(String::from_str("Enter something to search for")));
    }
    let pattern = if q.regex {
        q.text.clone()
    } else {
        escape(q.text.as_str())
    };
    match build_matcher(pattern.as_str(), !q.case_sensitive) {
        Ok(m) => Ok(m),
        Err(msg) => {
            let mut t = String::from_str("Invalid pattern: ");
            proof {
                reveal_strlit("Invalid pattern: ");
            }
            let ghost t0 = t@;
            t.append(msg.as_str());
            proof {
                assert(t@.subrange(0, t0.len() as int) == t0);
            }
            Err(Error::Other(t))
        },
    }
}

/// Whether `line` matches the query's pattern.
pub fn line_matches(m: &Matcher, line: &str) -> (r: bool)
    ensures
        r == regex_matches(m.pattern_view(), m.ignores_case(), line@),
{
    is_match(m, line)
}

/// `t` without leading dots.
pub open spec fn strip_dots(t: Seq<char>) -> Seq<char>
    decreases t.len(),
{
    if t.len() > 0 && t[0] == '.' {
        strip_dots(t.drop_first())
    } else {
        t
    }
}

/// The extensions of a query: trimmed, without leading dots, ASCII-lowercased, empty ones
/// dropped.
pub open spec fn exts_of(e: Seq<Seq<char>>) -> Seq<Seq<char>>
    decreases e.len(),
{
    if e.len() == 0 {
        Seq::empty()
    } else {
        let r = exts_of(e.drop_last());
        let x = ascii_lowercase(strip_dots(trim(e.last())));
        if x.len() > 0 {
            r.push(x)
        } else {
            r
        }
    }
}

/// `str::to_ascii_lowercase`.
fn ascii_lower(s: &str) -> (r: String)
    ensures
        r@ == ascii_lowercase(s@),
{
    let v = chars_of(s);
    let mut out = String::new();
    let mut i: usize = 0;
    while i < v.len()
        invariant
            0 <= i <= v@.len(),
            v@ == s@,
            out@ == ascii_lowercase(v@.take(i as int)),
        decreases v@.len() - i,
    {
        let c = crate::text::ascii_lower_char(v[i]);
        crate::text::push_char(&mut out, c);
        proof {
            assert(ascii_lowercase(v@.take(i + 1)) =~= ascii_lowercase(v@.take(i as int)).push(c));
        }
        i += 1;
    }
    assert(v@.take(v@.len() as int) == v@);
    out
}

/// The extensions of a query (see `exts_of`).
pub fn normalized_exts(e: &Vec<String>) -> (r: Vec<String>)
    ensures
        sv(r@) == exts_of(sv(e@)),
{
    let mut out: Vec<String> = Vec::new();
    let mut i: usize = 0;
    while i < e.len()
        invariant
            0 <= i <= e@.len(),
            sv(out@) == exts_of(sv(e@.take(i as int))),
        decreases e@.len() - i,
    {
        proof {
            assert(sv(e@.take(i + 1)).drop_last() == sv(e@.take(i as int)));
            assert(sv(e@.take(i + 1)).last() == e@[i as int]@);
        }
        let t = crate::text::trim_str(e[i].as_str());
        let tv = chars_of(t.as_str());
        let mut a: usize = 0;
        assert(tv@.skip(0) == tv@);
        while a < tv.len() && tv[a] == '.'
            invariant
                0 <= a <= tv@.len(),
                tv@ == t@,
                strip_dots(t@) == strip_dots(tv@.skip(a as int)),
            decreases tv@.len() - a,
        {
            proof {
                assert(tv@.skip(a as int).drop_first() == tv@.skip(a + 1));
            }
            a += 1;
        }
        proof {
            assert(tv@.subrange(a as int, tv@.len() as int) == tv@.skip(a as int));
        }
        let rest = crate::text::string_of_range(tv.as_slice(), a, tv.len());
        let x = ascii_lower(rest.as_str());
        if !x.as_str().is_empty() {
            let ghost o = out@;
            out.push(x);
            proof {
                assert(sv(out@) == sv(o).push(x@));
            }
        }
        i += 1;
    }
    assert(e@.take(e@.len() as int) == e@);
    out
}

/// A file is searched when no extensions are given, or its extension (ASCII case-insensitive)
/// is among them.
pub open spec fn ext_admits(ext: Option<Seq<char>>, exts: Seq<Seq<char>>) -> bool {
    exts.len() == 0 || (ext matches Some(e) && exts.contains(ascii_lowercase(e)))
}

/// Whether a file with extension `ext` is searched (see `ext_admits`).
pub fn ext_ok(ext: Option<&str>, exts: &Vec<String>) -> (r: bool)
    ensures
        r == ext_admits(match ext {
            Some(e) => Some(e@),
            None => None,
        }, sv(exts@)),
{
    if exts.len() == 0 {
        return true;
    }
    match ext {
        Some(e) => {
            let l = ascii_lower(e);
            crate::text::contains_str(exts, &l)
        },
        None => false,
    }
}

/// The shown text: at most `MAX_LINE_CHARS` characters, with `…` when cut.
pub open spec fn clipped(s: Seq<char>) -> Seq<char> {
    if s.len() > 240 {
        s.take(240).push('…')
    } else {
        s
    }
}

/// The shown text (see `clipped`).
pub fn clip(s: &str) -> (r: String)
    ensures
        r@ == clipped(s@),
{
    let v = chars_of(s);
    if v.len() > MAX_LINE_CHARS {
        let mut out = crate::text::string_of_range(v.as_slice(), 0, MAX_LINE_CHARS);
        crate::text::push_char(&mut out, '…');
        proof {
            assert(v@.subrange(0, 240) == v@.take(240));
        }
        out
    } else {
        String::from_str(s)
    }
}

/// `line` without one trailing carriage return.
pub open spec fn strip_cr(line: Seq<char>) -> Seq<char> {
    if line.len() > 0 && line.last() == '\r' {
        line.drop_last()
    } else {
        line
    }
}

/// `str::lines`: the pieces between line feeds, each without a trailing carriage return, and
/// no empty piece after a final line feed.
pub open spec fn text_lines(s: Seq<char>) -> Seq<Seq<char>> {
    let p = split_lines(s);
    let q = if p.last().len() == 0 {
        p.drop_last()
    } else {
        p
    };
    q.map_values(|l: Seq<char>| strip_cr(l))
}

/// The (line, text) hits of the lines: 1-based line numbers from `first`, trimmed and
/// clipped text.
pub open spec fn line_hits(lines: Seq<Seq<char>>, pat: Seq<char>, ci: bool) -> Seq<(int, Seq<char>)>
    decreases lines.len(),
{
    if lines.len() == 0 {
        Seq::empty()
    } else {
        let r = line_hits(lines.drop_last(), pat, ci);
        let l = lines.last();
        if regex_matches(pat, ci, l) {
            r.push((lines.len() as int, clipped(trim(l))))
        } else {
            r
        }
    }
}

/// The (line, text) hits one file gives, before caps: its name (line 0, showing the relative
/// path) when names are searched and it matches, then each matching line of its text when it
/// could be read.
pub open spec fn file_hits(
    names: bool,
    pat: Seq<char>,
    ci: bool,
    name: Seq<char>,
    rel: Seq<char>,
    content: Option<Seq<char>>,
) -> Seq<(int, Seq<char>)> {
    let first: Seq<(int, Seq<char>)> = if names && regex_matches(pat, ci, name) {
        seq![(0int, clipped(rel))]
    } else {
        Seq::empty()
    };
    match content {
        Some(c) => first + line_hits(text_lines(c), pat, ci),
        None => first,
    }
}

/// The (line, text) of hits.
pub open spec fn hit_lines(h: Seq<SearchHit>) -> Seq<(int, Seq<char>)> {
    h.map_values(|x: SearchHit| (x.line as int, x.text@))
}

/// The lines without their trailing carriage returns.
pub open spec fn stripped(d: Seq<Seq<char>>) -> Seq<Seq<char>> {
    d.map_values(|l: Seq<char>| strip_cr(l))
}

/// The hits of `lines` followed by one more line.
proof fn lemma_hits_push(lines: Seq<Seq<char>>, l: Seq<char>, pat: Seq<char>, ci: bool)
    ensures
        line_hits(lines.push(l), pat, ci) == if regex_matches(pat, ci, l) {
            line_hits(lines, pat, ci).push((lines.len() + 1int, clipped(trim(l))))
        } else {
            line_hits(lines, pat, ci)
        },
{
    assert(lines.push(l).drop_last() == lines);
}

/// One more piece: its stripped line is appended.
proof fn lemma_stripped_push(d: Seq<Seq<char>>, piece: Seq<char>)
    ensures
        stripped(d.push(piece)) == stripped(d).push(strip_cr(piece)),
        stripped(d).len() == d.len(),
        stripped(d).take(d.len() as int) == stripped(d),
{
    assert(stripped(d.push(piece)) =~= stripped(d).push(strip_cr(piece)));
    assert(stripped(d).take(d.len() as int) =~= stripped(d));
}

/// One step of `matching_lines`: the piece from `start` to the line feed at `e` (or the end).
proof fn lemma_lines_split(text: Seq<char>, v: Seq<char>, start: int, e: int, done: Seq<Seq<char>>)
    requires
        v == text,
        0 <= start <= e <= v.len(),
        e < v.len() ==> v[e] == '\n',
        forall|k: int| start <= k < e ==> v[k] != '\n',
        split_lines(text) == done + split_lines(v.skip(start)),
    ensures
        e < v.len() ==> split_lines(text) == done.push(v.subrange(start, e)) + split_lines(v.skip(e + 1)),
        e == v.len() ==> split_lines(text) == done.push(v.subrange(start, e)),
{
    let rest = v.skip(start);
    assert forall|x: int| 0 <= x < e - start implies #[trigger] rest[x] != '\n' by {
        assert(rest[x] == v[start + x]);
    }
    if e < v.len() {
        assert(rest[e - start] == v[e]);
    }
    crate::about::lemma_find_first_pub(rest, 0, '\n', e - start);
    assert(rest.take(e - start) == v.subrange(start, e));
    if e < v.len() {
        assert(rest.skip(e - start + 1) == v.skip(e + 1));
        assert(split_lines(rest) == seq![rest.take(e - start)] + split_lines(rest.skip(e - start + 1)));
        assert(done + (seq![v.subrange(start, e)] + split_lines(v.skip(e + 1))) == done.push(v.subrange(start, e)) + split_lines(v.skip(e + 1)));
    } else {
        assert(split_lines(rest) == seq![rest]);
        assert(rest == v.subrange(start, e));
        assert(done + seq![rest] == done.push(rest));
    }
}

/// The matching lines of a text, as (1-based line, shown text).
fn matching_lines(m: &Matcher, text: &str) -> (r: Vec<(u32, String)>)
    requires
        text@.len() < 0xFFFF_FFFF,
    ensures
        pair_views(r@) == line_hits(text_lines(text@), m.pattern_view(), m.ignores_case()),
{
    let v = chars_of(text);
    let n = v.len();
    let mut out: Vec<(u32, String)> = Vec::new();
    let mut start: usize = 0;
    let mut count: u32 = 0;
    let mut finished = false;
    let ghost mut done: Seq<Seq<char>> = Seq::empty();
    let ghost pat = m.pattern_view();
    let ghost ci = m.ignores_case();
    proof {
        assert(v@.skip(0) == v@);
        assert(pair_views(out@) =~= Seq::<(int, Seq<char>)>::empty());
    }
    while !finished
        invariant
            0 <= start <= n,
            n == v@.len(),
            n < 0xFFFF_FFFF,
            v@ == text@,
            pat == m.pattern_view(),
            ci == m.ignores_case(),
            count as int == done.len(),
            !finished ==> count <= start,
            count <= n + 1,
            !finished ==> split_lines(text@) == done + split_lines(v@.skip(start as int)),
            finished ==> split_lines(text@) == done,
            finished ==> done.len() > 0,
            !finished ==> pair_views(out@) == line_hits(stripped(done), pat, ci),
            finished ==> pair_views(out@) == line_hits(
                stripped(done).take(if done.last().len() == 0 { done.len() - 1 } else { done.len() as int }),
                pat,
                ci,
            ),
        decreases n + 1 - start, (if finished { 0int } else { 1int }),
    {
        let e = crate::text::find_char_from(v.as_slice(), start, '\n');
        let mut b = e;
        if b > start && v[b - 1] == '\r' {
            b = b - 1;
        }
        let line = crate::text::string_of_range(v.as_slice(), start, b);
        let ghost piece = v@.subrange(start as int, e as int);
        proof {
            lemma_lines_split(text@, v@, start as int, e as int, done);
            assert(line@ == strip_cr(piece)) by {
                if e > start && v@[e - 1] == '\r' {
                    assert(piece.drop_last() == v@.subrange(start as int, b as int));
                }
            }
        }
        let last_empty = e == n && start == e;
        let ghost before = done;
        let ghost o = pair_views(out@);
        proof {
            done = done.push(piece);
            lemma_stripped_push(before, piece);
            lemma_stripped_push(done, piece);
            lemma_hits_push(stripped(before), line@, pat, ci);
        }
        count = count + 1;
        if !last_empty && is_match(m, line.as_str()) {
            let t = crate::text::trim_str(line.as_str());
            let c = clip(t.as_str());
            out.push((count, c));
            proof {
                assert(pair_views(out@) =~= o.push((count as int, c@)));
            }
        }
        proof {
            if last_empty {
                assert(stripped(done).take(done.len() - 1) =~= stripped(before));
            }
        }
        if e < n {
            start = e + 1;
        } else {
            finished = true;
        }
    }
    proof {
        let dm = stripped(done);
        let q = if done.last().len() == 0 { done.drop_last() } else { done };
        assert(stripped(q) =~= dm.take(if done.last().len() == 0 { done.len() - 1 } else { done.len() as int }));
    }
    out
}

/// The contents of a `SearchHit`.
pub struct HitView {
    pub mod_id: ModId,
    pub mod_name: Seq<char>,
    pub path: Seq<char>,
    pub rel: Seq<char>,
    pub line: int,
    pub text: Seq<char>,
}

impl View for SearchHit {
    type V = HitView;

    open spec fn view(&self) -> HitView {
        HitView {
            mod_id: self.mod_id,
            mod_name: self.mod_name@,
            path: self.path@,
            rel: self.rel@,
            line: self.line as int,
            text: self.text@,
        }
    }
}

/// The contents of hits.
pub open spec fn hviews(h: Seq<SearchHit>) -> Seq<HitView> {
    h.map_values(|x: SearchHit| x@)
}

/// The hits that (line, text) pairs of one file of one mod make.
pub open spec fn hits_of(
    id: ModId,
    name: Seq<char>,
    path: Seq<char>,
    rel: Seq<char>,
    lt: Seq<(int, Seq<char>)>,
) -> Seq<HitView> {
    lt.map_values(|x: (int, Seq<char>)| HitView { mod_id: id, mod_name: name, path, rel, line: x.0, text: x.1 })
}

/// How many more hits a mod that has `n` takes.
pub open spec fn room(n: int) -> int {
    if n < 60 {
        60 - n
    } else {
        0
    }
}

/// The smaller of two numbers.
pub open spec fn least(a: int, b: int) -> int {
    if a < b {
        a
    } else {
        b
    }
}

/// The text of an optional string.
pub open spec fn opt_view(c: Option<&str>) -> Option<Seq<char>> {
    match c {
        Some(t) => Some(t@),
        None => None,
    }
}

/// (line, text) pairs as plain values.
pub open spec fn pair_views(p: Seq<(u32, String)>) -> Seq<(int, Seq<char>)> {
    p.map_values(|x: (u32, String)| (x.0 as int, x.1@))
}

/// The (line, text) hits of one file before caps (see `file_hits`).
fn file_pairs(m: &Matcher, file_names: bool, rel: &str, name: &str, content: Option<&str>) -> (r: Vec<(u32, String)>)
    requires
        content matches Some(c) ==> c@.len() < 0xFFFF_FFFF,
    ensures
        pair_views(r@) == file_hits(file_names, m.pattern_view(), m.ignores_case(), name@, rel@, opt_view(content)),
{
    let mut pairs: Vec<(u32, String)> = Vec::new();
    if file_names && is_match(m, name) {
        pairs.push((0, clip(rel)));
    }
    let ghost first = pairs@;
    proof {
        assert(pair_views(first) =~= file_hits(file_names, m.pattern_view(), m.ignores_case(), name@, rel@, None));
    }
    match content {
        Some(c) => {
            let mut ls = matching_lines(m, c);
            let ghost l0 = ls@;
            pairs.append(&mut ls);
            proof {
                assert(pair_views(pairs@) =~= pair_views(first) + pair_views(l0));
            }
        },
        None => {},
    }
    pairs
}

/// Search one file of a mod: its name (when names are searched) and, when it could be read as
/// text, its lines (see `file_hits`). Hits go to the mod's `hits` while it has fewer than
/// `MAX_HITS_PER_MOD`; `total` counts the hits taken, `truncated` records that some did not
/// fit, and `files` counts the files whose text was searched.
pub fn search_file(
    m: &Matcher,
    file_names: bool,
    mod_id: ModId,
    mod_name: &str,
    path: &str,
    rel: &str,
    name: &str,
    content: Option<&str>,
    hits: &mut Vec<SearchHit>,
    total: &mut usize,
    truncated: &mut bool,
    files: &mut usize,
)
    requires
        *old(total) < usize::MAX - 60,
        *old(files) < usize::MAX,
        content matches Some(c) ==> c@.len() < 0xFFFF_FFFF,
    ensures
        ({
            let fh = file_hits(file_names, m.pattern_view(), m.ignores_case(), name@, rel@, opt_view(content));
            let k = least(fh.len() as int, room(old(hits)@.len() as int));
            &&& hviews(final(hits)@) == hviews(old(hits)@) + hits_of(mod_id, mod_name@, path@, rel@, fh.take(k))
            &&& *final(total) == *old(total) + k
            &&& *final(truncated) == (*old(truncated) || fh.len() > room(old(hits)@.len() as int))
            &&& *final(files) == *old(files) + (if content is Some { 1int } else { 0int })
        }),
{
    let pairs = file_pairs(m, file_names, rel, name, content);
    let ghost fh = pair_views(pairs@);
    let ghost h0 = hviews(hits@);
    let ghost n0 = hits@.len() as int;
    let ghost r0 = room(n0);
    let ghost t0 = *total;
    let ghost tr0 = *truncated;
    let mut i: usize = 0;
    while i < pairs.len()
        invariant
            0 <= i <= pairs@.len(),
            fh == pair_views(pairs@),
            n0 + least(i as int, r0) == hits@.len(),
            r0 == room(n0),
            0 <= r0 <= 60,
            hviews(hits@) == h0 + hits_of(mod_id, mod_name@, path@, rel@, fh.take(least(i as int, r0))),
            *total == t0 + least(i as int, r0),
            t0 < usize::MAX - 60,
            *truncated == (tr0 || i > r0),
        decreases pairs@.len() - i,
    {
        if hits.len() >= MAX_HITS_PER_MOD {
            *truncated = true;
        } else {
            let ghost before = hviews(hits@);
            let h = SearchHit {
                mod_id,
                mod_name: String::from_str(mod_name),
                path: String::from_str(path),
                rel: String::from_str(rel),
                line: pairs[i].0,
                text: pairs[i].1.clone(),
            };
            hits.push(h);
            *total = *total + 1;
            proof {
                assert(fh[i as int] == (pairs@[i as int].0 as int, pairs@[i as int].1@));
                assert(fh.take(i + 1) == fh.take(i as int).push(fh[i as int]));
                assert(hviews(hits@) == before.push(h@));
                assert(hits_of(mod_id, mod_name@, path@, rel@, fh.take(i + 1)) =~= hits_of(mod_id, mod_name@, path@, rel@, fh.take(i as int)).push(h@));
            }
        }
        i += 1;
    }
    if content.is_some() {
        *files = *files + 1;
    }
}

/// Whether the walk descends into the folder `name` found at `depth` below a mod's folder: not
/// below the depth limit, and never into `.git`.
pub fn descend_into(depth: usize, name: &str) -> (r: bool)
    ensures
        r == (depth < MAX_DEPTH && name@ != ".git"@),
{
    depth < MAX_DEPTH && !crate::text::str_eq(name, ".git")
}

/// Whether the search stops before the next directory entry: the overall cap is reached.
pub fn out_of_room(total: usize) -> (r: bool)
    ensures
        r == (total >= 1000),
{
    total >= MAX_HITS
}

/// Whether a file of `size` bytes is left out as too large.
pub fn too_large(size: u64) -> (r: bool)
    ensures
        r == (size > 2097152),
{
    size > MAX_FILE_BYTES
}

/// What `String::from_utf8_lossy` makes of `bytes`.
pub uninterp spec fn lossy_text(bytes: Seq<u8>) -> Seq<char>;

/// Calls `String::from_utf8_lossy`; its result is named, nothing more is claimed.
#[verifier::external_body]
fn utf8_lossy(bytes: &[u8]) -> (r: String)
    ensures
        r@ == lossy_text(bytes@),
{
    String::from_utf8_lossy(bytes).into_owned()
}

/// A zero byte among the first 4096: the file is taken for binary.
pub open spec fn binary_head(b: Seq<u8>) -> bool {
    exists|i: int| 0 <= i < b.len() && i < 4096 && b[i] == 0
}

/// A file's contents as text: `None` for a binary file, else the bytes decoded as UTF-8 with
/// invalid sequences replaced.
pub fn text_of(bytes: &[u8]) -> (r: Option<String>)
    ensures
        binary_head(bytes@) ==> r is None,
        !binary_head(bytes@) ==> (r matches Some(t) && t@ == lossy_text(bytes@)),
{
    let n = bytes.len();
    let mut i: usize = 0;
    while i < n && i < 4096
        invariant
            0 <= i <= n,
            n == bytes@.len(),
            forall|k: int| 0 <= k < i ==> bytes@[k] != 0,
        decreases n - i,
    {
        if bytes[i] == 0 {
            return None;
        }
        i += 1;
    }
    Some(utf8_lossy(bytes))
}

/// The sort key of a mod's hits: the lowercased name of the mod of its first hit.
pub open spec fn group_key(g: Seq<HitView>) -> Seq<char> {
    lowercase(g[0].mod_name)
}

/// The hits of the mods that have any, as plain values.
pub open spec fn nonempty(gs: Seq<Seq<HitView>>) -> Seq<Seq<HitView>>
    decreases gs.len(),
{
    if gs.len() == 0 {
        Seq::empty()
    } else if gs.last().len() > 0 {
        nonempty(gs.drop_last()).push(gs.last())
    } else {
        nonempty(gs.drop_last())
    }
}

/// Position `a` comes before position `b`: a smaller key, or the same key and an earlier place.
pub open spec fn key_before(keys: Seq<Seq<char>>, a: int, b: int) -> bool {
    ||| lex_lt(keys[a], keys[b])
    ||| (keys[a] == keys[b] && a < b)
}

/// `order` lists the positions of `keys`, once each, by key and, for equal keys, by position:
/// a stable sort.
pub open spec fn stable_order(keys: Seq<Seq<char>>, order: Seq<int>) -> bool {
    &&& order.len() == keys.len()
    &&& forall|k: int| 0 <= k < order.len() ==> 0 <= #[trigger] order[k] < keys.len()
    &&& forall|a: int, b: int| 0 <= a < b < order.len() ==> key_before(keys, #[trigger] order[a], #[trigger] order[b])
}

/// The hits of groups, one group after the other.
pub open spec fn flatten(gs: Seq<Seq<HitView>>) -> Seq<HitView>
    decreases gs.len(),
{
    if gs.len() == 0 {
        Seq::empty()
    } else {
        flatten(gs.drop_last()) + gs.last()
    }
}

/// The contents of groups of hits.
pub open spec fn gviews(gs: Seq<Vec<SearchHit>>) -> Seq<Seq<HitView>> {
    gs.map_values(|g: Vec<SearchHit>| hviews(g@))
}

/// A copy of a hit.
fn copy_hit(h: &SearchHit) -> (r: SearchHit)
    ensures
        r@ == h@,
{
    SearchHit {
        mod_id: h.mod_id,
        mod_name: h.mod_name.clone(),
        path: h.path.clone(),
        rel: h.rel.clone(),
        line: h.line,
        text: h.text.clone(),
    }
}

/// A copy of a group of hits.
fn copy_group(g: &Vec<SearchHit>) -> (r: Vec<SearchHit>)
    ensures
        hviews(r@) == hviews(g@),
{
    let mut r: Vec<SearchHit> = Vec::new();
    let mut j: usize = 0;
    while j < g.len()
        invariant
            0 <= j <= g@.len(),
            hviews(r@) == hviews(g@.take(j as int)),
        decreases g@.len() - j,
    {
        let ghost before = r@;
        let h = copy_hit(&g[j]);
        r.push(h);
        proof {
            assert(g@.take(j + 1) == g@.take(j as int).push(g@[j as int]));
            assert(r@ == before.push(h));
            assert(hviews(r@) == hviews(before).push(h@));
            assert(hviews(g@.take(j + 1)) == hviews(g@.take(j as int)).push(g@[j as int]@));
        }
        j += 1;
    }
    proof {
        assert(g@.take(g@.len() as int) == g@);
    }
    r
}

/// The groups that hold hits, in their order.
fn keep_nonempty(per_mod: &Vec<Vec<SearchHit>>) -> (r: Vec<Vec<SearchHit>>)
    ensures
        gviews(r@) == nonempty(gviews(per_mod@)),
{
    let mut r: Vec<Vec<SearchHit>> = Vec::new();
    let mut i: usize = 0;
    while i < per_mod.len()
        invariant
            0 <= i <= per_mod@.len(),
            gviews(r@) == nonempty(gviews(per_mod@.take(i as int))),
        decreases per_mod@.len() - i,
    {
        proof {
            assert(gviews(per_mod@.take(i + 1)).drop_last() == gviews(per_mod@.take(i as int)));
            assert(gviews(per_mod@.take(i + 1)).last() == hviews(per_mod@[i as int]@));
        }
        if per_mod[i].len() > 0 {
            let ghost before = gviews(r@);
            let c = copy_group(&per_mod[i]);
            r.push(c);
            proof {
                assert(gviews(r@) == before.push(hviews(c@)));
            }
        }
        i += 1;
    }
    proof {
        assert(per_mod@.take(per_mod@.len() as int) == per_mod@);
    }
    r
}

/// The sort keys of groups (each non-empty).
fn group_keys(gs: &Vec<Vec<SearchHit>>) -> (r: Vec<Vec<char>>)
    requires
        forall|x: int| 0 <= x < gs@.len() ==> #[trigger] gs@[x]@.len() > 0,
    ensures
        r@.len() == gs@.len(),
        forall|x: int| 0 <= x < gs@.len() ==> #[trigger] r@[x]@ == group_key(gviews(gs@)[x]),
{
    let mut r: Vec<Vec<char>> = Vec::new();
    let mut i: usize = 0;
    while i < gs.len()
        invariant
            0 <= i <= gs@.len(),
            forall|x: int| 0 <= x < gs@.len() ==> #[trigger] gs@[x]@.len() > 0,
            r@.len() == i,
            forall|x: int| 0 <= x < i ==> #[trigger] r@[x]@ == group_key(gviews(gs@)[x]),
        decreases gs@.len() - i,
    {
        let l = crate::text::to_lower(gs[i][0].mod_name.as_str());
        proof {
            assert(gviews(gs@)[i as int][0] == gs@[i as int]@[0]@);
        }
        r.push(chars_of(l.as_str()));
        i += 1;
    }
    r
}

/// Positions of `keys` in stable order (see `stable_order`).
fn stable_sort(keys: &Vec<Vec<char>>) -> (order: Vec<usize>)
    ensures
        stable_order(keys@.map_values(|k: Vec<char>| k@), crate::graph::ints(order@)),
{
    let ghost kv = keys@.map_values(|k: Vec<char>| k@);
    let mut out: Vec<usize> = Vec::new();
    let mut i: usize = 0;
    while i < keys.len()
        invariant
            0 <= i <= keys@.len(),
            kv == keys@.map_values(|k: Vec<char>| k@),
            out@.len() == i,
            forall|k: int| 0 <= k < out@.len() ==> #[trigger] out@[k] < i,
            forall|a: int, b: int| 0 <= a < b < out@.len() ==> key_before(kv, #[trigger] out@[a] as int, #[trigger] out@[b] as int),
        decreases keys@.len() - i,
    {
        let mut p: usize = 0;
        let mut go = true;
        while go && p < out.len()
            invariant
                0 <= p <= out@.len(),
                i < keys@.len(),
                kv == keys@.map_values(|k: Vec<char>| k@),
                forall|k: int| 0 <= k < out@.len() ==> #[trigger] out@[k] < i,
                forall|q: int| 0 <= q < p ==> !lex_lt(kv[i as int], kv[#[trigger] out@[q] as int]),
                !go ==> p < out@.len() && lex_lt(kv[i as int], kv[out@[p as int] as int]),
            decreases out@.len() - p, (if go { 1int } else { 0int }),
        {
            if crate::text::chars_lt(keys[i].as_slice(), keys[out[p]].as_slice()) {
                go = false;
            } else {
                p += 1;
            }
        }
        let ghost old_out = out@;
        out.insert(p, i);
        proof {
            assert forall|k: int| 0 <= k < out@.len() implies #[trigger] out@[k] < i + 1 by {
                if k < p {
                    assert(out@[k] == old_out[k]);
                } else if k > p {
                    assert(out@[k] == old_out[k - 1]);
                }
            }
            assert forall|a: int, b: int| 0 <= a < b < out@.len() implies key_before(kv, #[trigger] out@[a] as int, #[trigger] out@[b] as int) by {
                if b < p {
                    assert(out@[a] == old_out[a] && out@[b] == old_out[b]);
                } else if a > p {
                    assert(out@[a] == old_out[a - 1] && out@[b] == old_out[b - 1]);
                } else if a < p && b > p {
                    assert(out@[a] == old_out[a] && out@[b] == old_out[b - 1]);
                } else if b == p {
                    assert(out@[a] == old_out[a]);
                    assert(out@[b] == i);
                    assert(!lex_lt(kv[i as int], kv[old_out[a] as int]));
                    crate::text::lemma_lex_total(kv[i as int], kv[old_out[a] as int]);
                } else {
                    assert(a == p);
                    assert(out@[a] == i);
                    assert(out@[b] == old_out[b - 1]);
                    assert(lex_lt(kv[i as int], kv[old_out[p as int] as int]));
                    if b - 1 > p {
                        assert(key_before(kv, old_out[p as int] as int, old_out[b - 1] as int));
                        if lex_lt(kv[old_out[p as int] as int], kv[old_out[b - 1] as int]) {
                            crate::text::lemma_lex_trans(kv[i as int], kv[old_out[p as int] as int], kv[old_out[b - 1] as int]);
                        }
                    }
                }
            }
        }
        i += 1;
    }
    out
}

/// Put the mods' hits together: the mods without hits dropped, the others by the lowercased
/// name of the mod of their first hit (ties in their given order), at most `MAX_HITS` in all,
/// `truncated` also when hits were cut here.
pub fn finish(per_mod: &Vec<Vec<SearchHit>>, truncated: bool, files: usize, ms: u32) -> (r: SearchResult)
    ensures
        ({
            let g = nonempty(gviews(per_mod@));
            let keys = g.map_values(|x: Seq<HitView>| group_key(x));
            exists|order: Seq<int>| #[trigger] stable_order(keys, order) && ({
                let all = flatten(order.map_values(|k: int| g[k]));
                &&& hviews(r.hits@) == all.take(least(all.len() as int, 1000))
                &&& r.truncated == (truncated || all.len() > 1000)
            })
        }),
        r.files_searched == #[verifier::truncate] (files as u32),
        r.ms == ms,
{
    let gs = keep_nonempty(per_mod);
    let ghost g = gviews(gs@);
    proof {
        lemma_nonempty(gviews(per_mod@));
        assert forall|x: int| 0 <= x < gs@.len() implies #[trigger] gs@[x]@.len() > 0 by {
            assert(g[x].len() > 0);
            assert(g[x] == hviews(gs@[x]@));
        }
    }
    let keys = group_keys(&gs);
    let ghost kv = keys@.map_values(|k: Vec<char>| k@);
    proof {
        assert(kv =~= g.map_values(|x: Seq<HitView>| group_key(x)));
    }
    let order = stable_sort(&keys);
    let ghost ord = crate::graph::ints(order@);
    let ghost og = ord.map_values(|k: int| g[k]);
    let mut out: Vec<SearchHit> = Vec::new();
    let mut t: usize = 0;
    while t < order.len()
        invariant
            0 <= t <= order@.len(),
            g == gviews(gs@),
            ord == crate::graph::ints(order@),
            og == ord.map_values(|k: int| g[k]),
            stable_order(kv, ord),
            kv.len() == gs@.len(),
            hviews(out@) == flatten(og.take(t as int)),
        decreases order@.len() - t,
    {
        assert(ord[t as int] == order@[t as int] as int);
        let grp = &gs[order[t]];
        let mut j: usize = 0;
        let ghost base = hviews(out@);
        while j < grp.len()
            invariant
                0 <= j <= grp@.len(),
                hviews(out@) == base + hviews(grp@.take(j as int)),
            decreases grp@.len() - j,
        {
            let ghost before = out@;
            let h = copy_hit(&grp[j]);
            out.push(h);
            proof {
                assert(grp@.take(j + 1) == grp@.take(j as int).push(grp@[j as int]));
                assert(out@ == before.push(h));
                assert(hviews(out@) == hviews(before).push(h@));
                assert(hviews(grp@.take(j + 1)) == hviews(grp@.take(j as int)).push(grp@[j as int]@));
            }
            j += 1;
        }
        proof {
            assert(grp@.take(grp@.len() as int) == grp@);
            assert(og.take(t + 1).drop_last() == og.take(t as int));
            assert(og[t as int] == hviews(grp@));
        }
        t += 1;
    }
    proof {
        assert(og.take(og.len() as int) == og);
    }
    let over = out.len() > MAX_HITS;
    if over {
        out.truncate(MAX_HITS);
    }
    proof {
        assert(stable_order(kv, ord));
    }
    SearchResult { hits: out, truncated: truncated || over, files_searched: #[verifier::truncate] (files as u32), ms }
}

/// Every group that `nonempty` keeps holds hits.
proof fn lemma_nonempty(gs: Seq<Seq<HitView>>)
    ensures
        forall|x: int| 0 <= x < nonempty(gs).len() ==> #[trigger] nonempty(gs)[x].len() > 0,
    decreases gs.len(),
{
    if gs.len() > 0 {
        lemma_nonempty(gs.drop_last());
        let p = nonempty(gs.drop_last());
        if gs.last().len() > 0 {
            assert forall|x: int| 0 <= x < nonempty(gs).len() implies #[trigger] nonempty(gs)[x].len() > 0 by {
                if x < p.len() {
                    assert(nonempty(gs)[x] == p[x]);
                }
            }
        }
    }
}

/// The caps hold: a file search never takes a mod past `MAX_HITS_PER_MOD` hits, and never
/// adds more hits than it counts in `total`; a finished result holds at most `MAX_HITS`.
pub proof fn law_hit_caps(before: int, fh: int)
    requires
        0 <= before,
        0 <= fh,
    ensures
        before <= 60 ==> before + least(fh, room(before)) <= 60,
        least(fh, room(before)) <= fh,
        forall|all: Seq<HitView>| #[trigger] all.take(least(all.len() as int, 1000)).len() <= 1000,
{
}

} // verus!
