//! GitHub mod sources: which URLs may reach `git`.

use vstd::prelude::*;

use crate::error::Error;
use crate::text::{chars_of, has_prefix, has_suffix, sv, trim};
use crate::xml::find_char;

verus! {

broadcast use {vstd::string::group_string_axioms, vstd::seq_lib::group_seq_properties};

/// `s` without trailing `/`s.
pub open spec fn trim_slashes(s: Seq<char>) -> Seq<char>
    decreases s.len(),
{
    if s.len() > 0 && s.last() == '/' {
        trim_slashes(s.drop_last())
    } else {
        s
    }
}

/// The part of `s` from `a` up to the next `/` (or the end).
pub open spec fn segment(s: Seq<char>, a: int) -> Seq<char> {
    let e = find_char(s, a, '/');
    if e < 0 {
        s.subrange(a, s.len() as int)
    } else {
        s.subrange(a, e)
    }
}

/// A safe owner or repository name: non-empty, ASCII letters, digits, `-`, `_`, `.` only, not
/// starting with `.`.
pub open spec fn safe_name(s: Seq<char>) -> bool {
    &&& s.len() > 0
    &&& forall|i: int| 0 <= i < s.len() ==> #[trigger] name_char(s[i])
    &&& s[0] != '.'
}

/// An ASCII letter or digit, `-`, `_` or `.`.
pub open spec fn name_char(c: char) -> bool {
    ('a' <= c && c <= 'z') || ('A' <= c && c <= 'Z') || ('0' <= c && c <= '9') || c == '-' || c == '_' || c == '.'
}

/// `<owner>/<repo>[.git]` (no trailing `/`) -> (owner, repo), when nothing follows the repository
/// segment and both names are safe.
pub open spec fn repo_parts_of(r: Seq<char>) -> Option<(Seq<char>, Seq<char>)> {
    let d1 = find_char(r, 0, '/');
    if d1 < 0 {
        None
    } else {
        let owner = r.take(d1);
        let repo0 = segment(r, d1 + 1);
        let d2 = find_char(r, d1 + 1, '/');
        let repo = if has_suffix(repo0, ".git"@) { repo0.take(repo0.len() - 4) } else { repo0 };
        if d2 < 0 && safe_name(owner) && safe_name(repo) {
            Some((owner, repo))
        } else {
            None
        }
    }
}

/// `https://github.com/<owner>/<repo>[.git][/]` -> (owner, repo); anything else (other hosts,
/// deeper paths, odd names) gives `None`.
pub open spec fn github_repo(url: Seq<char>) -> Option<(Seq<char>, Seq<char>)> {
    let t = trim(url);
    let p = "https://github.com/"@;
    if !has_prefix(t, p) {
        None
    } else {
        repo_parts_of(trim_slashes(t.skip(p.len() as int)))
    }
}

/// `find_char` through the text helper.
fn find_from(v: &[char], from: usize, c: char) -> (r: usize)
    requires
        from <= v@.len(),
    ensures
        from <= r <= v@.len(),
        find_char(v@, from as int, c) == if r < v@.len() { r as int } else { -1 },
{
    let r = crate::text::find_char_from(v, from, c);
    proof {
        crate::xml::lemma_find_char_pub(v@, from as int, c, r as int);
    }
    r
}

/// Whether every character is allowed and the name is non-empty and not dot-led.
fn is_safe_name(s: &[char]) -> (b: bool)
    ensures
        b == safe_name(s@),
{
    if s.len() == 0 || s[0] == '.' {
        return false;
    }
    let mut i: usize = 0;
    while i < s.len()
        invariant
            0 <= i <= s@.len(),
            forall|k: int| 0 <= k < i ==> #[trigger] name_char(s@[k]),
        decreases s@.len() - i,
    {
        let c = s[i];
        if !(('a' <= c && c <= 'z') || ('A' <= c && c <= 'Z') || ('0' <= c && c <= '9') || c == '-' || c == '_' || c == '.') {
            assert(!name_char(s@[i as int]));
            return false;
        }
        i += 1;
    }
    true
}

/// `repo_parts_of` on characters.
fn repo_parts(r: &[char]) -> (o: Option<(Vec<char>, Vec<char>)>)
    ensures
        match repo_parts_of(r@) {
            Some(x) => o matches Some(y) && y.0@ == x.0 && y.1@ == x.1,
            None => o is None,
        },
{
    let d1 = find_from(r, 0, '/');
    if d1 == r.len() {
        return None;
    }
    let owner = crate::text::sub_chars(r, 0, d1);
    let d2 = find_from(r, d1 + 1, '/');
    let repo0 = crate::text::sub_chars(r, d1 + 1, d2);
    let gitx = chars_of(".git");
    let n0 = repo0.len();
    let strip = n0 >= 4 && crate::text::starts_at(repo0.as_slice(), n0 - 4, gitx.as_slice());
    proof {
        if n0 >= 4 {
            assert(repo0@.subrange(n0 - 4, n0 as int) == repo0@.subrange(n0 - 4, repo0@.len() as int));
        }
        reveal_strlit(".git");
    }
    let repo = if strip {
        crate::text::sub_chars(repo0.as_slice(), 0, n0 - 4)
    } else {
        crate::text::sub_chars(repo0.as_slice(), 0, n0)
    };
    proof {
        assert(repo0@.subrange(0, n0 as int) == repo0@);
        assert(r@.take(d1 as int) == owner@);
    }
    let rest_ok = d2 == r.len();
    if rest_ok && is_safe_name(owner.as_slice()) && is_safe_name(repo.as_slice()) {
        Some((owner, repo))
    } else {
        None
    }
}

/// `https://github.com/<owner>/<repo>[.git][/]` -> (owner, repo). Anything else is rejected, so
/// arbitrary URLs / `--upload-pack`-style options can never reach git.
pub fn parse_github_url(url: &str) -> (r: Option<(String, String)>)
    ensures
        match github_repo(url@) {
            Some(x) => r matches Some(y) && y.0@ == x.0 && y.1@ == x.1,
            None => r is None,
        },
{
    let t = crate::text::trim_str(url);
    let v = chars_of(t.as_str());
    let p = chars_of("https://github.com/");
    proof {
        assert(v@.subrange(0, v@.len() as int) == v@);
    }
    if !crate::text::starts_at(v.as_slice(), 0, p.as_slice()) {
        return None;
    }
    let mut e = v.len();
    proof {
        assert(v@.subrange(p@.len() as int, e as int) == v@.skip(p@.len() as int));
    }
    while e > p.len() && v[e - 1] == '/'
        invariant
            p@.len() <= e <= v@.len(),
            trim_slashes(v@.skip(p@.len() as int)) == trim_slashes(v@.subrange(p@.len() as int, e as int)),
        decreases e,
    {
        proof {
            assert(v@.subrange(p@.len() as int, e as int).drop_last() == v@.subrange(p@.len() as int, e - 1));
        }
        e -= 1;
    }
    let r = crate::text::sub_chars(v.as_slice(), p.len(), e);
    proof {
        assert(trim_slashes(r@) == r@);
    }
    match repo_parts(r.as_slice()) {
        Some((o, n)) => Some((crate::text::string_of(o.as_slice()), crate::text::string_of(n.as_slice()))),
        None => None,
    }
}


/// Before updating a git mod: it must be a repository root, and `git status --porcelain` must
/// report nothing (so a pull loses no local change).
pub fn check_update(is_repo_root: bool, status: &str) -> (r: Result<(), Error>)
    ensures
        r is Ok <==> is_repo_root && trim(status@).len() == 0,
        !is_repo_root ==> (r matches Err(Error::Other(m)) && m@ == "Not a git repository"@),
        is_repo_root && trim(status@).len() > 0 ==> (r matches Err(Error::Other(m))
            && m@ == "The mod has local changes; commit or discard them first"@),
{
    if !is_repo_root {
        return Err(Error::Other(String::from_str("Not a git repository")));
    }
    let t = crate::text::trim_str(status);
    if chars_of(t.as_str()).len() > 0 {
        return Err(Error::Other(String::from_str("The mod has local changes; commit or discard them first")));
    }
    Ok(())
}

/// What to clone for a GitHub URL: the repository's folder name and the URL handed to git
/// (`https://github.com/<owner>/<repo>.git`); any other URL is refused.
pub fn clone_source(url: &str) -> (r: Result<(String, String), Error>)
    ensures
        match github_repo(url@) {
            Some(x) => r matches Ok(y) && y.0@ == x.1 && y.1@ == "https://github.com/"@ + x.0 + "/"@ + x.1 + ".git"@,
            None => r matches Err(Error::Other(m)) && m@ == "Not a GitHub repository URL: "@ + url@,
        },
{
    match parse_github_url(url) {
        Some((owner, repo)) => {
            let mut u = String::from_str("https://github.com/");
            u.append(owner.as_str());
            u.append("/");
            u.append(repo.as_str());
            u.append(".git");
            Ok((repo, u))
        },
        None => {
            let mut m = String::from_str("Not a GitHub repository URL: ");
            m.append(url);
            Err(Error::Other(m))
        },
    }
}

/// The words of a git command, separated by spaces.
pub open spec fn joined_words(a: Seq<Seq<char>>) -> Seq<char>
    decreases a.len(),
{
    if a.len() == 0 {
        Seq::empty()
    } else if a.len() == 1 {
        a[0]
    } else {
        joined_words(a.drop_last()) + " "@ + a.last()
    }
}

/// How a git command ended: its output (standard output, then errors, trimmed) on success,
/// else an error naming the command with that output.
pub fn git_outcome(success: bool, args: &Vec<String>, stdout: &str, stderr: &str) -> (r: Result<String, Error>)
    ensures
        success ==> (r matches Ok(t) && t@ == trim(stdout@ + stderr@)),
        !success ==> (r matches Err(Error::Other(m)) && m@ == "git "@ + joined_words(sv(args@)) + ": "@ + trim(stdout@ + stderr@)),
{
    let mut all = String::from_str(stdout);
    all.append(stderr);
    let text = crate::text::trim_str(all.as_str());
    if success {
        return Ok(text);
    }
    let mut m = String::from_str("git ");
    let mut i: usize = 0;
    while i < args.len()
        invariant
            0 <= i <= args@.len(),
            m@ == "git "@ + joined_words(sv(args@).take(i as int)),
        decreases args@.len() - i,
    {
        proof {
            assert(sv(args@).take(i + 1).drop_last() == sv(args@).take(i as int));
            assert(sv(args@).take(i + 1).last() == args@[i as int]@);
        }
        if i > 0 {
            m.append(" ");
        }
        m.append(args[i].as_str());
        proof {
            if i == 0 {
                assert(sv(args@).take(1)[0] == args@[0]@);
            }
        }
        i += 1;
    }
    proof {
        assert(sv(args@).take(args@.len() as int) == sv(args@));
    }
    m.append(": ");
    m.append(text.as_str());
    Err(Error::Other(m))
}
} // verus!
