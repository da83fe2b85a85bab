//! Latest RimWorld save: which mods it was made with. The list is in the save's `<meta>`
//! header; finding and reading the file is the application's part.

use vstd::prelude::*;

use crate::startup_impact::normalized;
use crate::text::{chars_of, sv, trim};
use crate::xml::{find_seq, starts};

verus! {

broadcast use {vstd::string::group_string_axioms, vstd::seq_lib::group_seq_properties};

/// The newest save.
#[derive(Debug, Clone)]
pub struct SaveInfo {
    /// File name without extension.
    pub name: String,
    /// Save file modification time (unix seconds).
    pub modified: u32,
    /// Lowercased package ids the save was made with.
    pub package_ids: Vec<String>,
}

/// `find_seq` finds nothing or a position where `p` occurs.
pub proof fn lemma_find_seq(s: Seq<char>, from: int, p: Seq<char>)
    ensures
        find_seq(s, from, p) == -1 || (from <= find_seq(s, from, p) && find_seq(s, from, p) + p.len()
            <= s.len() && starts(s, find_seq(s, from, p), p)),
    decreases s.len() - from,
{
    if !(from < 0 || from >= s.len() || from + p.len() > s.len()) && !starts(s, from, p) {
        lemma_find_seq(s, from + 1, p);
    }
}

/// The pieces of `s` between occurrences of the non-empty `sep`.
pub open spec fn split_seq(s: Seq<char>, sep: Seq<char>) -> Seq<Seq<char>>
    decreases s.len(),
{
    let k = find_seq(s, 0, sep);
    if k < 0 || sep.len() == 0 {
        seq![s]
    } else {
        proof {
            lemma_find_seq(s, 0, sep);
        }
        seq![s.take(k)] + split_seq(s.skip(k + sep.len()), sep)
    }
}

/// The text of a list entry: up to its `</li>`, if it has one.
pub open spec fn entry_text(c: Seq<char>) -> Seq<char> {
    let k = find_seq(c, 0, "</li>"@);
    if k < 0 {
        c
    } else {
        c.take(k)
    }
}

/// The normalized, non-empty ids of the entries.
pub open spec fn entry_ids(cs: Seq<Seq<char>>) -> Seq<Seq<char>>
    decreases cs.len(),
{
    if cs.len() == 0 {
        Seq::empty()
    } else {
        let r = entry_ids(cs.drop_last());
        let p = normalized(trim(entry_text(cs.last())));
        if p.len() > 0 {
            r.push(p)
        } else {
            r
        }
    }
}

/// The mod list of a save header: the entries between the first `<modIds>` and the next
/// `</modIds>`, each up to its `</li>`, trimmed and normalized; `None` without such a list.
pub open spec fn save_ids(head: Seq<char>) -> Option<Seq<Seq<char>>> {
    let a = find_seq(head, 0, "<modIds>"@);
    if a < 0 {
        None
    } else {
        let start = a + 8;
        let b = find_seq(head, start, "</modIds>"@);
        if b < 0 {
            None
        } else {
            Some(entry_ids(split_seq(head.subrange(start, b), "<li>"@).drop_first()))
        }
    }
}

/// `find_pat` as `Option`.
fn find_in(v: &[char], from: usize, p: &[char]) -> (r: Option<usize>)
    requires
        from <= v@.len(),
        p@.len() > 0,
    ensures
        match r {
            Some(k) => k == find_seq(v@, from as int, p@) && from <= k && k + p@.len() <= v@.len() && starts(v@, k as int, p@),
            None => find_seq(v@, from as int, p@) == -1,
        },
{
    let k = crate::xml::find_pat(v, from, p);
    if k < v.len() {
        proof {
            lemma_find_seq(v@, from as int, p@);
        }
        Some(k)
    } else {
        None
    }
}

proof fn lemma_find_shift(s: Seq<char>, a: int, p: Seq<char>)
    requires
        0 <= a <= s.len(),
        p.len() > 0,
    ensures
        find_seq(s.skip(a), 0, p) == (if find_seq(s, a, p) < 0 {
            -1
        } else {
            find_seq(s, a, p) - a
        }),
{
    lemma_find_shift_from(s, a, p, 0);
}

proof fn lemma_find_shift_from(s: Seq<char>, a: int, p: Seq<char>, i: int)
    requires
        0 <= a <= s.len(),
        0 <= i,
        p.len() > 0,
    ensures
        find_seq(s.skip(a), i, p) == (if find_seq(s, a + i, p) < 0 {
            -1
        } else {
            find_seq(s, a + i, p) - a
        }),
    decreases s.len() - a - i,
{
    let t = s.skip(a);
    if !(i >= t.len() || i + p.len() > t.len()) {
        assert(t.subrange(i, i + p.len()) == s.subrange(a + i, a + i + p.len()));
        if !starts(t, i, p) {
            lemma_find_shift_from(s, a, p, i + 1);
        }
    }
}

/// The normalized ids of the `<li>` entries in `v[a..b]`.
fn ids_between(v: &[char], a: usize, b: usize) -> (r: Vec<String>)
    requires
        a <= b <= v@.len(),
    ensures
        sv(r@) == entry_ids(split_seq(v@.subrange(a as int, b as int), "<li>"@).drop_first()),
{
    let li = chars_of("<li>");
    let close = chars_of("</li>");
    proof {
        reveal_strlit("<li>");
        reveal_strlit("</li>");
    }
    let seg = crate::text::sub_chars(v, a, b);
    let ghost s = seg@;
    let n = seg.len();
    let mut out: Vec<String> = Vec::new();
    let first = match find_in(seg.as_slice(), 0, li.as_slice()) {
        Some(k) => k,
        None => {
            proof {
                assert(split_seq(s, "<li>"@) == seq![s]);
                assert(seq![s].drop_first() =~= Seq::<Seq<char>>::empty());
            }
            return out;
        },
    };
    proof {
        assert(split_seq(s, "<li>"@).drop_first() == split_seq(s.skip(first + 4), "<li>"@));
        assert(s.skip(0) == s);
    }
    let mut pos: usize = first + 4;
    let mut finished = false;
    let ghost mut done: Seq<Seq<char>> = Seq::empty();
    while !finished
        invariant
            0 <= pos <= n,
            n == seg@.len(),
            s == seg@,
            li@ == "<li>"@,
            li@.len() == 4,
            close@ == "</li>"@,
            close@.len() == 5,
            !finished ==> split_seq(s, "<li>"@).drop_first() == done + split_seq(s.skip(pos as int), "<li>"@),
            finished ==> split_seq(s, "<li>"@).drop_first() == done,
            sv(out@) == entry_ids(done),
        decreases n + 1 - pos, (if finished { 0int } else { 1int }),
    {
        let ghost rest = s.skip(pos as int);
        proof {
            reveal_strlit("<li>");
        }
        let next = find_in(seg.as_slice(), pos, li.as_slice());
        let e: usize = match next {
            Some(k) => k,
            None => n,
        };
        proof {
            lemma_find_shift(s, pos as int, "<li>"@);
        }
        let piece = crate::text::sub_chars(seg.as_slice(), pos, e);
        proof {
            assert(piece@ == rest.take(e - pos));
        }
        let c = match find_in(piece.as_slice(), 0, close.as_slice()) {
            Some(k) => crate::text::string_of_range(piece.as_slice(), 0, k),
            None => crate::text::string_of(piece.as_slice()),
        };
        proof {
            assert(piece@.subrange(0, piece@.len() as int) == piece@);
        }
        let p = crate::startup_impact::normalize(crate::text::trim_str(c.as_str()).as_str());
        let ghost before = done;
        proof {
            done = done.push(piece@);
            assert(done.drop_last() == before);
        }
        if !p.as_str().is_empty() {
            let ghost o = out@;
            out.push(p);
            proof {
                assert(sv(out@) == sv(o).push(p@));
            }
        }
        proof {
            if e < n {
                assert(split_seq(rest, "<li>"@) == seq![rest.take(e - pos)] + split_seq(rest.skip(e - pos + 4), "<li>"@));
                assert(rest.skip(e - pos + 4) == s.skip(e + 4));
            } else {
                assert(split_seq(rest, "<li>"@) == seq![rest]);
                assert(rest.take(e - pos) == rest);
            }
        }
        if e < n {
            pos = e + 4;
        } else {
            finished = true;
        }
    }
    out
}

/// `<modIds><li>…</li></modIds>` from a save header (see `save_ids`).
pub fn package_ids(head: &str) -> (r: Option<Vec<String>>)
    ensures
        match r {
            Some(v) => save_ids(head@) == Some(sv(v@)),
            None => save_ids(head@) is None,
        },
{
    let v = chars_of(head);
    let open = chars_of("<modIds>");
    let close = chars_of("</modIds>");
    proof {
        reveal_strlit("<modIds>");
        reveal_strlit("</modIds>");
    }
    let vs = v.as_slice();
    let os = open.as_slice();
    assert(os@ == open@);
    assert(vs@ == v@);
    let found = find_in(vs, 0, os);
    let a = match found {
        Some(a) => a,
        None => return None,
    };
    assert(a + os@.len() <= vs@.len());
    let n = v.len();
    assert(a + 8 <= n);
    assert(open@.len() == 8);
    assert(open@.len() == 8);
    let start = a + 8;
    let b = match find_in(v.as_slice(), start, close.as_slice()) {
        Some(b) => b,
        None => return None,
    };
    Some(ids_between(v.as_slice(), start, b))
}

} // verus!
