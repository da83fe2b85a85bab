//! Starting RimWorld: the run-arguments string and recognising the game's process.

use vstd::prelude::*;

use crate::text::{ascii_lower, chars_of, has_prefix, is_whitespace, is_ws, push_char, sv};

verus! {

broadcast use {vstd::string::group_string_axioms, vstd::seq_lib::group_seq_properties};

/// Splitter state: arguments so far, current argument, inside quotes, current argument started.
pub type SplitState = (Seq<Seq<char>>, Seq<char>, bool, bool);

/// One character: a double quote toggles quoting (and starts an argument), whitespace outside
/// quotes ends the current argument, anything else is part of it.
pub open spec fn split_step(st: SplitState, c: char) -> SplitState {
    let (out, cur, quoted, any) = st;
    if c == '"' {
        (out, cur, !quoted, true)
    } else if is_ws(c) && !quoted {
        if any {
            (out.push(cur), Seq::empty(), quoted, false)
        } else {
            st
        }
    } else {
        (out, cur.push(c), quoted, true)
    }
}

/// The splitter state after the characters `s`.
pub open spec fn split_scan(s: Seq<char>) -> SplitState
    decreases s.len(),
{
    if s.len() == 0 {
        (Seq::empty(), Seq::empty(), false, false)
    } else {
        split_step(split_scan(s.drop_last()), s.last())
    }
}

/// The arguments of a run-args string.
pub open spec fn split_list(s: Seq<char>) -> Seq<Seq<char>> {
    let st = split_scan(s);
    if st.3 {
        st.0.push(st.1)
    } else {
        st.0
    }
}

/// Split a run-args string on whitespace, honoring double quotes.
pub fn split_args(s: &str) -> (r: Vec<String>)
    ensures
        sv(r@) == split_list(s@),
{
    let v = chars_of(s);
    let mut out: Vec<String> = Vec::new();
    let mut cur = String::new();
    let mut quoted = false;
    let mut any = false;
    let mut i: usize = 0;
    while i < v.len()
        invariant
            0 <= i <= v@.len(),
            v@ == s@,
            split_scan(v@.take(i as int)) == (sv(out@), cur@, quoted, any),
        decreases v@.len() - i,
    {
        let c = v[i];
        proof {
            assert(v@.take(i + 1).drop_last() == v@.take(i as int));
            assert(v@.take(i + 1).last() == c);
        }
        if c == '"' {
            quoted = !quoted;
            any = true;
        } else if is_whitespace(c) && !quoted {
            if any {
                let ghost o0 = out@;
                let done = cur;
                cur = String::new();
                out.push(done);
                proof {
                    assert(sv(out@) == sv(o0).push(done@));
                }
                any = false;
            }
        } else {
            push_char(&mut cur, c);
            any = true;
        }
        i += 1;
    }
    proof {
        assert(v@.take(i as int) == v@);
    }
    if any {
        let ghost o0 = out@;
        let ghost c0 = cur@;
        out.push(cur);
        proof {
            assert(sv(out@) == sv(o0).push(c0));
        }
    }
    out
}

/// Executable-name prefixes of the game on each platform.
pub open spec fn game_prefixes() -> Seq<Seq<char>> {
    seq!["rimworldwin64"@, "rimworldlinux"@, "rimworldmac"@]
}

/// A process name belongs to RimWorld: lowercased, it starts with a game executable's name.
pub open spec fn game_process(name: Seq<char>) -> bool {
    exists|k: int| 0 <= k < 3 && has_prefix(name.map_values(|c: char| ascii_lower(c)), #[trigger] game_prefixes()[k])
}

/// Whether `name` is the name of a RimWorld process.
pub fn is_game_process(name: &str) -> (r: bool)
    ensures
        r == game_process(name@),
{
    let v = chars_of(name);
    let mut low: Vec<char> = Vec::new();
    let mut i: usize = 0;
    while i < v.len()
        invariant
            0 <= i <= v@.len(),
            v@ == name@,
            low@ == v@.take(i as int).map_values(|c: char| ascii_lower(c)),
        decreases v@.len() - i,
    {
        low.push(crate::text::ascii_lower_char(v[i]));
        proof {
            assert(v@.take(i + 1).map_values(|c: char| ascii_lower(c)) =~= v@.take(i as int).map_values(|c: char| ascii_lower(c)).push(ascii_lower(v@[i as int])));
        }
        i += 1;
    }
    proof {
        assert(v@.take(i as int) == v@);
    }
    let p0 = chars_of("rimworldwin64");
    let p1 = chars_of("rimworldlinux");
    let p2 = chars_of("rimworldmac");
    let r = crate::text::starts_at(low.as_slice(), 0, p0.as_slice()) || crate::text::starts_at(low.as_slice(), 0, p1.as_slice())
        || crate::text::starts_at(low.as_slice(), 0, p2.as_slice());
    proof {
        assert(low@.subrange(0, low@.len() as int) == low@);
        assert(game_prefixes()[0] == p0@ && game_prefixes()[1] == p1@ && game_prefixes()[2] == p2@);
    }
    r
}

} // verus!
