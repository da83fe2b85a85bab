//! Reading back what the writer wrote: the reader turns the text `write` makes of an element
//! into an element with the same names, the same leaf texts and the same nesting.

use vstd::prelude::*;

use crate::text::{is_ws, trim, trim_back, trim_front};
use crate::xml::{add_child, add_text, attr_list, escaped, find_char, leaf, name_end, pad, parse_run, parse_step, render, render_all, starts, unescaped, Tree};

verus! {

broadcast use vstd::seq_lib::group_seq_properties;

/// `find_char` finds the first `c` at or after `from`.
proof fn lemma_find_char_at(s: Seq<char>, from: int, c: char, e: int)
    requires
        0 <= from <= e < s.len(),
        s[e] == c,
        forall|k: int| from <= k < e ==> #[trigger] s[k] != c,
    ensures
        find_char(s, from, c) == e,
    decreases e - from,
{
    if from < e {
        lemma_find_char_at(s, from + 1, c, e);
    }
}

/// `find_char` finds nothing when `c` does not occur from `from` on.
proof fn lemma_find_char_none(s: Seq<char>, from: int, c: char)
    requires
        0 <= from,
        forall|k: int| from <= k < s.len() ==> #[trigger] s[k] != c,
    ensures
        find_char(s, from, c) == -1,
    decreases s.len() - from,
{
    if from < s.len() {
        lemma_find_char_none(s, from + 1, c);
    }
}

/// A tag name ends at the first whitespace, `/` or `>`.
proof fn lemma_name_end_at(s: Seq<char>, k: int, e: int)
    requires
        0 <= k <= e < s.len(),
        is_ws(s[e]) || s[e] == '/' || s[e] == '>',
        forall|j: int| k <= j < e ==> !is_ws(#[trigger] s[j]) && s[j] != '/' && s[j] != '>',
    ensures
        name_end(s, k) == e,
    decreases e - k,
{
    if k < e {
        lemma_name_end_at(s, k + 1, e);
    }
}

/// How `escaped` writes one character.
pub open spec fn esc1(c: char) -> Seq<char> {
    if c == '&' {
        seq!['&', 'a', 'm', 'p', ';']
    } else if c == '<' {
        seq!['&', 'l', 't', ';']
    } else if c == '>' {
        seq!['&', 'g', 't', ';']
    } else {
        seq![c]
    }
}

/// An entity `&name;` at the start decodes to `c`, whatever follows.
proof fn lemma_unescape_entity(name: Seq<char>, c: char, y: Seq<char>)
    requires
        0 < name.len() < 10,
        forall|k: int| 0 <= k < name.len() ==> #[trigger] name[k] != ';',
        crate::xml::entity_char(name) == Some(c),
    ensures
        unescaped(seq!['&'] + name + seq![';'] + y) == seq![c] + unescaped(y),
{
    let s = seq!['&'] + name + seq![';'] + y;
    let e: int = name.len() as int + 1;
    assert(s[e] == ';');
    assert forall|k: int| 0 <= k < e implies #[trigger] s[k] != ';' by {
        if k > 0 {
            assert(s[k] == name[k - 1]);
        }
    }
    lemma_find_char_at(s, 0, ';', e);
    assert(s.subrange(1, e) =~= name);
    assert(s.skip(e + 1) =~= y);
}

/// One written character decodes back to itself.
proof fn lemma_unescape_one(c: char, y: Seq<char>)
    ensures
        unescaped(esc1(c) + y) == seq![c] + unescaped(y),
{
    if c == '&' {
        lemma_unescape_entity(seq!['a', 'm', 'p'], c, y);
        assert(esc1(c) + y =~= seq!['&'] + seq!['a', 'm', 'p'] + seq![';'] + y);
    } else if c == '<' {
        lemma_unescape_entity(seq!['l', 't'], c, y);
        assert(esc1(c) + y =~= seq!['&'] + seq!['l', 't'] + seq![';'] + y);
    } else if c == '>' {
        lemma_unescape_entity(seq!['g', 't'], c, y);
        assert(esc1(c) + y =~= seq!['&'] + seq!['g', 't'] + seq![';'] + y);
    } else {
        assert((esc1(c) + y).drop_first() =~= y);
    }
}

/// Decoding what `escaped` wrote gives the text back, whatever follows.
pub proof fn lemma_unescape_escaped(x: Seq<char>, y: Seq<char>)
    ensures
        unescaped(escaped(x) + y) == x + unescaped(y),
    decreases x.len(),
{
    if x.len() > 0 {
        let c = x.last();
        assert(escaped(x) == escaped(x.drop_last()) + esc1(c));
        assert(escaped(x) + y =~= escaped(x.drop_last()) + (esc1(c) + y));
        lemma_unescape_escaped(x.drop_last(), esc1(c) + y);
        lemma_unescape_one(c, y);
        assert(x.drop_last() + (seq![c] + unescaped(y)) =~= x + unescaped(y));
    } else {
        assert(escaped(x) + y =~= y);
        assert(x + unescaped(y) =~= unescaped(y));
    }
}

/// `escaped` writes no `<`.
pub proof fn lemma_escaped_no_lt(x: Seq<char>)
    ensures
        forall|k: int| 0 <= k < escaped(x).len() ==> #[trigger] escaped(x)[k] != '<',
    decreases x.len(),
{
    if x.len() > 0 {
        lemma_escaped_no_lt(x.drop_last());
        let a = escaped(x.drop_last());
        let e = esc1(x.last());
        assert(escaped(x) == a + e);
        assert forall|k: int| 0 <= k < escaped(x).len() implies #[trigger] escaped(x)[k] != '<' by {
            if k < a.len() {
                assert(escaped(x)[k] == a[k]);
            } else {
                assert(escaped(x)[k] == e[k - a.len()]);
            }
        }
    }
}

/// `trim_front` stops at a character that is not whitespace.
proof fn lemma_trim_front(s: Seq<char>)
    ensures
        trim_front(s).len() > 0 ==> !is_ws(trim_front(s)[0]),
    decreases s.len(),
{
    if s.len() > 0 && is_ws(s[0]) {
        lemma_trim_front(s.drop_first());
    }
}

/// `trim_back` keeps a prefix and stops at a character that is not whitespace.
proof fn lemma_trim_back(s: Seq<char>)
    ensures
        trim_back(s).len() <= s.len(),
        trim_back(s) == s.take(trim_back(s).len() as int),
        trim_back(s).len() > 0 ==> !is_ws(trim_back(s).last()),
    decreases s.len(),
{
    if s.len() > 0 && is_ws(s.last()) {
        lemma_trim_back(s.drop_last());
        assert(s.drop_last().take(trim_back(s).len() as int) == s.take(trim_back(s).len() as int));
    } else {
        assert(s.take(s.len() as int) == s);
    }
}

/// Trimming twice is trimming once.
pub proof fn lemma_trim_twice(s: Seq<char>)
    ensures
        trim(trim(s)) == trim(s),
{
    let a = trim_front(s);
    let b = trim_back(a);
    lemma_trim_front(s);
    lemma_trim_back(a);
    if b.len() > 0 {
        assert(b[0] == a[0]);
        assert(trim_front(b) == b);
        assert(trim_back(b) == b);
    } else {
        assert(trim_front(b) == b);
        assert(trim_back(b) == b);
    }
}

/// One step of the reader can be taken first: the rest of the reading is the same.
proof fn lemma_run_step(s: Seq<char>, i: int, st: Seq<Tree>)
    requires
        0 <= i < s.len(),
        st.len() > 0,
        parse_step(s, i, st).0 > i,
    ensures
        parse_run(s, i, st) == parse_run(s, parse_step(s, i, st).0, parse_step(s, i, st).1),
{
}

/// A tag name the reader reads back as written: not empty, starting with a letter or `_` (and
/// not with `!` or `?`), with no whitespace, `/` or `>`.
pub open spec fn name_ok(n: Seq<char>) -> bool {
    &&& n.len() > 0
    &&& crate::xml::name_start(n[0])
    &&& n[0] != '!'
    &&& n[0] != '?'
    &&& forall|k: int| 0 <= k < n.len() ==> !is_ws(#[trigger] n[k]) && n[k] != '/' && n[k] != '>'
}

/// The characters of `s` where it holds `w` at `i`.
proof fn lemma_sub(s: Seq<char>, i: int, w: Seq<char>)
    requires
        0 <= i,
        i + w.len() <= s.len(),
        s.subrange(i, i + w.len()) == w,
    ensures
        forall|k: int| 0 <= k < w.len() ==> #[trigger] s[i + k] == w[k],
{
    assert forall|k: int| 0 <= k < w.len() implies #[trigger] s[i + k] == w[k] by {
        assert(s.subrange(i, i + w.len())[k] == s[i + k]);
    }
}

/// `<name>` at `i` opens an element.
proof fn lemma_open_tag(s: Seq<char>, i: int, st: Seq<Tree>, name: Seq<char>)
    requires
        name_ok(name),
        0 <= i,
        i + name.len() + 2 <= s.len(),
        s.subrange(i, i + name.len() + 2) == seq!['<'] + name + seq!['>'],
    ensures
        parse_step(s, i, st) == (i + name.len() + 2, st.push(leaf(name, Seq::empty()))),
{
    let ne = i + 1 + name.len();
    let w = seq!['<'] + name + seq!['>'];
    lemma_sub(s, i, w);
    assert(s[i + 0] == w[0]);
    assert(s[i + 1] == w[1]);
    assert(s[i + (w.len() - 1)] == w[w.len() - 1]);
    assert(s[ne] == '>');
    assert forall|j: int| i + 1 <= j < ne implies !is_ws(#[trigger] s[j]) && s[j] != '/' && s[j] != '>' by {
        assert(s[i + (j - i)] == w[j - i]);
        assert(w[j - i] == name[j - i - 1]);
    }
    lemma_name_end_at(s, i + 1, ne);
    assert(crate::xml::tag_end(s, ne, None) == ne);
    assert(s.subrange(i + 1, ne) =~= name) by {
        assert forall|j: int| 0 <= j < name.len() implies #[trigger] s.subrange(i + 1, ne)[j] == name[j] by {
            assert(s[i + (j + 1)] == w[j + 1]);
        }
    }
    assert(s[i + (w.len() - 2)] == w[w.len() - 2]);
    assert(s.subrange(ne, ne) =~= Seq::<char>::empty());
    assert(attr_list(Seq::<char>::empty()) == Seq::<Seq<char>>::empty());
    assert(!starts(s, i, seq!['<', '!', '-', '-']));
    assert(!starts(s, i, seq!['<', '!', '[', 'C', 'D', 'A', 'T', 'A', '[']));
    assert(!starts(s, i, seq!['<', '?']));
    assert(!starts(s, i, seq!['<', '!']));
    assert(!starts(s, i, seq!['<', '/']));
}

/// `<name/>` at `i` is an empty element.
proof fn lemma_empty_tag(s: Seq<char>, i: int, st: Seq<Tree>, name: Seq<char>)
    requires
        name_ok(name),
        0 <= i,
        i + name.len() + 3 <= s.len(),
        s.subrange(i, i + name.len() + 3) == seq!['<'] + name + seq!['/', '>'],
    ensures
        parse_step(s, i, st) == (i + name.len() + 3, add_child(st, leaf(name, Seq::empty()))),
{
    let ne = i + 1 + name.len();
    let w = seq!['<'] + name + seq!['/', '>'];
    lemma_sub(s, i, w);
    assert(s[i + 0] == w[0]);
    assert(s[i + 1] == w[1]);
    assert(s[i + (w.len() - 2)] == w[w.len() - 2]);
    assert(s[i + (w.len() - 1)] == w[w.len() - 1]);
    assert(s[ne] == '/');
    assert(s[ne + 1] == '>');
    assert forall|j: int| i + 1 <= j < ne implies !is_ws(#[trigger] s[j]) && s[j] != '/' && s[j] != '>' by {
        assert(s[i + (j - i)] == w[j - i]);
        assert(w[j - i] == name[j - i - 1]);
    }
    lemma_name_end_at(s, i + 1, ne);
    assert(crate::xml::tag_end(s, ne + 1, None) == ne + 1);
    assert(crate::xml::tag_end(s, ne, None) == ne + 1);
    assert(s.subrange(i + 1, ne) =~= name) by {
        assert forall|j: int| 0 <= j < name.len() implies #[trigger] s.subrange(i + 1, ne)[j] == name[j] by {
            assert(s[i + (j + 1)] == w[j + 1]);
        }
    }
    assert(s.subrange(ne, ne + 1) =~= seq!['/']);
    assert(crate::xml::attr_scan(seq!['/']) == crate::xml::attr_step(crate::xml::attr_scan(seq!['/'].drop_last()), '/'));
    assert(seq!['/'].drop_last() =~= Seq::<char>::empty());
    assert(attr_list(seq!['/']) == Seq::<Seq<char>>::empty());
    assert(!starts(s, i, seq!['<', '!', '-', '-']));
    assert(!starts(s, i, seq!['<', '!', '[', 'C', 'D', 'A', 'T', 'A', '[']));
    assert(!starts(s, i, seq!['<', '?']));
    assert(!starts(s, i, seq!['<', '!']));
    assert(!starts(s, i, seq!['<', '/']));
}

/// `</name>` at `i` closes the innermost open element when it carries that name.
proof fn lemma_close_tag(s: Seq<char>, i: int, st: Seq<Tree>, name: Seq<char>)
    requires
        name_ok(name),
        0 <= i,
        i + name.len() + 3 <= s.len(),
        s.subrange(i, i + name.len() + 3) == seq!['<', '/'] + name + seq!['>'],
        st.len() >= 2,
        st.last().name == name,
    ensures
        parse_step(s, i, st) == (i + name.len() + 3, add_child(st.drop_last(), st.last())),
{
    let e = i + 2 + name.len();
    let w = seq!['<', '/'] + name + seq!['>'];
    lemma_sub(s, i, w);
    assert(s[i + 0] == w[0]);
    assert(s[i + 1] == w[1]);
    assert(s[i + (w.len() - 1)] == w[w.len() - 1]);
    assert(s[e] == '>');
    assert forall|j: int| i + 2 <= j < e implies #[trigger] s[j] != '>' by {
        assert(s[i + (j - i)] == w[j - i]);
        assert(w[j - i] == name[j - i - 2]);
    }
    lemma_find_char_at(s, i + 2, '>', e);
    assert(s.subrange(i + 2, e) =~= name) by {
        assert forall|j: int| 0 <= j < name.len() implies #[trigger] s.subrange(i + 2, e)[j] == name[j] by {
            assert(s[i + (j + 2)] == w[j + 2]);
        }
    }
    assert(trim_front(name) == name);
    assert(trim_back(name) == name);
    assert(crate::xml::last_named(st, name) == st.len() - 1);
    let a = add_child(st.drop_last(), st.last());
    assert(a.len() == st.len() - 1);
    assert(crate::xml::close_to(a, st.len() - 1) == a);
    assert(crate::xml::close_to(st, st.len() - 1) == a);
    assert(trim(name) == name);
    assert(starts(s, i, seq!['<', '/'])) by {
        assert(s.subrange(i, i + 2) =~= seq!['<', '/']);
    }
    assert(!starts(s, i, seq!['<', '!', '-', '-']));
    assert(!starts(s, i, seq!['<', '!', '[', 'C', 'D', 'A', 'T', 'A', '[']));
    assert(!starts(s, i, seq!['<', '?']));
    assert(!starts(s, i, seq!['<', '!']));
}

/// Text from `i` up to the `<` at `e` is added to the innermost open element.
proof fn lemma_text(s: Seq<char>, i: int, st: Seq<Tree>, e: int)
    requires
        0 <= i < e < s.len(),
        s[e] == '<',
        forall|k: int| i <= k < e ==> #[trigger] s[k] != '<',
    ensures
        parse_step(s, i, st) == (e, add_text(st, unescaped(s.subrange(i, e)))),
{
    lemma_find_char_at(s, i, '<', e);
}

/// Every element name of the tree is one the reader reads back (see `name_ok`).
pub open spec fn writable(t: Tree) -> bool
    decreases t,
{
    name_ok(t.name) && writable_all(t.children)
}

/// `writable` for each element of a list.
pub open spec fn writable_all(cs: Seq<Tree>) -> bool
    decreases cs,
{
    if cs.len() == 0 {
        true
    } else {
        writable_all(cs.drop_last()) && writable(cs.last())
    }
}

/// Text of whitespace only.
pub open spec fn blank(t: Seq<char>) -> bool {
    forall|k: int| 0 <= k < t.len() ==> #[trigger] crate::text::is_ws(t[k])
}

/// `a`, read back, has the shape of the written `b`: the same names and nesting, no attributes,
/// a leaf's text is the written leaf's trimmed text, and an element with children has only
/// whitespace as text.
pub open spec fn same_shape(a: Tree, b: Tree) -> bool
    decreases b,
{
    &&& a.name == b.name
    &&& a.attrs.len() == 0
    &&& (b.children.len() == 0 ==> a.children.len() == 0 && a.text == trim(b.text))
    &&& (b.children.len() > 0 ==> blank(a.text))
    &&& same_all(a.children, b.children)
}

/// Reading whitespace gives it back as it is.
proof fn lemma_unescaped_blank(x: Seq<char>)
    requires
        blank(x),
    ensures
        unescaped(x) == x,
    decreases x.len(),
{
    if x.len() > 0 {
        assert(crate::text::is_ws(x[0]));
        assert(blank(x.drop_first())) by {
            assert forall|k: int| 0 <= k < x.drop_first().len() implies #[trigger] crate::text::is_ws(x.drop_first()[k]) by {
                assert(x.drop_first()[k] == x[k + 1]);
            }
        }
        lemma_unescaped_blank(x.drop_first());
        assert(seq![x[0]] + x.drop_first() =~= x);
    }
}

/// Whitespace followed by whitespace.
proof fn lemma_blank_concat(a: Seq<char>, b: Seq<char>)
    requires
        blank(a),
        blank(b),
    ensures
        blank(a + b),
{
    assert forall|k: int| 0 <= k < (a + b).len() implies #[trigger] crate::text::is_ws((a + b)[k]) by {
        if k < a.len() {
            assert((a + b)[k] == a[k]);
        } else {
            assert((a + b)[k] == b[k - a.len()]);
        }
    }
}

/// `same_shape` for each element of two lists.
pub open spec fn same_all(a: Seq<Tree>, b: Seq<Tree>) -> bool
    decreases b,
{
    &&& a.len() == b.len()
    &&& (b.len() > 0 ==> same_all(a.drop_last(), b.drop_last()) && same_shape(a.last(), b.last()))
}

/// What `render` writes of an element between its indentation and its final line feed.
pub open spec fn body(t: Tree, d: int) -> Seq<char> {
    if t.children.len() == 0 {
        let x = trim(t.text);
        if x.len() == 0 {
            seq!['<'] + t.name + seq!['/', '>']
        } else {
            seq!['<'] + t.name + seq!['>'] + escaped(x) + seq!['<', '/'] + t.name + seq!['>']
        }
    } else {
        seq!['<'] + t.name + seq!['>', '\n'] + render_all(t.children, d + 1) + pad(d) + seq!['<', '/'] + t.name + seq!['>']
    }
}

proof fn lemma_render_body(t: Tree, d: int)
    ensures
        render(t, d) == pad(d) + body(t, d) + seq!['\n'],
{
    if t.children.len() == 0 {
        if trim(t.text).len() == 0 {
            assert(render(t, d) =~= pad(d) + body(t, d) + seq!['\n']);
        } else {
            assert(render(t, d) =~= pad(d) + body(t, d) + seq!['\n']);
        }
    } else {
        assert(render(t, d) =~= pad(d) + body(t, d) + seq!['\n']);
    }
}

/// The list written up to `k` is the start of the whole list.
proof fn lemma_render_all_prefix(cs: Seq<Tree>, dd: int, k: int)
    requires
        0 <= k <= cs.len(),
    ensures
        render_all(cs, dd) == render_all(cs.take(k), dd) + render_all(cs.skip(k), dd),
    decreases cs.len(),
{
    if k == cs.len() {
        assert(cs.take(k) =~= cs);
        assert(cs.skip(k) =~= Seq::<Tree>::empty());
        assert(render_all(cs, dd) + Seq::<char>::empty() =~= render_all(cs, dd));
    } else {
        let d = cs.drop_last();
        lemma_render_all_prefix(d, dd, k);
        assert(d.take(k) =~= cs.take(k));
        assert(cs.skip(k).drop_last() =~= d.skip(k));
        assert(cs.skip(k).last() == cs.last());
        assert(render_all(cs, dd) =~= render_all(cs.take(k), dd) + render_all(cs.skip(k), dd));
    }
}

/// The list up to `k + 1` is the list up to `k` and element `k`.
proof fn lemma_render_all_step(cs: Seq<Tree>, dd: int, k: int)
    requires
        0 <= k < cs.len(),
    ensures
        render_all(cs.take(k + 1), dd) == render_all(cs.take(k), dd) + render(cs[k], dd),
{
    assert(cs.take(k + 1).drop_last() =~= cs.take(k));
    assert(cs.take(k + 1).last() == cs[k]);
}

/// `escaped` writes at least one character per character.
proof fn lemma_escaped_len(x: Seq<char>)
    ensures
        escaped(x).len() >= x.len(),
    decreases x.len(),
{
    if x.len() > 0 {
        lemma_escaped_len(x.drop_last());
        assert(escaped(x) == escaped(x.drop_last()) + esc1(x.last()));
    }
}

/// A writable list holds writable elements.
proof fn lemma_writable_at(cs: Seq<Tree>, k: int)
    requires
        writable_all(cs),
        0 <= k < cs.len(),
    ensures
        writable(cs[k]),
    decreases cs.len(),
{
    if k < cs.len() - 1 {
        lemma_writable_at(cs.drop_last(), k);
        assert(cs.drop_last()[k] == cs[k]);
    }
}

/// Shapes of lists extend one element at a time.
proof fn lemma_same_all_push(a: Seq<Tree>, b: Seq<Tree>, x: Tree, y: Tree)
    requires
        same_all(a, b),
        same_shape(x, y),
    ensures
        same_all(a.push(x), b.push(y)),
{
    assert(a.push(x).drop_last() =~= a);
    assert(b.push(y).drop_last() =~= b);
}

/// The reader's result from position `i` on, with the open elements `st`.
#[verifier::opaque]
spec fn reading(s: Seq<char>, i: int, st: Seq<Tree>) -> Seq<Tree> {
    parse_run(s, i, st)
}

proof fn lemma_r_open(s: Seq<char>, i: int, st: Seq<Tree>, name: Seq<char>)
    requires
        name_ok(name),
        0 <= i,
        i + name.len() + 2 <= s.len(),
        s.subrange(i, i + name.len() + 2) == seq!['<'] + name + seq!['>'],
        st.len() > 0,
    ensures
        reading(s, i, st) == reading(s, i + name.len() + 2, st.push(leaf(name, Seq::empty()))),
{
    reveal(reading);
    lemma_open_tag(s, i, st, name);
    lemma_run_step(s, i, st);
}

proof fn lemma_r_empty(s: Seq<char>, i: int, st: Seq<Tree>, name: Seq<char>)
    requires
        name_ok(name),
        0 <= i,
        i + name.len() + 3 <= s.len(),
        s.subrange(i, i + name.len() + 3) == seq!['<'] + name + seq!['/', '>'],
        st.len() > 0,
    ensures
        reading(s, i, st) == reading(s, i + name.len() + 3, add_child(st, leaf(name, Seq::empty()))),
{
    reveal(reading);
    lemma_empty_tag(s, i, st, name);
    lemma_run_step(s, i, st);
}

proof fn lemma_r_close(s: Seq<char>, i: int, st: Seq<Tree>, name: Seq<char>)
    requires
        name_ok(name),
        0 <= i,
        i + name.len() + 3 <= s.len(),
        s.subrange(i, i + name.len() + 3) == seq!['<', '/'] + name + seq!['>'],
        st.len() >= 2,
        st.last().name == name,
    ensures
        reading(s, i, st) == reading(s, i + name.len() + 3, add_child(st.drop_last(), st.last())),
{
    reveal(reading);
    lemma_close_tag(s, i, st, name);
    lemma_run_step(s, i, st);
}

proof fn lemma_r_text(s: Seq<char>, i: int, st: Seq<Tree>, e: int)
    requires
        0 <= i < e < s.len(),
        s[e] == '<',
        forall|k: int| i <= k < e ==> #[trigger] s[k] != '<',
        st.len() > 0,
    ensures
        reading(s, i, st) == reading(s, e, add_text(st, unescaped(s.subrange(i, e)))),
{
    reveal(reading);
    lemma_text(s, i, st, e);
    lemma_run_step(s, i, st);
}

/// `s` holds `w` at `i`, read from the characters.
proof fn lemma_holds(s: Seq<char>, i: int, w: Seq<char>, b: Seq<char>, off: int)
    requires
        0 <= i,
        0 <= off,
        off + w.len() <= b.len(),
        i + b.len() <= s.len(),
        forall|k: int| 0 <= k < b.len() ==> #[trigger] s[i + k] == b[k],
        forall|k: int| 0 <= k < w.len() ==> #[trigger] w[k] == b[off + k],
    ensures
        s.subrange(i + off, i + off + w.len()) == w,
{
    assert forall|k: int| 0 <= k < w.len() implies #[trigger] s.subrange(i + off, i + off + w.len())[k] == w[k] by {
        assert(s[i + (off + k)] == b[off + k]);
    }
    assert(s.subrange(i + off, i + off + w.len()) =~= w);
}

/// A written empty leaf `<name/>` reads back.
proof fn lemma_read_empty_leaf(s: Seq<char>, i: int, st: Seq<Tree>, t: Tree, d: int) -> (u: Tree)
    requires
        name_ok(t.name),
        t.children.len() == 0,
        trim(t.text).len() == 0,
        st.len() >= 1,
        0 <= i,
        i + body(t, d).len() < s.len(),
        s.subrange(i, i + body(t, d).len()) == body(t, d),
    ensures
        same_shape(u, t),
        reading(s, i, st) == reading(s, i + body(t, d).len(), add_child(st, u)),
{
    lemma_r_empty(s, i, st, t.name);
    let u = leaf(t.name, Seq::empty());
    assert(same_all(u.children, t.children));
    u
}

/// A written leaf `<name>text</name>` reads back with its text.
#[verifier::rlimit(40)]
proof fn lemma_read_text_leaf(s: Seq<char>, i: int, st: Seq<Tree>, t: Tree, d: int) -> (u: Tree)
    requires
        name_ok(t.name),
        t.children.len() == 0,
        trim(t.text).len() > 0,
        st.len() >= 1,
        0 <= i,
        i + body(t, d).len() < s.len(),
        s.subrange(i, i + body(t, d).len()) == body(t, d),
    ensures
        same_shape(u, t),
        reading(s, i, st) == reading(s, i + body(t, d).len(), add_child(st, u)),
{
    let n = t.name;
    let x = trim(t.text);
    let ex = escaped(x);
    let w1 = seq!['<'] + n + seq!['>'];
    let w2 = seq!['<', '/'] + n + seq!['>'];
    let b = body(t, d);
    assert(b == w1 + ex + w2);
    lemma_sub(s, i, b);
    lemma_holds(s, i, w1, b, 0);
    lemma_r_open(s, i, st, n);
    let i1 = i + w1.len();
    let e = i1 + ex.len();
    let st1 = st.push(leaf(n, Seq::empty()));
    lemma_escaped_len(x);
    lemma_escaped_no_lt(x);
    assert forall|k: int| i1 <= k < e implies #[trigger] s[k] != '<' by {
        assert(s[i + (k - i)] == b[k - i]);
        assert(b[k - i] == ex[k - i1]);
    }
    assert(s[i + (e - i)] == b[e - i]);
    lemma_r_text(s, i1, st1, e);
    lemma_holds(s, i, ex, b, w1.len() as int);
    lemma_unescape_escaped(x, Seq::empty());
    assert(ex + Seq::<char>::empty() =~= ex);
    assert(x + unescaped(Seq::<char>::empty()) =~= x);
    let l2 = Tree { text: x, ..leaf(n, Seq::empty()) };
    let st2 = add_text(st1, x);
    assert(leaf(n, Seq::empty()).text + x =~= x);
    assert(st2 =~= st.push(l2));
    lemma_holds(s, i, w2, b, (w1.len() + ex.len()) as int);
    lemma_r_close(s, e, st2, n);
    assert(st2.drop_last() =~= st);
    assert(same_all(l2.children, t.children));
    l2
}

/// The reader reads a written element at `i` (from its `<` through the `>` of its end) into an
/// element of the same shape, added to the innermost open element.
proof fn lemma_read_element(s: Seq<char>, i: int, st: Seq<Tree>, t: Tree, d: int) -> (u: Tree)
    requires
        writable(t),
        d >= 0,
        st.len() >= 1,
        0 <= i,
        i + body(t, d).len() < s.len(),
        s.subrange(i, i + body(t, d).len()) == body(t, d),
    ensures
        same_shape(u, t),
        reading(s, i, st) == reading(s, i + body(t, d).len(), add_child(st, u)),
    decreases t, 2int,
{
    if t.children.len() == 0 {
        if trim(t.text).len() == 0 {
            lemma_read_empty_leaf(s, i, st, t, d)
        } else {
            lemma_read_text_leaf(s, i, st, t, d)
        }
    } else {
        lemma_read_parent(s, i, st, t, d)
    }
}

/// A written element with children reads back.
#[verifier::rlimit(60)]
proof fn lemma_read_parent(s: Seq<char>, i: int, st: Seq<Tree>, t: Tree, d: int) -> (u: Tree)
    requires
        writable(t),
        t.children.len() > 0,
        d >= 0,
        st.len() >= 1,
        0 <= i,
        i + body(t, d).len() < s.len(),
        s.subrange(i, i + body(t, d).len()) == body(t, d),
    ensures
        same_shape(u, t),
        reading(s, i, st) == reading(s, i + body(t, d).len(), add_child(st, u)),
    decreases t, 1int,
{
    let n = t.name;
    let cs = t.children;
    let r = render_all(cs, d + 1);
    let w1 = seq!['<'] + n + seq!['>'];
    let w2 = seq!['<', '/'] + n + seq!['>'];
    let b = body(t, d);
    assert(b == w1 + seq!['\n'] + r + pad(d) + w2);
    lemma_sub(s, i, b);
    lemma_holds(s, i, w1, b, 0);
    lemma_r_open(s, i, st, n);
    let i1 = i + w1.len();
    let a = i1 + 1;
    assert(s[i + w1.len()] == b[w1.len() as int]);
    lemma_holds(s, i, r, b, (w1.len() + 1) as int);
    let top = leaf(n, Seq::empty());
    assert(blank(top.text));
    let t2 = lemma_read_children(s, a, st, top, cs, d + 1, cs.len() as int);
    assert(cs.take(cs.len() as int) =~= cs);
    let q = a + r.len() - 1;
    let c = q + 1 + 2 * d;
    lemma_render_all_prefix(cs, d + 1, cs.len() - 1);
    lemma_render_body(cs.last(), d + 1);
    assert(cs.skip(cs.len() - 1) =~= seq![cs.last()]);
    assert(render_all(seq![cs.last()], d + 1) =~= render(cs.last(), d + 1)) by {
        assert(seq![cs.last()].drop_last() =~= Seq::<Tree>::empty());
    }
    assert(r.len() >= 1);
    assert(r[r.len() - 1] == '\n');
    assert(s[i + (q - i)] == b[q - i]);
    assert(s[q] == '\n');
    assert forall|k: int| q <= k < c implies #[trigger] s[k] != '<' by {
        assert(s[i + (k - i)] == b[k - i]);
        if k > q {
            assert(b[k - i] == pad(d)[k - q - 1]);
        }
    }
    assert(s[i + (c - i)] == b[c - i]);
    let st2 = st.push(t2);
    lemma_r_text(s, q, st2, c);
    let t3 = Tree { text: t2.text + unescaped(s.subrange(q, c)), ..t2 };
    assert(blank(s.subrange(q, c))) by {
        assert forall|k: int| 0 <= k < s.subrange(q, c).len() implies #[trigger] crate::text::is_ws(s.subrange(q, c)[k]) by {
            let j = q + k;
            assert(s.subrange(q, c)[k] == s[j]);
            if j > q {
                assert(s[i + (j - i)] == b[j - i]);
                assert(b[j - i] == pad(d)[j - q - 1]);
            }
        }
    }
    lemma_unescaped_blank(s.subrange(q, c));
    lemma_blank_concat(t2.text, s.subrange(q, c));
    let st3 = add_text(st2, unescaped(s.subrange(q, c)));
    assert(st3 =~= st.push(t3));
    lemma_holds(s, i, w2, b, (w1.len() + 1 + r.len() + 2 * d) as int);
    lemma_r_close(s, c, st3, n);
    assert(st3.drop_last() =~= st);
    t3
}

/// The reader reads the first `k` elements of a written list (each after a line feed and its
/// indentation) into the innermost open element, in order and of the same shapes.
#[verifier::rlimit(60)]
proof fn lemma_read_children(s: Seq<char>, a: int, st: Seq<Tree>, top: Tree, cs: Seq<Tree>, dd: int, k: int) -> (t2: Tree)
    requires
        writable_all(cs),
        dd >= 1,
        0 <= k <= cs.len(),
        st.len() >= 1,
        1 <= a,
        s[a - 1] == '\n',
        a + render_all(cs, dd).len() <= s.len(),
        s.subrange(a, a + render_all(cs, dd).len()) == render_all(cs, dd),
        top.children.len() == 0,
        blank(top.text),
    ensures
        t2.name == top.name,
        t2.attrs == top.attrs,
        blank(t2.text),
        same_all(t2.children, cs.take(k)),
        reading(s, a - 1, st.push(top)) == reading(s, a + render_all(cs.take(k), dd).len() - 1, st.push(t2)),
    decreases cs, k,
{
    if k == 0 {
        assert(cs.take(0) =~= Seq::<Tree>::empty());
        assert(same_all(top.children, cs.take(0)));
        top
    } else {
        let t1 = lemma_read_children(s, a, st, top, cs, dd, k - 1);
        let r = render_all(cs, dd);
        let r0 = render_all(cs.take(k - 1), dd);
        let c = cs[k - 1];
        lemma_render_all_step(cs, dd, k - 1);
        lemma_render_all_prefix(cs, dd, k);
        lemma_render_body(c, dd);
        let rc = render(c, dd);
        let bc = body(c, dd);
        lemma_sub(s, a, r);
        let q = a + r0.len() - 1;
        let p = q + 1 + 2 * dd;
        assert(r == r0 + rc + render_all(cs.skip(k), dd));
        lemma_last_newline(cs, dd, k - 1);
        if r0.len() > 0 {
            assert(s[a + (r0.len() - 1)] == r[r0.len() - 1]);
        }
        assert(s[q] == '\n');
        assert forall|j: int| q <= j < p implies #[trigger] s[j] != '<' by {
            if j > q {
                assert(s[a + (j - a)] == r[j - a]);
                assert(r[j - a] == rc[j - a - r0.len()]);
                assert(rc[j - a - r0.len()] == pad(dd)[j - q - 1]);
            }
        }
        assert(s[a + (p - a)] == r[p - a]);
        assert(r[p - a] == rc[2 * dd]);
        assert(rc[2 * dd] == bc[0]);
        let st1 = st.push(t1);
        lemma_r_text(s, q, st1, p);
        let tt = Tree { text: t1.text + unescaped(s.subrange(q, p)), ..t1 };
        assert(blank(s.subrange(q, p))) by {
            assert forall|k: int| 0 <= k < s.subrange(q, p).len() implies #[trigger] crate::text::is_ws(s.subrange(q, p)[k]) by {
                let j = q + k;
                assert(s.subrange(q, p)[k] == s[j]);
                if j > q {
                    assert(s[a + (j - a)] == r[j - a]);
                    assert(r[j - a] == rc[j - a - r0.len()]);
                    assert(rc[j - a - r0.len()] == pad(dd)[j - q - 1]);
                }
            }
        }
        lemma_unescaped_blank(s.subrange(q, p));
        lemma_blank_concat(t1.text, s.subrange(q, p));
        let st2 = add_text(st1, unescaped(s.subrange(q, p)));
        assert(st2 =~= st.push(tt));
        lemma_writable_at(cs, k - 1);
        assert forall|j: int| 0 <= j < bc.len() implies #[trigger] bc[j] == r[(r0.len() + 2 * dd) + j] by {
            assert(r[r0.len() + 2 * dd + j] == rc[2 * dd + j]);
        }
        lemma_holds(s, a, bc, r, r0.len() + 2 * dd);
        let u = lemma_read_element(s, p, st2, c, dd);
        let t2 = Tree { children: tt.children.push(u), ..tt };
        assert(add_child(st2, u) =~= st.push(t2));
        assert(cs.take(k).drop_last() =~= cs.take(k - 1));
        lemma_same_all_push(t1.children, cs.take(k - 1), u, c);
        assert(cs.take(k - 1).push(c) =~= cs.take(k));
        t2
    }
}

/// Each written element ends with a line feed, so a non-empty written list does.
proof fn lemma_last_newline(cs: Seq<Tree>, dd: int, k: int)
    requires
        0 <= k <= cs.len(),
    ensures
        render_all(cs.take(k), dd).len() > 0 ==> render_all(cs.take(k), dd)[render_all(cs.take(k), dd).len() - 1] == '\n',
{
    if k > 0 {
        lemma_render_all_step(cs, dd, k - 1);
        lemma_render_body(cs[k - 1], dd);
    }
}

/// `find_seq` finds the first occurrence of `p` at or after `from`.
proof fn lemma_find_seq_at(s: Seq<char>, from: int, p: Seq<char>, e: int)
    requires
        0 <= from <= e,
        p.len() > 0,
        e + p.len() <= s.len(),
        starts(s, e, p),
        forall|k: int| from <= k < e ==> !#[trigger] starts(s, k, p),
    ensures
        crate::xml::find_seq(s, from, p) == e,
    decreases e - from,
{
    if from < e {
        lemma_find_seq_at(s, from + 1, p, e);
    }
}

/// The XML declaration: the reader skips it, up to its line feed.
proof fn lemma_r_header(s: Seq<char>, st: Seq<Tree>)
    requires
        s.len() > 39,
        s.subrange(0, 39) == crate::xml::xml_header(),
        st.len() > 0,
    ensures
        crate::xml::xml_header().len() == 39,
        reading(s, 0, st) == reading(s, 38, st),
{
    reveal(reading);
    let h = crate::xml::xml_header();
    reveal_strlit("<?xml version=\"1.0\" encoding=\"utf-8\"?>\n");
    assert(h.len() == 39);
    lemma_sub(s, 0, h);
    assert forall|k: int| 0 <= k < 39 implies #[trigger] s[k] == h[k] by {
        assert(s[0 + k] == h[k]);
    }
    let qg = seq!['?', '>'];
    assert(starts(s, 36, qg)) by {
        assert(s.subrange(36, 38) =~= qg);
    }
    assert forall|k: int| 0 <= k < 36 implies !#[trigger] starts(s, k, qg) by {
        if starts(s, k, qg) {
            assert(s.subrange(k, k + 2)[1] == s[k + 1]);
            assert(s[k + 1] == '>');
            assert(h[k + 1] == '>');
        }
    }
    lemma_find_seq_at(s, 0, qg, 36);
    assert(s[0] == '<' && s[1] == '?');
    assert(!starts(s, 0, seq!['<', '!', '-', '-']));
    assert(!starts(s, 0, seq!['<', '!', '[', 'C', 'D', 'A', 'T', 'A', '[']));
    assert(starts(s, 0, seq!['<', '?'])) by {
        assert(s.subrange(0, 2) =~= seq!['<', '?']);
    }
    lemma_run_step(s, 0, st);
}

/// Text up to the end, with no `<` left, is the reader's last step.
proof fn lemma_r_text_end(s: Seq<char>, i: int, st: Seq<Tree>)
    requires
        0 <= i < s.len(),
        forall|k: int| i <= k < s.len() ==> #[trigger] s[k] != '<',
        st.len() > 0,
    ensures
        reading(s, i, st) == add_text(st, unescaped(s.subrange(i, s.len() as int))),
{
    reveal(reading);
    lemma_find_char_none(s, i, '<');
}

/// What `write` writes of an element whose names are all `name_ok` reads back as one element of
/// the same shape: the same names and nesting, the same trimmed leaf texts, no attributes.
pub proof fn law_written_element_reads_back(t: Tree)
    requires
        writable(t),
    ensures
        ({
            let root = crate::xml::parse_tree(crate::xml::xml_header() + render(t, 0));
            root.children.len() == 1 && same_shape(root.children[0], t)
        }),
{
    let h = crate::xml::xml_header();
    let b = body(t, 0);
    lemma_render_body(t, 0);
    assert(pad(0) =~= Seq::<char>::empty());
    let s = h + render(t, 0);
    assert(s =~= h + b + seq!['\n']);
    let st0 = seq![crate::xml::root_tree()];
    reveal_strlit("<?xml version=\"1.0\" encoding=\"utf-8\"?>\n");
    assert(h.len() == 39);
    assert(h[38] == '\n');
    lemma_r_header(s, st0);
    assert(s.subrange(0, 39) =~= h);
    assert(s[38] == h[38]);
    assert(s[38] == '\n');
    assert(s[39] == b[0]);
    assert(b[0] == '<');
    lemma_r_text(s, 38, st0, 39);
    let st1 = add_text(st0, unescaped(s.subrange(38, 39)));
    assert(s.subrange(39, 39 + b.len() as int) =~= b);
    let u = lemma_read_element(s, 39, st1, t, 0);
    let st2 = add_child(st1, u);
    let n = s.len() as int;
    assert(39 + b.len() == n - 1);
    assert(s[n - 1] == '\n');
    lemma_r_text_end(s, n - 1, st2);
    let st3 = add_text(st2, unescaped(s.subrange(n - 1, n)));
    reveal(reading);
    assert(parse_run(s, 0, st0) == st3);
    assert(st3.len() == 1);
    assert(crate::xml::close_to(st3, 1) == st3);
    assert(st3[0].children =~= seq![u]);
}

/// Lists of the same shape have elements of the same shape.
pub proof fn lemma_same_all_at(a: Seq<Tree>, b: Seq<Tree>, k: int)
    requires
        same_all(a, b),
        0 <= k < b.len(),
    ensures
        a.len() == b.len(),
        same_shape(a[k], b[k]),
    decreases b.len(),
{
    if k < b.len() - 1 {
        lemma_same_all_at(a.drop_last(), b.drop_last(), k);
        assert(a.drop_last()[k] == a[k]);
        assert(b.drop_last()[k] == b[k]);
    }
}

/// Lists of the same shape find the same first element by name.
pub proof fn lemma_first_named_same(a: Seq<Tree>, b: Seq<Tree>, key: Seq<char>)
    requires
        same_all(a, b),
    ensures
        crate::xml::first_named_tree(a, key) == crate::xml::first_named_tree(b, key),
    decreases b.len(),
{
    if b.len() > 0 {
        lemma_first_named_same(a.drop_last(), b.drop_last(), key);
        assert(same_shape(a.last(), b.last()));
        assert(a.last().name == b.last().name);
    }
}

/// Lists of the same shape, of leaves, give the same `li` values.
pub proof fn lemma_li_values_same(a: Seq<Tree>, b: Seq<Tree>)
    requires
        same_all(a, b),
        forall|k: int| 0 <= k < b.len() ==> (#[trigger] b[k]).children.len() == 0,
    ensures
        crate::xml::li_values_tree(a, false) == crate::xml::li_values_tree(b, false),
    decreases b.len(),
{
    if b.len() > 0 {
        assert forall|k: int| 0 <= k < b.drop_last().len() implies (#[trigger] b.drop_last()[k]).children.len() == 0 by {
            assert(b.drop_last()[k] == b[k]);
        }
        lemma_li_values_same(a.drop_last(), b.drop_last());
        assert(b.last() == b[b.len() - 1]);
        assert(same_shape(a.last(), b.last()));
        assert(a.last().text == trim(b.last().text));
        assert(a.last().name == b.last().name);
        lemma_trim_twice(b.last().text);
    }
}

/// A list whose elements are all writable is writable.
pub proof fn lemma_writable_all_from(cs: Seq<Tree>)
    requires
        forall|k: int| 0 <= k < cs.len() ==> writable(#[trigger] cs[k]),
    ensures
        writable_all(cs),
    decreases cs.len(),
{
    if cs.len() > 0 {
        assert forall|k: int| 0 <= k < cs.drop_last().len() implies writable(#[trigger] cs.drop_last()[k]) by {
            assert(cs.drop_last()[k] == cs[k]);
        }
        lemma_writable_all_from(cs.drop_last());
        assert(cs.last() == cs[cs.len() - 1]);
    }
}

/// The elements of a writable list are writable (all of them).
pub proof fn lemma_writable_all_each(cs: Seq<Tree>)
    requires
        writable_all(cs),
    ensures
        forall|k: int| 0 <= k < cs.len() ==> writable(#[trigger] cs[k]),
{
    assert forall|k: int| 0 <= k < cs.len() implies writable(#[trigger] cs[k]) by {
        lemma_writable_at(cs, k);
    }
}


/// Every element of `t` that has a name has one the writer writes as it is (see `name_ok`).
pub open spec fn readable(t: Tree) -> bool
    decreases t,
{
    (t.name.len() > 0 ==> name_ok(t.name)) && readable_all(t.children)
}

/// `readable` for each element of a list.
pub open spec fn readable_all(cs: Seq<Tree>) -> bool
    decreases cs,
{
    if cs.len() == 0 {
        true
    } else {
        readable_all(cs.drop_last()) && readable(cs.last())
    }
}

/// Every element of `t` has a name.
pub open spec fn named(t: Tree) -> bool
    decreases t,
{
    t.name.len() > 0 && named_all(t.children)
}

/// `named` for each element of a list.
pub open spec fn named_all(cs: Seq<Tree>) -> bool
    decreases cs,
{
    if cs.len() == 0 {
        true
    } else {
        named_all(cs.drop_last()) && named(cs.last())
    }
}

pub proof fn lemma_readable_at(cs: Seq<Tree>, k: int)
    requires
        readable_all(cs),
        0 <= k < cs.len(),
    ensures
        readable(cs[k]),
    decreases cs.len(),
{
    if k < cs.len() - 1 {
        lemma_readable_at(cs.drop_last(), k);
        assert(cs.drop_last()[k] == cs[k]);
    }
}

proof fn lemma_named_at(cs: Seq<Tree>, k: int)
    requires
        named_all(cs),
        0 <= k < cs.len(),
    ensures
        named(cs[k]),
    decreases cs.len(),
{
    if k < cs.len() - 1 {
        lemma_named_at(cs.drop_last(), k);
        assert(cs.drop_last()[k] == cs[k]);
    }
}

/// An element whose elements all have names, each one the writer writes as it is, is writable.
pub proof fn lemma_readable_named_writable(t: Tree)
    requires
        readable(t),
        named(t),
    ensures
        writable(t),
    decreases t,
{
    assert forall|k: int| 0 <= k < t.children.len() implies writable(#[trigger] t.children[k]) by {
        lemma_readable_at(t.children, k);
        lemma_named_at(t.children, k);
        lemma_readable_named_writable(t.children[k]);
    }
    lemma_writable_all_from(t.children);
}

/// The open elements of the reader: the root's children, and every open element below it, are
/// `readable`.
pub open spec fn stack_readable(st: Seq<Tree>) -> bool {
    &&& st.len() >= 1
    &&& readable_all(st[0].children)
    &&& forall|i: int| 1 <= i < st.len() ==> readable(#[trigger] st[i])
}

proof fn lemma_text_readable(st: Seq<Tree>, t: Seq<char>)
    requires
        stack_readable(st),
    ensures
        stack_readable(add_text(st, t)),
{
    let r = add_text(st, t);
    let top = st.last();
    assert(readable(r.last()) == readable(top));
    assert forall|i: int| 1 <= i < r.len() implies readable(#[trigger] r[i]) by {
        if i < r.len() - 1 {
            assert(r[i] == st[i]);
        } else {
            assert(readable(st[st.len() - 1]));
        }
    }
}

proof fn lemma_child_readable(st: Seq<Tree>, c: Tree)
    requires
        stack_readable(st),
        readable(c),
    ensures
        stack_readable(add_child(st, c)),
{
    let r = add_child(st, c);
    let top = st.last();
    assert(top.children.push(c).drop_last() == top.children);
    assert(readable_all(top.children.push(c)) == (readable_all(top.children) && readable(c)));
    if st.len() > 1 {
        assert(readable(st[st.len() - 1]));
    }
    assert forall|i: int| 1 <= i < r.len() implies readable(#[trigger] r[i]) by {
        if i < r.len() - 1 {
            assert(r[i] == st[i]);
        }
    }
}

proof fn lemma_close_readable(st: Seq<Tree>, pos: int)
    requires
        stack_readable(st),
    ensures
        stack_readable(crate::xml::close_to(st, pos)),
    decreases st.len(),
{
    if !(st.len() <= pos || st.len() <= 1) {
        let d = st.drop_last();
        assert(readable(st[st.len() - 1]));
        assert(stack_readable(d)) by {
            assert forall|i: int| 1 <= i < d.len() implies readable(#[trigger] d[i]) by {
                assert(d[i] == st[i]);
            }
        }
        lemma_child_readable(d, st.last());
        lemma_close_readable(add_child(d, st.last()), pos);
    }
}

/// `name_end` stops at the first space, `/` or `>` (or the end).
proof fn lemma_name_end_props(s: Seq<char>, k: int)
    requires
        0 <= k <= s.len(),
    ensures
        k <= name_end(s, k) <= s.len(),
        forall|j: int| k <= j < name_end(s, k) ==> !is_ws(#[trigger] s[j]) && s[j] != '/' && s[j] != '>',
    decreases s.len() - k,
{
    if k < s.len() && !(is_ws(s[k]) || s[k] == '/' || s[k] == '>') {
        lemma_name_end_props(s, k + 1);
    }
}

proof fn lemma_step_readable(s: Seq<char>, i: int, st: Seq<Tree>)
    requires
        stack_readable(st),
        0 <= i < s.len(),
    ensures
        stack_readable(parse_step(s, i, st).1),
{
    let n = s.len() as int;
    if s[i] != '<' {
        let e = find_char(s, i, '<');
        let end = if e < 0 { n } else { e };
        lemma_text_readable(st, unescaped(s.subrange(i, end)));
    } else if starts(s, i, seq!['<', '!', '-', '-']) {
    } else if starts(s, i, seq!['<', '!', '[', 'C', 'D', 'A', 'T', 'A', '[']) {
        let p = crate::xml::find_seq(s, i + 9, seq![']', ']', '>']);
        let end = if p < 0 { n } else { p };
        lemma_text_readable(st, s.subrange(i + 9, end));
    } else if starts(s, i, seq!['<', '?']) {
    } else if starts(s, i, seq!['<', '!']) {
    } else if starts(s, i, seq!['<', '/']) {
        let p = find_char(s, i + 2, '>');
        let end = if p < 0 { n } else { p };
        let pos = crate::xml::last_named(st, trim(s.subrange(i + 2, end)));
        if pos > 0 {
            lemma_close_readable(st, pos);
        }
    } else if i + 1 < n && crate::xml::name_start(s[i + 1]) {
        let ne = name_end(s, i + 1);
        lemma_name_end_props(s, i + 1);
        let j = crate::xml::tag_end(s, ne, None);
        let name = s.subrange(i + 1, ne);
        let node = leaf(name, attr_list(s.subrange(ne, j)));
        if name.len() > 0 {
            assert(name[0] == s[i + 1]);
            if s[i + 1] == '!' {
                assert(s.subrange(i, i + 2) =~= seq!['<', '!']);
            }
            if s[i + 1] == '?' {
                assert(s.subrange(i, i + 2) =~= seq!['<', '?']);
            }
            assert forall|k: int| 0 <= k < name.len() implies !is_ws(#[trigger] name[k]) && name[k] != '/' && name[k] != '>' by {
                assert(name[k] == s[i + 1 + k]);
            }
        }
        assert(readable_all(node.children));
        assert(readable(node));
        if j < n && s[j - 1] == '/' {
            lemma_child_readable(st, node);
        } else {
            assert forall|x: int| 1 <= x < st.push(node).len() implies readable(#[trigger] st.push(node)[x]) by {
                if x < st.len() {
                    assert(st.push(node)[x] == st[x]);
                }
            }
        }
    } else {
        lemma_text_readable(st, seq!['<']);
    }
}

proof fn lemma_run_readable(s: Seq<char>, i: int, st: Seq<Tree>)
    requires
        stack_readable(st),
    ensures
        stack_readable(parse_run(s, i, st)),
    decreases s.len() - i,
{
    if !(i < 0 || i >= s.len() || st.len() == 0) {
        let r = parse_step(s, i, st);
        lemma_step_readable(s, i, st);
        if !(r.0 <= i || r.0 >= s.len()) {
            lemma_run_readable(s, r.0, r.1);
        }
    }
}

/// Every element the reader reads that has a name has one the writer writes as it is.
pub proof fn lemma_parse_readable(src: Seq<char>)
    ensures
        readable_all(crate::xml::parse_tree(src).children),
{
    let st0 = seq![crate::xml::root_tree()];
    assert(readable_all(st0[0].children));
    lemma_run_readable(src, 0, st0);
    lemma_close_readable(parse_run(src, 0, st0), 1);
}

} // verus!
